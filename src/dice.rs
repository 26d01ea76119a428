//! Dice arithmetic: how many rolls a word needs, and how a roll set becomes
//! a dictionary index.
use vstd::prelude::*;

verus! {

/// Number of faces of a die.
pub const DICE_SIDES: usize = 6;

/// Number of words in the dictionary.
pub const DICT_SIZE: usize = 1626;

/// Number of rolls consumed for one word.
pub const NUM_ROLLS: usize = 4;

/// Width of the random offset range: `DICT_SIZE - DICE_SIDES^NUM_ROLLS`.
pub const OFFSET_RANGE: usize = 330;

/// `base` raised to `exp`.
pub open spec fn power(base: nat, exp: nat) -> nat
    decreases exp,
{
    if exp == 0 {
        1
    } else {
        base * power(base, (exp - 1) as nat)
    }
}

/// How many times `d` can be divided by `s` before the quotient reaches zero,
/// not counting the division that reaches it.
pub open spec fn min_rolls_spec(d: nat, s: nat) -> nat
    decreases d,
    via min_rolls_decreases
{
    if s < 2 || d / s == 0 {
        0
    } else {
        1 + min_rolls_spec(d / s, s)
    }
}

#[via_fn]
proof fn min_rolls_decreases(d: nat, s: nat) {
    if !(s < 2 || d / s == 0) {
        vstd::arithmetic::div_mod::lemma_div_decreases(d as int, s as int);
    }
}

proof fn lemma_min_rolls_bounds(d: nat, s: nat)
    requires
        s >= 2,
        d >= 1,
    ensures
        power(s, min_rolls_spec(d, s)) <= d,
        d < power(s, min_rolls_spec(d, s) + 1),
    decreases d,
{
    let r = min_rolls_spec(d, s);
    if d / s == 0 {
        vstd::arithmetic::div_mod::lemma_fundamental_div_mod(d as int, s as int);
        vstd::arithmetic::div_mod::lemma_mod_pos_bound(d as int, s as int);
        assert(d < s);
        assert(power(s, 0) == 1);
        assert(power(s, 1) == s * power(s, 0));
    } else {
        lemma_min_rolls_bounds(d / s, s);
        let q = d / s;
        let r1 = min_rolls_spec(q, s);
        assert(r == r1 + 1);
        assert(power(s, r) == s * power(s, r1));
        assert(power(s, r + 1) == s * power(s, r1 + 1));
        assert(q * s <= d < q * s + s) by (nonlinear_arith)
            requires
                q == d / s,
                s >= 2,
        ;
        assert(s * power(s, r1) <= s * q) by (nonlinear_arith)
            requires
                power(s, r1) <= q,
                s >= 2,
        ;
        assert(s * q + s <= s * power(s, r1 + 1)) by (nonlinear_arith)
            requires
                q < power(s, r1 + 1),
                s >= 2,
        ;
    }
}

/// The smallest `r` such that dividing `d` by `s` `r + 1` times gives zero:
/// the largest `r` with `s^r <= d`.
pub fn min_rolls(d: usize, s: usize) -> (r: usize)
    requires
        s >= 2,
    ensures
        r == min_rolls_spec(d as nat, s as nat),
        d >= 1 ==> power(s as nat, r as nat) <= d,
        d >= 1 ==> d < power(s as nat, r as nat + 1),
{
    let mut rem: usize = d;
    let mut r: usize = 0;
    loop
        invariant
            s >= 2,
            rem <= d,
            r + min_rolls_spec(rem as nat, s as nat) == min_rolls_spec(d as nat, s as nat),
            r <= d - rem,
        ensures
            r == min_rolls_spec(d as nat, s as nat),
        decreases rem,
    {
        assert(min_rolls_spec(rem as nat, s as nat) == if rem / s == 0 {
            0
        } else {
            1 + min_rolls_spec((rem / s) as nat, s as nat)
        });
        proof {
            if rem > 0 {
                vstd::arithmetic::div_mod::lemma_div_decreases(rem as int, s as int);
            }
        }
        rem = rem / s;
        if rem == 0 {
            break;
        }
        r = r + 1;
    }
    proof {
        if d >= 1 {
            lemma_min_rolls_bounds(d as nat, s as nat);
        }
    }
    r
}

proof fn lemma_power_monotonic(s: nat, i: nat, j: nat)
    requires
        s >= 1,
        i <= j,
    ensures
        power(s, i) <= power(s, j),
    decreases j,
{
    if i < j {
        lemma_power_monotonic(s, i, (j - 1) as nat);
        assert(power(s, (j - 1) as nat) <= s * power(s, (j - 1) as nat)) by (nonlinear_arith)
            requires
                s >= 1,
        ;
    }
}

/// The share of the dictionary, in whole percent, that `min_rolls(d, s)`
/// rolls of an `s`-sided die can address: `100 * s^r / d`.
pub fn entropy_percent(d: usize, s: usize) -> (p: usize)
    requires
        s >= 2,
        1 <= d <= usize::MAX / 100,
    ensures
        p == 100 * power(s as nat, min_rolls_spec(d as nat, s as nat)) / (d as nat),
        p <= 100,
{
    let r = min_rolls(d, s);
    let mut acc: usize = 1;
    let mut i: usize = 0;
    while i < r
        invariant
            s >= 2,
            i <= r,
            acc == power(s as nat, i as nat),
            power(s as nat, r as nat) <= d,
        decreases r - i,
    {
        proof {
            lemma_power_monotonic(s as nat, (i + 1) as nat, r as nat);
            assert(power(s as nat, (i + 1) as nat) == s * power(s as nat, i as nat));
            assert(acc * s == s * acc) by (nonlinear_arith);
        }
        acc = acc * s;
        i = i + 1;
    }
    assert(100 * acc <= 100 * d);
    let p = 100 * acc / d;
    assert(p <= 100) by (nonlinear_arith)
        requires
            p == (100 * acc as int) / d as int,
            acc <= d,
            d >= 1,
    ;
    p
}

/// Why the rolls of one word slot were turned down.
#[derive(Debug, Clone, Copy, PartialEq, Eq, Structural)]
pub enum SlotError {
    /// The line held nothing.
    EmptyInput,
    /// The line held a character that is not a decimal digit.
    NotADigit,
    /// A consumed roll lies outside `1..=DICE_SIDES`; the roll is carried.
    InvalidRoll(usize),
    /// Fewer than `NUM_ROLLS` rolls were given.
    TooFewRolls,
    /// The dice value plus the random offset lies past the dictionary.
    OutOfRange,
}

/// A single die face in `1..=DICE_SIDES`.
pub open spec fn valid_roll(v: usize) -> bool {
    1 <= v <= DICE_SIDES
}

/// Weight of the roll at position `k`: `DICT_SIZE / DICE_SIDES^(k + 1)`.
pub open spec fn scale(k: nat) -> nat {
    DICT_SIZE as nat / power(DICE_SIDES as nat, k + 1)
}

/// The outcome of encoding `rolls` from position `k` on: either the sum of
/// `(roll - 1) * scale(i)` over positions `k..NUM_ROLLS`, or the first fault met.
pub open spec fn encode_from(rolls: Seq<usize>, k: nat) -> Result<int, SlotError>
    decreases NUM_ROLLS - k,
{
    if k >= NUM_ROLLS {
        Ok(0)
    } else if k >= rolls.len() {
        Err(SlotError::TooFewRolls)
    } else if !valid_roll(rolls[k as int]) {
        Err(SlotError::InvalidRoll(rolls[k as int]))
    } else {
        match encode_from(rolls, k + 1) {
            Ok(v) => Ok((rolls[k as int] - 1) * scale(k) + v),
            Err(e) => Err(e),
        }
    }
}

/// The dictionary index that the dice alone give, or why there is none.
pub open spec fn dice_outcome(rolls: Seq<usize>) -> Result<usize, SlotError> {
    match encode_from(rolls, 0) {
        Ok(v) => Ok(v as usize),
        Err(e) => Err(e),
    }
}

/// The dictionary index once `offset` is added to the dice value, or why
/// there is none.
pub open spec fn offset_outcome(rolls: Seq<usize>, offset: nat) -> Result<usize, SlotError> {
    match dice_outcome(rolls) {
        Ok(v) => if v + offset < DICT_SIZE {
            Ok((v + offset) as usize)
        } else {
            Err(SlotError::OutOfRange)
        },
        Err(e) => Err(e),
    }
}

/// The sum of `(roll - 1) * scale(i)` over the first `k` rolls.
pub open spec fn partial_value(rolls: Seq<usize>, k: nat) -> int
    decreases k,
{
    if k == 0 {
        0
    } else {
        partial_value(rolls, (k - 1) as nat) + (rolls[k - 1] - 1) * scale((k - 1) as nat)
    }
}

proof fn lemma_scales()
    ensures
        power(DICE_SIDES as nat, 1) == 6,
        power(DICE_SIDES as nat, 5) == 7776,
        scale(0) == 271,
        scale(1) == 45,
        scale(2) == 7,
        scale(3) == 1,
        scale(4) == 0,
{
    assert(power(6, 1) == 6 * power(6, 0));
    assert(power(6, 2) == 6 * power(6, 1));
    assert(power(6, 3) == 6 * power(6, 2));
    assert(power(6, 4) == 6 * power(6, 3));
    assert(power(6, 5) == 6 * power(6, 4));
    assert(scale(0) == 1626nat / 6nat);
    assert(scale(1) == 1626nat / 36nat);
    assert(1626nat / 6nat == 271) by (nonlinear_arith);
    assert(1626nat / 36nat == 45) by (nonlinear_arith);
    assert(scale(2) == 1626nat / 216nat);
    assert(scale(3) == 1626nat / 1296nat);
    assert(scale(4) == 1626nat / 7776nat);
    assert(1626nat / 216nat == 7) by (nonlinear_arith);
    assert(1626nat / 1296nat == 1) by (nonlinear_arith);
    assert(1626nat / 7776nat == 0) by (nonlinear_arith);
}

proof fn lemma_encode_split(rolls: Seq<usize>, k: nat)
    requires
        k <= NUM_ROLLS,
        k <= rolls.len(),
        forall|i: int| 0 <= i < k ==> valid_roll(#[trigger] rolls[i]),
    ensures
        encode_from(rolls, 0) == match encode_from(rolls, k) {
            Ok(v) => Ok(partial_value(rolls, k) + v),
            Err(e) => Err(e),
        },
    decreases k,
{
    if k > 0 {
        lemma_encode_split(rolls, (k - 1) as nat);
    }
}

proof fn lemma_partial_bound(rolls: Seq<usize>, k: nat)
    requires
        k <= NUM_ROLLS,
        k <= rolls.len(),
        forall|i: int| 0 <= i < k ==> valid_roll(#[trigger] rolls[i]),
    ensures
        0 <= partial_value(rolls, k),
        k == 0 ==> partial_value(rolls, k) <= 0,
        k == 1 ==> partial_value(rolls, k) <= 1355,
        k == 2 ==> partial_value(rolls, k) <= 1580,
        k == 3 ==> partial_value(rolls, k) <= 1615,
        k == 4 ==> partial_value(rolls, k) <= 1620,
    decreases k,
{
    lemma_scales();
    if k > 0 {
        lemma_partial_bound(rolls, (k - 1) as nat);
        assert(valid_roll(rolls[k - 1]));
    }
}

/// Encodes the first `NUM_ROLLS` rolls of a slot as mixed-radix digits into a
/// dictionary index. Rolls past those are ignored.
pub fn dice_index(rolls: &Vec<usize>) -> (r: Result<usize, SlotError>)
    ensures
        r == dice_outcome(rolls@),
        r matches Ok(v) ==> v < DICT_SIZE,
{
    let mut num: usize = 0;
    let mut count: usize = 0;
    let mut divisor: usize = DICE_SIDES;
    proof {
        lemma_scales();
    }
    while count < rolls.len()
        invariant
            count <= NUM_ROLLS,
            count <= rolls.len(),
            divisor == power(DICE_SIDES as nat, count as nat + 1),
            forall|i: int| 0 <= i < count ==> valid_roll(#[trigger] rolls@[i]),
            num == partial_value(rolls@, count as nat),
            num <= 1355 * count,
        ensures
            count <= NUM_ROLLS,
            count <= rolls.len(),
            forall|i: int| 0 <= i < count ==> valid_roll(#[trigger] rolls@[i]),
            num == partial_value(rolls@, count as nat),
            count == NUM_ROLLS || count == rolls.len(),
        decreases rolls.len() - count,
    {
        proof {
            lemma_scales();
            assert(count == 0 || count == 1 || count == 2 || count == 3 || count == 4);
        }
        let scale_factor = DICT_SIZE / divisor;
        if scale_factor == 0 {
            break;
        }
        let roll = rolls[count];
        if roll < 1 || roll > DICE_SIDES {
            proof {
                lemma_encode_split(rolls@, count as nat);
            }
            return Err(SlotError::InvalidRoll(roll));
        }
        assert((roll - 1) * scale_factor <= 1355) by (nonlinear_arith)
            requires
                1 <= roll <= 6,
                scale_factor <= 271,
        ;
        num = num + (roll - 1) * scale_factor;
        count = count + 1;
        divisor = divisor * DICE_SIDES;
    }
    proof {
        lemma_encode_split(rolls@, count as nat);
    }
    if count < NUM_ROLLS {
        return Err(SlotError::TooFewRolls);
    }
    proof {
        lemma_partial_bound(rolls@, count as nat);
    }
    Ok(num)
}

/// Encodes the dice of a slot and adds a random `offset` drawn from
/// `0..OFFSET_RANGE`, so that the index can reach the whole dictionary. A sum
/// past the dictionary is turned down.
pub fn index_with_offset(rolls: &Vec<usize>, offset: usize) -> (r: Result<usize, SlotError>)
    requires
        offset < OFFSET_RANGE,
    ensures
        r == offset_outcome(rolls@, offset as nat),
        r matches Ok(v) ==> v < DICT_SIZE,
{
    match dice_index(rolls) {
        Ok(v) => {
            if v + offset < DICT_SIZE {
                Ok(v + offset)
            } else {
                Err(SlotError::OutOfRange)
            }
        },
        Err(e) => Err(e),
    }
}

/// A decimal digit character.
pub open spec fn is_digit(c: char) -> bool {
    '0' <= c <= '9'
}

/// The value of a decimal digit character.
pub open spec fn digit_value(c: char) -> usize {
    (c as u32 - '0' as u32) as usize
}

/// The rolls that a line of input stands for: one roll per digit.
pub open spec fn parse_outcome(line: Seq<char>) -> Result<Seq<usize>, SlotError> {
    if line.len() == 0 {
        Err(SlotError::EmptyInput)
    } else if forall|i: int| 0 <= i < line.len() ==> is_digit(#[trigger] line[i]) {
        Ok(line.map_values(|c: char| digit_value(c)))
    } else {
        Err(SlotError::NotADigit)
    }
}

/// Reads a line of dice rolls written as digits without separators.
pub fn parse_rolls(input: &str) -> (r: Result<Vec<usize>, SlotError>)
    ensures
        match r {
            Ok(v) => parse_outcome(input@) == Ok::<Seq<usize>, SlotError>(v@),
            Err(e) => parse_outcome(input@) == Err::<Seq<usize>, SlotError>(e),
        },
{
    if input.is_empty() {
        return Err(SlotError::EmptyInput);
    }
    if !input.is_ascii() {
        proof {
            let i = choose|i: int| 0 <= i < input@.len() && !('\0' <= #[trigger] input@[i] <= '\u{7f}');
            assert(!is_digit(input@[i]));
        }
        return Err(SlotError::NotADigit);
    }
    let bytes = input.as_bytes();
    proof {
        vstd::string::is_ascii_spec_bytes(input);
    }
    let mut rolls: Vec<usize> = Vec::new();
    let mut i: usize = 0;
    while i < bytes.len()
        invariant
            bytes@ =~= Seq::new(input@.len(), |j: int| input@[j] as u8),
            vstd::string::is_ascii(input),
            i <= bytes@.len(),
            rolls@.len() == i,
            forall|j: int| 0 <= j < i ==> is_digit(#[trigger] input@[j]),
            forall|j: int| 0 <= j < i ==> #[trigger] rolls@[j] == digit_value(input@[j]),
        decreases bytes@.len() - i,
    {
        let b = bytes[i];
        proof {
            assert('\0' <= input@[i as int] <= '\u{7f}');
        }
        if b < 48 || b > 57 {
            assert(!is_digit(input@[i as int]));
            return Err(SlotError::NotADigit);
        }
        rolls.push((b - 48) as usize);
        i = i + 1;
    }
    assert(rolls@ =~= input@.map_values(|c: char| digit_value(c)));
    Ok(rolls)
}

/// Every roll set whose first `NUM_ROLLS` rolls are die faces encodes, by the
/// dice alone, to an index inside the dictionary.
pub proof fn lemma_dice_index_in_range(rolls: Seq<usize>)
    requires
        rolls.len() >= NUM_ROLLS,
        forall|i: int| 0 <= i < NUM_ROLLS ==> valid_roll(#[trigger] rolls[i]),
    ensures
        dice_outcome(rolls) matches Ok(v) && v < DICT_SIZE,
{
    lemma_encode_split(rolls, NUM_ROLLS as nat);
    lemma_partial_bound(rolls, NUM_ROLLS as nat);
}

/// For a valid roll set and any offset in `0..OFFSET_RANGE`, every index that
/// the offset encoding gives lies inside the dictionary, and one is given
/// exactly when the dice value plus the offset stays below `DICT_SIZE`.
pub proof fn lemma_offset_index_in_range(rolls: Seq<usize>, offset: nat)
    requires
        rolls.len() >= NUM_ROLLS,
        forall|i: int| 0 <= i < NUM_ROLLS ==> valid_roll(#[trigger] rolls[i]),
        offset < OFFSET_RANGE,
    ensures
        offset_outcome(rolls, offset) matches Ok(i) ==> i < DICT_SIZE,
        dice_outcome(rolls) matches Ok(v) && (offset_outcome(rolls, offset) is Ok <==> v + offset
            < DICT_SIZE),
{
    lemma_dice_index_in_range(rolls);
}

} // verus!
