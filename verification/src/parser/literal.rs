//! Reading a run of non-delimiter characters (an atom) as a number or a
//! symbol.
use std::sync::Arc;
use vstd::prelude::*;

use super::token::{Lexeme, Token, Type};
use crate::float::{nearest_binary64, nearest_binary64_bits};

verus! {

/// A decimal digit.
pub open spec fn is_digit(c: char) -> bool {
    '0' <= c && c <= '9'
}

/// A non-empty run of decimal digits.
pub open spec fn is_digits(t: Seq<char>) -> bool {
    t.len() > 0 && forall|i: int| 0 <= i < t.len() ==> is_digit(#[trigger] t[i])
}

/// The number a decimal digit stands for.
pub open spec fn digit_value(c: char) -> nat {
    ((c as nat) - ('0' as nat)) as nat
}

/// The number a run of decimal digits stands for.
pub open spec fn digits_value(t: Seq<char>) -> nat
    decreases t.len(),
{
    if t.len() == 0 {
        0
    } else {
        10 * digits_value(t.drop_last()) + digit_value(t.last())
    }
}

/// `10` to the power `k`.
pub open spec fn pow10(k: nat) -> nat
    decreases k,
{
    if k == 0 {
        1
    } else {
        10 * pow10((k - 1) as nat)
    }
}

/// The atom starts with a minus sign.
pub open spec fn is_negative(atom: Seq<char>) -> bool {
    atom.len() > 0 && atom[0] == '-'
}

/// The atom without its minus sign, if it has one.
pub open spec fn unsigned_part(atom: Seq<char>) -> Seq<char> {
    if is_negative(atom) {
        atom.drop_first()
    } else {
        atom
    }
}

/// The atom starts like a number: a digit, possibly after a minus sign.
pub open spec fn looks_numeric(atom: Seq<char>) -> bool {
    unsigned_part(atom).len() > 0 && is_digit(unsigned_part(atom)[0])
}

/// An integer literal: digits, possibly after a minus sign.
pub open spec fn is_integer_literal(atom: Seq<char>) -> bool {
    is_digits(unsigned_part(atom))
}

/// The value of an integer literal.
pub open spec fn integer_literal_value(atom: Seq<char>) -> int {
    if is_negative(atom) {
        -digits_value(unsigned_part(atom))
    } else {
        digits_value(unsigned_part(atom)) as int
    }
}

/// The number of digits in front of the atom's decimal point.
pub open spec fn leading_digits(u: Seq<char>) -> nat
    decreases u.len(),
{
    if u.len() > 0 && is_digit(u[0]) {
        1 + leading_digits(u.drop_first())
    } else {
        0
    }
}

/// A decimal float literal: digits, a point and digits, possibly after a
/// minus sign.
pub open spec fn is_float_literal(atom: Seq<char>) -> bool {
    let u = unsigned_part(atom);
    let p = leading_digits(u) as int;
    &&& p > 0
    &&& p < u.len()
    &&& u[p] == '.'
    &&& is_digits(u.skip(p + 1))
}

/// The digits of a float literal without its point: its value is this
/// number divided by `10` to the number of digits after the point.
pub open spec fn float_digits(atom: Seq<char>) -> Seq<char> {
    let u = unsigned_part(atom);
    let p = leading_digits(u) as int;
    u.take(p) + u.skip(p + 1)
}

/// The number of digits after the point of a float literal.
pub open spec fn fraction_len(atom: Seq<char>) -> nat {
    let u = unsigned_part(atom);
    (u.len() - leading_digits(u) - 1) as nat
}

/// The bit pattern of the binary64 number nearest to a float literal, when
/// its digits without the point stand for a number below `2^64` and it has
/// at most 19 digits after the point; a negative literal has the sign bit set.
pub open spec fn float_literal_bits(atom: Seq<char>) -> Option<u64> {
    let n = digits_value(float_digits(atom));
    let k = fraction_len(atom);
    if n <= u64::MAX && k <= 19 {
        let magnitude: nat = if n == 0 {
            0
        } else {
            nearest_binary64(n, pow10(k))
        };
        let sign: nat = if is_negative(atom) {
            0x8000_0000_0000_0000
        } else {
            0
        };
        Some((sign + magnitude) as u64)
    } else {
        None
    }
}

/// The message for an integer literal outside the range of `i64`.
pub open spec fn integer_range_message() -> Seq<char> {
    "integer out of range"@
}

/// The message for a float literal with too many digits.
pub open spec fn float_range_message() -> Seq<char> {
    "float out of range"@
}

/// The message for an atom that starts like a number but is none.
pub open spec fn malformed_number_message() -> Seq<char> {
    "malformed number"@
}

/// The token an atom is read as: an integer or float literal as its number
/// (or as an error when out of range), another atom starting like a number
/// as an error, and any other atom as a symbol carrying `comment`.
pub open spec fn classify(atom: Seq<char>, comment: Option<Seq<char>>) -> Lexeme {
    if is_integer_literal(atom) {
        let v = integer_literal_value(atom);
        if i64::MIN <= v <= i64::MAX {
            Lexeme::Integer(v as i64)
        } else {
            Lexeme::NonScanable(integer_range_message())
        }
    } else if is_float_literal(atom) {
        match float_literal_bits(atom) {
            Some(b) => Lexeme::Float(b),
            None => Lexeme::NonScanable(float_range_message()),
        }
    } else if looks_numeric(atom) {
        Lexeme::NonScanable(malformed_number_message())
    } else {
        Lexeme::Symbol(atom, comment)
    }
}

/// Digits followed by something that does not start with a digit: the
/// leading digits are exactly those.
proof fn lemma_leading_digits(d: Seq<char>, r: Seq<char>)
    requires
        forall|i: int| 0 <= i < d.len() ==> is_digit(#[trigger] d[i]),
        r.len() == 0 || !is_digit(r[0]),
    ensures
        leading_digits(d + r) == d.len(),
    decreases d.len(),
{
    if d.len() > 0 {
        assert((d + r).drop_first() =~= d.drop_first() + r);
        assert(is_digit(d[0]));
        lemma_leading_digits(d.drop_first(), r);
    } else {
        assert(d + r =~= r);
    }
}

/// A decimal float literal `whole.frac` (optionally after `-`) reads as the
/// binary64 number nearest to `whole frac / 10^|frac|` (sign bit set for
/// `-`), however many digits stand before the point, when the digits fit a
/// `u64` and at most 19 stand after the point; otherwise it is out of range.
pub proof fn lemma_float_literal(
    whole: Seq<char>,
    frac: Seq<char>,
    negative: bool,
    comment: Option<Seq<char>>,
)
    requires
        is_digits(whole),
        is_digits(frac),
    ensures
        ({
            let unsigned = whole + seq!['.'] + frac;
            let atom = if negative {
                seq!['-'] + unsigned
            } else {
                unsigned
            };
            let n = digits_value(whole + frac);
            let magnitude: nat = if n == 0 {
                0
            } else {
                nearest_binary64(n, pow10(frac.len()))
            };
            let sign: nat = if negative {
                0x8000_0000_0000_0000
            } else {
                0
            };
            &&& n <= u64::MAX && frac.len() <= 19 ==> classify(atom, comment) == Lexeme::Float(
                (sign + magnitude) as u64,
            )
            &&& !(n <= u64::MAX && frac.len() <= 19) ==> classify(atom, comment)
                == Lexeme::NonScanable(float_range_message())
        }),
{
    let unsigned = whole + seq!['.'] + frac;
    let atom = if negative {
        seq!['-'] + unsigned
    } else {
        unsigned
    };
    assert(is_digit(whole[0]));
    assert(unsigned[0] == whole[0]);
    if negative {
        assert(atom.drop_first() =~= unsigned);
    }
    assert(unsigned_part(atom) == unsigned);
    let r = seq!['.'] + frac;
    assert(unsigned =~= whole + r);
    lemma_leading_digits(whole, r);
    let p = whole.len() as int;
    assert(unsigned[p] == '.');
    assert(!is_digits(unsigned)) by {
        assert(!is_digit(unsigned[p]));
    }
    assert(unsigned.skip(p + 1) =~= frac);
    assert(unsigned.take(p) =~= whole);
    assert(float_digits(atom) =~= whole + frac);
    assert(fraction_len(atom) == frac.len());
}

/// A prefix of a run of digits stands for at most the number of the run.
proof fn lemma_digits_value_prefix(t: Seq<char>, j: int)
    requires
        0 <= j <= t.len(),
    ensures
        digits_value(t.take(j)) <= digits_value(t),
    decreases t.len(),
{
    if j < t.len() {
        assert(t.drop_last().take(j) =~= t.take(j));
        lemma_digits_value_prefix(t.drop_last(), j);
    } else {
        assert(t.take(j) =~= t);
    }
}

/// Extending a run of digits by one digit.
proof fn lemma_digits_value_step(t: Seq<char>, j: int)
    requires
        0 <= j < t.len(),
    ensures
        digits_value(t.take(j + 1)) == 10 * digits_value(t.take(j)) + digit_value(t[j]),
{
    assert(t.take(j + 1).drop_last() =~= t.take(j));
}

/// The characters `from .. to` of `chars`, as a text.
/// Trusted: collects the chars of the slice into a `String` (std's
/// `FromIterator<&char> for String`), which holds exactly those chars.
#[verifier::external_body]
pub fn text_of(chars: &Vec<char>, from: usize, to: usize) -> (res: String)
    requires
        from <= to <= chars@.len(),
    ensures
        res@ == chars@.subrange(from as int, to as int),
{
    chars[from..to].iter().collect()
}

/// The number the digits `from .. to` of `chars` stand for, or `None` when
/// it exceeds `u64::MAX`.
fn digits_number(chars: &Vec<char>, from: usize, to: usize) -> (res: Option<u64>)
    requires
        from <= to <= chars@.len(),
        forall|i: int| from <= i < to ==> is_digit(#[trigger] chars@[i]),
    ensures
        res matches Some(v) ==> v == digits_value(chars@.subrange(from as int, to as int)),
        res is None ==> digits_value(chars@.subrange(from as int, to as int)) > u64::MAX,
{
    let ghost t = chars@.subrange(from as int, to as int);
    let mut value: u64 = 0;
    let mut j: usize = from;
    assert(t.take(0) =~= Seq::<char>::empty());
    while j < to
        invariant
            from <= j <= to <= chars@.len(),
            t == chars@.subrange(from as int, to as int),
            forall|i: int| from <= i < to ==> is_digit(#[trigger] chars@[i]),
            value == digits_value(t.take(j - from)),
        decreases to - j,
    {
        proof {
            lemma_digits_value_step(t, j - from);
            assert(t[j - from] == chars@[j as int]);
            assert(is_digit(chars@[j as int]));
        }
        let d = (chars[j] as u32 - '0' as u32) as u64;
        let shifted = value.checked_mul(10);
        match shifted {
            None => {
                proof {
                    lemma_digits_value_prefix(t, j - from + 1);
                }
                return None;
            },
            Some(m) => match m.checked_add(d) {
                None => {
                    proof {
                        lemma_digits_value_prefix(t, j - from + 1);
                    }
                    return None;
                },
                Some(v) => {
                    value = v;
                },
            },
        }
        j = j + 1;
    }
    assert(t.take(to - from) =~= t);
    Some(value)
}

/// `10` to the power `k`, for `k <= 19`.
fn power_of_ten(k: usize) -> (res: u64)
    requires
        k <= 19,
    ensures
        res == pow10(k as nat),
        res > 0,
{
    let mut res: u64 = 1;
    let mut i: usize = 0;
    while i < k
        invariant
            i <= k <= 19,
            res == pow10(i as nat),
            res <= 10_000_000_000_000_000_000u64,
        decreases k - i,
    {
        proof {
            lemma_pow10_bound(i as nat);
        }
        res = res * 10;
        i = i + 1;
    }
    proof {
        lemma_pow10_bound(k as nat);
    }
    res
}

/// Powers of ten grow with the exponent.
proof fn lemma_pow10_monotone(a: nat, b: nat)
    requires
        a <= b,
    ensures
        1 <= pow10(a) <= pow10(b),
    decreases b,
{
    if a < b {
        lemma_pow10_monotone(a, (b - 1) as nat);
    } else if a > 0 {
        lemma_pow10_monotone((a - 1) as nat, (a - 1) as nat);
    }
}

/// `10^k >= 1`, `10^k <= 10^19` for `k <= 19` and `10^k <= 10^18` for `k < 19`.
proof fn lemma_pow10_bound(k: nat)
    ensures
        pow10(k) >= 1,
        k <= 19 ==> pow10(k) <= 10_000_000_000_000_000_000,
        k < 19 ==> pow10(k) <= 1_000_000_000_000_000_000,
{
    reveal_with_fuel(pow10, 20);
    assert(pow10(18) == 1_000_000_000_000_000_000);
    assert(pow10(19) == 10_000_000_000_000_000_000);
    if k <= 18 {
        lemma_pow10_monotone(k, 18);
    } else if k == 19 {
    } else {
        lemma_pow10_monotone(0, k);
    }
}

/// How many of the characters `start .. to` of `chars` are leading digits.
fn count_leading_digits(chars: &Vec<char>, start: usize, to: usize) -> (end: usize)
    requires
        start <= to <= chars@.len(),
    ensures
        start <= end <= to,
        end - start == leading_digits(chars@.subrange(start as int, to as int)),
        forall|i: int| start <= i < end ==> is_digit(#[trigger] chars@[i]),
        end < to ==> !is_digit(chars@[end as int]),
{
    let ghost u = chars@.subrange(start as int, to as int);
    let mut end = start;
    assert(u.skip(0) =~= u);
    while end < to && is_digit_char(chars[end])
        invariant
            start <= end <= to <= chars@.len(),
            u == chars@.subrange(start as int, to as int),
            leading_digits(u) == (end - start) + leading_digits(u.skip(end - start)),
            forall|i: int| start <= i < end ==> is_digit(#[trigger] chars@[i]),
        decreases to - end,
    {
        assert(u.skip(end - start).drop_first() =~= u.skip(end - start + 1));
        end = end + 1;
    }
    if end == to {
        assert(u.skip(end - start).len() == 0);
    }
    end
}

/// The character is a decimal digit.
pub fn is_digit_char(c: char) -> (res: bool)
    ensures
        res == is_digit(c),
{
    '0' <= c && c <= '9'
}

/// All characters `from .. to` of `chars` are digits.
fn all_digits(chars: &Vec<char>, from: usize, to: usize) -> (res: bool)
    requires
        from <= to <= chars@.len(),
    ensures
        res == forall|i: int| from <= i < to ==> is_digit(#[trigger] chars@[i]),
{
    let mut j = from;
    while j < to
        invariant
            from <= j <= to <= chars@.len(),
            forall|i: int| from <= i < j ==> is_digit(#[trigger] chars@[i]),
        decreases to - j,
    {
        if !is_digit_char(chars[j]) {
            return false;
        }
        j = j + 1;
    }
    true
}

/// The number the digits of a float literal stand for, its point left out,
/// or `None` when it exceeds `u64::MAX`. The literal's unsigned part is
/// `start .. to`, its point at `point`.
fn float_number(chars: &Vec<char>, start: usize, point: usize, to: usize) -> (res: Option<u64>)
    requires
        start < point < to <= chars@.len(),
        forall|i: int| start <= i < point ==> is_digit(#[trigger] chars@[i]),
        forall|i: int| point < i < to ==> is_digit(#[trigger] chars@[i]),
    ensures
        ({
            let u = chars@.subrange(start as int, to as int);
            let p = point - start;
            let w = u.take(p) + u.skip(p + 1);
            &&& res matches Some(v) ==> v == digits_value(w)
            &&& res is None ==> digits_value(w) > u64::MAX
        }),
{
    let ghost u = chars@.subrange(start as int, to as int);
    let ghost p = point - start;
    let ghost w = u.take(p) + u.skip(p + 1);
    let n = to - start - 1;
    let mut value: u64 = 0;
    let mut i: usize = 0;
    assert(w.take(0) =~= Seq::<char>::empty());
    while i < n
        invariant
            start < point < to <= chars@.len(),
            n == to - start - 1,
            u == chars@.subrange(start as int, to as int),
            p == point - start,
            w == u.take(p) + u.skip(p + 1),
            w.len() == n,
            forall|k: int| start <= k < point ==> is_digit(#[trigger] chars@[k]),
            forall|k: int| point < k < to ==> is_digit(#[trigger] chars@[k]),
            i <= n,
            value == digits_value(w.take(i as int)),
        decreases n - i,
    {
        let c = if start + i < point {
            chars[start + i]
        } else {
            chars[start + i + 1]
        };
        proof {
            lemma_digits_value_step(w, i as int);
            if start + i < point {
                assert(w[i as int] == chars@[start + i]);
            } else {
                assert(w[i as int] == chars@[start + i + 1]);
            }
            assert(is_digit(c));
        }
        let d = (c as u32 - '0' as u32) as u64;
        match value.checked_mul(10) {
            None => {
                proof {
                    lemma_digits_value_prefix(w, i + 1);
                }
                return None;
            },
            Some(m) => match m.checked_add(d) {
                None => {
                    proof {
                        lemma_digits_value_prefix(w, i + 1);
                    }
                    return None;
                },
                Some(v) => {
                    value = v;
                },
            },
        }
        i = i + 1;
    }
    assert(w.take(n as int) =~= w);
    Some(value)
}

/// A token with the given message saying why the text could not be scanned.
pub fn non_scanable(message: &str) -> (res: Token)
    ensures
        res@ == Lexeme::NonScanable(message@),
{
    Token { t_type: Type::NonScanable { message: Arc::new(String::from_str(message)) } }
}

/// The token the atom `from .. to` of `chars` is read as (see `classify`).
pub fn classify_atom(chars: &Vec<char>, from: usize, to: usize, comment: Option<Arc<String>>) -> (res: Token)
    requires
        from < to <= chars@.len(),
    ensures
        res@ == classify(chars@.subrange(from as int, to as int), super::token::opt_text(comment)),
{
    let ghost atom = chars@.subrange(from as int, to as int);
    let negative = chars[from] == '-';
    let start = if negative { from + 1 } else { from };
    let ghost u = unsigned_part(atom);
    assert(u =~= chars@.subrange(start as int, to as int));
    let lead = count_leading_digits(chars, start, to);
    if lead == to && lead > start {
        // An integer literal.
        assert(is_digits(u));
        let magnitude = digits_number(chars, start, to);
        match magnitude {
            None => {
                return non_scanable("integer out of range");
            },
            Some(m) => {
                if negative {
                    if m <= 0x8000_0000_0000_0000u64 {
                        let v: i64 = (-(m as i128)) as i64;
                        return Token { t_type: Type::Integer { value: v } };
                    } else {
                        return non_scanable("integer out of range");
                    }
                } else {
                    if m <= 0x7fff_ffff_ffff_ffffu64 {
                        return Token { t_type: Type::Integer { value: m as i64 } };
                    } else {
                        return non_scanable("integer out of range");
                    }
                }
            },
        }
    }
    proof {
        if is_digits(u) {
            assert(lead - start == leading_digits(u));
            assert(forall|i: int| 0 <= i < u.len() ==> is_digit(#[trigger] u[i]));
            if lead < to {
                assert(u[lead - start] == chars@[lead as int]);
            }
        }
        assert(!is_integer_literal(atom));
    }
    if lead > start && lead < to && chars[lead] == '.' && lead + 1 < to && all_digits(chars, lead + 1, to) {
        // A float literal.
        proof {
            assert(u[lead - start] == chars@[lead as int]);
            assert(u.skip(lead - start + 1) =~= chars@.subrange(lead + 1, to as int));
            assert(is_float_literal(atom));
        }
        let k = to - lead - 1;
        let number = float_number(chars, start, lead, to);
        match number {
            None => {
                return non_scanable("float out of range");
            },
            Some(n) => {
                if k > 19 {
                    return non_scanable("float out of range");
                }
                let magnitude: u64 = if n == 0 {
                    0
                } else {
                    let den = power_of_ten(k);
                    nearest_binary64_bits(n, den)
                };
                let bits: u64 = if negative {
                    magnitude + 0x8000_0000_0000_0000u64
                } else {
                    magnitude
                };
                return Token { t_type: Type::Float { value: bits } };
            },
        }
    }
    proof {
        if is_float_literal(atom) {
            let p = leading_digits(u) as int;
            assert(u[p] == chars@[lead as int]);
            assert(u.skip(p + 1) =~= chars@.subrange(lead + 1, to as int));
            assert(forall|i: int| lead + 1 <= i < to ==> is_digit(#[trigger] chars@[i])) by {
                assert forall|i: int| lead + 1 <= i < to implies is_digit(#[trigger] chars@[i]) by {
                    assert(chars@[i] == u.skip(p + 1)[i - lead - 1]);
                }
            }
        }
        assert(!is_float_literal(atom));
    }
    if lead > start {
        proof {
            assert(u[0] == chars@[start as int]);
        }
        return non_scanable("malformed number");
    }
    proof {
        if u.len() > 0 {
            assert(u[0] == chars@[start as int]);
        }
    }
    let name = text_of(chars, from, to);
    Token { t_type: Type::Symbol { value: Arc::new(name), comment: comment } }
}

} // verus!
