//! Reading a distance from the text of a record's last field.

use vstd::prelude::*;

verus! {

broadcast use vstd::string::group_string_axioms;

/// The greatest distance that a field can give.
pub const MAX_DISTANCE: u32 = 2147483647;

/// What a decimal digit counts for.
pub open spec fn digit_value(c: char) -> Option<nat> {
    if '0' <= c <= '9' {
        Some((c as u32 - '0' as u32) as nat)
    } else {
        None
    }
}

/// The number that a run of decimal digits writes, most significant digit
/// first; the empty run writes zero. None where a character is no digit.
pub open spec fn digits_value(s: Seq<char>) -> Option<nat>
    decreases s.len(),
{
    if s.len() == 0 {
        Some(0)
    } else {
        match (digits_value(s.drop_last()), digit_value(s.last())) {
            (Some(high), Some(low)) => Some(10 * high + low),
            _ => None,
        }
    }
}

/// Whether the text begins with a sign.
pub open spec fn has_sign(s: Seq<char>) -> bool {
    s.len() > 0 && (s[0] == '-' || s[0] == '+')
}

/// The text behind the sign, or all of it where it has none.
pub open spec fn unsigned_part(s: Seq<char>) -> Seq<char> {
    if has_sign(s) {
        s.skip(1)
    } else {
        s
    }
}

/// The distance that a field states.
///
/// A field states a distance when it is written as an optional `+` or `-`
/// and then one or more decimal digits, nothing else, and the number written
/// is at least zero and at most [`MAX_DISTANCE`]. So `-0` states zero, while
/// `-7`, `1.5`, ` 3`, the empty text and a number beyond the limit state none.
pub open spec fn distance_of(s: Seq<char>) -> Option<u32> {
    let digits = unsigned_part(s);
    if digits.len() == 0 {
        None
    } else {
        match digits_value(digits) {
            None => None,
            Some(v) => if v > MAX_DISTANCE || (s[0] == '-' && v != 0) {
                None
            } else {
                Some(v as u32)
            },
        }
    }
}

/// A longer run of digits writes no smaller a number, and a run with a
/// character that is no digit writes none however it goes on.
pub proof fn lemma_digits_prefix(s: Seq<char>, k: int)
    requires
        0 <= k <= s.len(),
    ensures
        digits_value(s.take(k)) is None ==> digits_value(s) is None,
        digits_value(s) matches Some(v) ==> digits_value(s.take(k))->0 <= v,
    decreases s.len() - k,
{
    if k == s.len() {
        assert(s.take(k) =~= s);
    } else {
        lemma_digits_prefix(s, k + 1);
        assert(s.take(k + 1).drop_last() =~= s.take(k));
    }
}

/// How many digits were read once `index` characters were, the first `off` of
/// them being the sign.
pub open spec fn digits_read(index: int, off: int) -> int {
    if index >= off {
        index - off
    } else {
        0
    }
}

/// Reads the distance that `field` states, if it states one.
pub fn parse_distance(field: &str) -> (d: Option<u32>)
    ensures
        d == distance_of(field@),
{
    let ghost s = field@;
    let ghost digits = unsigned_part(s);
    let ghost off: int = if has_sign(s) { 1 } else { 0 };
    let mut first = true;
    let mut negative = false;
    let mut count: usize = 0;
    let mut value: u32 = 0;
    assert(digits.take(0) =~= Seq::<char>::empty());
    for c in it: field.chars()
        invariant
            it.seq() == s,
            s == field@,
            digits == unsigned_part(s),
            first ==> !negative,
            off == if has_sign(s) { 1int } else { 0int },
            first <==> it.index() == 0,
            !first ==> negative == (s[0] == '-'),
            !first ==> it.index() >= off,
            count > 0 <==> it.index() > off,
            digits_value(digits.take(digits_read(it.index(), off))) == Some(value as nat),
            value <= MAX_DISTANCE,
    {
        let ghost k = digits_read(it.index(), off);
        assert(c == s[it.index()]);
        if first && (c == '-' || c == '+') {
            negative = c == '-';
        } else {
            assert(c == digits[k]);
            assert(digits.take(k + 1).drop_last() =~= digits.take(k));
            assert(digits.take(k + 1).last() == c);
            if c < '0' || c > '9' {
                proof {
                    assert(digits_value(digits.take(k + 1)) is None);
                    lemma_digits_prefix(digits, k + 1);
                }
                return None;
            }
            let low: u32 = c as u32 - '0' as u32;
            assert(digits_value(digits.take(k + 1)) == Some(10 * (value as nat) + (low as nat)));
            if value > (MAX_DISTANCE - low) / 10 {
                proof {
                    lemma_digits_prefix(digits, k + 1);
                }
                return None;
            }
            value = value * 10 + low;
            count = 1;
        }
        first = false;
    }
    proof {
        assert(digits.take(digits.len() as int) =~= digits);
    }
    if count == 0 || (negative && value != 0) {
        None
    } else {
        Some(value)
    }
}

} // verus!
