//! Decimal numbers as written in the configuration file.
//!
//! The accepted syntax is the one of std's `FromStr` for integers: an
//! optional sign, then one or more ASCII digits, with nothing around them,
//! and a value that fits the target type.
use vstd::prelude::*;

verus! {

pub open spec fn is_digit(c: char) -> bool {
    '0' <= c && c <= '9'
}

pub open spec fn digit_value(c: char) -> int {
    (c as int) - ('0' as int)
}

pub open spec fn all_digits(s: Seq<char>) -> bool {
    forall|i: int| 0 <= i < s.len() ==> is_digit(#[trigger] s[i])
}

/// The number that a run of decimal digits denotes.
pub open spec fn digits_value(s: Seq<char>) -> int
    decreases s.len(),
{
    if s.len() == 0 {
        0
    } else {
        digits_value(s.drop_last()) * 10 + digit_value(s.last())
    }
}

/// The digits that follow an optional leading sign; `allow_minus` says
/// whether `-` counts as a sign.
pub open spec fn unsigned_part(s: Seq<char>, allow_minus: bool) -> Seq<char> {
    if s.len() > 0 && (s[0] == '+' || (allow_minus && s[0] == '-')) {
        s.drop_first()
    } else {
        s
    }
}

/// The value of `s` read as a signed decimal number, if it is one.
pub open spec fn signed_decimal(s: Seq<char>) -> Option<int> {
    let digits = unsigned_part(s, true);
    if digits.len() > 0 && all_digits(digits) {
        if s[0] == '-' {
            Some(-digits_value(digits))
        } else {
            Some(digits_value(digits))
        }
    } else {
        None
    }
}

/// What `s.parse::<u8>()` gives.
pub open spec fn spec_parse_u8(s: Seq<char>) -> Option<u8> {
    let digits = unsigned_part(s, false);
    if digits.len() > 0 && all_digits(digits) && digits_value(digits) <= 255 {
        Some(digits_value(digits) as u8)
    } else {
        None
    }
}

/// What `s.parse::<i32>()` gives.
pub open spec fn spec_parse_i32(s: Seq<char>) -> Option<i32> {
    match signed_decimal(s) {
        Some(v) => if i32::MIN <= v && v <= i32::MAX {
            Some(v as i32)
        } else {
            None
        },
        None => None,
    }
}

pub proof fn lemma_digits_value_nonneg(s: Seq<char>)
    requires
        all_digits(s),
    ensures
        digits_value(s) >= 0,
    decreases s.len(),
{
    if s.len() > 0 {
        assert(all_digits(s.drop_last()));
        lemma_digits_value_nonneg(s.drop_last());
        assert(is_digit(s[s.len() - 1]));
    }
}

/// A prefix of a run of digits never denotes more than the whole run.
pub proof fn lemma_digits_value_prefix(s: Seq<char>, k: int)
    requires
        all_digits(s),
        0 <= k <= s.len(),
    ensures
        digits_value(s.take(k)) <= digits_value(s),
    decreases s.len(),
{
    if k < s.len() {
        let t = s.drop_last();
        assert(all_digits(t));
        assert(s.take(k) =~= t.take(k));
        lemma_digits_value_prefix(t, k);
        lemma_digits_value_nonneg(t);
        assert(is_digit(s[s.len() - 1]));
    } else {
        assert(s.take(k) =~= s);
    }
}

/// The characters of a string, in order.
pub fn chars_of(s: &str) -> (r: Vec<char>)
    ensures
        r@ == s@,
{
    let n = s.unicode_len();
    let mut r: Vec<char> = Vec::new();
    let mut i: usize = 0;
    while i < n
        invariant
            n == s@.len(),
            i <= n,
            r@ == s@.take(i as int),
        decreases n - i,
    {
        let c = s.get_char(i);
        r.push(c);
        i = i + 1;
        assert(r@ =~= s@.take(i as int));
    }
    assert(r@ =~= s@);
    r
}

/// Reads `cs[start..]` as a run of digits whose value is at most `bound`.
fn digits_upto(cs: &Vec<char>, start: usize, bound: u64) -> (r: Option<u64>)
    requires
        start <= cs.len(),
        bound <= 0x1_0000_0000,
    ensures
        ({
            let d = cs@.skip(start as int);
            match r {
                Some(v) => d.len() > 0 && all_digits(d) && v == digits_value(d) && v <= bound,
                None => !(d.len() > 0 && all_digits(d) && digits_value(d) <= bound),
            }
        }),
{
    let ghost d = cs@.skip(start as int);
    if start == cs.len() {
        return None;
    }
    let mut acc: u64 = 0;
    let mut i: usize = start;
    while i < cs.len()
        invariant
            start <= i <= cs.len(),
            bound <= 0x1_0000_0000,
            d == cs@.skip(start as int),
            all_digits(d.take(i - start)),
            acc == digits_value(d.take(i - start)),
            acc <= bound,
        decreases cs.len() - i,
    {
        let c = cs[i];
        if !('0' <= c && c <= '9') {
            assert(d[i - start] == c);
            assert(!all_digits(d));
            return None;
        }
        let dv: u64 = ((c as u32) - ('0' as u32)) as u64;
        proof {
            let t = d.take(i - start + 1);
            assert(t.drop_last() =~= d.take(i - start));
            assert(t.last() == c);
        }
        let next = acc * 10 + dv;
        i = i + 1;
        if next > bound {
            proof {
                assert(all_digits(d.take(i - start))) by {
                    assert forall|j: int| 0 <= j < d.take(i - start).len() implies is_digit(
                        #[trigger] d.take(i - start)[j],
                    ) by {
                        if j < i - 1 - start {
                            assert(d.take(i - start)[j] == d.take(i - 1 - start)[j]);
                        }
                    }
                }
                if all_digits(d) {
                    lemma_digits_value_prefix(d, i - start);
                }
            }
            return None;
        }
        acc = next;
        assert forall|j: int| 0 <= j < d.take(i - start).len() implies is_digit(
            #[trigger] d.take(i - start)[j],
        ) by {
            if j < i - 1 - start {
                assert(d.take(i - start)[j] == d.take(i - 1 - start)[j]);
            }
        }
    }
    assert(d.take(i - start) =~= d);
    Some(acc)
}

/// Parses a pin number, as `value.parse::<u8>()` does.
pub fn parse_u8(value: &str) -> (r: Option<u8>)
    ensures
        r == spec_parse_u8(value@),
{
    let cs = chars_of(value);
    let start: usize = if cs.len() > 0 && cs[0] == '+' { 1 } else { 0 };
    proof {
        assert(cs@.skip(start as int) =~= unsigned_part(value@, false));
    }
    match digits_upto(&cs, start, 255) {
        Some(v) => Some(v as u8),
        None => None,
    }
}

/// Parses a delay, as `value.parse::<i32>()` does.
pub fn parse_i32(value: &str) -> (r: Option<i32>)
    ensures
        r == spec_parse_i32(value@),
{
    let cs = chars_of(value);
    let negative = cs.len() > 0 && cs[0] == '-';
    let start: usize = if cs.len() > 0 && (cs[0] == '+' || cs[0] == '-') { 1 } else { 0 };
    proof {
        assert(cs@.skip(start as int) =~= unsigned_part(value@, true));
    }
    let bound: u64 = if negative { 0x8000_0000 } else { 0x7fff_ffff };
    match digits_upto(&cs, start, bound) {
        Some(v) => {
            if negative {
                if v == 0x8000_0000 {
                    Some(i32::MIN)
                } else {
                    Some(-(v as i32))
                }
            } else {
                Some(v as i32)
            }
        },
        None => {
            proof {
                let d = unsigned_part(value@, true);
                if d.len() > 0 && all_digits(d) {
                    lemma_digits_value_nonneg(d);
                }
            }
            None
        },
    }
}

} // verus!
