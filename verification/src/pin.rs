//! The pin name parser: a symbolic pin name to a `(port, pin)` pair.
//!
//! Two fixed textual forms are recognized, anchored and case-sensitive:
//! `P<port>_<pin>` with both parts non-negative decimal numbers, and
//! `GPIO<pin>` with the port implicitly 0.  Any other form, and any part
//! that does not fit in eight bits, fails.

use vstd::prelude::*;

verus! {

/// Whether `c` is a decimal digit.
pub open spec fn is_digit(c: char) -> bool {
    ('0' as int) <= c as int && c as int <= ('9' as int)
}

/// The numeric value of a digit character.
pub open spec fn digit_val(c: char) -> int {
    c as int - ('0' as int)
}

/// Whether every character of `s` is a decimal digit.
pub open spec fn all_digits(s: Seq<char>) -> bool {
    forall|i: int| 0 <= i < s.len() ==> is_digit(#[trigger] s[i])
}

/// The numeric value of a digit string, most significant digit first.
pub open spec fn digits_val(s: Seq<char>) -> int
    decreases s.len(),
{
    if s.len() == 0 {
        0
    } else {
        digits_val(s.drop_last()) * 10 + digit_val(s.last())
    }
}

/// How many digits `s` starts with.
pub open spec fn leading_digits(s: Seq<char>) -> int
    decreases s.len(),
{
    if s.len() == 0 {
        0
    } else if !is_digit(s[0]) {
        0
    } else {
        1 + leading_digits(s.skip(1))
    }
}

/// The parse of the anchored form `P<port>_<pin>`.
pub open spec fn spec_parse_p_form(s: Seq<char>) -> Option<(u8, u8)> {
    let d1 = leading_digits(s.skip(1));
    let port = s.subrange(1, 1 + d1);
    let rest = s.skip(2 + d1);
    if s.len() >= 1 && s[0] == 'P' && d1 >= 1 && 1 + d1 < s.len() && s[1 + d1] == '_'
        && rest.len() >= 1 && all_digits(rest) && digits_val(port) <= 255 && digits_val(rest)
        <= 255 {
        Some((digits_val(port) as u8, digits_val(rest) as u8))
    } else {
        None
    }
}

/// The parse of the anchored form `GPIO<pin>`.
pub open spec fn spec_parse_gpio_form(s: Seq<char>) -> Option<(u8, u8)> {
    let rest = s.skip(4);
    if s.len() >= 5 && s[0] == 'G' && s[1] == 'P' && s[2] == 'I' && s[3] == 'O' && all_digits(rest)
        && digits_val(rest) <= 255 {
        Some((0, digits_val(rest) as u8))
    } else {
        None
    }
}

/// The parse of a symbolic pin name: `P<port>_<pin>`, or `GPIO<pin>` with
/// port 0, or nothing.
pub open spec fn spec_parse_gpio_name(s: Seq<char>) -> Option<(u8, u8)> {
    if spec_parse_p_form(s) is Some {
        spec_parse_p_form(s)
    } else {
        spec_parse_gpio_form(s)
    }
}

/// A digit prefix of length `k`, delimited by the end or a non-digit, is what
/// `leading_digits` counts.
proof fn lemma_leading_digits(s: Seq<char>, k: int)
    requires
        0 <= k <= s.len(),
        forall|j: int| 0 <= j < k ==> is_digit(#[trigger] s[j]),
        k < s.len() ==> !is_digit(s[k]),
    ensures
        leading_digits(s) == k,
    decreases k,
{
    if k == 0 {
    } else {
        assert(forall|j: int| 0 <= j < s.len() - 1 ==> s.skip(1)[j] == s[j + 1]);
        lemma_leading_digits(s.skip(1), k - 1);
    }
}

/// The value of a digit string is non-negative.
proof fn lemma_digits_val_nonneg(s: Seq<char>)
    requires
        all_digits(s),
    ensures
        digits_val(s) >= 0,
    decreases s.len(),
{
    if s.len() > 0 {
        assert(forall|j: int| 0 <= j < s.len() - 1 ==> s.drop_last()[j] == s[j]);
        lemma_digits_val_nonneg(s.drop_last());
    }
}

/// A digit string is worth at least any of its prefixes.
proof fn lemma_digits_val_take_le(s: Seq<char>, i: int)
    requires
        all_digits(s),
        0 <= i <= s.len(),
    ensures
        digits_val(s.take(i)) <= digits_val(s),
    decreases s.len() - i,
{
    if i == s.len() {
        assert(s.take(i) =~= s);
    } else {
        lemma_digits_val_take_le(s, i + 1);
        assert(forall|j: int| 0 <= j < i ==> s.take(i + 1)[j] == s[j]);
        assert(s.take(i + 1).drop_last() =~= s.take(i));
        assert(forall|j: int| 0 <= j < i ==> s.take(i)[j] == s[j]);
        assert(all_digits(s.take(i)));
        lemma_digits_val_nonneg(s.take(i));
        assert(digits_val(s.take(i + 1)) == digits_val(s.take(i)) * 10 + digit_val(s[i]));
    }
}

/// How many consecutive digits stand in `s` at and after position `from`.
fn count_digits(s: &str, from: usize) -> (n: usize)
    requires
        from <= s@.len(),
    ensures
        from + n <= s@.len(),
        forall|j: int| from <= j < from + n ==> is_digit(#[trigger] s@[j]),
        from + n < s@.len() ==> !is_digit(s@[from + n]),
{
    let len = s.unicode_len();
    let mut i = from;
    while i < len
        invariant
            from <= i <= len,
            len == s@.len(),
            forall|j: int| from <= j < i ==> is_digit(#[trigger] s@[j]),
        decreases len - i,
    {
        let c = s.get_char(i);
        let cu = c as u32;
        if !(48 <= cu && cu <= 57) {
            return i - from;
        }
        i += 1;
    }
    i - from
}

/// The value of the digit run `s[from..to]`, if it fits in eight bits.
fn parse_u8_digits(s: &str, from: usize, to: usize) -> (r: Option<u8>)
    requires
        from <= to <= s@.len(),
        forall|j: int| from <= j < to ==> is_digit(#[trigger] s@[j]),
    ensures
        digits_val(s@.subrange(from as int, to as int)) <= 255 ==> r == Some(
            digits_val(s@.subrange(from as int, to as int)) as u8,
        ),
        digits_val(s@.subrange(from as int, to as int)) > 255 ==> r is None,
{
    let ghost whole = s@.subrange(from as int, to as int);
    proof {
        assert(forall|j: int| 0 <= j < whole.len() ==> whole[j] == s@[from + j]);
        assert(all_digits(whole));
    }
    let mut acc: u32 = 0;
    let mut i = from;
    while i < to
        invariant
            from <= i <= to,
            to <= s@.len(),
            whole == s@.subrange(from as int, to as int),
            all_digits(whole),
            forall|j: int| from <= j < to ==> is_digit(#[trigger] s@[j]),
            acc == digits_val(whole.take(i - from)),
            acc <= 255,
        decreases to - i,
    {
        let c = s.get_char(i);
        let cu = c as u32;
        proof {
            assert(is_digit(s@[i as int]));
        }
        let d = cu - 48;
        proof {
            crate::strutil::lemma_take_push(whole, i - from);
            assert(whole.take(i - from + 1).drop_last() =~= whole.take(i - from));
            assert(whole.take(i - from + 1).last() == whole[i - from]);
            assert(whole[i - from] == s@[i as int]);
            assert(digits_val(whole.take(i - from + 1)) == acc * 10 + d);
        }
        if acc * 10 + d > 255 {
            proof {
                lemma_digits_val_take_le(whole, i - from + 1);
            }
            return None;
        }
        acc = acc * 10 + d;
        i += 1;
    }
    proof {
        assert(whole.take(to - from) =~= whole);
    }
    Some(acc as u8)
}

/// Parses a symbolic pin name into a `(port, pin)` pair: `P<port>_<pin>`, or
/// `GPIO<pin>` with port 0.  Anchored and case-sensitive; any other form, and
/// any number over 255, gives `None`.
pub fn parse_gpio_name(s: &str) -> (r: Option<(u8, u8)>)
    ensures
        r == spec_parse_gpio_name(s@),
{
    let n = s.unicode_len();
    if n >= 1 && s.get_char(0) == 'P' {
        let d1 = count_digits(s, 1);
        proof {
            assert(forall|j: int| 0 <= j < s@.len() - 1 ==> s@.skip(1)[j] == s@[j + 1]);
            lemma_leading_digits(s@.skip(1), d1 as int);
        }
        if d1 < 1 || 1 + d1 >= n {
            return None;
        }
        if s.get_char(1 + d1) != '_' {
            return None;
        }
        let rest_from = 2 + d1;
        let d2 = count_digits(s, rest_from);
        let ghost rest = s@.skip(rest_from as int);
        proof {
            assert(forall|j: int|
                0 <= j < s@.len() - rest_from ==> s@.skip(rest_from as int)[j] == s@[rest_from
                + j]);
        }
        if d2 == 0 {
            proof {
                if rest_from < n {
                    assert(!is_digit(rest[0]));
                }
            }
            return None;
        }
        if rest_from + d2 != n {
            proof {
                assert(!is_digit(s@[rest_from + d2]));
                assert(!is_digit(rest[d2 as int]));
            }
            return None;
        }
        proof {
            assert(all_digits(rest));
            assert(rest =~= s@.subrange(rest_from as int, n as int));
        }
        let port = parse_u8_digits(s, 1, 1 + d1);
        let pin = parse_u8_digits(s, rest_from, n);
        match (port, pin) {
            (Some(port), Some(pin)) => {
                return Some((port, pin));
            },
            _ => {
                return None;
            },
        }
    }
    if n >= 5 && s.get_char(0) == 'G' && s.get_char(1) == 'P' && s.get_char(2) == 'I'
        && s.get_char(3) == 'O' {
        let d = count_digits(s, 4);
        let ghost rest = s@.skip(4);
        proof {
            assert(forall|j: int| 0 <= j < s@.len() - 4 ==> s@.skip(4)[j] == s@[4 + j]);
        }
        if d == 0 {
            proof {
                assert(!is_digit(rest[0]));
            }
            return None;
        }
        if 4 + d != n {
            proof {
                assert(!is_digit(s@[4 + d]));
                assert(!is_digit(rest[d as int]));
            }
            return None;
        }
        proof {
            assert(all_digits(rest));
            assert(rest =~= s@.subrange(4int, n as int));
        }
        match parse_u8_digits(s, 4, n) {
            Some(pin) => {
                return Some((0, pin));
            },
            None => {
                return None;
            },
        }
    }
    None
}

} // verus!
