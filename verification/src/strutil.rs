//! String utilities the rest of the crate builds on: lexicographic order on
//! character sequences, decimal rendering of machine integers, and a
//! concatenation spec for text assembled piece by piece from a sequence.

use vstd::prelude::*;

verus! {

/// Strict lexicographic order on character sequences, by code point.
pub open spec fn lex_lt(a: Seq<char>, b: Seq<char>) -> bool
    decreases a.len(),
{
    if b.len() == 0 {
        false
    } else if a.len() == 0 {
        true
    } else if a[0] != b[0] {
        (a[0] as int) < (b[0] as int)
    } else {
        lex_lt(a.skip(1), b.skip(1))
    }
}

/// Exactly one of `lex_lt(a, b)`, `a == b`, `lex_lt(b, a)` holds.
pub proof fn lemma_lex_trichotomy(a: Seq<char>, b: Seq<char>)
    ensures
        lex_lt(a, b) || lex_lt(b, a) || a =~= b,
        lex_lt(a, b) ==> !lex_lt(b, a) && !(a =~= b),
        lex_lt(b, a) ==> !lex_lt(a, b) && !(a =~= b),
    decreases a.len(),
{
    if a.len() == 0 || b.len() == 0 {
    } else if a[0] != b[0] {
    } else {
        lemma_lex_trichotomy(a.skip(1), b.skip(1));
        assert(forall|j: int| 0 <= j < a.len() - 1 ==> a.skip(1)[j] == a[j + 1]);
        assert(forall|j: int| 0 <= j < b.len() - 1 ==> b.skip(1)[j] == b[j + 1]);
        if a.skip(1) =~= b.skip(1) {
            assert forall|j: int| 0 <= j < a.len() implies a[j] == b[j] by {
                if j >= 1 {
                    assert(a[j] == a.skip(1)[j - 1]);
                    assert(b[j] == b.skip(1)[j - 1]);
                }
            }
            assert(a =~= b);
        }
        if a =~= b {
            assert(a.skip(1) =~= b.skip(1));
        }
    }
}

/// Lexicographic order is transitive.
pub proof fn lemma_lex_trans(a: Seq<char>, b: Seq<char>, c: Seq<char>)
    requires
        lex_lt(a, b),
        lex_lt(b, c),
    ensures
        lex_lt(a, c),
    decreases a.len(),
{
    if a.len() == 0 || b.len() == 0 || c.len() == 0 {
    } else if a[0] == b[0] && b[0] == c[0] {
        lemma_lex_trans(a.skip(1), b.skip(1), c.skip(1));
    }
}

/// If `a` and `b` agree on their first `i` characters, what the order says is
/// decided by position `i`.
pub proof fn lemma_lex_at(a: Seq<char>, b: Seq<char>, i: int)
    requires
        0 <= i <= a.len(),
        i <= b.len(),
        forall|j: int| 0 <= j < i ==> a[j] == b[j],
    ensures
        i < a.len() && i < b.len() && a[i] != b[i] ==> lex_lt(a, b) == ((a[i] as int) < (
        b[i] as int)),
        i == a.len() && i < b.len() ==> lex_lt(a, b),
        i == b.len() && i < a.len() ==> !lex_lt(a, b),
        i == a.len() && i == b.len() ==> a =~= b,
    decreases i,
{
    if i == 0 {
    } else {
        lemma_lex_at(a.skip(1), b.skip(1), i - 1);
        if i == a.len() && i == b.len() {
            assert(a.skip(1) =~= b.skip(1));
            assert(a =~= b);
        }
    }
}

/// Three-way comparison of two strings in lexicographic order by code point.
/// Returns a negative, zero, or positive number as `a` is below, equal to, or
/// above `b`.
pub fn str_cmp(a: &str, b: &str) -> (o: i32)
    ensures
        (o < 0) == lex_lt(a@, b@),
        (o == 0) == (a@ == b@),
        (o > 0) == lex_lt(b@, a@),
{
    let alen: usize = a.unicode_len();
    let blen: usize = b.unicode_len();
    let mut i: usize = 0;
    while i < alen && i < blen
        invariant
            i <= alen,
            i <= blen,
            alen == a@.len(),
            blen == b@.len(),
            forall|j: int| 0 <= j < i ==> a@[j] == b@[j],
        decreases alen - i,
    {
        let ca = a.get_char(i);
        let cb = b.get_char(i);
        if ca != cb {
            proof {
                lemma_lex_at(a@, b@, i as int);
                lemma_lex_at(b@, a@, i as int);
            }
            if (ca as u32) < (cb as u32) {
                return -1;
            } else {
                return 1;
            }
        }
        i += 1;
    }
    proof {
        lemma_lex_at(a@, b@, i as int);
        lemma_lex_at(b@, a@, i as int);
    }
    if alen < blen {
        -1
    } else if alen > blen {
        1
    } else {
        proof {
            lemma_lex_trichotomy(a@, b@);
        }
        0
    }
}

/// Whether two strings hold the same characters.
pub fn str_eq(a: &str, b: &str) -> (r: bool)
    ensures
        r == (a@ == b@),
{
    str_cmp(a, b) == 0
}

/// `a` strictly below `b` in lexicographic order.
pub fn str_lt(a: &str, b: &str) -> (r: bool)
    ensures
        r == lex_lt(a@, b@),
{
    str_cmp(a, b) < 0
}

/// The decimal digit character for `d`.
pub open spec fn dec_digit(d: int) -> char {
    if d == 0 {
        '0'
    } else if d == 1 {
        '1'
    } else if d == 2 {
        '2'
    } else if d == 3 {
        '3'
    } else if d == 4 {
        '4'
    } else if d == 5 {
        '5'
    } else if d == 6 {
        '6'
    } else if d == 7 {
        '7'
    } else if d == 8 {
        '8'
    } else {
        '9'
    }
}

/// The decimal rendering of a non-negative integer, without leading zeros.
pub open spec fn dec_str(n: int) -> Seq<char>
    decreases n,
{
    if n <= 9 {
        seq![dec_digit(n)]
    } else {
        dec_str(n / 10).push(dec_digit(n % 10))
    }
}

fn dec_digit_str(d: u64) -> (c: &'static str)
    requires
        d <= 9,
    ensures
        c@ == seq![dec_digit(d as int)],
{
    proof {
        reveal_strlit("0");
        reveal_strlit("1");
        reveal_strlit("2");
        reveal_strlit("3");
        reveal_strlit("4");
        reveal_strlit("5");
        reveal_strlit("6");
        reveal_strlit("7");
        reveal_strlit("8");
        reveal_strlit("9");
    }
    let c = match d {
        0 => "0",
        1 => "1",
        2 => "2",
        3 => "3",
        4 => "4",
        5 => "5",
        6 => "6",
        7 => "7",
        8 => "8",
        _ => "9",
    };
    proof {
        assert(c@ =~= seq![dec_digit(d as int)]);
    }
    c
}

fn push_dec(s: &mut String, n: u64)
    ensures
        final(s)@ == old(s)@ + dec_str(n as int),
    decreases n,
{
    if n <= 9 {
        let c = dec_digit_str(n);
        s.append(c);
        proof {
            assert(s@ =~= old(s)@ + dec_str(n as int));
        }
    } else {
        push_dec(s, n / 10);
        let c = dec_digit_str(n % 10);
        s.append(c);
        proof {
            assert(s@ =~= old(s)@ + dec_str(n as int));
        }
    }
}

/// The decimal rendering of `n` as a `String`.
pub fn u64_to_dec(n: u64) -> (r: String)
    ensures
        r@ == dec_str(n as int),
{
    let mut s = String::new();
    push_dec(&mut s, n);
    proof {
        assert(s@ =~= dec_str(n as int));
    }
    s
}

/// Flattening a four-segment concatenation onto a base.
pub proof fn lemma_cat4(base: Seq<char>, a: Seq<char>, b: Seq<char>, c: Seq<char>, d: Seq<char>)
    ensures
        (((base + a) + b) + c) + d == base + (((a + b) + c) + d),
{
    assert((((base + a) + b) + c) + d =~= base + (((a + b) + c) + d));
}

/// Flattening a five-segment concatenation onto a base.
pub proof fn lemma_cat5(
    base: Seq<char>,
    a: Seq<char>,
    b: Seq<char>,
    c: Seq<char>,
    d: Seq<char>,
    e: Seq<char>,
)
    ensures
        ((((base + a) + b) + c) + d) + e == base + ((((a + b) + c) + d) + e),
{
    assert(((((base + a) + b) + c) + d) + e =~= base + ((((a + b) + c) + d) + e));
}

/// `take(i + 1)` is `take(i)` extended by the element at `i`.
pub proof fn lemma_take_push<T>(s: Seq<T>, i: int)
    requires
        0 <= i < s.len(),
    ensures
        s.take(i + 1) == s.take(i).push(s[i]),
{
    assert(s.take(i + 1) =~= s.take(i).push(s[i]));
}

} // verus!
