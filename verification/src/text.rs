//! Decimal rendering of integers and small string-building helpers.

use vstd::prelude::*;
use vstd::string::{StrSliceExecFns, StringExecFns, StringSliceAdditionalSpecFns};

verus! {

/// The character for a single decimal digit `d` (`0 <= d <= 9`).
pub open spec fn dec_digit(d: int) -> char
    recommends
        0 <= d <= 9,
{
    ((d + 48) as u32) as char
}

/// The decimal digit sequence of a non-negative integer, most significant
/// digit first; `0` is rendered as `"0"`.
pub open spec fn u64_dec(n: nat) -> Seq<char>
    decreases n,
{
    if n < 10 {
        seq![dec_digit(n as int)]
    } else {
        u64_dec(n / 10).push(dec_digit((n % 10) as int))
    }
}

/// The decimal rendering of a signed integer: a leading `-` for negative
/// numbers, then the digits of the magnitude.
pub open spec fn i64_dec(i: int) -> Seq<char> {
    if i >= 0 {
        u64_dec(i as nat)
    } else {
        seq!['-'].add(u64_dec((-i) as nat))
    }
}

/// Relies on `String::push`: appends exactly the given character.
#[verifier::external_body]
pub(crate) fn push_char(s: &mut String, c: char)
    ensures
        final(s)@ == old(s)@.push(c),
{
    s.push(c);
}

/// Renders a `u64` in decimal, most significant digit first.
pub fn u64_to_dec(n: u64) -> (r: String)
    ensures
        r@ == u64_dec(n as nat),
{
    let mut digits: Vec<char> = Vec::new();
    let ghost mut suffix: Seq<char> = Seq::empty();
    let mut m: u64 = n;
    loop
        invariant_except_break
            suffix.len() > 0 ==> m > 0,
            u64_dec(n as nat) == if suffix.len() == 0 {
                u64_dec(m as nat)
            } else {
                u64_dec(m as nat).add(suffix)
            },
        invariant
            suffix.len() == digits@.len(),
            forall|k: int|
                0 <= k < suffix.len() ==> suffix[k] == digits@[suffix.len() - 1 - k],
        ensures
            suffix.len() > 0,
            suffix.len() == digits@.len(),
            u64_dec(n as nat) == suffix,
            forall|k: int|
                0 <= k < suffix.len() ==> suffix[k] == digits@[suffix.len() - 1 - k],
        decreases m, (if digits@.len() == 0 { 1int } else { 0int }),
    {
        let d: u64 = m % 10;
        let c: char = ((48 + d) as u8) as char;
        digits.push(c);
        let ghost old_suffix = suffix;
        let ghost old_m: u64 = m;
        proof {
            assert(c == dec_digit(d as int));
            suffix = seq![c].add(old_suffix);
        }
        m = m / 10;
        proof {
            if old_m >= 10 {
                assert(u64_dec(old_m as nat) == u64_dec(m as nat).push(c));
                assert(u64_dec(m as nat).push(c).add(old_suffix) =~= u64_dec(m as nat).add(
                    suffix,
                ));
            } else {
                assert(u64_dec(old_m as nat) =~= seq![c]);
            }
            if old_suffix.len() == 0 {
                assert(u64_dec(n as nat) == u64_dec(old_m as nat));
                assert(u64_dec(old_m as nat).add(old_suffix) =~= u64_dec(old_m as nat));
            }
            assert(u64_dec(n as nat) == u64_dec(old_m as nat).add(old_suffix));
            if m == 0 {
                assert(u64_dec(n as nat) =~= seq![c].add(old_suffix));
            }
        }
        if m == 0 {
            break;
        }
    }
    let mut r = String::new();
    let len = digits.len();
    let mut k: usize = 0;
    while k < len
        invariant
            len == digits@.len(),
            len == suffix.len(),
            k <= len,
            u64_dec(n as nat) == suffix,
            forall|j: int|
                0 <= j < suffix.len() ==> suffix[j] == digits@[suffix.len() - 1 - j],
            r@ == suffix.subrange(0, k as int),
        decreases len - k,
    {
        let c = digits[len - 1 - k];
        push_char(&mut r, c);
        proof {
            assert(r@ == suffix.subrange(0, k + 1int));
        }
        k = k + 1;
    }
    proof {
        assert(r@ == suffix.subrange(0, suffix.len() as int));
        assert(r@ == suffix);
    }
    r
}

/// Renders an `i64` in decimal, with a leading `-` when negative.
pub fn i64_to_dec(i: i64) -> (r: String)
    ensures
        r@ == i64_dec(i as int),
{
    if i >= 0 {
        u64_to_dec(i as u64)
    } else {
        let mag: u64 = if i == i64::MIN {
            9223372036854775808u64
        } else {
            (-i) as u64
        };
        let mut r = String::new();
        push_char(&mut r, '-');
        let digits = u64_to_dec(mag);
        r.append(digits.as_str());
        proof {
            assert(r@ == seq!['-'].add(u64_dec(mag as nat)));
        }
        r
    }
}

/// The uppercase form of a character sequence, as `str::to_uppercase`
/// computes it: a function of the characters alone.
pub uninterp spec fn upper_of(s: Seq<char>) -> Seq<char>;

/// The lowercase form of a character sequence, as `str::to_lowercase`
/// computes it: a function of the characters alone.
pub uninterp spec fn lower_of(s: Seq<char>) -> Seq<char>;

/// The whitespace-trimmed form of a character sequence, as `str::trim`
/// computes it: a function of the characters alone.
pub uninterp spec fn trim_of(s: Seq<char>) -> Seq<char>;

/// The result of replacing every match of `from` in `s` by `to`, as
/// `str::replace` computes it: a function of the three alone.
pub uninterp spec fn replace_of(s: Seq<char>, from: Seq<char>, to: Seq<char>) -> Seq<char>;

/// Relies on `str::to_uppercase`: the Unicode uppercase form, a function
/// of the characters alone; an empty string stays empty.
#[verifier::external_body]
pub(crate) fn to_upper(s: &str) -> (r: String)
    ensures
        r@ == upper_of(s@),
        s@.len() == 0 ==> r@.len() == 0,
{
    s.to_uppercase()
}

/// Relies on `str::to_lowercase`: the Unicode lowercase form, a function
/// of the characters alone; an empty string stays empty.
#[verifier::external_body]
pub(crate) fn to_lower(s: &str) -> (r: String)
    ensures
        r@ == lower_of(s@),
        s@.len() == 0 ==> r@.len() == 0,
{
    s.to_lowercase()
}

/// Relies on `str::trim`: removes leading and trailing whitespace, so the
/// result is a contiguous piece of the input.
#[verifier::external_body]
pub(crate) fn trim_str(s: &str) -> (r: String)
    ensures
        r@ == trim_of(s@),
        r@.len() <= s@.len(),
{
    s.trim().to_string()
}

/// Relies on `str::replace`: replaces every match of `from` by `to`, a
/// function of the three strings alone.
#[verifier::external_body]
pub(crate) fn replace_str(s: &str, from: &str, to: &str) -> (r: String)
    ensures
        r@ == replace_of(s@, from@, to@),
{
    s.replace(from, to)
}

/// Relies on `str::find`: the byte index of the first occurrence of `sub`
/// in `s`, when there is one.
#[verifier::external_body]
pub(crate) fn find_sub(s: &str, sub: &str) -> (r: Option<usize>)
    ensures
        match r {
            Some(i) => {
                &&& i + sub.spec_bytes().len() <= s.spec_bytes().len()
                &&& s.spec_bytes().subrange(i as int, i + sub.spec_bytes().len())
                    == sub.spec_bytes()
                &&& forall|j: int|
                    0 <= j < i ==> #[trigger] s.spec_bytes().subrange(
                        j,
                        j + sub.spec_bytes().len(),
                    ) != sub.spec_bytes()
            },
            None => forall|j: int|
                0 <= j <= s.spec_bytes().len() - sub.spec_bytes().len()
                    ==> #[trigger] s.spec_bytes().subrange(j, j + sub.spec_bytes().len())
                    != sub.spec_bytes(),
        },
{
    s.find(sub)
}

/// Compares two string slices by their character sequences.
pub fn str_eq(a: &str, b: &str) -> (r: bool)
    ensures
        r == (a@ == b@),
{
    let oa = a.to_owned();
    let ob = b.to_owned();
    oa == ob
}

/// Strict lexicographic order on character sequences, by Unicode scalar
/// value.  Agrees with the byte order of the UTF-8 encodings.
pub open spec fn lex_lt(a: Seq<char>, b: Seq<char>) -> bool
    decreases a.len() + b.len(),
{
    if b.len() == 0 {
        false
    } else if a.len() == 0 {
        true
    } else if a[0] != b[0] {
        (a[0] as u32) < (b[0] as u32)
    } else {
        lex_lt(a.drop_first(), b.drop_first())
    }
}

/// Compares two strings lexicographically (strictly less).
pub fn str_lex_lt(a: &str, b: &str) -> (r: bool)
    ensures
        r == lex_lt(a@, b@),
{
    let alen = a.unicode_len();
    let blen = b.unicode_len();
    let mut i: usize = 0;
    proof {
        assert(a@.skip(0) =~= a@);
        assert(b@.skip(0) =~= b@);
    }
    loop
        invariant_except_break
            i <= alen,
            i <= blen,
            alen == a@.len(),
            blen == b@.len(),
            lex_lt(a@, b@) == lex_lt(a@.skip(i as int), b@.skip(i as int)),
        ensures
            lex_lt(a@, b@) == lex_lt(a@.skip(i as int), b@.skip(i as int)),
            i <= alen && i <= blen,
            i == blen || (i < alen && i < blen && a@[i as int] != b@[i as int]) || i == alen,
        decreases alen - i,
    {
        if i == alen || i == blen {
            break ;
        }
        let ca = a.get_char(i);
        let cb = b.get_char(i);
        if ca != cb {
            proof {
                assert(a@.skip(i as int)[0] == a@[i as int]);
                assert(b@.skip(i as int)[0] == b@[i as int]);
            }
            break ;
        }
        proof {
            assert(a@.skip(i as int)[0] == a@[i as int]);
            assert(b@.skip(i as int)[0] == b@[i as int]);
            assert(a@.skip(i as int).drop_first() =~= a@.skip(i + 1int));
            assert(b@.skip(i as int).drop_first() =~= b@.skip(i + 1int));
        }
        i = i + 1;
    }
    if i == blen {
        proof {
            assert(b@.skip(i as int).len() == 0);
        }
        false
    } else if i == alen {
        proof {
            assert(a@.skip(i as int).len() == 0);
            assert(b@.skip(i as int).len() > 0);
        }
        true
    } else {
        let ca = a.get_char(i);
        let cb = b.get_char(i);
        proof {
            assert(a@.skip(i as int)[0] == a@[i as int]);
            assert(b@.skip(i as int)[0] == b@[i as int]);
        }
        (ca as u32) < (cb as u32)
    }
}

} // verus!
