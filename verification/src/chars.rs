//! Character-level helpers shared by the parser and the generator.
//!
//! The library works internally on `Vec<char>` so that every scan is a
//! plain verified loop over characters; these helpers move between
//! `&str` / `String` at the public boundary and `Vec<char>` inside.

use vstd::prelude::*;
use vstd::string::*;

verus! {

/// Whitespace inside a catalog line: space, tab, and carriage return
/// (so catalogs with CRLF line endings parse the same as LF ones).
pub open spec fn is_ws(c: char) -> bool {
    c == ' ' || c == '\t' || c == '\r'
}

/// Every character of `s` is line-internal whitespace.
pub open spec fn all_ws(s: Seq<char>) -> bool {
    forall|i: int| 0 <= i < s.len() ==> is_ws(s[i])
}

/// Executable counterpart of [`is_ws`].
pub fn is_ws_char(c: char) -> (r: bool)
    ensures
        r == is_ws(c),
{
    c == ' ' || c == '\t' || c == '\r'
}

/// Collect the characters of a string slice into a vector.
pub fn to_char_vec(s: &str) -> (r: Vec<char>)
    ensures
        r@ == s@,
{
    let n: usize = s.unicode_len();
    let mut r: Vec<char> = Vec::new();
    let mut i: usize = 0;
    while i < n
        invariant
            n == s@.len(),
            i <= n,
            r@ == s@.take(i as int),
        decreases n - i,
    {
        r.push(s.get_char(i));
        i = i + 1;
        assert(r@ =~= s@.take(i as int));
    }
    assert(r@ =~= s@);
    r
}

/// Relies on `String::push`: appends exactly the one character `c`.
#[verifier::external_body]
pub(crate) fn push_char(s: &mut String, c: char)
    ensures
        final(s)@ == old(s)@ + seq![c],
{
    s.push(c);
}

/// Append every character of `v` to `out`.
pub fn push_chars(out: &mut String, v: &Vec<char>)
    ensures
        final(out)@ == old(out)@ + v@,
{
    let n: usize = v.len();
    let mut i: usize = 0;
    while i < n
        invariant
            n == v@.len(),
            i <= n,
            out@ == old(out)@ + v@.take(i as int),
        decreases n - i,
    {
        push_char(out, v[i]);
        i = i + 1;
        assert(out@ =~= old(out)@ + v@.take(i as int));
    }
    assert(out@ =~= old(out)@ + v@);
}

/// Build a `String` out of a vector of characters.
pub fn chars_to_string(v: &Vec<char>) -> (r: String)
    ensures
        r@ == v@,
{
    let mut r = String::new();
    push_chars(&mut r, v);
    assert(r@ =~= v@);
    r
}

/// The character for one decimal digit.
pub open spec fn dec_digit(d: nat) -> char {
    if d == 0 {
        '0'
    } else if d == 1 {
        '1'
    } else if d == 2 {
        '2'
    } else if d == 3 {
        '3'
    } else if d == 4 {
        '4'
    } else if d == 5 {
        '5'
    } else if d == 6 {
        '6'
    } else if d == 7 {
        '7'
    } else if d == 8 {
        '8'
    } else {
        '9'
    }
}

/// The decimal notation of `n`, most significant digit first.
pub open spec fn dec_rep(n: nat) -> Seq<char>
    decreases n,
{
    if n < 10 {
        seq![dec_digit(n)]
    } else {
        dec_rep(n / 10) + seq![dec_digit(n % 10)]
    }
}

fn dec_digit_char(d: usize) -> (c: char)
    requires
        d < 10,
    ensures
        c == dec_digit(d as nat),
{
    if d == 0 {
        '0'
    } else if d == 1 {
        '1'
    } else if d == 2 {
        '2'
    } else if d == 3 {
        '3'
    } else if d == 4 {
        '4'
    } else if d == 5 {
        '5'
    } else if d == 6 {
        '6'
    } else if d == 7 {
        '7'
    } else if d == 8 {
        '8'
    } else {
        '9'
    }
}

/// Append the decimal notation of `n`; mirrors [`dec_rep`].
pub fn push_dec(out: &mut String, n: usize)
    ensures
        final(out)@ == old(out)@ + dec_rep(n as nat),
    decreases n,
{
    if n < 10 {
        let d = dec_digit_char(n);
        push_char(out, d);
    } else {
        push_dec(out, n / 10);
        let d = dec_digit_char(n % 10);
        push_char(out, d);
        proof {
            assert((old(out)@ + dec_rep((n / 10) as nat)) + seq![dec_digit((n % 10) as nat)]
                =~= old(out)@ + (dec_rep((n / 10) as nat) + seq![dec_digit((n % 10) as nat)]));
        }
    }
}

/// Duplicate a vector of characters.
pub fn clone_chars(v: &Vec<char>) -> (r: Vec<char>)
    ensures
        r@ == v@,
{
    let r = v.clone();
    proof {
        assert forall|i: int| 0 <= i < v@.len() implies r@[i] == v@[i] by {
            assert(vstd::pervasive::cloned::<char>(v@[i], r@[i]));
        }
        assert(r@ =~= v@);
    }
    r
}

/// Character-wise equality of two vectors.
pub fn chars_eq(a: &Vec<char>, b: &Vec<char>) -> (r: bool)
    ensures
        r == (a@ == b@),
{
    if a.len() != b.len() {
        assert(a@ != b@) by {
            assert(a@.len() != b@.len());
        }
        return false;
    }
    let n: usize = a.len();
    let mut i: usize = 0;
    while i < n
        invariant
            n == a@.len(),
            n == b@.len(),
            i <= n,
            forall|k: int| 0 <= k < i ==> a@[k] == b@[k],
        decreases n - i,
    {
        if a[i] != b[i] {
            return false;
        }
        i = i + 1;
    }
    assert(a@ =~= b@);
    true
}

} // verus!
