//! Character-level helpers: the library reasons about strings as sequences
//! of characters, so strings are taken apart and put back together here.

use vstd::prelude::*;

verus! {

/// How many bytes one character takes in UTF-8.
pub open spec fn char_utf8_len(c: char) -> nat {
    if (c as u32) < 0x80 {
        1
    } else if (c as u32) < 0x800 {
        2
    } else if (c as u32) < 0x10000 {
        3
    } else {
        4
    }
}

/// The UTF-8 byte length of a character sequence: what `str::len` counts.
pub open spec fn utf8_len(s: Seq<char>) -> nat
    decreases s.len(),
{
    if s.len() == 0 {
        0
    } else {
        utf8_len(s.drop_last()) + char_utf8_len(s.last())
    }
}

fn char_utf8_len_of(c: char) -> (n: usize)
    ensures
        n == char_utf8_len(c),
{
    let u = c as u32;
    if u < 0x80 {
        1
    } else if u < 0x800 {
        2
    } else if u < 0x10000 {
        3
    } else {
        4
    }
}

/// The UTF-8 byte length of a string, counted character by character.
pub fn utf8_len_of(s: &str) -> (n: u128)
    ensures
        n == utf8_len(s@),
        n <= 4 * (usize::MAX as u128),
{
    let m = s.unicode_len();
    let mut n: u128 = 0;
    let mut i: usize = 0;
    while i < m
        invariant
            m == s@.len(),
            i <= m,
            n == utf8_len(s@.subrange(0, i as int)),
            n <= 4 * (i as u128),
        decreases m - i,
    {
        let c = s.get_char(i);
        proof {
            assert(s@.subrange(0, i + 1).drop_last() =~= s@.subrange(0, i as int));
            assert(s@.subrange(0, i + 1).last() == s@[i as int]);
        }
        n = n + char_utf8_len_of(c) as u128;
        i = i + 1;
    }
    proof {
        assert(s@.subrange(0, m as int) =~= s@);
    }
    n
}

/// The characters of a string slice, in order.
pub fn chars_vec(s: &str) -> (r: Vec<char>)
    ensures
        r@ == s@,
{
    let n = s.unicode_len();
    let mut r: Vec<char> = Vec::new();
    let mut i: usize = 0;
    while i < n
        invariant
            n == s@.len(),
            i <= n,
            r@ == s@.subrange(0, i as int),
        decreases n - i,
    {
        r.push(s.get_char(i));
        i = i + 1;
        proof {
            assert(r@ =~= s@.subrange(0, i as int));
        }
    }
    proof {
        assert(r@ =~= s@);
    }
    r
}

/// Relies on `String: FromIterator<char>`: collecting characters yields the
/// string holding exactly those characters in order.
#[verifier::external_body]
pub fn string_from_chars(v: &Vec<char>) -> (r: String)
    ensures
        r@ == v@,
{
    v.iter().collect()
}

/// The substring of `k` between two character positions, as a fresh string.
pub fn sub_string(k: &Vec<char>, from: usize, to: usize) -> (r: String)
    requires
        from <= to <= k@.len(),
    ensures
        r@ == k@.subrange(from as int, to as int),
{
    let mut v: Vec<char> = Vec::new();
    let mut i: usize = from;
    while i < to
        invariant
            from <= i <= to <= k@.len(),
            v@ == k@.subrange(from as int, i as int),
        decreases to - i,
    {
        v.push(k[i]);
        i = i + 1;
        proof {
            assert(v@ =~= k@.subrange(from as int, i as int));
        }
    }
    string_from_chars(&v)
}

/// A fresh copy of a character vector.
pub fn copy_chars(v: &Vec<char>) -> (r: Vec<char>)
    ensures
        r@ == v@,
{
    let mut r: Vec<char> = Vec::new();
    let mut i: usize = 0;
    while i < v.len()
        invariant
            i <= v@.len(),
            r@ == v@.subrange(0, i as int),
        decreases v@.len() - i,
    {
        r.push(v[i]);
        i = i + 1;
        proof {
            assert(r@ =~= v@.subrange(0, i as int));
        }
    }
    proof {
        assert(r@ =~= v@);
    }
    r
}

/// The characters of `k` between two positions, as a fresh vector.
pub fn sub_chars(k: &Vec<char>, from: usize, to: usize) -> (r: Vec<char>)
    requires
        from <= to <= k@.len(),
    ensures
        r@ == k@.subrange(from as int, to as int),
{
    let mut v: Vec<char> = Vec::new();
    let mut i: usize = from;
    while i < to
        invariant
            from <= i <= to <= k@.len(),
            v@ == k@.subrange(from as int, i as int),
        decreases to - i,
    {
        v.push(k[i]);
        i = i + 1;
        proof {
            assert(v@ =~= k@.subrange(from as int, i as int));
        }
    }
    v
}

/// Appends every character of `src` to `dst`.
pub fn append_chars(dst: &mut Vec<char>, src: &str)
    ensures
        final(dst)@ == old(dst)@ + src@,
{
    let n = src.unicode_len();
    let mut i: usize = 0;
    while i < n
        invariant
            n == src@.len(),
            i <= n,
            dst@ == old(dst)@ + src@.subrange(0, i as int),
        decreases n - i,
    {
        dst.push(src.get_char(i));
        i = i + 1;
        proof {
            assert(dst@ =~= old(dst)@ + src@.subrange(0, i as int));
        }
    }
    proof {
        assert(dst@ =~= old(dst)@ + src@);
    }
}

} // verus!
