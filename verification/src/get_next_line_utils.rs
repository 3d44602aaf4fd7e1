//! Byte-buffer helpers: copy, fill, zeroed allocation, bounded C-string copy
//! and a bounded scan for a byte.
use vstd::prelude::*;
use crate::lines::{c_strlen, lemma_first_index_of, NUL};

verus! {

/// Copies the first `n` bytes of `src` over the first `n` bytes of `dst`.
pub fn ft_memcpy(dst: &mut [u8], src: &[u8], n: usize)
    requires
        n <= old(dst)@.len(),
        n <= src@.len(),
    ensures
        final(dst)@ == src@.take(n as int) + old(dst)@.skip(n as int),
{
    let mut i: usize = 0;
    while i < n
        invariant
            i <= n,
            n <= dst@.len(),
            n <= src@.len(),
            dst@.len() == old(dst)@.len(),
            forall|k: int| 0 <= k < i ==> dst@[k] == src@[k],
            forall|k: int| i <= k < dst@.len() ==> dst@[k] == old(dst)@[k],
        decreases n - i,
    {
        dst[i] = src[i];
        i = i + 1;
    }
    assert(dst@ =~= src@.take(n as int) + old(dst)@.skip(n as int));
}

/// Sets the first `n` bytes of `s` to the byte `c` (its low eight bits).
pub fn ft_memset(s: &mut [u8], c: i32, n: usize)
    requires
        n <= old(s)@.len(),
    ensures
        final(s)@ == Seq::new(n as nat, |i: int| c as u8) + old(s)@.skip(n as int),
{
    let b: u8 = c as u8;
    let mut i: usize = 0;
    while i < n
        invariant
            i <= n,
            n <= s@.len(),
            s@.len() == old(s)@.len(),
            b == c as u8,
            forall|k: int| 0 <= k < i ==> s@[k] == b,
            forall|k: int| i <= k < s@.len() ==> s@[k] == old(s)@[k],
        decreases n - i,
    {
        s[i] = b;
        i = i + 1;
    }
    assert(s@ =~= Seq::new(n as nat, |i: int| c as u8) + old(s)@.skip(n as int));
}

/// A zeroed buffer of `nitems` items of `size` bytes each, or `None` when that
/// many bytes overflow a `usize`.
pub fn ft_calloc(nitems: usize, size: usize) -> (r: Option<Vec<u8>>)
    ensures
        r is None <==> nitems * size > usize::MAX,
        r matches Some(v) ==> v@ == Seq::new((nitems * size) as nat, |i: int| 0u8),
{
    match nitems.checked_mul(size) {
        None => None,
        Some(total) => {
            let mut v: Vec<u8> = Vec::new();
            let mut i: usize = 0;
            while i < total
                invariant
                    i <= total,
                    v@.len() == i,
                    forall|k: int| 0 <= k < i ==> v@[k] == 0u8,
                decreases total - i,
            {
                v.push(0u8);
                i = i + 1;
            }
            assert(v@ =~= Seq::new(total as nat, |i: int| 0u8));
            Some(v)
        },
    }
}

/// Copies the C string `src` into `dst`, at most `size - 1` bytes of it,
/// and ends the copy with a NUL; copies nothing when `size` is 0. Returns the
/// length of `src`.
pub fn ft_strlcpy(dst: &mut [u8], src: &[u8], size: usize) -> (r: usize)
    requires
        c_strlen(src@) < src@.len(),
        size > 0 ==> (if c_strlen(src@) < size - 1 { c_strlen(src@) } else { size - 1 }) < old(dst)@.len(),
    ensures
        r == c_strlen(src@),
        size == 0 ==> final(dst)@ == old(dst)@,
        size > 0 ==> {
            let x = if r < size - 1 { r as int } else { size - 1 };
            final(dst)@ == src@.take(x) + seq![NUL] + old(dst)@.skip(x + 1)
        },
{
    proof {
        lemma_first_index_of(src@, NUL);
    }
    let mut srclen: usize = 0;
    while src[srclen] != NUL
        invariant
            srclen <= c_strlen(src@),
            c_strlen(src@) < src@.len(),
            forall|k: int| 0 <= k < c_strlen(src@) ==> src@[k] != NUL,
            src@[c_strlen(src@)] == NUL,
        decreases c_strlen(src@) - srclen,
    {
        srclen = srclen + 1;
    }
    if size == 0 {
        return srclen;
    }
    let mut x: usize = 0;
    while src[x] != NUL && x < size - 1
        invariant
            srclen == c_strlen(src@),
            srclen < src@.len(),
            size > 0,
            x <= srclen,
            x <= size - 1,
            (if srclen < size - 1 { srclen as int } else { size - 1 }) < dst@.len(),
            dst@.len() == old(dst)@.len(),
            forall|k: int| 0 <= k < srclen ==> src@[k] != NUL,
            src@[srclen as int] == NUL,
            forall|k: int| 0 <= k < x ==> dst@[k] == src@[k],
            forall|k: int| x <= k < dst@.len() ==> dst@[k] == old(dst)@[k],
        decreases size - x,
    {
        dst[x] = src[x];
        x = x + 1;
    }
    dst[x] = NUL;
    let ghost xi = if srclen < size - 1 { srclen as int } else { size - 1 };
    assert(x == xi);
    assert(dst@ =~= src@.take(xi) + seq![NUL] + old(dst)@.skip(xi + 1));
    srclen
}

/// Index of the first byte of `s` that is `c` or NUL, looking at no more than
/// `max_len` bytes; `max_len` (or 0 when it is negative) when there is none.
pub fn index_of(s: &[u8], c: u8, max_len: i32) -> (r: i32)
    requires
        max_len <= s@.len() || exists|j: int| 0 <= j < s@.len() && (s@[j] == c || s@[j] == NUL),
    ensures
        0 <= r,
        r <= max_len || r == 0,
        forall|k: int| 0 <= k < r ==> s@[k] != c && s@[k] != NUL,
        r < max_len ==> r < s@.len() && (s@[r as int] == c || s@[r as int] == NUL),
{
    let mut i: i32 = 0;
    while i < max_len && s[i as usize] != c && s[i as usize] != NUL
        invariant
            0 <= i,
            i <= max_len || i == 0,
            max_len <= s@.len() || exists|j: int| 0 <= j < s@.len() && (s@[j] == c || s@[j] == NUL),
            forall|k: int| 0 <= k < i ==> s@[k] != c && s@[k] != NUL,
        decreases max_len - i,
    {
        i = i + 1;
    }
    i
}

} // verus!
