//! The single-buffer get_next_line: its buffer size, the descriptors it
//! accepts, the scan for the end of a line, and the C string it hands out.
use vstd::prelude::*;
use crate::lines::{c_strlen, lemma_first_index_of, lemma_first_index_of_unique, NL, NUL};
use crate::get_next_line_utils::{ft_calloc, ft_memcpy};

verus! {

/// Number of bytes asked of the file descriptor by each read.
pub const BUF_SIZE: i32 = 16;

/// Index of the first newline of `s`, looking at no more than `max_len`
/// bytes; `max_len` (or 0 when it is negative) when none of them is a newline.
pub fn index_of(s: &[u8], max_len: i32) -> (r: i32)
    requires
        max_len <= s@.len() || exists|j: int| 0 <= j < s@.len() && s@[j] == NL,
    ensures
        0 <= r,
        r <= max_len || r == 0,
        forall|k: int| 0 <= k < r ==> s@[k] != NL,
        r < max_len ==> r < s@.len() && s@[r as int] == NL,
{
    let mut i: i32 = 0;
    while i < max_len && s[i as usize] != NL
        invariant
            0 <= i,
            i <= max_len || i == 0,
            max_len <= s@.len() || exists|j: int| 0 <= j < s@.len() && s@[j] == NL,
            forall|k: int| 0 <= k < i ==> s@[k] != NL,
        decreases max_len - i,
    {
        i = i + 1;
    }
    i
}

/// Whether a call for `fd` reads at all: the descriptor must not be negative
/// and the buffer must hold at least one byte.
pub fn fd_accepted(fd: i32) -> (r: bool)
    ensures
        r == (fd >= 0 && BUF_SIZE >= 1),
{
    fd >= 0 && BUF_SIZE >= 1
}

/// The C string handed out for `line`: its bytes before the first NUL, then
/// a NUL.
pub fn to_c_line(line: &[u8]) -> (r: Vec<u8>)
    requires
        line@.len() < usize::MAX,
    ensures
        r@ == line@.take(c_strlen(line@)) + seq![NUL],
{
    proof {
        lemma_first_index_of(line@, NUL);
    }
    let mut n: usize = 0;
    while n < line.len() && line[n] != NUL
        invariant
            n <= line@.len(),
            forall|k: int| 0 <= k < n ==> line@[k] != NUL,
        decreases line@.len() - n,
    {
        n = n + 1;
    }
    proof {
        lemma_first_index_of_unique(line@, NUL, n as int);
    }
    let zeroed = ft_calloc(n + 1, 1);
    match zeroed {
        Some(buf) => {
            let mut out = buf;
            ft_memcpy(out.as_mut_slice(), line, n);
            assert(out@ =~= line@.take(n as int) + seq![NUL]);
            out
        },
        None => {
            assert(false);
            Vec::new()
        },
    }
}

} // verus!
