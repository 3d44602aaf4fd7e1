//! The mathematical model of a byte stream cut into lines.
use vstd::prelude::*;

verus! {

/// The newline byte.
pub const NL: u8 = 10;

/// The NUL byte that ends a C string.
pub const NUL: u8 = 0;

/// Index of the first occurrence of `b` in `s`, or `s.len()` when `b` does not occur.
pub open spec fn first_index_of(s: Seq<u8>, b: u8) -> int
    decreases s.len(),
{
    if s.len() == 0 {
        0
    } else if s[0] == b {
        0
    } else {
        1 + first_index_of(s.drop_first(), b)
    }
}

/// `first_index_of` is the least index holding `b`, or the length when there is none.
pub proof fn lemma_first_index_of(s: Seq<u8>, b: u8)
    ensures
        0 <= first_index_of(s, b) <= s.len(),
        forall|k: int| 0 <= k < first_index_of(s, b) ==> s[k] != b,
        first_index_of(s, b) < s.len() ==> s[first_index_of(s, b)] == b,
    decreases s.len(),
{
    if s.len() > 0 && s[0] != b {
        lemma_first_index_of(s.drop_first(), b);
        assert forall|k: int| 0 <= k < first_index_of(s, b) implies s[k] != b by {
            if k > 0 {
                assert(s[k] == s.drop_first()[k - 1]);
            }
        }
    }
}

/// Any index that is the least one holding `b` is `first_index_of`.
pub proof fn lemma_first_index_of_unique(s: Seq<u8>, b: u8, p: int)
    requires
        0 <= p <= s.len(),
        forall|k: int| 0 <= k < p ==> s[k] != b,
        p < s.len() ==> s[p] == b,
    ensures
        first_index_of(s, b) == p,
{
    lemma_first_index_of(s, b);
    let q = first_index_of(s, b);
    if q < p {
        assert(s[q] == b);
    } else if p < q {
        assert(s[p] != b);
    }
}

/// The search for a byte in `a + b` is the search in `a` when `a` holds the
/// byte, else the length of `a` plus the search in `b`.
pub proof fn lemma_first_index_of_concat(a: Seq<u8>, b: Seq<u8>, x: u8)
    ensures
        first_index_of(a, x) < a.len() ==> first_index_of(a + b, x) == first_index_of(a, x),
        first_index_of(a, x) == a.len() ==> first_index_of(a + b, x) == a.len() + first_index_of(b, x),
{
    lemma_first_index_of(a, x);
    lemma_first_index_of(b, x);
    let ab = a + b;
    let p = first_index_of(a, x);
    if p < a.len() {
        assert forall|k: int| 0 <= k < p implies ab[k] != x by {
            assert(ab[k] == a[k]);
        }
        assert(ab[p] == a[p]);
        lemma_first_index_of_unique(ab, x, p);
    } else {
        let q = a.len() + first_index_of(b, x);
        assert forall|k: int| 0 <= k < q implies ab[k] != x by {
            if k < a.len() {
                assert(ab[k] == a[k]);
            } else {
                assert(ab[k] == b[k - a.len()]);
            }
        }
        if q < ab.len() {
            assert(ab[q] == b[q - a.len()]);
        }
        lemma_first_index_of_unique(ab, x, q);
    }
}

/// The newline search over a buffer `a + b` composes from the searches over
/// `a` and over `b`.
pub proof fn lemma_first_nl_concat(a: Seq<u8>, b: Seq<u8>)
    ensures
        first_nl(a) < a.len() ==> first_nl(a + b) == first_nl(a),
        first_nl(a) == a.len() ==> first_nl(a + b) == a.len() + first_nl(b),
        first_nl(a) <= a.len(),
{
    lemma_first_index_of(a, NL);
    lemma_first_index_of_concat(a, b, NL);
}

/// Number of bytes before the first NUL of a C string.
pub open spec fn c_strlen(s: Seq<u8>) -> int {
    first_index_of(s, NUL)
}

/// Index of the first newline in `s`, or `s.len()` when there is none.
pub open spec fn first_nl(s: Seq<u8>) -> int {
    first_index_of(s, NL)
}

/// `s` holds no newline.
pub open spec fn newline_free(s: Seq<u8>) -> bool {
    forall|k: int| 0 <= k < s.len() ==> s[k] != NL
}

/// The lines of a stream: each ends just after a newline, except a last one
/// that runs to the end of the stream without a newline.
pub open spec fn lines_of(s: Seq<u8>) -> Seq<Seq<u8>>
    decreases s.len(),
{
    if s.len() == 0 {
        seq![]
    } else {
        let p = first_nl(s);
        if 0 <= p < s.len() {
            seq![s.take(p + 1)] + lines_of(s.skip(p + 1))
        } else {
            seq![s]
        }
    }
}

/// The concatenation of a sequence of byte strings.
pub open spec fn flatten(parts: Seq<Seq<u8>>) -> Seq<u8>
    decreases parts.len(),
{
    if parts.len() == 0 {
        seq![]
    } else {
        parts[0] + flatten(parts.drop_first())
    }
}

/// A well-formed line: not empty, and a newline only as its last byte.
pub open spec fn is_line(l: Seq<u8>) -> bool {
    &&& l.len() > 0
    &&& newline_free(l.drop_last())
}

/// Cutting a stream into lines and joining them back gives the stream again.
pub proof fn lemma_lines_flatten(s: Seq<u8>)
    ensures
        flatten(lines_of(s)) == s,
    decreases s.len(),
{
    if s.len() > 0 {
        lemma_first_index_of(s, NL);
        let p = first_nl(s);
        if p < s.len() {
            lemma_lines_flatten(s.skip(p + 1));
            let ls = lines_of(s);
            assert(ls[0] == s.take(p + 1));
            assert(ls.drop_first() == lines_of(s.skip(p + 1)));
            assert(s.take(p + 1) + s.skip(p + 1) == s);
            assert(flatten(ls) == ls[0] + flatten(ls.drop_first()));
        } else {
            let ls = lines_of(s);
            assert(ls == seq![s]);
            assert(ls.drop_first() =~= Seq::<Seq<u8>>::empty());
            assert(flatten(ls.drop_first()) == Seq::<u8>::empty());
            assert(flatten(ls) == ls[0] + flatten(ls.drop_first()));
            assert(s + Seq::<u8>::empty() == s);
        }
    } else {
        assert(s =~= Seq::<u8>::empty());
    }
}

/// Every line of a stream is well formed, and every line but the last ends
/// with a newline.
pub proof fn lemma_lines_well_formed(s: Seq<u8>)
    ensures
        forall|i: int| 0 <= i < lines_of(s).len() ==> is_line(#[trigger] lines_of(s)[i]),
        forall|i: int| 0 <= i < lines_of(s).len() - 1 ==> (#[trigger] lines_of(s)[i]).last() == NL,
    decreases s.len(),
{
    if s.len() > 0 {
        lemma_first_index_of(s, NL);
        let p = first_nl(s);
        if p < s.len() {
            lemma_lines_well_formed(s.skip(p + 1));
            let ls = lines_of(s);
            let rest = lines_of(s.skip(p + 1));
            assert(ls == seq![s.take(p + 1)] + rest);
            assert(s.take(p + 1).drop_last() =~= s.take(p));
            assert forall|i: int| 0 <= i < ls.len() implies is_line(#[trigger] ls[i]) by {
                if i > 0 {
                    assert(ls[i] == rest[i - 1]);
                }
            }
            assert forall|i: int| 0 <= i < ls.len() - 1 implies (#[trigger] ls[i]).last() == NL by {
                if i > 0 {
                    assert(ls[i] == rest[i - 1]);
                }
            }
        } else {
            let ls = lines_of(s);
            assert(ls.len() == 1);
            assert(ls[0] == s);
        }
    }
}

/// When `a` holds a newline, the first line of `a + b` is the first line of `a`,
/// whatever follows it.
pub proof fn lemma_lines_of_split(a: Seq<u8>, b: Seq<u8>)
    requires
        first_nl(a) < a.len(),
    ensures
        lines_of(a + b) == seq![a.take(first_nl(a) + 1)] + lines_of(a.skip(first_nl(a) + 1) + b),
{
    lemma_first_index_of(a, NL);
    let p = first_nl(a);
    let ab = a + b;
    assert forall|k: int| 0 <= k < p implies ab[k] != NL by {
        assert(ab[k] == a[k]);
    }
    assert(ab[p] == a[p]);
    lemma_first_index_of_unique(ab, NL, p);
    assert(ab.take(p + 1) =~= a.take(p + 1));
    assert(ab.skip(p + 1) =~= a.skip(p + 1) + b);
}

/// A stream without a newline is a single line, or no line when it is empty.
pub proof fn lemma_lines_of_newline_free(s: Seq<u8>)
    requires
        first_nl(s) == s.len(),
    ensures
        lines_of(s) == (if s.len() == 0 { Seq::<Seq<u8>>::empty() } else { seq![s] }),
{
}

} // verus!
