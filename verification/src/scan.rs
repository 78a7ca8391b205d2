//! The delimiter scanner: how many times a byte occurs in a slice.

use vstd::prelude::*;
use vstd::seq_lib::lemma_multiset_commutative;
use vstd::seq_lib::group_to_multiset_ensures;
use vstd::multiset::group_multiset_axioms;
use vstd::slice::slice_subrange;

verus! {

/// The line feed (`\n`), the one byte that ends a line.
pub const NEWLINE: u8 = 10;

/// How many positions of `s` hold `byte`: its multiplicity among the bytes of `s`.
pub open spec fn occurrences(s: Seq<u8>, byte: u8) -> nat {
    s.to_multiset().count(byte)
}

/// The number of line terminators in `s`.
pub open spec fn line_count(s: Seq<u8>) -> nat {
    occurrences(s, NEWLINE)
}

/// Nothing occurs in the empty sequence.
pub proof fn lemma_occurrences_empty(byte: u8)
    ensures
        occurrences(Seq::<u8>::empty(), byte) == 0,
{
    broadcast use group_to_multiset_ensures;
    broadcast use group_multiset_axioms;

    assert(Seq::<u8>::empty().to_multiset().len() == 0);
}

/// Appending one byte adds one to the count of that byte and leaves every other count alone.
pub proof fn lemma_occurrences_push(s: Seq<u8>, last: u8, byte: u8)
    ensures
        occurrences(s.push(last), byte) == occurrences(s, byte) + if last == byte {
            1nat
        } else {
            0nat
        },
{
    broadcast use group_to_multiset_ensures;
    broadcast use group_multiset_axioms;

}

/// Counts add up over concatenation.
pub proof fn lemma_occurrences_concat(a: Seq<u8>, b: Seq<u8>, byte: u8)
    ensures
        occurrences(a + b, byte) == occurrences(a, byte) + occurrences(b, byte),
{
    broadcast use group_multiset_axioms;

    lemma_multiset_commutative(a, b);
}

/// A byte occurs at most once per position.
pub proof fn lemma_occurrences_bounded(s: Seq<u8>, byte: u8)
    ensures
        occurrences(s, byte) <= s.len(),
    decreases s.len(),
{
    if s.len() == 0 {
        assert(s =~= Seq::<u8>::empty());
        lemma_occurrences_empty(byte);
    } else {
        lemma_occurrences_bounded(s.drop_last(), byte);
        lemma_occurrences_push(s.drop_last(), s.last(), byte);
        assert(s =~= s.drop_last().push(s.last()));
    }
}

/// A byte that is at no position occurs zero times.
pub proof fn lemma_occurrences_absent(s: Seq<u8>, byte: u8)
    requires
        forall|i: int| 0 <= i < s.len() ==> s[i] != byte,
    ensures
        occurrences(s, byte) == 0,
{
    broadcast use group_to_multiset_ensures;

    assert(!s.contains(byte));
}

/// Counts the occurrences of `byte` in `buf` by comparing every position in turn.
pub fn count_byte_naive(buf: &[u8], byte: u8) -> (count: u64)
    ensures
        count == occurrences(buf@, byte),
{
    let mut count: u64 = 0;
    let mut i: usize = 0;
    proof {
        assert(buf@.take(0) =~= Seq::<u8>::empty());
        lemma_occurrences_empty(byte);
    }
    while i < buf.len()
        invariant
            i <= buf.len(),
            count == occurrences(buf@.take(i as int), byte),
            count <= i,
        decreases buf.len() - i,
    {
        proof {
            assert(buf@.take(i + 1) =~= buf@.take(i as int).push(buf@[i as int]));
            lemma_occurrences_push(buf@.take(i as int), buf@[i as int], byte);
        }
        if buf[i] == byte {
            count = count + 1;
        }
        i = i + 1;
    }
    proof {
        assert(buf@.take(buf.len() as int) =~= buf@);
    }
    count
}

/// The first position of `needle` in `haystack`, by `memchr::memchr`.
///
/// Trusted, as the search itself is not verified here: the index that comes back is inside
/// the slice and holds `needle`, no earlier position does, and `None` comes back only
/// where no position does.
#[verifier::external_body]
fn find_byte(needle: u8, haystack: &[u8]) -> (found: Option<usize>)
    ensures
        match found {
            Some(i) => {
                &&& i < haystack@.len()
                &&& haystack@[i as int] == needle
                &&& forall|j: int| 0 <= j < i ==> haystack@[j] != needle
            },
            None => forall|j: int| 0 <= j < haystack@.len() ==> haystack@[j] != needle,
        },
{
    memchr::memchr(needle, haystack)
}

/// Counts the occurrences of `byte` in `buf` by searching for the next one, again and
/// again, each search starting just behind the last find.
pub fn count_byte(buf: &[u8], byte: u8) -> (count: u64)
    ensures
        count == occurrences(buf@, byte),
{
    let mut count: u64 = 0;
    let mut start: usize = 0;
    proof {
        assert(buf@.take(0) =~= Seq::<u8>::empty());
        lemma_occurrences_empty(byte);
    }
    loop
        invariant
            start <= buf.len(),
            count == occurrences(buf@.take(start as int), byte),
            count <= start,
        ensures
            count == occurrences(buf@, byte),
        decreases buf.len() - start,
    {
        let rest = slice_subrange(buf, start, buf.len());
        let ghost scanned = buf@.take(start as int);
        match find_byte(byte, rest) {
            Some(n) => {
                proof {
                    let gap = rest@.take(n as int);
                    lemma_occurrences_absent(gap, byte);
                    lemma_occurrences_concat(scanned, gap, byte);
                    lemma_occurrences_push(scanned + gap, byte, byte);
                    assert(buf@.take(start + n + 1) =~= (scanned + gap).push(byte));
                }
                start = start + n + 1;
                count = count + 1;
            },
            None => {
                proof {
                    lemma_occurrences_absent(rest@, byte);
                    lemma_occurrences_concat(scanned, rest@, byte);
                    assert(buf@ =~= scanned + rest@);
                }
                break ;
            },
        }
    }
    count
}

/// Counts the line terminators in `buf` with the searching scanner.
pub fn count_buf_lines(buf: &[u8]) -> (lines: u64)
    ensures
        lines == line_count(buf@),
{
    count_byte(buf, NEWLINE)
}

/// Which of the two scanners does the counting. Both give the same count.
#[derive(Clone, Copy, Debug, PartialEq, Eq, Structural)]
pub enum Scanner {
    /// Compare every byte in turn.
    Naive,
    /// Search for the next line terminator with `memchr`, again and again.
    Search,
}

impl Scanner {
    /// Counts the line terminators in `buf`.
    pub fn count_lines(self, buf: &[u8]) -> (lines: u64)
        ensures
            lines == line_count(buf@),
    {
        match self {
            Scanner::Naive => count_byte_naive(buf, NEWLINE),
            Scanner::Search => count_buf_lines(buf),
        }
    }
}

} // verus!
