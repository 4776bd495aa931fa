//! The substring index over the old buffer: a partitioned suffix array that
//! answers "which longest prefix of this needle occurs in the old buffer,
//! and where".
use vstd::prelude::*;
use sacabase::StringIndex;
use sacapart::PartitionedSuffixArray;

verus! {

/// The suffix arrays of the parts of the old buffer, sorted by divsufsort
/// and searched by sacapart.
#[verifier::external_body]
struct SuffixArrays<'a> {
    sa: PartitionedSuffixArray<'a, i32>,
}

/// `needle[0]` occurs somewhere in `text`.
pub open spec fn first_byte_occurs(text: Seq<u8>, needle: Seq<u8>) -> bool {
    needle.len() > 0 && exists|j: int| 0 <= j < text.len() && text[j] == needle[0]
}

/// What a lookup hands back: `len` bytes at `start` of `text` are the first
/// `len` bytes of `needle`, and at least one byte matches wherever the first
/// byte of the needle occurs in the text.
pub open spec fn is_substring_match(text: Seq<u8>, needle: Seq<u8>, start: int, len: int) -> bool {
    &&& 0 <= len <= needle.len()
    &&& 0 <= start
    &&& start + len <= text.len()
    &&& text.subrange(start, start + len) == needle.subrange(0, len)
    &&& first_byte_occurs(text, needle) ==> len >= 1
}

/// The `(start, len)` that sacapart's partitioned suffix array over `text`,
/// sorted in `parts` parts, answers for `needle`.
pub uninterp spec fn partitioned_match(text: Seq<u8>, parts: nat, needle: Seq<u8>) -> (int, int);

/// A suffix index over `text`, split into `sort_partitions` parts.
pub struct OldIndex<'a> {
    text: &'a [u8],
    parts: usize,
    sa: SuffixArrays<'a>,
}

/// Relies on sacapart's `PartitionedSuffixArray::new`, sorting each part with
/// divsufsort's `sort`, which numbers suffixes with `i32` and asserts that a
/// text is shorter than `i32::MAX`. It divides by the number of parts, so
/// that number is at least one.
#[verifier::external_body]
fn build_suffix_array<'a>(text: &'a [u8], num_partitions: usize) -> SuffixArrays<'a>
    requires
        num_partitions >= 1,
        text@.len() < i32::MAX,
{
    SuffixArrays { sa: PartitionedSuffixArray::new(text, num_partitions, divsufsort::sort) }
}

/// Relies on `StringIndex::longest_substring_match` of sacapart's
/// `PartitionedSuffixArray`: each part's binary search ends on a suffix of
/// that part (so `start` lies in the text), its length is the common prefix
/// of that suffix and the needle, and a needle whose first byte occurs in a
/// part gets a match of at least one byte there; the best over the parts is
/// kept. The answer depends on the text, the number of parts and the needle
/// alone. It panics when the text is empty (no part at all).
#[verifier::external_body]
fn lookup<'a>(idx: &OldIndex<'a>, needle: &[u8]) -> (r: (usize, usize))
    requires
        idx.text@.len() > 0,
    ensures
        is_substring_match(idx.text@, needle@, r.0 as int, r.1 as int),
        r.0 < idx.text@.len(),
        (r.0 as int, r.1 as int) == partitioned_match(idx.text@, idx.parts as nat, needle@),
{
    let lcs = idx.sa.sa.longest_substring_match(needle);
    (lcs.start, lcs.len)
}

impl<'a> OldIndex<'a> {
    pub closed spec fn text(&self) -> Seq<u8> {
        self.text@
    }

    pub closed spec fn parts(&self) -> nat {
        self.parts as nat
    }

    /// Builds the index over `text`. More partitions sort faster in parallel
    /// but can hide matches that cross a partition boundary.
    pub fn new(text: &'a [u8], sort_partitions: usize) -> (r: Self)
        requires
            sort_partitions >= 1,
            text@.len() < i32::MAX,
        ensures
            r.text() == text@,
            r.parts() == sort_partitions,
    {
        let sa = build_suffix_array(text, sort_partitions);
        OldIndex { text, parts: sort_partitions, sa }
    }

    /// The longest prefix of `needle` found in the text, as `(start, len)`.
    /// Over an empty text that is the empty match at 0.
    pub fn longest_substring_match(&self, needle: &[u8]) -> (r: (usize, usize))
        ensures
            is_substring_match(self.text(), needle@, r.0 as int, r.1 as int),
            r.0 <= self.text().len(),
            self.text().len() == 0 ==> r == (0usize, 0usize),
            self.text().len() > 0 ==> (r.0 as int, r.1 as int) == partitioned_match(
                self.text(),
                self.parts(),
                needle@,
            ),
    {
        if self.text.len() == 0 {
            proof {
                assert(self.text@.subrange(0, 0) =~= needle@.subrange(0, 0));
            }
            (0, 0)
        } else {
            lookup(self, needle)
        }
    }
}

} // verus!
