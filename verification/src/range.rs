//! Ranges of epochs and of user keys, and the test whether a range of user
//! keys meets the keys of a memtable.

use vstd::prelude::*;
use crate::key::{compare_bytes, lex_le, lex_lt, ByteOrder};

verus! {

/// One end of a range.
#[derive(Clone, Debug, PartialEq, Eq)]
pub enum RangeEdge<T> {
    /// The range reaches up to and includes the value.
    Included(T),
    /// The range reaches up to the value and leaves it out.
    Excluded(T),
    /// The range has no end on this side.
    Unbounded,
}

/// A range of epochs.
#[derive(Clone, Debug, PartialEq, Eq)]
pub struct EpochRange {
    pub start: RangeEdge<u64>,
    pub end: RangeEdge<u64>,
}

impl EpochRange {
    /// `epoch` lies in the range.
    pub open spec fn spec_contains(&self, epoch: u64) -> bool {
        &&& match self.start {
            RangeEdge::Included(s) => s <= epoch,
            RangeEdge::Excluded(s) => s < epoch,
            RangeEdge::Unbounded => true,
        }
        &&& match self.end {
            RangeEdge::Included(e) => epoch <= e,
            RangeEdge::Excluded(e) => epoch < e,
            RangeEdge::Unbounded => true,
        }
    }

    /// The range between the two ends.
    pub fn new(start: RangeEdge<u64>, end: RangeEdge<u64>) -> (r: Self)
        ensures
            r.start == start,
            r.end == end,
    {
        Self { start, end }
    }

    /// The range of every epoch up to and including `epoch`.
    pub open spec fn spec_up_to(epoch: u64) -> Self {
        EpochRange { start: RangeEdge::Unbounded, end: RangeEdge::Included(epoch) }
    }

    /// The range of every epoch up to and including `epoch`.
    #[verifier::when_used_as_spec(spec_up_to)]
    pub fn up_to(epoch: u64) -> (r: Self)
        ensures
            r == Self::spec_up_to(epoch),
    {
        EpochRange { start: RangeEdge::Unbounded, end: RangeEdge::Included(epoch) }
    }

    /// The range of every epoch before `epoch`.
    pub open spec fn spec_below(epoch: u64) -> Self {
        EpochRange { start: RangeEdge::Unbounded, end: RangeEdge::Excluded(epoch) }
    }

    /// The range of every epoch before `epoch`.
    #[verifier::when_used_as_spec(spec_below)]
    pub fn below(epoch: u64) -> (r: Self)
        ensures
            r == Self::spec_below(epoch),
    {
        EpochRange { start: RangeEdge::Unbounded, end: RangeEdge::Excluded(epoch) }
    }

    /// Whether `epoch` lies in the range.
    #[verifier::when_used_as_spec(spec_contains)]
    pub fn contains(&self, epoch: u64) -> (r: bool)
        ensures
            r == self.spec_contains(epoch),
    {
        let above = match self.start {
            RangeEdge::Included(s) => s <= epoch,
            RangeEdge::Excluded(s) => s < epoch,
            RangeEdge::Unbounded => true,
        };
        let below = match self.end {
            RangeEdge::Included(e) => epoch <= e,
            RangeEdge::Excluded(e) => epoch < e,
            RangeEdge::Unbounded => true,
        };
        above && below
    }
}

/// A range of user keys. For a scan from large keys to small, `start` is
/// the large end and `end` the small one.
#[derive(Clone, Debug, PartialEq, Eq)]
pub struct UserKeyRange {
    pub start: RangeEdge<Vec<u8>>,
    pub end: RangeEdge<Vec<u8>>,
}

impl View for RangeEdge<Vec<u8>> {
    type V = RangeEdge<Seq<u8>>;

    open spec fn view(&self) -> RangeEdge<Seq<u8>> {
        match self {
            RangeEdge::Included(k) => RangeEdge::Included(k@),
            RangeEdge::Excluded(k) => RangeEdge::Excluded(k@),
            RangeEdge::Unbounded => RangeEdge::Unbounded,
        }
    }
}

/// The mathematical value of a range of user keys.
pub struct UserKeyRangeView {
    pub start: RangeEdge<Seq<u8>>,
    pub end: RangeEdge<Seq<u8>>,
}

impl View for UserKeyRange {
    type V = UserKeyRangeView;

    open spec fn view(&self) -> UserKeyRangeView {
        UserKeyRangeView { start: self.start@, end: self.end@ }
    }
}

/// The range begins above `key`: nothing up to `key` lies in it.
pub open spec fn begins_above(low: RangeEdge<Seq<u8>>, key: Seq<u8>) -> bool {
    match low {
        RangeEdge::Included(s) => lex_lt(key, s),
        RangeEdge::Excluded(s) => lex_le(key, s),
        RangeEdge::Unbounded => false,
    }
}

/// The range ends below `key`: nothing from `key` on lies in it.
pub open spec fn ends_below(high: RangeEdge<Seq<u8>>, key: Seq<u8>) -> bool {
    match high {
        RangeEdge::Included(e) => lex_lt(e, key),
        RangeEdge::Excluded(e) => lex_le(e, key),
        RangeEdge::Unbounded => false,
    }
}

/// The range meets the keys from `first` to `last`: its low end does not
/// lie above `last`, its high end does not lie below `first`. For a scan
/// from large keys to small the two ends of the range change places.
pub open spec fn overlaps(
    range: UserKeyRangeView,
    first: Seq<u8>,
    last: Seq<u8>,
    backward: bool,
) -> bool {
    let low = if backward { range.end } else { range.start };
    let high = if backward { range.start } else { range.end };
    !begins_above(low, last) && !ends_below(high, first)
}

fn edge_begins_above(low: &RangeEdge<Vec<u8>>, key: &[u8]) -> (r: bool)
    ensures
        r == begins_above(low@, key@),
{
    match low {
        RangeEdge::Included(s) => compare_bytes(key, s.as_slice()) == ByteOrder::Less,
        RangeEdge::Excluded(s) => compare_bytes(key, s.as_slice()) != ByteOrder::Greater,
        RangeEdge::Unbounded => false,
    }
}

fn edge_ends_below(high: &RangeEdge<Vec<u8>>, key: &[u8]) -> (r: bool)
    ensures
        r == ends_below(high@, key@),
{
    match high {
        RangeEdge::Included(e) => compare_bytes(e.as_slice(), key) == ByteOrder::Less,
        RangeEdge::Excluded(e) => compare_bytes(e.as_slice(), key) != ByteOrder::Greater,
        RangeEdge::Unbounded => false,
    }
}

/// Whether `search_key_range` meets the keys from `inclusive_start_key` to
/// `inclusive_end_key`.
pub fn range_overlap(
    search_key_range: &UserKeyRange,
    inclusive_start_key: &[u8],
    inclusive_end_key: &[u8],
    backward: bool,
) -> (r: bool)
    ensures
        r == overlaps(search_key_range@, inclusive_start_key@, inclusive_end_key@, backward),
{
    let (low, high) = if backward {
        (&search_key_range.end, &search_key_range.start)
    } else {
        (&search_key_range.start, &search_key_range.end)
    };
    let too_left = edge_begins_above(low, inclusive_end_key);
    let too_right = edge_ends_below(high, inclusive_start_key);
    !too_left && !too_right
}

} // verus!
