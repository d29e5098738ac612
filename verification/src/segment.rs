//! Append segments: their names, their headers, and the record frames in them.

use crate::decimal::{digits_to_u64, same_chars, text_chars, u64_to_decimal};
use crate::error::StorageError;
use crate::ordered::set_members;
use std::collections::BTreeSet;
use vstd::prelude::*;
use vstd::string::StringExecFns;

verus! {

use crate::decimal::{decimal, decimal_unique, decimal_value, digits_value};

broadcast use {vstd::std_specs::btree::group_btree_axioms, vstd::laws_cmp::group_laws_cmp};

/// Length of the header of a segment file.
pub const SEGMENT_FILE_HEADER_LEN: usize = 4;

// ---------------------------------------------------------------------------------------
// Names and positions
// ---------------------------------------------------------------------------------------

/// Name of an append segment.
#[derive(Debug, Clone, Copy, PartialEq, Eq, PartialOrd, Ord, Hash, Structural)]
pub struct SegmentName {
    /// Number of the segment; segments are numbered in the order of their creation.
    pub id: u64,
}

/// The file name of the segment with the given number.
pub open spec fn segment_file_name(id: u64) -> Seq<char> {
    "append-"@ + decimal(id as nat) + ".segment"@
}

/// Segments with different numbers have different file names.
pub proof fn segment_file_name_injective(left: u64, right: u64)
    requires
        segment_file_name(left) == segment_file_name(right),
    ensures
        left == right,
{
    reveal_strlit("append-");
    reveal_strlit(".segment");
    let a = decimal(left as nat);
    let b = decimal(right as nat);
    assert(segment_file_name(left).len() == 7 + a.len() + 8);
    assert(segment_file_name(left).subrange(7, 7 + a.len() as int) =~= a);
    assert(segment_file_name(right).subrange(7, 7 + b.len() as int) =~= b);
    decimal_value(left as nat);
    decimal_value(right as nat);
}

/// The file name of a segment is `append-`, the number in decimal digits without leading zeros, and
/// `.segment`.
pub proof fn segment_file_names_are_canonical(id: u64) -> (digits: Seq<char>)
    ensures
        segment_file_name(id) == "append-"@ + digits + ".segment"@,
        digits.len() > 0,
        forall|i: int| 0 <= i < digits.len() ==> '0' <= #[trigger] digits[i] && digits[i] <= '9',
        digits[0] == '0' ==> digits.len() == 1,
        digits_value(digits) == id,
{
    decimal_value(id as nat);
    let digits = decimal(id as nat);
    assert forall|i: int| 0 <= i < digits.len() implies '0' <= #[trigger] digits[i] && digits[i]
        <= '9' by {}
    digits
}

impl SegmentName {
    /// The name of the first segment of a storage.
    pub fn first_append() -> (name: Self)
        ensures
            name.id == 0,
    {
        Self { id: 0 }
    }

    /// The name of the segment after this one.
    pub fn next_append(self) -> (next: Result<Self, StorageError>)
        ensures
            next == (if self.id == u64::MAX {
                Err::<SegmentName, StorageError>(StorageError::SegmentIdOverflow)
            } else {
                Ok::<SegmentName, StorageError>(SegmentName { id: (self.id + 1) as u64 })
            }),
    {
        match self.id.checked_add(1) {
            Some(id) => Ok(Self { id }),
            None => Err(StorageError::SegmentIdOverflow),
        }
    }

    /// Reads a segment file name. Other names, such as those with leading zeros, are not
    /// segment file names.
    pub fn parse_str(text: &str) -> (name: Option<Self>)
        ensures
            match name {
                Some(name) => text@ == segment_file_name(name.id),
                None => forall|id: u64| text@ != #[trigger] segment_file_name(id),
            },
    {
        proof {
            reveal_strlit("append-");
            reveal_strlit(".segment");
            assert forall|id: u64| text@ == #[trigger] segment_file_name(id) implies {
                &&& text@.len() > 15
                &&& text@.take(7) == "append-"@
                &&& text@.skip(text@.len() - 8) == ".segment"@
                &&& text@.subrange(7, text@.len() - 8) == decimal(id as nat)
            } by {
                decimal_value(id as nat);
                assert(text@.take(7) =~= "append-"@);
                assert(text@.skip(text@.len() - 8) =~= ".segment"@);
                assert(text@.subrange(7, text@.len() - 8) =~= decimal(id as nat));
            }
        }
        let chars = text_chars(text);
        let len: usize = chars.len();
        if len < 16 {
            return None;
        }
        let prefix = vstd::slice::slice_subrange(chars.as_slice(), 0, 7);
        let suffix = vstd::slice::slice_subrange(chars.as_slice(), len - 8, len);
        let digits = vstd::slice::slice_subrange(chars.as_slice(), 7, len - 8);
        assert(prefix@ =~= text@.take(7));
        assert(suffix@ =~= text@.skip(len - 8));
        assert(digits@ =~= text@.subrange(7, len - 8));
        if !same_chars(prefix, "append-") || !same_chars(suffix, ".segment") {
            return None;
        }
        if digits.len() > 1 && digits[0] == '0' {
            proof {
                assert forall|id: u64| text@ != #[trigger] segment_file_name(id) by {
                    decimal_value(id as nat);
                }
            }
            return None;
        }
        match digits_to_u64(digits) {
            None => {
                proof {
                    assert forall|id: u64| text@ != #[trigger] segment_file_name(id) by {
                        decimal_value(id as nat);
                    }
                }
                None
            },
            Some(id) => {
                proof {
                    decimal_unique(digits@);
                    assert(text@ =~= segment_file_name(id));
                }
                Some(Self { id })
            },
        }
    }

    /// Returns the file name of this segment.
    pub fn file_name(self) -> (name: String)
        ensures
            name@ == segment_file_name(self.id),
    {
        let mut name = String::new();
        name.append("append-");
        name.append(u64_to_decimal(self.id).as_str());
        name.append(".segment");
        assert(name@ =~= segment_file_name(self.id));
        name
    }

    /// Returns the number of this segment.
    pub fn id(self) -> (id: u64)
        ensures
            id == self.id,
    {
        self.id
    }
}

/// Position of a record: its segment, and the offset of its frame in it.
#[derive(Debug, Clone, Copy, PartialEq, Eq, PartialOrd, Ord, Hash, Structural)]
pub struct RecordPosition {
    /// The segment.
    pub segment: SegmentName,
    /// Offset of the record frame in the segment.
    pub offset: u64,
}

impl RecordPosition {
    /// Whether this position comes before the other one.
    pub open spec fn before(self, other: RecordPosition) -> bool {
        self.segment.id < other.segment.id || (self.segment.id == other.segment.id && self.offset
            < other.offset)
    }

    /// Tells whether this position comes before the other one.
    pub fn precedes(self, other: RecordPosition) -> (before: bool)
        ensures
            before == self.before(other),
    {
        self.segment.id < other.segment.id || (self.segment.id == other.segment.id && self.offset
            < other.offset)
    }
}

/// Record positions are totally ordered.
pub proof fn position_order_total(a: RecordPosition, b: RecordPosition, c: RecordPosition)
    ensures
        !a.before(a),
        a.before(b) || b.before(a) || a == b,
        a.before(b) ==> !b.before(a),
        a.before(b) && b.before(c) ==> a.before(c),
{
}

/// Whether the first `n` file names have that of the segment with the given number.
pub open spec fn segment_is_among(file_names: Seq<String>, n: int, id: u64) -> bool {
    exists|i: int| 0 <= i < n && (#[trigger] file_names[i])@ == segment_file_name(id)
}

/// The segments among the files of a directory, in ascending order.
pub fn discover_segments(file_names: &Vec<String>) -> (names: Vec<SegmentName>)
    ensures
        forall|i: int, j: int| 0 <= i < j < names@.len() ==> names@[i].id < names@[j].id,
        forall|id: u64|
            names@.contains(SegmentName { id }) <==> #[trigger] segment_is_among(
                file_names@,
                file_names@.len() as int,
                id,
            ),
{
    let mut ids: BTreeSet<u64> = BTreeSet::new();
    let mut i: usize = 0;
    while i < file_names.len()
        invariant
            i <= file_names@.len(),
            forall|id: u64| #[trigger]
                ids@.contains(id) <==> segment_is_among(file_names@, i as int, id),
        decreases file_names@.len() - i,
    {
        let ghost before = ids@;
        let parsed = SegmentName::parse_str(file_names[i].as_str());
        if let Some(name) = parsed {
            ids.insert(name.id);
        }
        proof {
            assert forall|id: u64| #[trigger] ids@.contains(id) <==> segment_is_among(
                file_names@,
                i + 1,
                id,
            ) by {
                if before.contains(id) {
                    let j = choose|j: int|
                        0 <= j < i && (#[trigger] file_names@[j])@ == segment_file_name(id);
                    assert(file_names@[j]@ == segment_file_name(id));
                }
                if ids@.contains(id) && !before.contains(id) {
                    assert(file_names@[i as int]@ == segment_file_name(id));
                }
                if segment_is_among(file_names@, i + 1, id) {
                    let j = choose|j: int|
                        0 <= j < i + 1 && (#[trigger] file_names@[j])@ == segment_file_name(id);
                    if j == i {
                        assert(parsed is Some);
                        segment_file_name_injective(parsed->0.id, id);
                    } else {
                        assert(segment_is_among(file_names@, i as int, id));
                    }
                }
            }
        }
        i = i + 1;
    }
    let sorted = set_members(&ids);
    proof {
        crate::ordered::ascending_sound(ids@);
    }
    let mut names: Vec<SegmentName> = Vec::new();
    let mut k: usize = 0;
    while k < sorted.len()
        invariant
            k <= sorted@.len(),
            names@.len() == k,
            forall|j: int| 0 <= j < k ==> (#[trigger] names@[j]).id == sorted@[j],
        decreases sorted@.len() - k,
    {
        names.push(SegmentName { id: sorted[k] });
        k = k + 1;
    }
    proof {
        assert forall|id: u64|
            names@.contains(SegmentName { id }) <==> #[trigger] segment_is_among(
                file_names@,
                file_names@.len() as int,
                id,
            ) by {
            assert(sorted@.to_set().contains(id) <==> ids@.contains(id));
            if sorted@.contains(id) {
                let j = choose|j: int| 0 <= j < sorted@.len() && sorted@[j] == id;
                assert(names@[j] == (SegmentName { id }));
            }
            if names@.contains(SegmentName { id }) {
                let j = choose|j: int| 0 <= j < names@.len() && names@[j] == (SegmentName { id });
                assert(sorted@[j] == id);
                assert(sorted@.contains(id));
            }
        }
    }
    names
}

/// The segment that takes appends: the last of the existing ones, or the first segment of a
/// new storage.
pub fn select_active_append_segment(names: &Vec<SegmentName>) -> (active: SegmentName)
    ensures
        names@.len() == 0 ==> active.id == 0,
        names@.len() > 0 ==> names@.contains(active),
        forall|i: int| 0 <= i < names@.len() ==> #[trigger] names@[i].id <= active.id,
{
    if names.len() == 0 {
        return SegmentName::first_append();
    }
    let mut active = names[0];
    let mut i: usize = 1;
    while i < names.len()
        invariant
            1 <= i <= names@.len(),
            names@.contains(active),
            forall|j: int| 0 <= j < i ==> #[trigger] names@[j].id <= active.id,
        decreases names@.len() - i,
    {
        if active.id < names[i].id {
            active = names[i];
            assert(names@[i as int] == active);
        }
        i = i + 1;
    }
    active
}

} // verus!
