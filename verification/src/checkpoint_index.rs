//! The checkpoint index: where the latest checkpoint of each node is.

use crate::codec::{decode_node_record, read_record_body};
use crate::decimal::{parse_u64_text, u64_to_decimal};
use crate::error::StorageError;
use crate::json::{json_member, json_members, json_parse, json_to_string, json_to_u64};
use crate::json_text::{quote, ObjectWriter};
use crate::ordered::{map_keys, set_members};
use crate::raft::NodeId;
use crate::record::Record;
use crate::registry::NodeRegistry;
use crate::scan::{check_segment_header, Segment};
use crate::segment::{RecordPosition, SegmentName, SEGMENT_FILE_HEADER_LEN};
use std::collections::{BTreeMap, BTreeSet};
use vstd::prelude::*;
use vstd::string::StringExecFns;

verus! {

use crate::decimal::{decimal, decimal_round_trip, decimal_value, is_decimal, parsed_u64};
use crate::format::{parse_body, read_frame};
use crate::json::{
    are_plain_members, are_simple_members, find_member, is_object_text, is_plain, is_simple_text,
    is_value_text, json_kind_of, json_members_of, json_text, json_valid, members_view,
    required_member, simple_is_value, string_value, u64_value, JsonKind,
};
use crate::json_text::{indented, object_text, quoted, Members};
use crate::ordered::{ahead_of, all_ahead, ascending, ascending_sound, strictly_increasing};
use crate::registry::active_nodes;
use crate::scan::{header_check, segments_view, SegmentView};
use crate::segment::{segment_file_name, segment_file_name_injective};

broadcast use {vstd::std_specs::btree::group_btree_axioms, vstd::laws_cmp::group_laws_cmp};

/// Version of the checkpoint index file.
pub const CHECKPOINT_INDEX_VERSION: u64 = 1;

/// Which segments garbage collection may delete.
#[derive(Debug, Clone, Copy, PartialEq, Eq, Structural)]
pub enum GcBarrier {
    /// Every segment that does not take appends.
    AllInactiveAppendSegments,
    /// The segments before the given one.
    Before(SegmentName),
}

impl GcBarrier {
    /// Whether a segment may be deleted, if it does not take appends.
    pub open spec fn allows(self, id: u64) -> bool {
        match self {
            GcBarrier::AllInactiveAppendSegments => true,
            GcBarrier::Before(segment) => id < segment.id,
        }
    }

    /// Tells whether a segment may be deleted, if it does not take appends.
    pub fn allows_delete(self, segment: SegmentName) -> (allowed: bool)
        ensures
            allowed == self.allows(segment.id),
    {
        match self {
            GcBarrier::AllInactiveAppendSegments => true,
            GcBarrier::Before(checkpoint_segment) => segment.id < checkpoint_segment.id,
        }
    }
}

/// The contents of a checkpoint index.
pub type IndexView = Map<u64, RecordPosition>;

/// The oldest segment that has the checkpoint of one of the given nodes.
pub open spec fn oldest_segment(ids: Seq<u64>, index: IndexView) -> Option<u64>
    decreases ids.len(),
{
    if ids.len() == 0 {
        None
    } else {
        let last = index[ids.last()].segment.id;
        match oldest_segment(ids.drop_last(), index) {
            None => Some(last),
            Some(oldest) => if last < oldest {
                Some(last)
            } else {
                Some(oldest)
            },
        }
    }
}

/// What garbage collection may delete; nothing is known where the index lacks one of the
/// given nodes.
pub open spec fn barrier(index: IndexView, nodes: Set<u64>) -> Option<GcBarrier> {
    if exists|node: u64| nodes.contains(node) && !index.contains_key(node) {
        None
    } else {
        match oldest_segment(ascending(nodes), index) {
            None => Some(GcBarrier::AllInactiveAppendSegments),
            Some(id) => Some(GcBarrier::Before(SegmentName { id })),
        }
    }
}

proof fn oldest_segment_sound(ids: Seq<u64>, index: IndexView)
    ensures
        ids.len() > 0 <==> oldest_segment(ids, index) is Some,
        oldest_segment(ids, index) matches Some(oldest) ==> forall|i: int|
            0 <= i < ids.len() ==> oldest <= (#[trigger] index[ids[i]]).segment.id,
        oldest_segment(ids, index) matches Some(oldest) ==> exists|i: int|
            0 <= i < ids.len() && oldest == (#[trigger] index[ids[i]]).segment.id,
    decreases ids.len(),
{
    if ids.len() > 0 {
        oldest_segment_sound(ids.drop_last(), index);
        let oldest = oldest_segment(ids, index)->0;
        if oldest == index[ids.last()].segment.id {
            assert(oldest == index[ids[ids.len() - 1]].segment.id);
        } else {
            let i = choose|i: int|
                0 <= i < ids.drop_last().len() && oldest == (
                #[trigger] index[ids.drop_last()[i]]).segment.id;
            assert(oldest == index[ids[i]].segment.id);
        }
        assert forall|i: int| 0 <= i < ids.len() implies oldest_segment(ids, index)->0 <= (
        #[trigger] index[ids[i]]).segment.id by {
            if i < ids.len() - 1 {
                assert(ids.drop_last()[i] == ids[i]);
                assert(index[ids.drop_last()[i]].segment.id >= oldest_segment(
                    ids.drop_last(),
                    index,
                )->0);
            }
        }
    }
}

/// No segment that may be deleted is or comes after one that has the checkpoint of one of
/// the given nodes.
pub proof fn barrier_protects_checkpoints(index: IndexView, nodes: Set<u64>, node: u64, id: u64)
    requires
        barrier(index, nodes) matches Some(limit) && limit.allows(id),
        nodes.contains(node),
    ensures
        index.contains_key(node),
        id < index[node].segment.id,
{
    let ids = ascending(nodes);
    ascending_sound(nodes);
    oldest_segment_sound(ids, index);
    assert(ids.to_set().contains(node));
    let i = choose|i: int| 0 <= i < ids.len() && ids[i] == node;
    assert(index[ids[i]].segment.id >= oldest_segment(ids, index)->0);
}

/// A segment may be deleted, if it does not take appends, exactly when the index has all of the
/// given nodes and the checkpoint of each is in a later segment.
pub proof fn barrier_allows_obsolete(index: IndexView, nodes: Set<u64>, id: u64)
    ensures
        (barrier(index, nodes) matches Some(limit) && limit.allows(id)) <==> forall|node: u64| #[trigger]
            nodes.contains(node) ==> index.contains_key(node) && id < index[node].segment.id,
{
    let ids = ascending(nodes);
    ascending_sound(nodes);
    oldest_segment_sound(ids, index);
    if barrier(index, nodes) matches Some(limit) && limit.allows(id) {
        assert forall|node: u64| #[trigger] nodes.contains(node) implies index.contains_key(node)
            && id < index[node].segment.id by {
            barrier_protects_checkpoints(index, nodes, node, id);
        }
    } else if forall|node: u64| #[trigger]
        nodes.contains(node) ==> index.contains_key(node) && id < index[node].segment.id {
        let oldest = oldest_segment(ids, index)->0;
        let i = choose|i: int| 0 <= i < ids.len() && oldest == (#[trigger] index[ids[i]]).segment.id;
        assert(ids.to_set().contains(ids[i]));
        assert(nodes.contains(ids[i]));
    }
}

/// The latest known checkpoint positions.
#[derive(Debug, PartialEq, Eq)]
pub struct CheckpointIndex {
    nodes: BTreeMap<u64, RecordPosition>,
}

impl View for CheckpointIndex {
    type V = IndexView;

    closed spec fn view(&self) -> IndexView {
        self.nodes@
    }
}

impl Default for CheckpointIndex {
    fn default() -> (index: Self)
        ensures
            index@ == IndexView::empty(),
    {
        Self { nodes: BTreeMap::new() }
    }
}

impl Clone for CheckpointIndex {
    fn clone(&self) -> (copy: Self)
        ensures
            copy@ == self@,
    {
        Self { nodes: self.nodes.clone() }
    }
}

impl CheckpointIndex {
    /// Returns the checkpoint position of a node.
    pub fn checkpoint_position(&self, node_id: NodeId) -> (position: Option<RecordPosition>)
        ensures
            position == (if self@.contains_key(node_id.0) {
                Some(self@[node_id.0])
            } else {
                None::<RecordPosition>
            }),
    {
        match self.nodes.get(&node_id.0) {
            None => None,
            Some(position) => Some(*position),
        }
    }

    /// Returns the checkpoint positions of the given nodes, if all of them are known.
    pub fn checkpoint_positions(
        &self,
        node_ids: &BTreeSet<u64>,
    ) -> (positions: Option<BTreeMap<u64, RecordPosition>>)
        ensures
            positions is Some <==> node_ids@.subset_of(self@.dom()),
            positions is Some ==> positions->0@ == self@.restrict(node_ids@),
    {
        let ids = set_members(node_ids);
        let mut positions: BTreeMap<u64, RecordPosition> = BTreeMap::new();
        let mut i: usize = 0;
        proof {
            all_ahead(node_ids@);
            assert(ids@.skip(0) =~= ids@);
        }
        while i < ids.len()
            invariant
                i <= ids@.len(),
                strictly_increasing(ids@),
                forall|id: u64| #[trigger] ids@.contains(id) ==> node_ids@.contains(id),
                forall|id: u64| #[trigger]
                    positions@.contains_key(id) <==> node_ids@.contains(id) && !ids@.skip(
                        i as int,
                    ).contains(id),
                forall|id: u64| #[trigger]
                    positions@.contains_key(id) ==> self@.contains_key(id) && positions@[id] == self@[id],
            decreases ids@.len() - i,
        {
            let id: u64 = ids[i];
            proof {
                assert(ids@.contains(id));
                ahead_of(ids@, i as int);
            }
            match self.nodes.get(&id) {
                None => {
                    assert(node_ids@.contains(id) && !self@.dom().contains(id));
                    return None;
                },
                Some(position) => {
                    positions.insert(id, *position);
                },
            }
            i = i + 1;
        }
        proof {
            assert(node_ids@.subset_of(self@.dom())) by {
                assert forall|id: u64| node_ids@.contains(id) implies self@.dom().contains(id) by {
                    assert(positions@.contains_key(id));
                }
            }
            assert(positions@ =~= self@.restrict(node_ids@));
        }
        Some(positions)
    }

    /// Returns what garbage collection may delete while the given nodes are active.
    pub fn gc_barrier(&self, active_node_ids: &BTreeSet<u64>) -> (limit: Option<GcBarrier>)
        ensures
            limit == barrier(self@, active_node_ids@),
    {
        let ids = set_members(active_node_ids);
        proof {
            ascending_sound(active_node_ids@);
            assert(ids@.take(0) =~= Seq::empty());
        }
        let mut oldest: Option<u64> = None;
        let mut i: usize = 0;
        while i < ids.len()
            invariant
                i <= ids@.len(),
                ids@ == ascending(active_node_ids@),
                ids@.to_set() == active_node_ids@,
                oldest == oldest_segment(ids@.take(i as int), self@),
                forall|k: int| 0 <= k < i ==> self@.contains_key(#[trigger] ids@[k]),
            decreases ids@.len() - i,
        {
            proof {
                assert(ids@.take(i + 1).drop_last() =~= ids@.take(i as int));
                assert(ids@.to_set().contains(ids@[i as int]));
            }
            match self.nodes.get(&ids[i]) {
                None => {
                    return None;
                },
                Some(position) => {
                    let segment: u64 = position.segment.id;
                    oldest = match oldest {
                        None => Some(segment),
                        Some(current) => {
                            if segment < current {
                                Some(segment)
                            } else {
                                Some(current)
                            }
                        },
                    };
                },
            }
            i = i + 1;
        }
        proof {
            assert(ids@.take(i as int) =~= ids@);
            assert forall|node: u64| active_node_ids@.contains(node) implies self@.contains_key(node) by {
                assert(ids@.to_set().contains(node));
                let k = choose|k: int| 0 <= k < ids@.len() && ids@[k] == node;
                assert(self@.contains_key(ids@[k]));
            }
        }
        match oldest {
            Some(id) => Some(GcBarrier::Before(SegmentName { id })),
            None => Some(GcBarrier::AllInactiveAppendSegments),
        }
    }

    /// Sets the checkpoint position of a node.
    pub fn set_checkpoint_position(&mut self, node_id: NodeId, position: RecordPosition)
        ensures
            final(self)@ == old(self)@.insert(node_id.0, position),
    {
        self.nodes.insert(node_id.0, position);
    }

    /// Forgets a node.
    pub fn remove_node(&mut self, node_id: NodeId)
        ensures
            final(self)@ == old(self)@.remove(node_id.0),
    {
        self.nodes.remove(&node_id.0);
        assert(self@ =~= old(self)@.remove(node_id.0));
    }

    /// Returns how many nodes the index has.
    pub fn len(&self) -> (len: usize)
        ensures
            len == self@.dom().len(),
    {
        self.nodes.len()
    }

    /// Forgets the nodes that are not active in the registry.
    pub fn retain_active(&mut self, registry: &NodeRegistry)
        ensures
            final(self)@ == old(self)@.restrict(active_nodes(registry@)),
    {
        let keys = map_keys(&self.nodes);
        let mut i: usize = 0;
        proof {
            all_ahead(self.nodes@.dom());
        }
        while i < keys.len()
            invariant
                i <= keys@.len(),
                strictly_increasing(keys@),
                forall|key: u64| #[trigger]
                    self.nodes@.contains_key(key) <==> old(self)@.contains_key(key) && (active_nodes(
                        registry@,
                    ).contains(key) || keys@.skip(i as int).contains(key)),
                forall|key: u64| #[trigger]
                    self.nodes@.contains_key(key) ==> self.nodes@[key] == old(self)@[key],
            decreases keys@.len() - i,
        {
            let key: u64 = keys[i];
            proof {
                ahead_of(keys@, i as int);
            }
            if !registry.is_active(NodeId(key)) {
                self.nodes.remove(&key);
            }
            i = i + 1;
        }
        assert(self@ =~= old(self)@.restrict(active_nodes(registry@)));
    }
}

// ---------------------------------------------------------------------------------------
// Validation against the segments
// ---------------------------------------------------------------------------------------

/// The contents of the segment with the given number.
pub open spec fn find_segment(segments: Seq<SegmentView>, id: u64) -> Option<Seq<u8>>
    decreases segments.len(),
{
    if segments.len() == 0 {
        None
    } else if segments[0].id == id {
        Some(segments[0].bytes)
    } else {
        find_segment(segments.skip(1), id)
    }
}

/// Whether there is a checkpoint of the node at the position, or what is there instead.
pub open spec fn position_check(
    segments: Seq<SegmentView>,
    node: u64,
    position: RecordPosition,
) -> Result<(), StorageError> {
    match find_segment(segments, position.segment.id) {
        None => Err(StorageError::IndexSegmentMissing),
        Some(bytes) => match header_check(bytes, false) {
            Err(error) => Err(error),
            Ok(_) => if position.offset < SEGMENT_FILE_HEADER_LEN {
                Err(StorageError::IndexOffsetPrecedesRecords)
            } else if bytes.len() < position.offset {
                Err(StorageError::IndexOffsetExceedsSegment)
            } else {
                match read_frame(bytes.skip(position.offset as int)) {
                    Err(error) => Err(error),
                    Ok(None) => Err(StorageError::IndexOffsetNotARecord),
                    Ok(Some(body)) => match parse_body(body) {
                        Err(error) => Err(error),
                        Ok(node_record) => if node_record.node_id.0 != node {
                            Err(StorageError::IndexNodeIdMismatch)
                        } else if !(node_record.record is SnapshotCheckpoint) {
                            Err(StorageError::IndexNotACheckpoint)
                        } else {
                            Ok(())
                        },
                    },
                }
            },
        },
    }
}

/// The first fault among the positions of the given nodes.
pub open spec fn positions_check(
    segments: Seq<SegmentView>,
    ids: Seq<u64>,
    index: IndexView,
) -> Result<(), StorageError>
    decreases ids.len(),
{
    if ids.len() == 0 {
        Ok(())
    } else {
        match position_check(segments, ids[0], index[ids[0]]) {
            Err(error) => Err(error),
            Ok(()) => positions_check(segments, ids.skip(1), index),
        }
    }
}

fn segment_with_id(segments: &Vec<Segment>, id: u64) -> (found: Option<&Segment>)
    ensures
        match find_segment(segments_view(segments@), id) {
            None => found is None,
            Some(bytes) => found is Some && found->0@.bytes == bytes,
        },
{
    let ghost view = segments_view(segments@);
    let mut i: usize = 0;
    assert(view.skip(0) =~= view);
    while i < segments.len()
        invariant
            i <= segments@.len(),
            view == segments_view(segments@),
            find_segment(view.skip(i as int), id) == find_segment(view, id),
        decreases segments@.len() - i,
    {
        assert(view.skip(i as int).skip(1) =~= view.skip(i + 1));
        assert(view[i as int] == segments@[i as int]@);
        if segments[i].name.id == id {
            return Some(&segments[i]);
        }
        i = i + 1;
    }
    None
}

/// Checks that a position has a checkpoint of the given node.
pub fn validate_checkpoint_position(
    segments: &Vec<Segment>,
    node_id: NodeId,
    position: RecordPosition,
) -> (result: Result<(), StorageError>)
    ensures
        result == position_check(segments_view(segments@), node_id.0, position),
{
    let segment = match segment_with_id(segments, position.segment.id) {
        None => {
            return Err(StorageError::IndexSegmentMissing);
        },
        Some(segment) => segment,
    };
    let bytes = segment.bytes.as_slice();
    check_segment_header(bytes, false)?;
    if position.offset < SEGMENT_FILE_HEADER_LEN as u64 {
        return Err(StorageError::IndexOffsetPrecedesRecords);
    }
    if (bytes.len() as u64) < position.offset {
        return Err(StorageError::IndexOffsetExceedsSegment);
    }
    let body = match read_record_body(bytes, position.offset as usize)? {
        None => {
            return Err(StorageError::IndexOffsetNotARecord);
        },
        Some(body) => body,
    };
    let node_record = decode_node_record(body)?;
    if node_record.node_id != node_id {
        return Err(StorageError::IndexNodeIdMismatch);
    }
    match node_record.record {
        Record::SnapshotCheckpoint(_) => Ok(()),
        _ => Err(StorageError::IndexNotACheckpoint),
    }
}

impl CheckpointIndex {
    /// Checks that every position in the index has a checkpoint of its node.
    pub fn validate_checkpoint_positions(
        &self,
        segments: &Vec<Segment>,
    ) -> (result: Result<(), StorageError>)
        ensures
            result == positions_check(segments_view(segments@), ascending(self@.dom()), self@),
    {
        let keys = map_keys(&self.nodes);
        let ghost view = segments_view(segments@);
        let mut i: usize = 0;
        proof {
            ascending_sound(self@.dom());
            assert(keys@.skip(0) =~= keys@);
        }
        while i < keys.len()
            invariant
                i <= keys@.len(),
                view == segments_view(segments@),
                keys@ == ascending(self@.dom()),
                keys@.to_set() == self@.dom(),
                positions_check(view, keys@.skip(i as int), self@) == positions_check(
                    view,
                    keys@,
                    self@,
                ),
            decreases keys@.len() - i,
        {
            let key: u64 = keys[i];
            proof {
                assert(keys@.skip(i as int).skip(1) =~= keys@.skip(i + 1));
                assert(keys@.to_set().contains(key));
            }
            if let Some(position) = self.nodes.get(&key) {
                validate_checkpoint_position(segments, NodeId(key), *position)?;
            }
            i = i + 1;
        }
        Ok(())
    }
}

// ---------------------------------------------------------------------------------------
// The index file
// ---------------------------------------------------------------------------------------

/// The members of the JSON object of one position.
pub open spec fn position_members(position: RecordPosition) -> Members {
    seq![
        ("checkpoint_segment"@, quoted(segment_file_name(position.segment.id))),
        ("checkpoint_offset"@, decimal(position.offset as nat)),
    ]
}

/// The JSON text of one position.
pub open spec fn position_text(position: RecordPosition) -> Seq<char> {
    object_text(indented(2), position_members(position))
}

/// The members of the JSON object of the given nodes.
pub open spec fn positions_members(ids: Seq<u64>, index: IndexView) -> Members {
    ids.map_values(|id: u64| (decimal(id as nat), position_text(index[id])))
}

/// The members of the JSON object of an index.
pub open spec fn index_members(index: IndexView) -> Members {
    seq![
        ("version"@, decimal(CHECKPOINT_INDEX_VERSION as nat)),
        ("nodes"@, object_text(indented(1), positions_members(ascending(index.dom()), index))),
    ]
}

/// The text of the index file.
pub open spec fn index_text(index: IndexView) -> Seq<char> {
    object_text(indented(0), index_members(index)) + "\n"@
}

fn format_position(position: RecordPosition) -> (text: String)
    ensures
        text@ == position_text(position),
{
    let mut writer = ObjectWriter::indented(2);
    writer.member(
        "checkpoint_segment",
        quote(position.segment.file_name().as_str()).as_str(),
    );
    writer.member("checkpoint_offset", u64_to_decimal(position.offset).as_str());
    assert(writer.members() =~= position_members(position));
    writer.finish()
}

/// Formats the index file.
pub fn format_checkpoint_index(index: &CheckpointIndex) -> (text: String)
    ensures
        text@ == index_text(index@),
{
    let keys = map_keys(&index.nodes);
    let ghost view = index@;
    let mut nodes = ObjectWriter::indented(1);
    let mut i: usize = 0;
    proof {
        ascending_sound(view.dom());
        assert(nodes.members() =~= positions_members(keys@.take(0), view));
    }
    while i < keys.len()
        invariant
            i <= keys@.len(),
            view == index@,
            keys@.to_set() == view.dom(),
            nodes.wf(),
            nodes.style() == indented(1),
            nodes.members() == positions_members(keys@.take(i as int), view),
        decreases keys@.len() - i,
    {
        let key: u64 = keys[i];
        assert(keys@.to_set().contains(key));
        if let Some(position) = index.nodes.get(&key) {
            nodes.member(u64_to_decimal(key).as_str(), format_position(*position).as_str());
        }
        assert(nodes.members() =~= positions_members(keys@.take(i + 1), view));
        i = i + 1;
    }
    assert(keys@.take(i as int) =~= keys@);
    let mut writer = ObjectWriter::indented(0);
    writer.member("version", u64_to_decimal(CHECKPOINT_INDEX_VERSION).as_str());
    writer.member("nodes", nodes.finish().as_str());
    assert(writer.members() =~= index_members(view));
    let mut text = writer.finish();
    text.append("\n");
    text
}

/// The segment with the given file name.
pub open spec fn named_segment(name: Seq<char>) -> Option<u64> {
    if exists|id: u64| name == #[trigger] segment_file_name(id) {
        Some(choose|id: u64| name == #[trigger] segment_file_name(id))
    } else {
        None
    }
}

/// What the JSON text of one position holds.
pub open spec fn parsed_position(text: Seq<char>) -> Result<RecordPosition, StorageError> {
    match required_member(text, "checkpoint_segment"@) {
        Err(error) => Err(error),
        Ok(segment) => match string_value(segment) {
            Err(error) => Err(error),
            Ok(name) => match named_segment(name) {
                None => Err(StorageError::JsonInvalidSegmentName),
                Some(id) => match required_member(text, "checkpoint_offset"@) {
                    Err(error) => Err(error),
                    Ok(offset) => match u64_value(offset) {
                        Err(error) => Err(error),
                        Ok(offset) => Ok(RecordPosition { segment: SegmentName { id }, offset }),
                    },
                },
            },
        },
    }
}

/// What the given members of the nodes object hold, added to `index`.
pub open spec fn parsed_positions(members: Members, index: IndexView) -> Result<
    IndexView,
    StorageError,
>
    decreases members.len(),
{
    if members.len() == 0 {
        Ok(index)
    } else {
        match parsed_u64(members[0].0) {
            None => Err(StorageError::JsonInvalidInteger),
            Some(id) => match parsed_position(members[0].1) {
                Err(error) => Err(error),
                Ok(position) => if index.contains_key(id) {
                    Err(StorageError::JsonDuplicateNodeId)
                } else {
                    parsed_positions(members.skip(1), index.insert(id, position))
                },
            },
        }
    }
}

/// What the text of an index file holds.
pub open spec fn parsed_index(text: Seq<char>) -> Result<IndexView, StorageError> {
    if !json_valid(text) {
        Err(StorageError::JsonSyntax)
    } else {
        match required_member(text, "version"@) {
            Err(error) => Err(error),
            Ok(version) => match u64_value(version) {
                Err(error) => Err(error),
                Ok(version) => if version != CHECKPOINT_INDEX_VERSION {
                    Err(StorageError::UnsupportedCheckpointIndexVersion)
                } else {
                    match required_member(text, "nodes"@) {
                        Err(error) => Err(error),
                        Ok(nodes) => if json_kind_of(nodes) != JsonKind::Object {
                            Err(StorageError::JsonUnexpectedKind)
                        } else {
                            parsed_positions(json_members_of(nodes), Map::empty())
                        },
                    }
                },
            },
        }
    }
}

proof fn decimal_simple(n: nat, depth: nat)
    ensures
        is_plain(decimal(n)),
        is_decimal(decimal(n)),
        is_simple_text(decimal(n), depth),
{
    decimal_value(n);
}

proof fn segment_name_plain(id: u64)
    ensures
        is_plain(segment_file_name(id)),
{
    reveal_strlit("append-");
    reveal_strlit(".segment");
    decimal_simple(id as nat, 0);
    let name = segment_file_name(id);
    let digits = decimal(id as nat);
    assert forall|i: int| 0 <= i < name.len() implies ' ' <= #[trigger] name[i] && name[i] <= '~'
        && name[i] != '"' && name[i] != '\\' by {
        if i < 7 {
            assert(name[i] == "append-"@[i]);
        } else if i < 7 + digits.len() {
            assert(name[i] == digits[i - 7]);
        } else {
            assert(name[i] == ".segment"@[i - 7 - digits.len()]);
        }
    }
}

proof fn plain_names()
    ensures
        is_plain("checkpoint_segment"@),
        is_plain("checkpoint_offset"@),
        is_plain("version"@),
        is_plain("nodes"@),
        "checkpoint_segment"@ != "checkpoint_offset"@,
        "version"@ != "nodes"@,
{
    reveal_strlit("checkpoint_segment");
    reveal_strlit("checkpoint_offset");
    reveal_strlit("version");
    reveal_strlit("nodes");
    assert("checkpoint_segment"@.len() == 18);
    assert("checkpoint_offset"@.len() == 17);
    assert("version"@.len() == 7);
    assert("nodes"@.len() == 5);
}

proof fn position_members_plain(position: RecordPosition)
    ensures
        are_plain_members(position_members(position)),
        is_simple_text(position_text(position), 1),
        is_object_text(position_text(position), position_members(position)),
        find_member(position_members(position), "checkpoint_segment"@) == Some(
            quoted(segment_file_name(position.segment.id)),
        ),
        find_member(position_members(position), "checkpoint_offset"@) == Some(
            decimal(position.offset as nat),
        ),
        named_segment(segment_file_name(position.segment.id)) == Some(position.segment.id),
{
    let members = position_members(position);
    plain_names();
    segment_name_plain(position.segment.id);
    decimal_simple(position.offset as nat, 0);
    decimal_simple(position.offset as nat, 2);
    reveal_with_fuel(find_member, 3);
    assert(members.skip(1)[0] == members[1]);
    assert forall|i: int| 0 <= i < members.len() implies is_plain((#[trigger] members[i]).0)
        && is_simple_text(members[i].1, 0) && is_value_text(members[i].1, 2) by {}
    assert(position_text(position) == object_text(indented(2), members));
    let name = segment_file_name(position.segment.id);
    let id = choose|id: u64| name == #[trigger] segment_file_name(id);
    segment_file_name_injective(id, position.segment.id);
}

proof fn positions_members_plain(index: IndexView)
    ensures
        are_plain_members(positions_members(ascending(index.dom()), index)),
        is_simple_text(
            object_text(indented(1), positions_members(ascending(index.dom()), index)),
            2,
        ),
        is_object_text(
            object_text(indented(1), positions_members(ascending(index.dom()), index)),
            positions_members(ascending(index.dom()), index),
        ),
{
    let ids = ascending(index.dom());
    let members = positions_members(ids, index);
    assert forall|i: int| 0 <= i < members.len() implies is_plain((#[trigger] members[i]).0)
        && is_simple_text(members[i].1, 1) && is_value_text(members[i].1, 2) by {
        let id = ids[i];
        decimal_simple(id as nat, 0);
        position_members_plain(index[id]);
        assert(members[i] == (decimal(id as nat), position_text(index[id])));
        let inner = position_members(index[id]);
        assert forall|j: int| 0 <= j < inner.len() implies is_plain((#[trigger] inner[j]).0)
            && is_value_text(inner[j].1, 1) by {
            plain_names();
            segment_name_plain(index[id].segment.id);
            decimal_simple(index[id].offset as nat, 1);
        }
        assert(members[i].1 == object_text(indented(2), inner));
    }
    assert(object_text(indented(1), members) == object_text(indented(1), members));
}

proof fn index_members_plain(index: IndexView)
    ensures
        are_simple_members(index_members(index)),
        are_plain_members(index_members(index)),
        is_object_text(index_text(index), index_members(index)),
        find_member(index_members(index), "version"@) == Some(
            decimal(CHECKPOINT_INDEX_VERSION as nat),
        ),
        find_member(index_members(index), "nodes"@) == Some(
            object_text(indented(1), positions_members(ascending(index.dom()), index)),
        ),
{
    let members = index_members(index);
    plain_names();
    decimal_simple(CHECKPOINT_INDEX_VERSION as nat, 2);
    positions_members_plain(index);
    reveal_with_fuel(find_member, 3);
    assert(members.skip(1)[0] == members[1]);
    assert forall|i: int| 0 <= i < members.len() implies is_plain((#[trigger] members[i]).0)
        && is_simple_text(members[i].1, 2) && is_value_text(members[i].1, 2) by {
        simple_is_value(members[i].1, 2);
    }
    assert(index_text(index) == object_text(indented(0), members) + "\n"@);
}

fn parse_checkpoint_position(
    value: &nojson::RawJsonOwned,
) -> (result: Result<RecordPosition, StorageError>)
    ensures
        result == parsed_position(json_text(*value)),
        forall|position: RecordPosition|
            json_text(*value) == #[trigger] position_text(position) ==> result == Ok::<
                RecordPosition,
                StorageError,
            >(position),
{
    proof {
        assert forall|position: RecordPosition| json_text(*value) == #[trigger] position_text(
            position,
        ) implies is_object_text(json_text(*value), position_members(position))
            && are_plain_members(position_members(position)) by {
            position_members_plain(position);
        }
    }
    let segment_value = json_member(value, "checkpoint_segment")?;
    let segment_name = json_to_string(&segment_value);
    let offset_value = json_member(value, "checkpoint_offset");
    proof {
        assert forall|position: RecordPosition| json_text(*value) == #[trigger] position_text(
            position,
        ) implies {
            &&& json_kind_of(json_text(*value)) == JsonKind::Object
            &&& json_members_of(json_text(*value)) == position_members(position)
            &&& segment_name is Ok
            &&& segment_name->Ok_0@ == segment_file_name(position.segment.id)
            &&& named_segment(segment_name->Ok_0@) == Some(position.segment.id)
            &&& offset_value is Ok
            &&& json_text(offset_value->Ok_0) == decimal(position.offset as nat)
            &&& is_decimal(decimal(position.offset as nat))
            &&& parsed_u64(decimal(position.offset as nat)) == Some(position.offset)
        } by {
            position_members_plain(position);
            segment_name_plain(position.segment.id);
            decimal_simple(position.offset as nat, 0);
            decimal_round_trip(position.offset);
            assert(is_object_text(json_text(*value), position_members(position)));
            assert(json_text(segment_value) == quoted(segment_file_name(position.segment.id)));
        }
    }
    let segment_name = segment_name?;
    let segment = match SegmentName::parse_str(segment_name.as_str()) {
        None => {
            return Err(StorageError::JsonInvalidSegmentName);
        },
        Some(segment) => segment,
    };
    proof {
        let id = choose|id: u64| segment_name@ == #[trigger] segment_file_name(id);
        segment_file_name_injective(id, segment.id);
    }
    let offset_value = offset_value?;
    let offset: u64 = json_to_u64(&offset_value)?;
    Ok(RecordPosition { segment, offset })
}

/// One more node of an index file.
proof fn index_part_step(index: IndexView, i: int)
    requires
        0 <= i < ascending(index.dom()).len(),
    ensures
        ({
            let ids = ascending(index.dom());
            &&& index.contains_key(ids[i])
            &&& !index.restrict(ids.take(i).to_set()).contains_key(ids[i])
            &&& index.restrict(ids.take(i).to_set()).insert(ids[i], index[ids[i]])
                == index.restrict(ids.take(i + 1).to_set())
        }),
{
    let ids = ascending(index.dom());
    ascending_sound(index.dom());
    assert(ids.to_set().contains(ids[i]));
    let before = ids.take(i);
    let after = ids.take(i + 1);
    if before.contains(ids[i]) {
        let j = choose|j: int| 0 <= j < before.len() && before[j] == ids[i];
        assert(ids[j] == ids[i]);
    }
    assert forall|x: u64| after.contains(x) <==> before.contains(x) || x == ids[i] by {
        if after.contains(x) {
            let j = choose|j: int| 0 <= j < after.len() && after[j] == x;
            if j < i {
                assert(before[j] == x);
            }
        }
        if before.contains(x) {
            let j = choose|j: int| 0 <= j < before.len() && before[j] == x;
            assert(after[j] == x);
        }
        assert(after[i] == ids[i]);
    }
    assert(index.restrict(before.to_set()).insert(ids[i], index[ids[i]]) =~= index.restrict(
        after.to_set(),
    ));
}

proof fn index_part_ends(index: IndexView)
    ensures
        index.restrict(ascending(index.dom()).take(0).to_set()) == IndexView::empty(),
        index.restrict(
            ascending(index.dom()).take(ascending(index.dom()).len() as int).to_set(),
        ) == index,
{
    let ids = ascending(index.dom());
    ascending_sound(index.dom());
    assert(ids.take(0).to_set() =~= Set::empty());
    assert(ids.take(ids.len() as int) =~= ids);
    assert(index.restrict(ids.take(0).to_set()) =~= Map::empty());
    assert(index.restrict(ids.to_set()) =~= index);
}

fn parse_index_nodes(
    nodes: &nojson::RawJsonOwned,
) -> (result: Result<CheckpointIndex, StorageError>)
    ensures
        ({
            let expected = if json_kind_of(json_text(*nodes)) != JsonKind::Object {
                Err(StorageError::JsonUnexpectedKind)
            } else {
                parsed_positions(json_members_of(json_text(*nodes)), Map::empty())
            };
            match expected {
                Ok(index) => result is Ok && result->Ok_0@ == index,
                Err(error) => result is Err && result->Err_0 == error,
            }
        }),
        forall|written: IndexView|
            json_text(*nodes) == object_text(
                indented(1),
                #[trigger] positions_members(ascending(written.dom()), written),
            ) ==> result is Ok && result->Ok_0@ == written,
{
    let members = match json_members(nodes) {
        None => {
            proof {
                assert forall|written: IndexView|
                    json_text(*nodes) == object_text(
                        indented(1),
                        #[trigger] positions_members(ascending(written.dom()), written),
                    ) implies false by {
                    positions_members_plain(written);
                }
            }
            return Err(StorageError::JsonUnexpectedKind);
        },
        Some(members) => members,
    };
    let ghost view = members_view(members@);
    let ghost expected = parsed_positions(view, Map::empty());
    let mut index = CheckpointIndex::default();
    let mut i: usize = 0;
    proof {
        assert(view.skip(0) =~= view);
        assert forall|written: IndexView|
            json_text(*nodes) == object_text(
                indented(1),
                #[trigger] positions_members(ascending(written.dom()), written),
            ) implies view == positions_members(ascending(written.dom()), written) && index@
            == written.restrict(ascending(written.dom()).take(0).to_set()) by {
            positions_members_plain(written);
            index_part_ends(written);
        }
    }
    while i < members.len()
        invariant
            i <= members@.len(),
            view == members_view(members@),
            view == json_members_of(json_text(*nodes)),
            json_kind_of(json_text(*nodes)) == JsonKind::Object,
            expected == parsed_positions(view, Map::empty()),
            parsed_positions(view.skip(i as int), index@) == expected,
            forall|written: IndexView|
                json_text(*nodes) == object_text(
                    indented(1),
                    #[trigger] positions_members(ascending(written.dom()), written),
                ) ==> view == positions_members(ascending(written.dom()), written) && index@
                    == written.restrict(ascending(written.dom()).take(i as int).to_set()),
        decreases members@.len() - i,
    {
        proof {
            assert(view.skip(i as int).skip(1) =~= view.skip(i + 1));
            assert(view[i as int] == (members@[i as int].0@, json_text(members@[i as int].1)));
            assert forall|written: IndexView|
                json_text(*nodes) == object_text(
                    indented(1),
                    #[trigger] positions_members(ascending(written.dom()), written),
                ) implies {
                let id = ascending(written.dom())[i as int];
                &&& view[i as int] == (decimal(id as nat), position_text(written[id]))
                &&& parsed_u64(view[i as int].0) == Some(id)
                &&& !index@.contains_key(id)
                &&& index@.insert(id, written[id]) == written.restrict(
                    ascending(written.dom()).take(i + 1).to_set(),
                )
            } by {
                let id = ascending(written.dom())[i as int];
                index_part_step(written, i as int);
                decimal_round_trip(id);
            }
        }
        let node_id: u64 = match parse_u64_text(members[i].0.as_str()) {
            None => {
                return Err(StorageError::JsonInvalidInteger);
            },
            Some(node_id) => node_id,
        };
        let position = parse_checkpoint_position(&members[i].1)?;
        if index.nodes.contains_key(&node_id) {
            return Err(StorageError::JsonDuplicateNodeId);
        }
        index.nodes.insert(node_id, position);
        i = i + 1;
    }
    proof {
        assert forall|written: IndexView|
            json_text(*nodes) == object_text(
                indented(1),
                #[trigger] positions_members(ascending(written.dom()), written),
            ) implies index@ == written by {
            index_part_ends(written);
        }
    }
    Ok(index)
}

/// Reads an index file. The text of an index gives that index.
pub fn parse_checkpoint_index(text: &str) -> (result: Result<CheckpointIndex, StorageError>)
    ensures
        match parsed_index(text@) {
            Ok(index) => result is Ok && result->Ok_0@ == index,
            Err(error) => result is Err && result->Err_0 == error,
        },
        forall|index: IndexView|
            text@ == #[trigger] index_text(index) ==> result is Ok && result->Ok_0@ == index,
{
    proof {
        assert forall|index: IndexView| text@ == #[trigger] index_text(index) implies {
            &&& is_object_text(text@, index_members(index))
            &&& are_plain_members(index_members(index))
            &&& are_simple_members(index_members(index))
        } by {
            index_members_plain(index);
        }
    }
    let value = match json_parse(text) {
        Err(_) => {
            return Err(StorageError::JsonSyntax);
        },
        Ok(value) => value,
    };
    let version_value = json_member(&value, "version")?;
    let nodes_value = json_member(&value, "nodes");
    let version_result: Result<u64, StorageError> = json_to_u64(&version_value);
    proof {
        assert forall|index: IndexView| text@ == #[trigger] index_text(index) implies {
            &&& version_result == Ok::<u64, StorageError>(CHECKPOINT_INDEX_VERSION)
            &&& nodes_value is Ok
            &&& json_text(nodes_value->Ok_0) == object_text(
                indented(1),
                positions_members(ascending(index.dom()), index),
            )
        } by {
            index_members_plain(index);
            decimal_simple(CHECKPOINT_INDEX_VERSION as nat, 0);
            decimal_round_trip(CHECKPOINT_INDEX_VERSION);
            assert(is_object_text(json_text(value), index_members(index)));
        }
    }
    let version: u64 = version_result?;
    if version != CHECKPOINT_INDEX_VERSION {
        return Err(StorageError::UnsupportedCheckpointIndexVersion);
    }
    let nodes_value = nodes_value?;
    parse_index_nodes(&nodes_value)
}

/// What is in force after an index file was read: the entries of active nodes, if each of
/// them points to a checkpoint of its node.
pub open spec fn loaded_index(
    text: Option<Seq<char>>,
    active: Set<u64>,
    segments: Seq<SegmentView>,
) -> Result<IndexView, StorageError> {
    match text {
        None => Ok(Map::empty()),
        Some(text) => match parsed_index(text) {
            Err(error) => Err(error),
            Ok(index) => {
                let kept = index.restrict(active);
                match positions_check(segments, ascending(kept.dom()), kept) {
                    Err(error) => Err(error),
                    Ok(()) => Ok(kept),
                }
            },
        },
    }
}

impl CheckpointIndex {
    /// Loads the index from the text of its file, if there is one.
    pub fn load(
        text: Option<&str>,
        registry: &NodeRegistry,
        segments: &Vec<Segment>,
    ) -> (result: Result<Self, StorageError>)
        ensures
            match loaded_index(
                match text {
                    None => None,
                    Some(text) => Some(text@),
                },
                active_nodes(registry@),
                segments_view(segments@),
            ) {
                Ok(index) => result is Ok && result->Ok_0@ == index,
                Err(error) => result is Err && result->Err_0 == error,
            },
            text matches Some(text) ==> forall|index: IndexView|
                text@ == #[trigger] index_text(index) ==> parsed_index(text@) == Ok::<
                    IndexView,
                    StorageError,
                >(index),
    {
        let text = match text {
            None => {
                return Ok(CheckpointIndex::default());
            },
            Some(text) => text,
        };
        let mut index = parse_checkpoint_index(text)?;
        index.retain_active(registry);
        index.validate_checkpoint_positions(segments)?;
        Ok(index)
    }
}

} // verus!
