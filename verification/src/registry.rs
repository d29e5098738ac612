//! Node registry metadata.

use crate::decimal::{parse_u64_text, u64_to_decimal};
use crate::error::StorageError;
use crate::json::{
    json_as_text, json_member, json_members, json_parse, json_to_bool, json_to_u64,
};
use crate::json_text::ObjectWriter;
use crate::ordered::map_keys;
use crate::raft::NodeId;
use std::collections::{BTreeMap, BTreeSet};
use vstd::prelude::*;
use vstd::string::StringExecFns;

verus! {

use crate::decimal::{decimal, decimal_round_trip, decimal_value, is_decimal, parsed_u64};
use crate::json::{
    are_plain_members, bool_value, find_member, is_object_text, is_plain, is_trimmed,
    is_value_text, json_kind_of, json_members_of, json_text, json_valid, members_view,
    required_member, u64_value, JsonKind,
};
use crate::json_text::{indented, object_text, Members};
use crate::ordered::{ahead_of, all_ahead, ascending, ascending_sound, strictly_increasing};

broadcast use {vstd::std_specs::btree::group_btree_axioms, vstd::laws_cmp::group_laws_cmp};

/// Version of the node registry file.
pub const NODE_REGISTRY_VERSION: u64 = 1;

/// Application-defined metadata for a Raft node.
///
/// The `startup` flag is interpreted for startup discovery. The JSON metadata is stored and
/// returned without application-specific interpretation.
#[derive(Debug, PartialEq, Eq)]
pub struct NodeMetadata {
    startup: bool,
    metadata: nojson::RawJsonOwned,
}

/// The contents of a [`NodeMetadata`].
#[verifier::ext_equal]
pub struct MetadataView {
    pub startup: bool,
    pub metadata: Seq<char>,
}

impl View for NodeMetadata {
    type V = MetadataView;

    closed spec fn view(&self) -> MetadataView {
        MetadataView { startup: self.startup, metadata: json_text(self.metadata) }
    }
}

impl NodeMetadata {
    /// Makes node metadata.
    pub fn new(startup: bool, metadata: nojson::RawJsonOwned) -> (this: Self)
        ensures
            this@ == (MetadataView { startup, metadata: json_text(metadata) }),
    {
        Self { startup, metadata }
    }

    /// Returns whether this node is marked for process startup.
    pub fn startup(&self) -> (startup: bool)
        ensures
            startup == self@.startup,
    {
        self.startup
    }

    /// Returns application-defined opaque JSON metadata.
    pub fn metadata(&self) -> (metadata: &nojson::RawJsonOwned)
        ensures
            json_text(*metadata) == self@.metadata,
    {
        &self.metadata
    }

    /// Converts this value into application-defined opaque JSON metadata.
    pub fn into_metadata(self) -> (metadata: nojson::RawJsonOwned)
        ensures
            json_text(metadata) == self@.metadata,
    {
        self.metadata
    }
}

impl Default for NodeMetadata {
    fn default() -> (this: Self)
        ensures
            this@ == (MetadataView { startup: false, metadata: "{}"@ }),
    {
        Self { startup: false, metadata: json_parse("{}").unwrap() }
    }
}

impl Clone for NodeMetadata {
    fn clone(&self) -> (copy: Self)
        ensures
            copy@ == self@,
    {
        Self { startup: self.startup, metadata: self.metadata.clone() }
    }
}

/// What the registry knows of one node.
#[derive(Debug, PartialEq, Eq)]
pub struct NodeRegistryEntry {
    /// Metadata given at creation.
    pub metadata: NodeMetadata,
    /// Whether the node was removed. Its ID stays reserved.
    pub removed: bool,
}

/// The contents of a [`NodeRegistryEntry`].
#[verifier::ext_equal]
pub struct RegistryEntryView {
    pub metadata: MetadataView,
    pub removed: bool,
}

impl View for NodeRegistryEntry {
    type V = RegistryEntryView;

    open spec fn view(&self) -> RegistryEntryView {
        RegistryEntryView { metadata: self.metadata@, removed: self.removed }
    }
}

impl Clone for NodeRegistryEntry {
    fn clone(&self) -> (copy: Self)
        ensures
            copy@ == self@,
    {
        Self { metadata: self.metadata.clone(), removed: self.removed }
    }
}

/// The contents of a registry: what is known of each node that was ever created.
pub type RegistryView = Map<u64, RegistryEntryView>;

/// The nodes that were created and not removed.
pub open spec fn active_nodes(registry: RegistryView) -> Set<u64> {
    Set::new(|node: u64| registry.contains_key(node) && !registry[node].removed)
}

/// The nodes that were removed.
pub open spec fn removed_nodes(registry: RegistryView) -> Set<u64> {
    Set::new(|node: u64| registry.contains_key(node) && registry[node].removed)
}

/// The active nodes that are marked for process startup.
pub open spec fn startup_nodes(registry: RegistryView) -> Set<u64> {
    Set::new(
        |node: u64|
            registry.contains_key(node) && !registry[node].removed && registry[node].metadata.startup,
    )
}

/// The registry after a node was created.
pub open spec fn with_created(
    registry: RegistryView,
    node: u64,
    metadata: MetadataView,
) -> RegistryView {
    registry.insert(node, RegistryEntryView { metadata, removed: false })
}

/// The registry after a node was removed.
pub open spec fn with_removed(registry: RegistryView, node: u64) -> RegistryView {
    registry.insert(node, RegistryEntryView { removed: true, ..registry[node] })
}

/// All nodes that were ever created.
#[derive(Debug, PartialEq, Eq)]
pub struct NodeRegistry {
    nodes: BTreeMap<u64, NodeRegistryEntry>,
}

impl View for NodeRegistry {
    type V = RegistryView;

    closed spec fn view(&self) -> RegistryView {
        self.nodes@.map_values(|entry: NodeRegistryEntry| entry@)
    }
}

impl Default for NodeRegistry {
    fn default() -> (registry: Self)
        ensures
            registry@ == RegistryView::empty(),
    {
        let registry = Self { nodes: BTreeMap::new() };
        assert(registry@ =~= Map::empty());
        registry
    }
}

impl Clone for NodeRegistry {
    fn clone(&self) -> (copy: Self)
        ensures
            copy@ == self@,
    {
        Self { nodes: self.nodes.clone() }
    }
}

impl NodeRegistry {
    /// Registers a node. An ID can be registered only once, even if the node was removed.
    pub fn create_node(
        &mut self,
        node_id: NodeId,
        metadata: NodeMetadata,
    ) -> (result: Result<(), StorageError>)
        ensures
            old(self)@.contains_key(node_id.0) ==> result == Err::<(), StorageError>(
                StorageError::NodeAlreadyExists,
            ) && final(self)@ == old(self)@,
            !old(self)@.contains_key(node_id.0) ==> result is Ok && final(self)@ == with_created(
                old(self)@,
                node_id.0,
                metadata@,
            ),
    {
        if self.nodes.contains_key(&node_id.0) {
            return Err(StorageError::NodeAlreadyExists);
        }
        let ghost view = metadata@;
        self.nodes.insert(node_id.0, NodeRegistryEntry { metadata, removed: false });
        assert(self@ =~= with_created(old(self)@, node_id.0, view));
        Ok(())
    }

    /// Marks a node as removed.
    pub fn remove_node(&mut self, node_id: NodeId) -> (result: Result<(), StorageError>)
        ensures
            !old(self)@.contains_key(node_id.0) ==> result == Err::<(), StorageError>(
                StorageError::NodeNotFound,
            ) && final(self)@ == old(self)@,
            removed_nodes(old(self)@).contains(node_id.0) ==> result == Err::<(), StorageError>(
                StorageError::NodeRemoved,
            ) && final(self)@ == old(self)@,
            active_nodes(old(self)@).contains(node_id.0) ==> result is Ok && final(self)@
                == with_removed(old(self)@, node_id.0),
    {
        let removed: bool = match self.nodes.get(&node_id.0) {
            None => {
                return Err(StorageError::NodeNotFound);
            },
            Some(entry) => entry.removed,
        };
        if removed {
            return Err(StorageError::NodeRemoved);
        }
        if let Some(entry) = self.nodes.remove(&node_id.0) {
            let entry = NodeRegistryEntry { metadata: entry.metadata, removed: true };
            self.nodes.insert(node_id.0, entry);
        }
        assert(self@ =~= with_removed(old(self)@, node_id.0));
        Ok(())
    }

    /// Tells whether a node was created and not removed.
    pub fn is_active(&self, node_id: NodeId) -> (active: bool)
        ensures
            active == active_nodes(self@).contains(node_id.0),
    {
        match self.nodes.get(&node_id.0) {
            None => false,
            Some(entry) => !entry.removed,
        }
    }

    /// Tells whether a node was removed.
    pub fn is_removed(&self, node_id: NodeId) -> (removed: bool)
        ensures
            removed == removed_nodes(self@).contains(node_id.0),
    {
        match self.nodes.get(&node_id.0) {
            None => false,
            Some(entry) => entry.removed,
        }
    }

    /// Returns the metadata of an active node.
    pub fn metadata(&self, node_id: NodeId) -> (metadata: Option<&NodeMetadata>)
        ensures
            metadata is Some <==> active_nodes(self@).contains(node_id.0),
            metadata is Some ==> metadata->0@ == self@[node_id.0].metadata,
    {
        match self.nodes.get(&node_id.0) {
            None => None,
            Some(entry) => {
                if entry.removed {
                    None
                } else {
                    Some(&entry.metadata)
                }
            },
        }
    }

    /// Returns all active nodes and their metadata in ascending order of their IDs.
    pub fn nodes(&self) -> (nodes: Vec<(NodeId, &NodeMetadata)>)
        ensures
            lists_nodes(nodes@, self@, active_nodes(self@)),
    {
        self.collect_nodes(false)
    }

    /// Returns active nodes marked for process startup and their metadata in ascending order
    /// of their IDs.
    pub fn startup_nodes(&self) -> (nodes: Vec<(NodeId, &NodeMetadata)>)
        ensures
            lists_nodes(nodes@, self@, startup_nodes(self@)),
    {
        self.collect_nodes(true)
    }

    fn collect_nodes(&self, startup_only: bool) -> (nodes: Vec<(NodeId, &NodeMetadata)>)
        ensures
            lists_nodes(
                nodes@,
                self@,
                if startup_only {
                    startup_nodes(self@)
                } else {
                    active_nodes(self@)
                },
            ),
    {
        let ghost wanted = if startup_only {
            startup_nodes(self@)
        } else {
            active_nodes(self@)
        };
        let keys = map_keys(&self.nodes);
        let mut nodes: Vec<(NodeId, &NodeMetadata)> = Vec::new();
        let ghost mut ids: Seq<u64> = Seq::empty();
        let mut i: usize = 0;
        proof {
            all_ahead(self.nodes@.dom());
            assert(keys@.skip(0) =~= keys@);
        }
        while i < keys.len()
            invariant
                i <= keys@.len(),
                strictly_increasing(keys@),
                forall|key: u64| #[trigger]
                    keys@.contains(key) ==> self.nodes@.contains_key(key),
                wanted == (if startup_only {
                    startup_nodes(self@)
                } else {
                    active_nodes(self@)
                }),
                strictly_increasing(ids),
                forall|k: int| 0 <= k < ids.len() && i < keys@.len() ==> #[trigger] ids[k]
                    < keys@[i as int],
                forall|key: u64| #[trigger]
                    ids.contains(key) <==> wanted.contains(key) && !keys@.skip(i as int).contains(key),
                nodes@.len() == ids.len(),
                forall|k: int|
                    0 <= k < ids.len() ==> (#[trigger] nodes@[k]).0.0 == ids[k] && nodes@[k].1@
                        == self@[ids[k]].metadata,
                forall|key: u64| wanted.contains(key) ==> self.nodes@.contains_key(key),
            decreases keys@.len() - i,
        {
            let key: u64 = keys[i];
            let ghost before = ids;
            proof {
                assert(keys@.contains(key));
                ahead_of(keys@, i as int);
            }
            if let Some(entry) = self.nodes.get(&key) {
                if !entry.removed && (!startup_only || entry.metadata.startup) {
                    nodes.push((NodeId(key), &entry.metadata));
                    proof {
                        ids = ids.push(key);
                        assert forall|k: u64| #[trigger] ids.contains(k) <==> k == key || before.contains(
                            k,
                        ) by {
                            if before.contains(k) {
                                let j = choose|j: int| 0 <= j < before.len() && before[j] == k;
                                assert(ids[j] == k);
                            }
                            assert(ids[before.len() as int] == key);
                        }
                    }
                }
            }
            i = i + 1;
        }
        proof {
            assert(ids.to_set() =~= wanted);
            crate::ordered::ascending_unique(ids);
        }
        nodes
    }

    /// Returns the IDs of all active nodes.
    pub fn active_node_ids(&self) -> (ids: BTreeSet<u64>)
        ensures
            ids@ == active_nodes(self@),
    {
        let nodes = self.nodes();
        let mut ids: BTreeSet<u64> = BTreeSet::new();
        let ghost list = ascending(active_nodes(self@));
        let mut i: usize = 0;
        assert(list.take(0).to_set() =~= Set::empty());
        while i < nodes.len()
            invariant
                i <= nodes@.len(),
                nodes@.len() == list.len(),
                forall|k: int| 0 <= k < list.len() ==> (#[trigger] nodes@[k]).0.0 == list[k],
                forall|id: u64| #[trigger] ids@.contains(id) <==> list.take(i as int).contains(id),
            decreases nodes@.len() - i,
        {
            ids.insert(nodes[i].0.0);
            proof {
                let before = list.take(i as int);
                let after = list.take(i + 1);
                assert(after =~= before.push(list[i as int]));
                assert forall|id: u64| after.contains(id) <==> before.contains(id) || id
                    == list[i as int] by {
                    if before.contains(id) {
                        let j = choose|j: int| 0 <= j < before.len() && before[j] == id;
                        assert(after[j] == id);
                    }
                    assert(after[i as int] == list[i as int]);
                }
            }
            i = i + 1;
        }
        proof {
            assert(list.take(i as int) =~= list);
            ascending_sound(active_nodes(self@));
            assert forall|id: u64| ids@.contains(id) <==> active_nodes(self@).contains(id) by {
                assert(list.to_set().contains(id) <==> list.contains(id));
            }
            assert(ids@ =~= active_nodes(self@));
        }
        ids
    }

    /// Returns how many nodes are active.
    pub fn active_node_count(&self) -> (count: usize)
        ensures
            count == active_nodes(self@).len(),
    {
        let nodes = self.nodes();
        proof {
            ascending_sound(active_nodes(self@));
        }
        nodes.len()
    }

    /// Returns how many nodes were removed.
    pub fn removed_node_count(&self) -> (count: usize)
        ensures
            count == removed_nodes(self@).len(),
    {
        let active: usize = self.active_node_count();
        let all: usize = self.nodes.len();
        proof {
            let a = active_nodes(self@);
            let r = removed_nodes(self@);
            assert(a.union(r) =~= self.nodes@.dom());
            assert(a.intersect(r) =~= Set::empty());
            ascending_sound(a);
            ascending_sound(r);
            vstd::set_lib::lemma_set_disjoint_lens(a, r);
        }
        all - active
    }
}

/// Whether `nodes` lists the given nodes of a registry in ascending order, with their
/// metadata.
pub open spec fn lists_nodes(
    nodes: Seq<(NodeId, &NodeMetadata)>,
    registry: RegistryView,
    ids: Set<u64>,
) -> bool {
    &&& nodes.len() == ascending(ids).len()
    &&& forall|i: int|
        0 <= i < nodes.len() ==> (#[trigger] nodes[i]).0.0 == ascending(ids)[i] && nodes[i].1@
            == registry[ascending(ids)[i]].metadata
}

// ---------------------------------------------------------------------------------------
// The registry file
// ---------------------------------------------------------------------------------------

/// The JSON text of a truth value.
pub open spec fn bool_text(value: bool) -> Seq<char> {
    if value {
        "true"@
    } else {
        "false"@
    }
}

/// The members of the JSON object of one registry entry.
pub open spec fn entry_members(entry: RegistryEntryView) -> Members {
    seq![
        ("startup"@, bool_text(entry.metadata.startup)),
        ("metadata"@, entry.metadata.metadata),
        ("removed"@, bool_text(entry.removed)),
    ]
}

/// The JSON text of one registry entry.
pub open spec fn entry_text(entry: RegistryEntryView) -> Seq<char> {
    object_text(indented(2), entry_members(entry))
}

/// The members of the JSON object of the given nodes.
pub open spec fn nodes_members(ids: Seq<u64>, registry: RegistryView) -> Members {
    ids.map_values(|id: u64| (decimal(id as nat), entry_text(registry[id])))
}

/// The members of the JSON object of a registry.
pub open spec fn registry_members(registry: RegistryView) -> Members {
    seq![
        ("version"@, decimal(NODE_REGISTRY_VERSION as nat)),
        (
            "nodes"@,
            object_text(indented(1), nodes_members(ascending(registry.dom()), registry)),
        ),
    ]
}

/// The text of the registry file.
pub open spec fn registry_text(registry: RegistryView) -> Seq<char> {
    object_text(indented(0), registry_members(registry)) + "\n"@
}

fn bool_json(value: bool) -> (text: &'static str)
    ensures
        text@ == bool_text(value),
{
    if value {
        "true"
    } else {
        "false"
    }
}

fn format_registry_entry(entry: &NodeRegistryEntry) -> (text: String)
    ensures
        text@ == entry_text(entry@),
{
    let mut writer = ObjectWriter::indented(2);
    writer.member("startup", bool_json(entry.metadata.startup));
    writer.member("metadata", json_as_text(&entry.metadata.metadata));
    writer.member("removed", bool_json(entry.removed));
    assert(writer.members() =~= entry_members(entry@));
    writer.finish()
}

/// Formats the registry file.
pub fn format_node_registry(registry: &NodeRegistry) -> (text: String)
    ensures
        text@ == registry_text(registry@),
{
    let keys = map_keys(&registry.nodes);
    let ghost view = registry@;
    let mut nodes = ObjectWriter::indented(1);
    let mut i: usize = 0;
    proof {
        ascending_sound(registry.nodes@.dom());
        assert(view.dom() =~= registry.nodes@.dom());
        assert(nodes.members() =~= nodes_members(keys@.take(0), view));
    }
    while i < keys.len()
        invariant
            i <= keys@.len(),
            view == registry@,
            keys@.to_set() == registry.nodes@.dom(),
            nodes.wf(),
            nodes.style() == indented(1),
            nodes.members() == nodes_members(keys@.take(i as int), view),
        decreases keys@.len() - i,
    {
        let key: u64 = keys[i];
        assert(keys@.to_set().contains(key));
        if let Some(entry) = registry.nodes.get(&key) {
            nodes.member(u64_to_decimal(key).as_str(), format_registry_entry(entry).as_str());
        }
        assert(nodes.members() =~= nodes_members(keys@.take(i + 1), view));
        i = i + 1;
    }
    assert(keys@.take(i as int) =~= keys@);
    let mut writer = ObjectWriter::indented(0);
    writer.member("version", u64_to_decimal(NODE_REGISTRY_VERSION).as_str());
    writer.member("nodes", nodes.finish().as_str());
    assert(writer.members() =~= registry_members(view));
    let mut text = writer.finish();
    text.append("\n");
    text
}

/// What the JSON text of one registry entry holds.
pub open spec fn parsed_entry(text: Seq<char>) -> Result<RegistryEntryView, StorageError> {
    match required_member(text, "startup"@) {
        Err(error) => Err(error),
        Ok(startup) => match bool_value(startup) {
            Err(error) => Err(error),
            Ok(startup) => match required_member(text, "metadata"@) {
                Err(error) => Err(error),
                Ok(metadata) => match required_member(text, "removed"@) {
                    Err(error) => Err(error),
                    Ok(removed) => match bool_value(removed) {
                        Err(error) => Err(error),
                        Ok(removed) => Ok(
                            RegistryEntryView {
                                metadata: MetadataView { startup, metadata },
                                removed,
                            },
                        ),
                    },
                },
            },
        },
    }
}

/// What the given members of the nodes object hold, added to `registry`.
pub open spec fn parsed_nodes(members: Members, registry: RegistryView) -> Result<
    RegistryView,
    StorageError,
>
    decreases members.len(),
{
    if members.len() == 0 {
        Ok(registry)
    } else {
        match parsed_u64(members[0].0) {
            None => Err(StorageError::JsonInvalidInteger),
            Some(id) => match parsed_entry(members[0].1) {
                Err(error) => Err(error),
                Ok(entry) => if registry.contains_key(id) {
                    Err(StorageError::JsonDuplicateNodeId)
                } else {
                    parsed_nodes(members.skip(1), registry.insert(id, entry))
                },
            },
        }
    }
}

/// What the text of a registry file holds.
pub open spec fn parsed_registry(text: Seq<char>) -> Result<RegistryView, StorageError> {
    if !json_valid(text) {
        Err(StorageError::JsonSyntax)
    } else {
        match required_member(text, "version"@) {
            Err(error) => Err(error),
            Ok(version) => match u64_value(version) {
                Err(error) => Err(error),
                Ok(version) => if version != NODE_REGISTRY_VERSION {
                    Err(StorageError::UnsupportedNodeRegistryVersion)
                } else {
                    match required_member(text, "nodes"@) {
                        Err(error) => Err(error),
                        Ok(nodes) => if json_kind_of(nodes) != JsonKind::Object {
                            Err(StorageError::JsonUnexpectedKind)
                        } else {
                            parsed_nodes(json_members_of(nodes), Map::empty())
                        },
                    }
                },
            },
        }
    }
}

/// Whether the metadata of all nodes reads back as it is written: valid JSON without
/// whitespace around it.
pub open spec fn metadata_reads_back(registry: RegistryView) -> bool {
    forall|id: u64| #[trigger]
        registry.contains_key(id) ==> json_valid(registry[id].metadata.metadata) && is_trimmed(
            registry[id].metadata.metadata,
        )
}

proof fn plain_names()
    ensures
        is_plain("startup"@),
        is_plain("metadata"@),
        is_plain("removed"@),
        is_plain("version"@),
        is_plain("nodes"@),
        "startup"@ != "metadata"@,
        "startup"@ != "removed"@,
        "metadata"@ != "removed"@,
        "version"@ != "nodes"@,
        "true"@ != "false"@,
{
    reveal_strlit("startup");
    reveal_strlit("metadata");
    reveal_strlit("removed");
    reveal_strlit("version");
    reveal_strlit("nodes");
    reveal_strlit("true");
    reveal_strlit("false");
    assert("startup"@.len() == 7);
    assert("metadata"@.len() == 8);
    assert("removed"@.len() == 7);
    assert("startup"@[0] != "removed"@[0]);
    assert("version"@.len() == 7);
    assert("nodes"@.len() == 5);
    assert("true"@.len() == 4);
    assert("false"@.len() == 5);
}

proof fn entry_members_plain(entry: RegistryEntryView)
    requires
        json_valid(entry.metadata.metadata),
        is_trimmed(entry.metadata.metadata),
    ensures
        are_plain_members(entry_members(entry)),
        is_value_text(entry_text(entry), 1),
        is_object_text(entry_text(entry), entry_members(entry)),
        find_member(entry_members(entry), "startup"@) == Some(bool_text(entry.metadata.startup)),
        find_member(entry_members(entry), "metadata"@) == Some(entry.metadata.metadata),
        find_member(entry_members(entry), "removed"@) == Some(bool_text(entry.removed)),
{
    plain_names();
    let members = entry_members(entry);
    reveal_with_fuel(find_member, 4);
    assert(members.skip(1)[0] == members[1]);
    assert(members.skip(1).skip(1)[0] == members[2]);
    assert forall|i: int| 0 <= i < members.len() implies is_plain((#[trigger] members[i]).0)
        && is_value_text(members[i].1, 0) && is_value_text(members[i].1, 2) by {}
    assert(entry_text(entry) == object_text(indented(2), members));
}

fn parse_node_registry_entry(
    value: &nojson::RawJsonOwned,
) -> (result: Result<NodeRegistryEntry, StorageError>)
    ensures
        match parsed_entry(json_text(*value)) {
            Ok(entry) => result is Ok && result->Ok_0@ == entry,
            Err(error) => result is Err && result->Err_0 == error,
        },
        forall|entry: RegistryEntryView|
            json_text(*value) == #[trigger] entry_text(entry) && json_valid(entry.metadata.metadata)
                && is_trimmed(entry.metadata.metadata) ==> result is Ok && result->Ok_0@ == entry,
{
    proof {
        assert forall|entry: RegistryEntryView|
            json_text(*value) == #[trigger] entry_text(entry) && json_valid(entry.metadata.metadata)
                && is_trimmed(entry.metadata.metadata) implies is_object_text(
            json_text(*value),
            entry_members(entry),
        ) && are_plain_members(entry_members(entry)) by {
            entry_members_plain(entry);
        }
    }
    let startup = json_member(value, "startup")?;
    let metadata = json_member(value, "metadata");
    let removed = json_member(value, "removed");
    let startup_flag: Result<bool, StorageError> = json_to_bool(&startup);
    proof {
        assert forall|entry: RegistryEntryView|
            json_text(*value) == #[trigger] entry_text(entry) && json_valid(entry.metadata.metadata)
                && is_trimmed(entry.metadata.metadata) implies {
            &&& json_kind_of(json_text(*value)) == JsonKind::Object
            &&& json_members_of(json_text(*value)) == entry_members(entry)
            &&& metadata is Ok
            &&& json_text(metadata->Ok_0) == entry.metadata.metadata
            &&& removed is Ok
            &&& json_text(removed->Ok_0) == bool_text(entry.removed)
            &&& json_text(startup) == bool_text(entry.metadata.startup)
            &&& startup_flag == Ok::<bool, StorageError>(entry.metadata.startup)
        } by {
            entry_members_plain(entry);
            plain_names();
            assert(is_object_text(json_text(*value), entry_members(entry)));
        }
    }
    let startup: bool = startup_flag?;
    let metadata = metadata?;
    let removed = removed?;
    let removed_flag: Result<bool, StorageError> = json_to_bool(&removed);
    proof {
        plain_names();
    }
    let removed: bool = removed_flag?;
    Ok(NodeRegistryEntry { metadata: NodeMetadata::new(startup, metadata), removed })
}

/// Whether the text is that of a registry file whose metadata reads back.
pub open spec fn is_registry_text(text: Seq<char>, registry: RegistryView) -> bool {
    text == registry_text(registry) && metadata_reads_back(registry)
}

proof fn decimal_plain(n: nat)
    ensures
        is_plain(decimal(n)),
        is_decimal(decimal(n)),
{
    decimal_value(n);
}

proof fn nodes_members_plain(registry: RegistryView)
    requires
        metadata_reads_back(registry),
    ensures
        are_plain_members(nodes_members(ascending(registry.dom()), registry)),
        is_value_text(
            object_text(indented(1), nodes_members(ascending(registry.dom()), registry)),
            2,
        ),
        is_object_text(
            object_text(indented(1), nodes_members(ascending(registry.dom()), registry)),
            nodes_members(ascending(registry.dom()), registry),
        ),
{
    let ids = ascending(registry.dom());
    let members = nodes_members(ids, registry);
    ascending_sound(registry.dom());
    assert forall|i: int| 0 <= i < members.len() implies is_plain((#[trigger] members[i]).0)
        && is_value_text(members[i].1, 1) && is_value_text(members[i].1, 2) by {
        let id = ids[i];
        assert(ids.to_set().contains(id));
        assert(registry.contains_key(id));
        decimal_plain(id as nat);
        entry_members_plain(registry[id]);
        let inner = entry_members(registry[id]);
        assert(members[i] == (decimal(id as nat), entry_text(registry[id])));
        assert forall|j: int| 0 <= j < inner.len() implies is_plain((#[trigger] inner[j]).0)
            && is_value_text(inner[j].1, 1) by {
            plain_names();
        }
        assert(members[i].1 == object_text(indented(2), inner));
    }
    assert(object_text(indented(1), members) == object_text(indented(1), members));
}

proof fn registry_members_plain(registry: RegistryView)
    requires
        metadata_reads_back(registry),
    ensures
        are_plain_members(registry_members(registry)),
        is_object_text(registry_text(registry), registry_members(registry)),
        find_member(registry_members(registry), "version"@) == Some(
            decimal(NODE_REGISTRY_VERSION as nat),
        ),
        find_member(registry_members(registry), "nodes"@) == Some(
            object_text(indented(1), nodes_members(ascending(registry.dom()), registry)),
        ),
{
    let members = registry_members(registry);
    plain_names();
    decimal_plain(NODE_REGISTRY_VERSION as nat);
    nodes_members_plain(registry);
    reveal_with_fuel(find_member, 3);
    assert(members.skip(1)[0] == members[1]);
    assert forall|i: int| 0 <= i < members.len() implies is_plain((#[trigger] members[i]).0)
        && is_value_text(members[i].1, 2) by {}
    assert(registry_text(registry) == object_text(indented(0), members) + "\n"@);
}

/// The part of a registry that covers the given nodes.
pub open spec fn registry_part(registry: RegistryView, ids: Seq<u64>) -> RegistryView {
    registry.restrict(ids.to_set())
}

/// One more node of a registry file.
proof fn registry_part_step(registry: RegistryView, i: int)
    requires
        0 <= i < ascending(registry.dom()).len(),
    ensures
        ({
            let ids = ascending(registry.dom());
            &&& registry.contains_key(ids[i])
            &&& !registry_part(registry, ids.take(i)).contains_key(ids[i])
            &&& registry_part(registry, ids.take(i)).insert(ids[i], registry[ids[i]])
                == registry_part(registry, ids.take(i + 1))
        }),
{
    let ids = ascending(registry.dom());
    ascending_sound(registry.dom());
    assert(ids.to_set().contains(ids[i]));
    let before = ids.take(i);
    let after = ids.take(i + 1);
    if before.contains(ids[i]) {
        let j = choose|j: int| 0 <= j < before.len() && before[j] == ids[i];
        assert(ids[j] == ids[i]);
    }
    assert forall|x: u64| after.contains(x) <==> before.contains(x) || x == ids[i] by {
        if after.contains(x) {
            let j = choose|j: int| 0 <= j < after.len() && after[j] == x;
            if j < i {
                assert(before[j] == x);
            }
        }
        if before.contains(x) {
            let j = choose|j: int| 0 <= j < before.len() && before[j] == x;
            assert(after[j] == x);
        }
        assert(after[i] == ids[i]);
    }
    assert(registry_part(registry, before).insert(ids[i], registry[ids[i]]) =~= registry_part(
        registry,
        after,
    ));
}

proof fn registry_part_ends(registry: RegistryView)
    ensures
        registry_part(registry, ascending(registry.dom()).take(0)) == RegistryView::empty(),
        registry_part(
            registry,
            ascending(registry.dom()).take(ascending(registry.dom()).len() as int),
        ) == registry,
{
    let ids = ascending(registry.dom());
    ascending_sound(registry.dom());
    assert(ids.take(0).to_set() =~= Set::empty());
    assert(ids.take(ids.len() as int) =~= ids);
    assert(registry_part(registry, ids.take(0)) =~= Map::empty());
    assert(registry_part(registry, ids) =~= registry);
}

fn parse_registry_nodes(
    nodes: &nojson::RawJsonOwned,
) -> (result: Result<NodeRegistry, StorageError>)
    ensures
        ({
            let expected = if json_kind_of(json_text(*nodes)) != JsonKind::Object {
                Err(StorageError::JsonUnexpectedKind)
            } else {
                parsed_nodes(json_members_of(json_text(*nodes)), Map::empty())
            };
            match expected {
                Ok(registry) => result is Ok && result->Ok_0@ == registry,
                Err(error) => result is Err && result->Err_0 == error,
            }
        }),
        forall|registry: RegistryView| #[trigger]
            metadata_reads_back(registry) && json_text(*nodes) == object_text(
                indented(1),
                nodes_members(ascending(registry.dom()), registry),
            ) ==> result is Ok && result->Ok_0@ == registry,
{
    let members = match json_members(nodes) {
        None => {
            proof {
                assert forall|registry: RegistryView| #[trigger]
                    metadata_reads_back(registry) && json_text(*nodes) == object_text(
                        indented(1),
                        nodes_members(ascending(registry.dom()), registry),
                    ) implies false by {
                    nodes_members_plain(registry);
                }
            }
            return Err(StorageError::JsonUnexpectedKind);
        },
        Some(members) => members,
    };
    let ghost view = members_view(members@);
    let ghost expected = parsed_nodes(view, Map::empty());
    let mut registry = NodeRegistry::default();
    let mut i: usize = 0;
    proof {
        assert(view.skip(0) =~= view);
        assert forall|written: RegistryView| #[trigger]
            metadata_reads_back(written) && json_text(*nodes) == object_text(
                indented(1),
                nodes_members(ascending(written.dom()), written),
            ) implies view == nodes_members(ascending(written.dom()), written) && registry@
            == registry_part(written, ascending(written.dom()).take(0)) by {
            nodes_members_plain(written);
            registry_part_ends(written);
        }
    }
    while i < members.len()
        invariant
            i <= members@.len(),
            view == members_view(members@),
            view == json_members_of(json_text(*nodes)),
            json_kind_of(json_text(*nodes)) == JsonKind::Object,
            expected == parsed_nodes(view, Map::empty()),
            parsed_nodes(view.skip(i as int), registry@) == expected,
            forall|written: RegistryView| #[trigger]
                metadata_reads_back(written) && json_text(*nodes) == object_text(
                    indented(1),
                    nodes_members(ascending(written.dom()), written),
                ) ==> view == nodes_members(ascending(written.dom()), written) && registry@
                    == registry_part(written, ascending(written.dom()).take(i as int)),
        decreases members@.len() - i,
    {
        proof {
            assert(view.skip(i as int).skip(1) =~= view.skip(i + 1));
            assert(view[i as int] == (members@[i as int].0@, json_text(members@[i as int].1)));
            assert forall|written: RegistryView| #[trigger]
                metadata_reads_back(written) && json_text(*nodes) == object_text(
                    indented(1),
                    nodes_members(ascending(written.dom()), written),
                ) implies {
                let id = ascending(written.dom())[i as int];
                &&& view[i as int] == (decimal(id as nat), entry_text(written[id]))
                &&& parsed_u64(view[i as int].0) == Some(id)
                &&& json_valid(written[id].metadata.metadata)
                &&& is_trimmed(written[id].metadata.metadata)
                &&& !registry@.contains_key(id)
                &&& registry@.insert(id, written[id]) == registry_part(
                    written,
                    ascending(written.dom()).take(i + 1),
                )
            } by {
                let id = ascending(written.dom())[i as int];
                registry_part_step(written, i as int);
                decimal_round_trip(id);
                assert(written.contains_key(id));
            }
        }
        let node_id: u64 = match parse_u64_text(members[i].0.as_str()) {
            None => {
                return Err(StorageError::JsonInvalidInteger);
            },
            Some(node_id) => node_id,
        };
        let entry = parse_node_registry_entry(&members[i].1)?;
        if registry.nodes.contains_key(&node_id) {
            return Err(StorageError::JsonDuplicateNodeId);
        }
        let ghost before = registry@;
        let ghost entry_view = entry@;
        registry.nodes.insert(node_id, entry);
        assert(registry@ =~= before.insert(node_id, entry_view));
        i = i + 1;
    }
    proof {
        assert forall|written: RegistryView| #[trigger]
            metadata_reads_back(written) && json_text(*nodes) == object_text(
                indented(1),
                nodes_members(ascending(written.dom()), written),
            ) implies registry@ == written by {
            registry_part_ends(written);
        }
    }
    Ok(registry)
}

/// Reads a registry file. The text of a registry whose metadata reads back gives that
/// registry, wherever it is valid JSON; only metadata that is nested too deep for the JSON
/// parser makes it invalid.
pub fn parse_node_registry(text: &str) -> (result: Result<NodeRegistry, StorageError>)
    ensures
        match parsed_registry(text@) {
            Ok(registry) => result is Ok && result->Ok_0@ == registry,
            Err(error) => result is Err && result->Err_0 == error,
        },
        forall|registry: RegistryView| #[trigger]
            is_registry_text(text@, registry) && json_valid(text@) ==> result is Ok
                && result->Ok_0@ == registry,
{
    let value = match json_parse(text) {
        Err(_) => {
            return Err(StorageError::JsonSyntax);
        },
        Ok(value) => value,
    };
    proof {
        assert forall|registry: RegistryView| #[trigger] is_registry_text(text@, registry) implies {
            &&& is_object_text(text@, registry_members(registry))
            &&& are_plain_members(registry_members(registry))
        } by {
            registry_members_plain(registry);
        }
    }
    let version_value = json_member(&value, "version")?;
    let nodes_value = json_member(&value, "nodes");
    let version_result: Result<u64, StorageError> = json_to_u64(&version_value);
    proof {
        assert forall|registry: RegistryView| #[trigger] is_registry_text(text@, registry) implies {
            &&& version_result == Ok::<u64, StorageError>(NODE_REGISTRY_VERSION)
            &&& nodes_value is Ok
            &&& json_text(nodes_value->Ok_0) == object_text(
                indented(1),
                nodes_members(ascending(registry.dom()), registry),
            )
            &&& metadata_reads_back(registry)
        } by {
            registry_members_plain(registry);
            decimal_plain(NODE_REGISTRY_VERSION as nat);
            decimal_round_trip(NODE_REGISTRY_VERSION);
            assert(is_object_text(json_text(value), registry_members(registry)));
        }
    }
    let version: u64 = version_result?;
    if version != NODE_REGISTRY_VERSION {
        return Err(StorageError::UnsupportedNodeRegistryVersion);
    }
    let nodes_value = nodes_value?;
    parse_registry_nodes(&nodes_value)
}

} // verus!
