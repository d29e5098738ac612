//! Laws of the lists of nodes: which nodes they have, in which order, and how creations and
//! removals change them.

use vstd::prelude::*;

verus! {

use crate::error::StorageError;
use crate::ordered::{ascending, ascending_sound, members_below};
use crate::raft::NodeId;
use crate::registry::{
    active_nodes, lists_nodes, removed_nodes, startup_nodes, with_created, with_removed,
    MetadataView, NodeMetadata, RegistryView,
};
use crate::stats::NodeAccessErrorKind;
use crate::storage::EngineView;

/// The node IDs and the contents of the metadata in a list of nodes.
pub open spec fn listed(nodes: Seq<(NodeId, &NodeMetadata)>) -> Seq<(u64, MetadataView)> {
    nodes.map_values(|node: (NodeId, &NodeMetadata)| (node.0.0, node.1@))
}

/// Whether a list has the node.
pub open spec fn lists(nodes: Seq<(NodeId, &NodeMetadata)>, id: u64) -> bool {
    exists|i: int| 0 <= i < nodes.len() && (#[trigger] nodes[i]).0.0 == id
}

// ---------------------------------------------------------------------------------------
// Filtered lists
// ---------------------------------------------------------------------------------------

proof fn filter_push<A>(s: Seq<A>, x: A, keep: spec_fn(A) -> bool)
    ensures
        s.push(x).filter(keep) == (if keep(x) {
            s.filter(keep).push(x)
        } else {
            s.filter(keep)
        }),
{
    reveal(Seq::filter);
    assert(s.push(x).drop_last() =~= s);
}

proof fn filter_map<A, B>(s: Seq<A>, f: spec_fn(A) -> B, keep: spec_fn(B) -> bool)
    ensures
        s.map_values(f).filter(keep) == s.filter(|x: A| keep(f(x))).map_values(f),
    decreases s.len(),
{
    let wanted = |x: A| keep(f(x));
    if s.len() == 0 {
        reveal(Seq::filter);
        assert(s.map_values(f).filter(keep) =~= s.filter(wanted).map_values(f));
    } else {
        let front = s.drop_last();
        let last = s.last();
        assert(front.push(last) =~= s);
        assert(s.map_values(f) =~= front.map_values(f).push(f(last)));
        filter_map(front, f, keep);
        filter_push(front, last, wanted);
        filter_push(front.map_values(f), f(last), keep);
        assert(s.map_values(f).filter(keep) =~= s.filter(wanted).map_values(f));
    }
}

proof fn members_filter(set: Set<u64>, part: Set<u64>, keep: spec_fn(u64) -> bool, bound: nat)
    requires
        forall|x: u64| #[trigger] part.contains(x) <==> set.contains(x) && keep(x),
    ensures
        members_below(part, bound) == members_below(set, bound).filter(keep),
    decreases bound,
{
    if bound == 0 {
        reveal(Seq::filter);
        assert(members_below(part, bound) =~= members_below(set, bound).filter(keep));
    } else {
        let rest = members_below(set, (bound - 1) as nat);
        members_filter(set, part, keep, (bound - 1) as nat);
        filter_push(rest, (bound - 1) as u64, keep);
        assert(part.contains((bound - 1) as u64) <==> set.contains((bound - 1) as u64) && keep(
            (bound - 1) as u64,
        ));
    }
}

// ---------------------------------------------------------------------------------------
// Lists of nodes
// ---------------------------------------------------------------------------------------

/// The list of nodes has exactly the nodes that were created and not removed, each once, in
/// ascending order of their IDs and with the metadata that they were given.
pub proof fn nodes_are_listed(nodes: Seq<(NodeId, &NodeMetadata)>, registry: RegistryView)
    requires
        lists_nodes(nodes, registry, active_nodes(registry)),
    ensures
        forall|id: u64| #[trigger]
            lists(nodes, id) <==> registry.contains_key(id) && !registry[id].removed,
        forall|i: int|
            0 <= i < nodes.len() ==> (#[trigger] nodes[i]).1@ == registry[nodes[i].0.0].metadata,
        forall|i: int, j: int|
            0 <= i < j < nodes.len() ==> (#[trigger] nodes[i]).0.0 < (#[trigger] nodes[j]).0.0,
{
    let ids = ascending(active_nodes(registry));
    ascending_sound(active_nodes(registry));
    assert forall|i: int, j: int| 0 <= i < j < nodes.len() implies (#[trigger] nodes[i]).0.0 < (
    #[trigger] nodes[j]).0.0 by {
        assert(nodes[i].0.0 == ids[i] && nodes[j].0.0 == ids[j]);
        assert(ids[i] < ids[j]);
    }
    assert forall|id: u64| #[trigger]
        lists(nodes, id) <==> registry.contains_key(id) && !registry[id].removed by {
        assert(ids.to_set().contains(id) <==> active_nodes(registry).contains(id));
        if lists(nodes, id) {
            let i = choose|i: int| 0 <= i < nodes.len() && (#[trigger] nodes[i]).0.0 == id;
            assert(ids[i] == id);
        }
        if registry.contains_key(id) && !registry[id].removed {
            assert(active_nodes(registry).contains(id));
            assert(ids.contains(id));
            let i = choose|i: int| 0 <= i < ids.len() && ids[i] == id;
            assert(nodes[i].0.0 == id);
        }
    }
}

/// The list of startup nodes is what is left of the list of nodes when only those whose metadata
/// says so are kept.
pub proof fn startup_nodes_are_among_nodes(
    nodes: Seq<(NodeId, &NodeMetadata)>,
    startup: Seq<(NodeId, &NodeMetadata)>,
    registry: RegistryView,
)
    requires
        lists_nodes(nodes, registry, active_nodes(registry)),
        lists_nodes(startup, registry, startup_nodes(registry)),
    ensures
        listed(startup) == listed(nodes).filter(|node: (u64, MetadataView)| node.1.startup),
        forall|id: u64| #[trigger]
            lists(startup, id) ==> lists(nodes, id) && registry[id].metadata.startup,
        forall|id: u64| #[trigger]
            lists(nodes, id) && registry[id].metadata.startup ==> lists(startup, id),
{
    let all = ascending(active_nodes(registry));
    let part = ascending(startup_nodes(registry));
    let marked = |id: u64| registry[id].metadata.startup;
    let keep = |node: (u64, MetadataView)| node.1.startup;
    let entry = |id: u64| (id, registry[id].metadata);
    members_filter(
        active_nodes(registry),
        startup_nodes(registry),
        marked,
        0x1_0000_0000_0000_0000,
    );
    assert(part == all.filter(marked));
    filter_map(all, entry, keep);
    assert(all.filter(marked) =~= all.filter(|id: u64| keep(entry(id)))) by {
        assert(marked =~= (|id: u64| keep(entry(id))));
    }
    assert(listed(nodes) =~= all.map_values(entry));
    assert(listed(startup) =~= part.map_values(entry));
    ascending_sound(startup_nodes(registry));
    nodes_are_listed(nodes, registry);
    assert forall|id: u64| #[trigger]
        lists(startup, id) <==> lists(nodes, id) && registry[id].metadata.startup by {
        assert(part.to_set().contains(id) <==> startup_nodes(registry).contains(id));
        if lists(startup, id) {
            let i = choose|i: int| 0 <= i < startup.len() && (#[trigger] startup[i]).0.0 == id;
            assert(part[i] == id);
        }
        if lists(nodes, id) && registry[id].metadata.startup {
            assert(startup_nodes(registry).contains(id));
            assert(part.contains(id));
            let i = choose|i: int| 0 <= i < part.len() && part[i] == id;
            assert(startup[i].0.0 == id);
        }
    }
}

/// Access to a node is accepted exactly when the list of nodes has it. A node that was never
/// created is unknown, and one that was removed is told apart.
pub proof fn listed_nodes_are_accessible(
    engine: EngineView,
    nodes: Seq<(NodeId, &NodeMetadata)>,
    node: NodeId,
)
    requires
        lists_nodes(nodes, engine.registry, active_nodes(engine.registry)),
    ensures
        engine.access(node) is Ok <==> lists(nodes, node.0),
        !engine.registry.contains_key(node.0) <==> engine.access(node) == Err::<
            (),
            (StorageError, NodeAccessErrorKind),
        >((StorageError::NodeNotFound, NodeAccessErrorKind::UnknownNode)),
        engine.registry.contains_key(node.0) && engine.registry[node.0].removed <==> engine.access(
            node,
        ) == Err::<(), (StorageError, NodeAccessErrorKind)>(
            (StorageError::NodeRemoved, NodeAccessErrorKind::RemovedNode),
        ),
{
    nodes_are_listed(nodes, engine.registry);
}

// ---------------------------------------------------------------------------------------
// Creations and removals
// ---------------------------------------------------------------------------------------

/// A creation adds the node with its metadata to the lists, among the startup nodes exactly when
/// its metadata says so, and changes nothing of the other nodes.
pub proof fn creation_is_listed(
    registry: RegistryView,
    id: u64,
    metadata: MetadataView,
    nodes: Seq<(NodeId, &NodeMetadata)>,
    startup: Seq<(NodeId, &NodeMetadata)>,
    other: u64,
)
    requires
        !registry.contains_key(id),
        lists_nodes(
            nodes,
            with_created(registry, id, metadata),
            active_nodes(with_created(registry, id, metadata)),
        ),
        lists_nodes(
            startup,
            with_created(registry, id, metadata),
            startup_nodes(with_created(registry, id, metadata)),
        ),
        other != id,
    ensures
        ({
            let after = with_created(registry, id, metadata);
            &&& lists(nodes, id)
            &&& lists(startup, id) <==> metadata.startup
            &&& after.contains_key(id)
            &&& after[id].metadata == metadata
            &&& !after[id].removed
            &&& after.contains_key(other) == registry.contains_key(other)
            &&& registry.contains_key(other) ==> after[other] == registry[other]
        }),
{
    let after = with_created(registry, id, metadata);
    nodes_are_listed(nodes, after);
    startup_nodes_are_among_nodes(nodes, startup, after);
}

/// A removal takes the node out of the lists, also of that of the startup nodes; its ID and its
/// metadata stay known, and nothing of the other nodes changes.
pub proof fn removal_is_listed(
    registry: RegistryView,
    id: u64,
    nodes: Seq<(NodeId, &NodeMetadata)>,
    startup: Seq<(NodeId, &NodeMetadata)>,
    other: u64,
)
    requires
        registry.contains_key(id),
        lists_nodes(nodes, with_removed(registry, id), active_nodes(with_removed(registry, id))),
        lists_nodes(startup, with_removed(registry, id), startup_nodes(with_removed(registry, id))),
        other != id,
    ensures
        ({
            let after = with_removed(registry, id);
            &&& !lists(nodes, id)
            &&& !lists(startup, id)
            &&& after.contains_key(id)
            &&& after[id].removed
            &&& after[id].metadata == registry[id].metadata
            &&& after.contains_key(other) == registry.contains_key(other)
            &&& registry.contains_key(other) ==> after[other] == registry[other]
        }),
{
    let after = with_removed(registry, id);
    nodes_are_listed(nodes, after);
    startup_nodes_are_among_nodes(nodes, startup, after);
}

/// A node is active or removed exactly when it was created, and never both.
pub proof fn nodes_are_active_or_removed(registry: RegistryView, id: u64)
    ensures
        registry.contains_key(id) <==> active_nodes(registry).contains(id) || removed_nodes(
            registry,
        ).contains(id),
        !(active_nodes(registry).contains(id) && removed_nodes(registry).contains(id)),
        removed_nodes(registry).contains(id) <==> registry.contains_key(id) && registry[id].removed,
{
}

} // verus!
