//! Ascending enumerations of ordered collections.

use std::collections::{BTreeMap, BTreeSet};
use vstd::prelude::*;

verus! {

broadcast use {vstd::std_specs::btree::group_btree_axioms, vstd::laws_cmp::group_laws_cmp};

/// Every element is smaller than all later ones.
pub open spec fn strictly_increasing(s: Seq<u64>) -> bool {
    forall|i: int, j: int| 0 <= i < j < s.len() ==> s[i] < s[j]
}

/// The members of `set` below `bound`, in ascending order.
pub open spec fn members_below(set: Set<u64>, bound: nat) -> Seq<u64>
    decreases bound,
{
    if bound == 0 {
        Seq::empty()
    } else {
        let rest = members_below(set, (bound - 1) as nat);
        if bound <= 0x1_0000_0000_0000_0000 && set.contains((bound - 1) as u64) {
            rest.push((bound - 1) as u64)
        } else {
            rest
        }
    }
}

/// The members of `set` in ascending order.
pub open spec fn ascending(set: Set<u64>) -> Seq<u64> {
    members_below(set, 0x1_0000_0000_0000_0000)
}

proof fn members_below_sound(set: Set<u64>, bound: nat)
    requires
        bound <= 0x1_0000_0000_0000_0000,
    ensures
        strictly_increasing(members_below(set, bound)),
        forall|x: u64|
            #![trigger members_below(set, bound).contains(x)]
            members_below(set, bound).contains(x) <==> set.contains(x) && x < bound,
    decreases bound,
{
    let s = members_below(set, bound);
    if bound > 0 {
        let last = (bound - 1) as u64;
        let rest = members_below(set, (bound - 1) as nat);
        members_below_sound(set, (bound - 1) as nat);
        if set.contains(last) {
            assert forall|i: int, j: int| 0 <= i < j < s.len() implies s[i] < s[j] by {
                if j == rest.len() {
                    assert(rest.contains(rest[i]));
                }
            }
            assert forall|x: u64| s.contains(x) <==> set.contains(x) && x < bound by {
                if s.contains(x) && x != last {
                    let i = choose|i: int| 0 <= i < s.len() && s[i] == x;
                    assert(rest[i] == x);
                    assert(rest.contains(x));
                }
                if set.contains(x) && x < bound {
                    if x == last {
                        assert(s[rest.len() as int] == x);
                    } else {
                        assert(rest.contains(x));
                        let i = choose|i: int| 0 <= i < rest.len() && rest[i] == x;
                        assert(s[i] == x);
                    }
                }
            }
        }
    }
}

/// `ascending` lists exactly the members, without repetition.
pub proof fn ascending_sound(set: Set<u64>)
    ensures
        strictly_increasing(ascending(set)),
        ascending(set).to_set() == set,
        ascending(set).no_duplicates(),
        set.finite(),
        ascending(set).len() == set.len(),
{
    members_below_sound(set, 0x1_0000_0000_0000_0000);
    assert(ascending(set).to_set() =~= set);
    ascending(set).unique_seq_to_set();
}

proof fn increasing_unique(p: Seq<u64>, q: Seq<u64>)
    requires
        strictly_increasing(p),
        strictly_increasing(q),
        p.to_set() == q.to_set(),
    ensures
        p == q,
    decreases p.len(),
{
    if p.len() == 0 {
        if q.len() > 0 {
            assert(q.to_set().contains(q[0]));
            assert(p.contains(q[0]));
        }
        assert(p =~= q);
    } else {
        assert(p.to_set().contains(p.last()));
        assert(q.contains(p.last()));
        assert(q.to_set().contains(q.last()));
        assert(p.contains(q.last()));
        let i = choose|i: int| 0 <= i < q.len() && q[i] == p.last();
        let j = choose|j: int| 0 <= j < p.len() && p[j] == q.last();
        assert(p.last() == q.last());
        let pd = p.drop_last();
        let qd = q.drop_last();
        assert forall|x: u64| pd.contains(x) <==> qd.contains(x) by {
            if pd.contains(x) {
                let k = choose|k: int| 0 <= k < pd.len() && pd[k] == x;
                assert(p[k] == x);
                assert(p.to_set().contains(x));
                assert(q.contains(x));
                let l = choose|l: int| 0 <= l < q.len() && q[l] == x;
                assert(qd[l] == x);
            }
            if qd.contains(x) {
                let k = choose|k: int| 0 <= k < qd.len() && qd[k] == x;
                assert(q[k] == x);
                assert(q.to_set().contains(x));
                assert(p.contains(x));
                let l = choose|l: int| 0 <= l < p.len() && p[l] == x;
                assert(pd[l] == x);
            }
        }
        assert(pd.to_set() =~= qd.to_set());
        increasing_unique(pd, qd);
        assert(p =~= pd.push(p.last()));
        assert(q =~= qd.push(q.last()));
    }
}

/// There is only one way to list a set in ascending order.
pub proof fn ascending_unique(s: Seq<u64>)
    requires
        strictly_increasing(s),
    ensures
        s == ascending(s.to_set()),
{
    ascending_sound(s.to_set());
    increasing_unique(s, ascending(s.to_set()));
}

/// Lists a set in ascending order.
pub fn set_members(set: &BTreeSet<u64>) -> (members: Vec<u64>)
    ensures
        members@ == ascending(set@),
{
    let mut members: Vec<u64> = Vec::new();
    let ghost all = vstd::std_specs::iter::IteratorSpec::remaining(
        &vstd::std_specs::btree::spec_btree_keys_iter(set),
    );
    proof {
        assert(vstd::laws_cmp::obeys_cmp::<u64>());
        assert(vstd::laws_cmp::obeys_cmp::<&u64>());
        assert(vstd::std_specs::btree::increasing_seq(all));
    }
    for member in it: set.iter()
        invariant
            members@ == it.seq().take(it.index()).unref(),
            it.seq() == all,
    {
        members.push(*member);
    }
    proof {
        assert(members@ =~= all.unref());
        assert forall|i: int, j: int| 0 <= i < j < members@.len() implies members@[i]
            < members@[j] by {
            assert(vstd::std_specs::cmp::OrdSpec::cmp_spec(&all[i], &all[j]) is Less);
        }
        ascending_unique(members@);
    }
    members
}

/// Lists the keys of a map in ascending order.
pub fn map_keys<V>(map: &BTreeMap<u64, V>) -> (keys: Vec<u64>)
    ensures
        keys@ == ascending(map@.dom()),
{
    let mut keys: Vec<u64> = Vec::new();
    let ghost all = vstd::std_specs::iter::IteratorSpec::remaining(
        &vstd::std_specs::btree::spec_keys_iter(map),
    );
    proof {
        assert(vstd::laws_cmp::obeys_cmp::<u64>());
        assert(vstd::laws_cmp::obeys_cmp::<&u64>());
        assert(vstd::std_specs::btree::increasing_seq(all));
    }
    for key in it: map.keys()
        invariant
            keys@ == it.seq().take(it.index()).unref(),
            it.seq() == all,
    {
        keys.push(*key);
    }
    proof {
        assert(keys@ =~= all.unref());
        assert forall|i: int, j: int| 0 <= i < j < keys@.len() implies keys@[i] < keys@[j] by {
            assert(vstd::std_specs::cmp::OrdSpec::cmp_spec(&all[i], &all[j]) is Less);
        }
        ascending_unique(keys@);
    }
    keys
}

/// One step along an ascending list: what is left ahead is the current element and what
/// is left after it.
pub proof fn ahead_of(s: Seq<u64>, i: int)
    requires
        strictly_increasing(s),
        0 <= i < s.len(),
    ensures
        !s.skip(i + 1).contains(s[i]),
        forall|x: u64| #[trigger] s.skip(i).contains(x) <==> x == s[i] || s.skip(i + 1).contains(x),
{
    let rest = s.skip(i);
    let next = s.skip(i + 1);
    assert forall|x: u64| #[trigger] rest.contains(x) <==> x == s[i] || next.contains(x) by {
        if rest.contains(x) && x != s[i] {
            let j = choose|j: int| 0 <= j < rest.len() && rest[j] == x;
            assert(next[j - 1] == x);
        }
        if next.contains(x) {
            let j = choose|j: int| 0 <= j < next.len() && next[j] == x;
            assert(rest[j + 1] == x);
        }
        assert(rest[0] == s[i]);
    }
    if next.contains(s[i]) {
        let j = choose|j: int| 0 <= j < next.len() && next[j] == s[i];
        assert(s[i + 1 + j] == s[i]);
    }
}

/// At the start of the ascending list of a set, its members are ahead.
pub proof fn all_ahead(set: Set<u64>)
    ensures
        strictly_increasing(ascending(set)),
        forall|x: u64| #[trigger] ascending(set).skip(0).contains(x) <==> set.contains(x),
{
    ascending_sound(set);
    assert(ascending(set).skip(0) =~= ascending(set));
    assert forall|x: u64| #[trigger] ascending(set).skip(0).contains(x) <==> set.contains(x) by {
        assert(ascending(set).to_set().contains(x) <==> set.contains(x));
    }
}

/// Keeps the entries with keys up to `bound`.
pub fn keep_up_to<V>(map: &mut BTreeMap<u64, V>, bound: u64)
    ensures
        final(map)@ == old(map)@.restrict(Set::new(|key: u64| key <= bound)),
{
    let keys = map_keys(map);
    let mut i: usize = 0;
    proof {
        all_ahead(map@.dom());
    }
    while i < keys.len()
        invariant
            i <= keys@.len(),
            strictly_increasing(keys@),
            forall|key: u64| #[trigger]
                map@.contains_key(key) <==> old(map)@.contains_key(key) && (key <= bound
                    || keys@.skip(i as int).contains(key)),
            forall|key: u64| #[trigger] map@.contains_key(key) ==> map@[key] == old(map)@[key],
        decreases keys@.len() - i,
    {
        let key: u64 = keys[i];
        proof {
            ahead_of(keys@, i as int);
        }
        if key > bound {
            map.remove(&key);
        }
        i = i + 1;
    }
    assert(map@ =~= old(map)@.restrict(Set::new(|key: u64| key <= bound)));
}

/// Keeps the entries with keys after `bound`.
pub fn keep_after<V>(map: &mut BTreeMap<u64, V>, bound: u64)
    ensures
        final(map)@ == old(map)@.restrict(Set::new(|key: u64| key > bound)),
{
    let keys = map_keys(map);
    let mut i: usize = 0;
    proof {
        all_ahead(map@.dom());
    }
    while i < keys.len()
        invariant
            i <= keys@.len(),
            strictly_increasing(keys@),
            forall|key: u64| #[trigger]
                map@.contains_key(key) <==> old(map)@.contains_key(key) && (key > bound
                    || keys@.skip(i as int).contains(key)),
            forall|key: u64| #[trigger] map@.contains_key(key) ==> map@[key] == old(map)@[key],
        decreases keys@.len() - i,
    {
        let key: u64 = keys[i];
        proof {
            ahead_of(keys@, i as int);
        }
        if key <= bound {
            map.remove(&key);
        }
        i = i + 1;
    }
    assert(map@ =~= old(map)@.restrict(Set::new(|key: u64| key > bound)));
}

/// Moves all entries of `other` into `map`, replacing what is there under the same keys.
pub fn move_into<V>(map: &mut BTreeMap<u64, V>, other: BTreeMap<u64, V>)
    ensures
        final(map)@ == old(map)@.union_prefer_right(other@),
{
    let ghost all = other@;
    let mut other = other;
    let keys = map_keys(&other);
    let mut i: usize = 0;
    proof {
        all_ahead(all.dom());
    }
    while i < keys.len()
        invariant
            i <= keys@.len(),
            strictly_increasing(keys@),
            forall|key: u64| #[trigger]
                other@.contains_key(key) <==> keys@.skip(i as int).contains(key),
            forall|key: u64| #[trigger] other@.contains_key(key) ==> all.contains_key(key)
                && other@[key] == all[key],
            forall|key: u64| #[trigger]
                map@.contains_key(key) <==> old(map)@.contains_key(key) || (all.contains_key(key)
                    && !other@.contains_key(key)),
            forall|key: u64| #[trigger]
                map@.contains_key(key) ==> map@[key] == (if all.contains_key(key)
                    && !other@.contains_key(key) {
                    all[key]
                } else {
                    old(map)@[key]
                }),
        decreases keys@.len() - i,
    {
        let key: u64 = keys[i];
        proof {
            ahead_of(keys@, i as int);
        }
        if let Some(value) = other.remove(&key) {
            map.insert(key, value);
        }
        i = i + 1;
    }
    assert(forall|key: u64| !keys@.skip(i as int).contains(key));
    assert(map@ =~= old(map)@.union_prefer_right(all));
}

} // verus!
