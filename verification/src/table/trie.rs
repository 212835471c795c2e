//! The pending interest table as a mathematical object: a trie of nodes in
//! an arena, the walk of a name through it, what a name inherits on the way,
//! and how the trie grows when a name is inserted.

use vstd::prelude::*;
use crate::hash::metro_hash64;
use crate::table::pit::{InRecord, NextHop, NodeView, OutRecord};
use crate::tlv::vec_decode::spec_read_tlo;
use crate::tlv::DecodeError;

verus! {

/// The length of the component at the start of `buf`, taken over its type,
/// its length and its value; an error where the component is cut short or
/// says it is longer than `buf`.
pub open spec fn component_len(buf: Seq<u8>) -> Result<int, DecodeError> {
    match spec_read_tlo(buf) {
        Err(e) => Err(e),
        Ok(tlo) => if tlo.o + tlo.l > buf.len() {
            Err(DecodeError::IncorrectNameEncoding)
        } else {
            Ok(tlo.o + tlo.l)
        },
    }
}

/// The components of `name` up to its end or to the first one that does not
/// decode, each as its encoded bytes, and the error that the first bad one
/// gives.
pub open spec fn split_name(name: Seq<u8>) -> (Seq<Seq<u8>>, Option<DecodeError>)
    decreases name.len(),
{
    if name.len() == 0 {
        (Seq::empty(), None)
    } else {
        match component_len(name) {
            Err(e) => (Seq::empty(), Some(e)),
            Ok(n) => {
                let (rest, err) = split_name(name.skip(n));
                (seq![name.take(n)] + rest, err)
            },
        }
    }
}

/// The keys under which the trie files `components`, one after the other.
pub open spec fn name_path(components: Seq<Seq<u8>>) -> Seq<u64> {
    components.map_values(|c: Seq<u8>| metro_hash64(c))
}

/// The child of node `parent` under `key`.
pub open spec fn child(nodes: Seq<NodeView>, parent: usize, key: u64) -> Option<usize> {
    if parent < nodes.len() && nodes[parent as int].children.contains_key(key) {
        Some(nodes[parent as int].children[key])
    } else {
        None
    }
}

/// The node that `path` leads to from the root.
pub open spec fn walk(nodes: Seq<NodeView>, path: Seq<u64>) -> Option<usize>
    decreases path.len(),
{
    if path.len() == 0 {
        Some(0)
    } else {
        match walk(nodes, path.drop_last()) {
            Some(p) => child(nodes, p, path.last()),
            None => None,
        }
    }
}

/// Some path leads from the root to node `i`.
pub open spec fn reachable(nodes: Seq<NodeView>, i: int) -> bool {
    exists|p: Seq<u64>| #[trigger] walk(nodes, p) == Some(i as usize)
}

/// The nodes form a tree below node 0: a child comes after its parent in the
/// arena, no node is the child of two nodes or under two keys, and every
/// node hangs from the root.
pub open spec fn is_trie(nodes: Seq<NodeView>) -> bool {
    &&& nodes.len() >= 1
    &&& forall|i: int| 0 <= i < nodes.len() ==> #[trigger] reachable(nodes, i)
    &&& forall|i: int, k: u64|
        0 <= i < nodes.len() && #[trigger] nodes[i].children.contains_key(k) ==> i
            < nodes[i].children[k] < nodes.len()
    &&& forall|i: int, k: u64, j: int, g: u64|
        0 <= i < nodes.len() && 0 <= j < nodes.len() && #[trigger] nodes[i].children.contains_key(k)
            && #[trigger] nodes[j].children.contains_key(g) && nodes[i].children[k]
            == nodes[j].children[g] ==> i == j && k == g
}

/// The strategy that a name at `path` inherits: the one installed at the
/// deepest node above it that has one; 0 where none has.
pub open spec fn inherited_strategy(nodes: Seq<NodeView>, path: Seq<u64>) -> u64
    decreases path.len(),
{
    if path.len() == 0 {
        0
    } else {
        match walk(nodes, path.drop_last()) {
            Some(p) if p < nodes.len() && nodes[p as int].strategy > 0 => nodes[p as int].strategy,
            _ => inherited_strategy(nodes, path.drop_last()),
        }
    }
}

/// The routes that a name at `path` inherits: those installed at the deepest
/// node above it that has any. The node at `path` itself does not count.
pub open spec fn inherited_nexthops(nodes: Seq<NodeView>, path: Seq<u64>) -> Seq<NextHop>
    decreases path.len(),
{
    if path.len() == 0 {
        Seq::empty()
    } else {
        match walk(nodes, path.drop_last()) {
            Some(p) if p < nodes.len() && nodes[p as int].nexthops.len() > 0 => nodes[p as int].nexthops,
            _ => inherited_nexthops(nodes, path.drop_last()),
        }
    }
}

/// The nodes at the prefixes of `path`, shortest first, the root left out, as
/// far as the trie has them.
pub open spec fn matching_nodes(nodes: Seq<NodeView>, path: Seq<u64>) -> Seq<usize>
    decreases path.len(),
{
    if path.len() == 0 {
        Seq::empty()
    } else {
        let above = matching_nodes(nodes, path.drop_last());
        match walk(nodes, path) {
            Some(i) => above.push(i),
            None => above,
        }
    }
}

/// What `get` answers for `name` on the trie `nodes`: the node of the name,
/// if the name decodes to its end and the trie has that node, with the
/// strategy and the routes that the name inherits.
pub open spec fn spec_get(nodes: Seq<NodeView>, name: Seq<u8>) -> Option<(usize, u64, Seq<NextHop>)> {
    let (components, err) = split_name(name);
    let path = name_path(components);
    if err is None && walk(nodes, path) is Some {
        Some((walk(nodes, path).unwrap(), inherited_strategy(nodes, path), inherited_nexthops(nodes, path)))
    } else {
        None
    }
}

/// Node `i` of `new` has the component, the strategy and the routes that it
/// had in `old`; where `old` had no such node, it has no strategy and no
/// route.
pub open spec fn routes_kept(old: Seq<NodeView>, new: Seq<NodeView>, i: int) -> bool {
    if i < old.len() {
        &&& new[i].name == old[i].name
        &&& new[i].strategy == old[i].strategy
        &&& new[i].nexthops == old[i].nexthops
    } else {
        &&& new[i].strategy == 0
        &&& new[i].nexthops == Seq::<NextHop>::empty()
    }
}

/// The pending requests that node `i` had in `old`: none where `old` had no
/// such node.
pub open spec fn in_records_before(old: Seq<NodeView>, i: int) -> Seq<InRecord> {
    if 0 <= i < old.len() {
        old[i].in_records
    } else {
        Seq::empty()
    }
}

/// The out-records that node `i` had in `old`: none where `old` had no such
/// node.
pub open spec fn out_records_before(old: Seq<NodeView>, i: int) -> Map<u64, OutRecord> {
    if 0 <= i < old.len() {
        old[i].out_records
    } else {
        Map::empty()
    }
}

/// The routes that node `i` had in `old`: none where `old` had no such node.
pub open spec fn nexthops_before(old: Seq<NodeView>, i: int) -> Seq<NextHop> {
    if 0 <= i < old.len() {
        old[i].nexthops
    } else {
        Seq::empty()
    }
}

/// Node `i` of `new` holds what it held in `old`; where `old` had no such
/// node, it holds nothing. The children are not spoken of.
pub open spec fn node_kept(old: Seq<NodeView>, new: Seq<NodeView>, i: int) -> bool {
    &&& routes_kept(old, new, i)
    &&& new[i].in_records == in_records_before(old, i)
    &&& new[i].out_records == out_records_before(old, i)
}

/// The two tries have the same nodes with the same components and the same
/// children; they may differ in what the nodes hold besides.
pub open spec fn same_shape(a: Seq<NodeView>, b: Seq<NodeView>) -> bool {
    &&& a.len() == b.len()
    &&& forall|i: int|
        0 <= i < a.len() ==> {
            &&& (#[trigger] b[i]).children == a[i].children
            &&& b[i].name == a[i].name
        }
}

/// The trie `new` is the trie `old` with the nodes added that the name of
/// `components` needs: whatever path led to a node still leads to it, every
/// prefix of the name's path now leads to a node, and no other path leads
/// anywhere. A node added for a prefix carries that prefix's last component.
/// The added nodes stand behind the old ones in the arena, the node of a
/// shorter prefix before that of a longer one, and no other node is added.
pub open spec fn grown(old: Seq<NodeView>, new: Seq<NodeView>, components: Seq<Seq<u8>>) -> bool {
    let path = name_path(components);
    let known = matching_nodes(old, path).len();
    &&& old.len() <= new.len()
    &&& new.len() == old.len() + path.len() - known
    &&& forall|k: int|
        known < k <= path.len() ==> (#[trigger] walk(new, path.take(k))) == Some(
            (old.len() + k - known - 1) as usize,
        )
    &&& forall|i: int| 0 <= i < old.len() ==> (#[trigger] old[i].children).submap_of(new[i].children)
    &&& forall|p: Seq<u64>| (#[trigger] walk(old, p)) is Some ==> walk(new, p) == walk(old, p)
    &&& forall|p: Seq<u64>|
        walk(old, p) is None && (#[trigger] walk(new, p)) is Some ==> {
            let i = walk(new, p).unwrap();
            &&& p.is_prefix_of(path)
            &&& old.len() <= i < new.len()
            &&& new[i as int].name == components[p.len() - 1]
        }
    &&& forall|k: int| 0 <= k <= path.len() ==> (#[trigger] walk(new, path.take(k))) is Some
}

/// A path that leads to a node leads to a node of the arena.
pub proof fn lemma_walk_in_range(nodes: Seq<NodeView>, path: Seq<u64>)
    requires
        is_trie(nodes),
        walk(nodes, path) is Some,
    ensures
        walk(nodes, path).unwrap() < nodes.len(),
{
    if path.len() > 0 {
        let p = walk(nodes, path.drop_last()).unwrap();
        assert(nodes[p as int].children.contains_key(path.last()));
    }
}

/// Where a path leads to a node, so does each of its prefixes.
pub proof fn lemma_walk_prefix(nodes: Seq<NodeView>, path: Seq<u64>, k: int)
    requires
        0 <= k <= path.len(),
        walk(nodes, path) is Some,
    ensures
        walk(nodes, path.take(k)) is Some,
    decreases path.len(),
{
    if k == path.len() {
        assert(path.take(k) =~= path);
    } else {
        assert(path.drop_last().take(k) =~= path.take(k));
        lemma_walk_prefix(nodes, path.drop_last(), k);
    }
}

/// In a trie no two paths lead to the same node.
pub proof fn lemma_walk_unique(nodes: Seq<NodeView>, p: Seq<u64>, q: Seq<u64>)
    requires
        is_trie(nodes),
        walk(nodes, p) is Some,
        walk(nodes, p) == walk(nodes, q),
    ensures
        p == q,
    decreases p.len(),
{
    if p.len() == 0 && q.len() == 0 {
        assert(p =~= q);
    } else if p.len() == 0 {
        let b = walk(nodes, q.drop_last()).unwrap();
        assert(nodes[b as int].children.contains_key(q.last()));
    } else if q.len() == 0 {
        let a = walk(nodes, p.drop_last()).unwrap();
        assert(nodes[a as int].children.contains_key(p.last()));
    } else {
        let a = walk(nodes, p.drop_last()).unwrap();
        let b = walk(nodes, q.drop_last()).unwrap();
        assert(nodes[a as int].children.contains_key(p.last()));
        assert(nodes[b as int].children.contains_key(q.last()));
        assert(a == b && p.last() == q.last());
        lemma_walk_unique(nodes, p.drop_last(), q.drop_last());
        assert(p =~= p.drop_last().push(p.last()));
        assert(q =~= q.drop_last().push(q.last()));
    }
}

/// The trie has a node at every prefix of a path that leads to a node, and
/// at fewer prefixes of a path that leads nowhere.
pub proof fn lemma_matching_len(nodes: Seq<NodeView>, path: Seq<u64>)
    ensures
        matching_nodes(nodes, path).len() <= path.len(),
        walk(nodes, path) is Some <==> matching_nodes(nodes, path).len() == path.len(),
    decreases path.len(),
{
    if path.len() > 0 {
        lemma_matching_len(nodes, path.drop_last());
    }
}

/// Below a path that leads nowhere the trie has no node.
pub proof fn lemma_matching_stops(nodes: Seq<NodeView>, path: Seq<u64>, k: int)
    requires
        0 <= k <= path.len(),
        walk(nodes, path.take(k)) is None,
    ensures
        matching_nodes(nodes, path) == matching_nodes(nodes, path.take(k)),
    decreases path.len(),
{
    if k == path.len() {
        assert(path.take(k) =~= path);
    } else {
        assert(path.drop_last().take(k) =~= path.take(k));
        lemma_matching_stops(nodes, path.drop_last(), k);
        if walk(nodes, path) is Some {
            lemma_walk_prefix(nodes, path, k);
        }
    }
}

/// Longest-prefix inheritance: where the node at the prefix of length `k` has
/// routes and no node between it and the name has any, the name inherits
/// the routes of that node, whatever the nodes further up hold.
pub proof fn lemma_inherits_nexthops_of_deepest(nodes: Seq<NodeView>, path: Seq<u64>, k: int)
    requires
        is_trie(nodes),
        0 <= k < path.len(),
        walk(nodes, path.take(k)) is Some,
        nodes[walk(nodes, path.take(k)).unwrap() as int].nexthops.len() > 0,
        forall|j: int|
            k < j < path.len() && (#[trigger] walk(nodes, path.take(j))) is Some
                ==> nodes[walk(nodes, path.take(j)).unwrap() as int].nexthops.len() == 0,
    ensures
        inherited_nexthops(nodes, path) == nodes[walk(
            nodes,
            path.take(k),
        ).unwrap() as int].nexthops,
    decreases path.len(),
{
    let above = path.drop_last();
    assert(above =~= path.take(path.len() - 1));
    if k == path.len() - 1 {
        lemma_walk_in_range(nodes, above);
    } else {
        assert(above.take(k) =~= path.take(k));
        assert forall|j: int|
            k < j < above.len() && (#[trigger] walk(nodes, above.take(j))) is Some implies nodes[walk(
            nodes,
            above.take(j),
        ).unwrap() as int].nexthops.len() == 0 by {
            assert(above.take(j) =~= path.take(j));
        }
        lemma_inherits_nexthops_of_deepest(nodes, above, k);
        if walk(nodes, above) is Some {
            lemma_walk_in_range(nodes, above);
        }
    }
}

/// Longest-prefix inheritance of the strategy: where the node at the prefix
/// of length `k` has a strategy and no node between it and the name has
/// one, the name inherits the strategy of that node.
pub proof fn lemma_inherits_strategy_of_deepest(nodes: Seq<NodeView>, path: Seq<u64>, k: int)
    requires
        is_trie(nodes),
        0 <= k < path.len(),
        walk(nodes, path.take(k)) is Some,
        nodes[walk(nodes, path.take(k)).unwrap() as int].strategy > 0,
        forall|j: int|
            k < j < path.len() && (#[trigger] walk(nodes, path.take(j))) is Some
                ==> nodes[walk(nodes, path.take(j)).unwrap() as int].strategy == 0,
    ensures
        inherited_strategy(nodes, path) == nodes[walk(nodes, path.take(k)).unwrap() as int].strategy,
    decreases path.len(),
{
    let above = path.drop_last();
    assert(above =~= path.take(path.len() - 1));
    if k == path.len() - 1 {
        lemma_walk_in_range(nodes, above);
    } else {
        assert(above.take(k) =~= path.take(k));
        assert forall|j: int|
            k < j < above.len() && (#[trigger] walk(nodes, above.take(j))) is Some implies nodes[walk(
            nodes,
            above.take(j),
        ).unwrap() as int].strategy == 0 by {
            assert(above.take(j) =~= path.take(j));
        }
        lemma_inherits_strategy_of_deepest(nodes, above, k);
        if walk(nodes, above) is Some {
            lemma_walk_in_range(nodes, above);
        }
    }
}

/// What a name inherits depends only on the nodes above it: where two tries
/// agree on the paths of the first and on what its nodes hold, a name whose
/// node the first trie has inherits the same in both.
pub proof fn lemma_inherited_stable(old: Seq<NodeView>, new: Seq<NodeView>, path: Seq<u64>)
    requires
        is_trie(old),
        old.len() <= new.len(),
        walk(old, path) is Some,
        forall|p: Seq<u64>| (#[trigger] walk(old, p)) is Some ==> walk(new, p) == walk(old, p),
        forall|i: int| 0 <= i < old.len() ==> routes_kept(old, new, i),
    ensures
        inherited_strategy(new, path) == inherited_strategy(old, path),
        inherited_nexthops(new, path) == inherited_nexthops(old, path),
    decreases path.len(),
{
    if path.len() > 0 {
        let q = path.drop_last();
        assert(q =~= path.take(path.len() - 1));
        lemma_walk_prefix(old, path, path.len() - 1);
        lemma_walk_in_range(old, q);
        assert(routes_kept(old, new, walk(old, q).unwrap() as int));
        lemma_inherited_stable(old, new, q);
    }
}

/// What the nodes hold plays no part in where a path leads.
proof fn lemma_same_shape_walk(a: Seq<NodeView>, b: Seq<NodeView>, p: Seq<u64>)
    requires
        same_shape(a, b),
    ensures
        walk(b, p) == walk(a, p),
    decreases p.len(),
{
    if p.len() > 0 {
        lemma_same_shape_walk(a, b, p.drop_last());
        match walk(a, p.drop_last()) {
            Some(i) => {
                if i < a.len() {
                    assert(b[i as int].children == a[i as int].children);
                }
            },
            None => {},
        }
    }
}

/// Two tries of the same shape are alike in all that the walk sees: the same
/// paths lead to the same nodes, and one is grown from a third trie if the
/// other is.
pub proof fn lemma_same_shape(old: Seq<NodeView>, a: Seq<NodeView>, b: Seq<NodeView>, components: Seq<Seq<u8>>)
    requires
        same_shape(a, b),
    ensures
        forall|p: Seq<u64>| #[trigger] walk(b, p) == walk(a, p),
        is_trie(a) ==> is_trie(b),
        grown(old, a, components) ==> grown(old, b, components),
{
    assert forall|p: Seq<u64>| #[trigger] walk(b, p) == walk(a, p) by {
        lemma_same_shape_walk(a, b, p);
    }
    if is_trie(a) {
        assert forall|i: int| 0 <= i < b.len() implies #[trigger] reachable(b, i) by {
            assert(reachable(a, i));
            let p = choose|p: Seq<u64>| #[trigger] walk(a, p) == Some(i as usize);
            assert(walk(b, p) == Some(i as usize));
        }
        assert forall|i: int, k: u64|
            0 <= i < b.len() && #[trigger] b[i].children.contains_key(k) implies i
            < b[i].children[k] < b.len() by {
            assert(a[i].children.contains_key(k));
        }
        assert forall|i: int, k: u64, j: int, g: u64|
            0 <= i < b.len() && 0 <= j < b.len() && #[trigger] b[i].children.contains_key(k)
                && #[trigger] b[j].children.contains_key(g) && b[i].children[k]
                == b[j].children[g] implies i == j && k == g by {
            assert(a[i].children.contains_key(k));
            assert(a[j].children.contains_key(g));
        }
    }
    if grown(old, a, components) {
        let path = name_path(components);
        assert forall|i: int| 0 <= i < old.len() implies (#[trigger] old[i].children).submap_of(
            b[i].children,
        ) by {
            assert(old[i].children.submap_of(a[i].children));
            assert(b[i].children == a[i].children);
        }
        assert forall|p: Seq<u64>| walk(old, p) is None && (#[trigger] walk(b, p)) is Some implies {
            let i = walk(b, p).unwrap();
            &&& p.is_prefix_of(path)
            &&& old.len() <= i < b.len()
            &&& b[i as int].name == components[p.len() - 1]
        } by {
            assert(walk(a, p) is Some);
        }
        assert forall|k: int| 0 <= k <= path.len() implies (#[trigger] walk(b, path.take(k)))
            is Some by {
            assert(walk(a, path.take(k)) is Some);
        }
        let known = matching_nodes(old, path).len();
        assert forall|k: int| known < k <= path.len() implies (#[trigger] walk(b, path.take(k)))
            == Some((old.len() + k - known - 1) as usize) by {
            assert(walk(a, path.take(k)) is Some);
        }
    }
}

} // verus!
