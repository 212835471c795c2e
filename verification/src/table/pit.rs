//! The pending interest table: a trie over name components that holds, per
//! name prefix, who asked, where the request was sent, and the routes and
//! strategy installed there.
//!
//! The nodes live in one arena and are named by their index in it. The root is
//! node 0. A node's children are keyed by the hash of the child's component,
//! taken over the component's whole encoding.

use std::collections::HashMap;
use vstd::prelude::*;
use vstd::slice::{slice_subrange, slice_to_vec};
use vstd::std_specs::hash::*;
use crate::face::Face;
use crate::hash::{hash64, metro_hash64};
use crate::pipeline::Interest;
use crate::table::trie::{
    child, grown, inherited_nexthops, inherited_strategy, is_trie, lemma_inherited_stable,
    lemma_matching_len, lemma_matching_stops, lemma_walk_in_range, lemma_walk_prefix,
    lemma_same_shape, lemma_walk_unique, matching_nodes, name_path, node_kept, reachable,
    routes_kept, spec_get, split_name, walk,
};
use crate::tlv::vec_decode::read_tlo;
use crate::tlv::DecodeError;

verus! {

broadcast use group_hash_axioms;

/// A route: a face and what it costs to send there.
#[derive(Debug, Clone, Copy)]
pub struct NextHop {
    pub addr: Face,
    pub cost: u64,
}

/// A pending request from downstream, with the Interest's parameters.
#[derive(Debug, Clone, Copy)]
pub struct InRecord {
    pub expiry: u64,
    pub face: Face,
    pub can_be_prefix: Option<bool>,
    pub must_be_fresh: Option<bool>,
    pub nonce: Option<u32>,
    pub lifetime: Option<u64>,
    pub hop_limit: Option<u8>,
}

/// The last request sent upstream through one face.
#[derive(Debug, Clone, Copy)]
pub struct OutRecord {
    pub face: Face,
    pub nonce: u32,
    pub timestamp: u64,
}

/// One node of the trie.
pub struct PITNode {
    /// The encoded component that leads to this node; empty at the root.
    pub name: Vec<u8>,
    /// The children, by the hash of their component.
    pub children: HashMap<u64, usize>,
    /// The pending requests, in the order of their arrival.
    pub in_records: Vec<InRecord>,
    /// The requests sent upstream, by the hash of the face.
    pub out_records: HashMap<u64, OutRecord>,
    /// The strategy installed here; 0 where none is.
    pub strategy: u64,
    /// The routes installed here.
    pub nexthops: Vec<NextHop>,
}

/// What a node holds.
pub struct NodeView {
    pub name: Seq<u8>,
    pub children: Map<u64, usize>,
    pub in_records: Seq<InRecord>,
    pub out_records: Map<u64, OutRecord>,
    pub strategy: u64,
    pub nexthops: Seq<NextHop>,
}

impl View for PITNode {
    type V = NodeView;

    open spec fn view(&self) -> NodeView {
        NodeView {
            name: self.name@,
            children: self.children@,
            in_records: self.in_records@,
            out_records: self.out_records@,
            strategy: self.strategy,
            nexthops: self.nexthops@,
        }
    }
}

/// A node without children, records or routes.
pub open spec fn fresh_node(name: Seq<u8>) -> NodeView {
    NodeView {
        name,
        children: Map::empty(),
        in_records: Seq::empty(),
        out_records: Map::empty(),
        strategy: 0,
        nexthops: Seq::empty(),
    }
}

/// The first index from `from` on whose route goes to `addr`; the length of
/// `hops` where none does.
pub open spec fn hop_index(hops: Seq<NextHop>, addr: Face, from: int) -> int
    decreases hops.len() - from,
{
    if from < 0 || from >= hops.len() {
        hops.len() as int
    } else if hops[from].addr == addr {
        from
    } else {
        hop_index(hops, addr, from + 1)
    }
}

/// `hops` with `hop` installed: the first route to the same face takes the
/// new cost; where there is none, `hop` goes to the end.
pub open spec fn with_hop(hops: Seq<NextHop>, hop: NextHop) -> Seq<NextHop> {
    let i = hop_index(hops, hop.addr, 0);
    if i < hops.len() {
        hops.update(i, hop)
    } else {
        hops.push(hop)
    }
}

impl PITNode {
    /// A node for the component `name`, holding nothing.
    pub fn new(name: Vec<u8>) -> (r: PITNode)
        ensures
            r@ == fresh_node(name@),
    {
        PITNode {
            name,
            children: HashMap::new(),
            in_records: Vec::new(),
            out_records: HashMap::new(),
            strategy: 0,
            nexthops: Vec::new(),
        }
    }

    /// Installs a route: a route to the same face gets the new cost, any
    /// other face is added behind the routes there are.
    pub fn insert_hop(&mut self, hop: NextHop)
        ensures
            final(self)@ == (NodeView { nexthops: with_hop(old(self)@.nexthops, hop), ..old(self)@ }),
    {
        let n: usize = self.nexthops.len();
        let mut i: usize = 0;
        while i < n
            invariant
                i <= n == self.nexthops@.len(),
                *self == *old(self),
                hop_index(self.nexthops@, hop.addr, 0) == hop_index(
                    self.nexthops@,
                    hop.addr,
                    i as int,
                ),
            decreases n - i,
        {
            if self.nexthops[i].addr == hop.addr {
                self.nexthops[i].cost = hop.cost;
                assert(self.nexthops@ =~= old(self).nexthops@.update(i as int, hop));
                return ;
            }
            i = i + 1;
        }
        self.nexthops.push(hop);
    }
}

impl InRecord {
    /// The record of `interest` as asked for through `face`.
    pub fn new(interest: &Interest, face: Face) -> (r: InRecord)
        ensures
            r.expiry == 0,
            r.face == face,
            r.can_be_prefix == interest.can_be_prefix,
            r.must_be_fresh == interest.must_be_fresh,
            r.nonce == interest.nonce,
            r.lifetime == interest.lifetime,
            r.hop_limit == interest.hop_limit,
    {
        InRecord {
            expiry: 0,
            face,
            can_be_prefix: interest.can_be_prefix,
            must_be_fresh: interest.must_be_fresh,
            nonce: interest.nonce,
            lifetime: interest.lifetime,
            hop_limit: interest.hop_limit,
        }
    }
}

/// `new` is `old` with one node more, the last, hung under `parent` by `key`.
spec fn edge_added(old: Seq<NodeView>, new: Seq<NodeView>, parent: usize, key: u64) -> bool {
    &&& parent < old.len()
    &&& new.len() == old.len() + 1
    &&& !old[parent as int].children.contains_key(key)
    &&& new[parent as int].children == old[parent as int].children.insert(key, old.len() as usize)
    &&& new[old.len() as int].children == Map::<u64, usize>::empty()
    &&& forall|i: int|
        0 <= i < old.len() && i != parent ==> (#[trigger] new[i]).children == old[i].children
}

/// Where a path leads after a node was hung under the node at `path`.
proof fn lemma_edge_added_walk(
    old: Seq<NodeView>,
    new: Seq<NodeView>,
    parent: usize,
    key: u64,
    path: Seq<u64>,
    p: Seq<u64>,
)
    requires
        is_trie(old),
        old.len() <= usize::MAX,
        edge_added(old, new, parent, key),
        walk(old, path) == Some(parent),
    ensures
        walk(new, p) == if walk(old, p) is Some {
            walk(old, p)
        } else if p == path.push(key) {
            Some(old.len() as usize)
        } else {
            None
        },
    decreases p.len(),
{
    if p.len() > 0 {
        let q = p.drop_last();
        lemma_edge_added_walk(old, new, parent, key, path, q);
        assert(p =~= q.push(p.last()));
        assert(path.push(key).drop_last() =~= path);
        match walk(old, q) {
            Some(i) => {
                lemma_walk_in_range(old, q);
                if i == parent {
                    lemma_walk_unique(old, q, path);
                }
            },
            None => {
                if p == path.push(key) {
                    assert(q == path);
                }
            },
        }
    }
}

/// Hanging a new node under a node of a trie gives a trie; the paths that
/// led somewhere still do, and one path more leads to the new node.
proof fn lemma_edge_added(
    old: Seq<NodeView>,
    new: Seq<NodeView>,
    parent: usize,
    key: u64,
    path: Seq<u64>,
)
    requires
        is_trie(old),
        old.len() <= usize::MAX,
        edge_added(old, new, parent, key),
        walk(old, path) == Some(parent),
    ensures
        is_trie(new),
        walk(new, path.push(key)) == Some(old.len() as usize),
        forall|p: Seq<u64>| (#[trigger] walk(old, p)) is Some ==> walk(new, p) == walk(old, p),
        forall|p: Seq<u64>|
            walk(old, p) is None && (#[trigger] walk(new, p)) is Some ==> p == path.push(key),
{
    assert forall|p: Seq<u64>| (#[trigger] walk(old, p)) is Some implies walk(new, p) == walk(
        old,
        p,
    ) by {
        lemma_edge_added_walk(old, new, parent, key, path, p);
    }
    assert forall|p: Seq<u64>| walk(old, p) is None && (#[trigger] walk(new, p)) is Some implies p
        == path.push(key) by {
        lemma_edge_added_walk(old, new, parent, key, path, p);
    }
    lemma_edge_added_walk(old, new, parent, key, path, path.push(key));
    assert(walk(old, path.push(key)) is None) by {
        assert(path.push(key).drop_last() =~= path);
    }
    assert forall|i: int| 0 <= i < new.len() implies #[trigger] reachable(new, i) by {
        if i < old.len() {
            assert(reachable(old, i));
            let p = choose|p: Seq<u64>| #[trigger] walk(old, p) == Some(i as usize);
            assert(walk(new, p) == Some(i as usize));
        } else {
            assert(walk(new, path.push(key)) == Some(i as usize));
        }
    }
    assert forall|i: int, k: u64|
        0 <= i < new.len() && #[trigger] new[i].children.contains_key(k) implies i
        < new[i].children[k] < new.len() by {
        if i < old.len() && i != parent {
            assert(old[i].children.contains_key(k));
        } else if i == parent && k != key {
            assert(old[i].children.contains_key(k));
        }
    }
    assert forall|i: int, k: u64, j: int, g: u64|
        0 <= i < new.len() && 0 <= j < new.len() && #[trigger] new[i].children.contains_key(k)
            && #[trigger] new[j].children.contains_key(g) && new[i].children[k]
            == new[j].children[g] implies i == j && k == g by {
        if !(i == parent && k == key) {
            assert(old[i].children.contains_key(k));
        }
        if !(j == parent && g == key) {
            assert(old[j].children.contains_key(g));
        }
    }
}

/// `new` is `old` after the walk went from the node at `path` to its child
/// for `component`, node `c`, which was made if `old` did not have it.
spec fn entered(
    old: Seq<NodeView>,
    new: Seq<NodeView>,
    path: Seq<u64>,
    component: Seq<u8>,
    c: usize,
) -> bool {
    let key = metro_hash64(component);
    &&& new.len() == if walk(old, path.push(key)) is Some {
        old.len()
    } else {
        old.len() + 1
    }
    &&& c < new.len()
    &&& walk(new, path.push(key)) == Some(c)
    &&& forall|i: int| 0 <= i < new.len() ==> node_kept(old, new, i)
    &&& forall|i: int| 0 <= i < old.len() ==> (#[trigger] old[i].children).submap_of(new[i].children)
    &&& forall|p: Seq<u64>| (#[trigger] walk(old, p)) is Some ==> walk(new, p) == walk(old, p)
    &&& forall|p: Seq<u64>|
        walk(old, p) is None && (#[trigger] walk(new, p)) is Some ==> {
            &&& p == path.push(key)
            &&& c == old.len()
            &&& new[c as int].name == component
        }
}

/// One step more of the walk keeps the trie grown from `old`, now for the
/// name that is one component longer.
proof fn lemma_grown_step(
    old: Seq<NodeView>,
    cur: Seq<NodeView>,
    new: Seq<NodeView>,
    done: Seq<Seq<u8>>,
    component: Seq<u8>,
    c: usize,
)
    requires
        grown(old, cur, done),
        forall|i: int| 0 <= i < cur.len() ==> node_kept(old, cur, i),
        entered(cur, new, name_path(done), component, c),
    ensures
        grown(old, new, done.push(component)),
        forall|i: int| 0 <= i < new.len() ==> node_kept(old, new, i),
        name_path(done.push(component)) == name_path(done).push(metro_hash64(component)),
{
    let path = name_path(done);
    let key = metro_hash64(component);
    let done2 = done.push(component);
    let path2 = name_path(done2);
    assert(path2 =~= path.push(key));
    assert(path2.drop_last() =~= path);
    let known = matching_nodes(old, path).len();
    let known2 = matching_nodes(old, path2).len();
    lemma_matching_len(old, path);
    lemma_matching_len(old, path2);
    assert(path.take(path.len() as int) =~= path);
    if walk(cur, path2) is Some {
        // The child was there before this walk began: a node that the walk
        // made has no child yet.
        if walk(old, path2) is None {
            assert(path2.is_prefix_of(path));
        }
        assert(known2 == path2.len());
        assert(walk(old, path) is Some);
    } else {
        assert(walk(old, path2) is None);
        assert(known2 == known);
    }
    assert forall|k: int| known2 < k <= path2.len() implies (#[trigger] walk(new, path2.take(k)))
        == Some((old.len() + k - known2 - 1) as usize) by {
        if k <= path.len() {
            assert(path2.take(k) =~= path.take(k));
            assert(walk(cur, path.take(k)) is Some);
        } else {
            assert(path2.take(k) =~= path2);
        }
    }
    assert forall|i: int| 0 <= i < new.len() implies node_kept(old, new, i) by {
        assert(node_kept(cur, new, i));
        if i < cur.len() {
            assert(node_kept(old, cur, i));
        }
    }
    assert forall|i: int| 0 <= i < old.len() implies (#[trigger] old[i].children).submap_of(
        new[i].children,
    ) by {
        assert(old[i].children.submap_of(cur[i].children));
        assert(cur[i].children.submap_of(new[i].children));
        assert forall|k: u64| #[trigger] old[i].children.dom().contains(k) implies new[i].children.dom().contains(
            k,
        ) && old[i].children[k] == new[i].children[k] by {
            assert(cur[i].children.dom().contains(k));
        }
    }
    assert forall|p: Seq<u64>| (#[trigger] walk(old, p)) is Some implies walk(new, p) == walk(
        old,
        p,
    ) by {
        assert(walk(cur, p) == walk(old, p));
    }
    assert forall|p: Seq<u64>| walk(old, p) is None && (#[trigger] walk(new, p)) is Some implies {
        let i = walk(new, p).unwrap();
        &&& p.is_prefix_of(path2)
        &&& old.len() <= i < new.len()
        &&& new[i as int].name == done2[p.len() - 1]
    } by {
        assert(walk(old, Seq::<u64>::empty()) is Some);
        assert(p.len() > 0);
        if walk(cur, p) is Some {
            let i = walk(cur, p).unwrap();
            assert(walk(new, p) == walk(cur, p));
            assert(p.is_prefix_of(path));
            assert(old.len() <= i < cur.len());
            assert(cur[i as int].name == done[p.len() - 1]);
            assert(p =~= path2.subrange(0, p.len() as int));
            assert(node_kept(cur, new, i as int));
            assert(new[i as int].name == cur[i as int].name);
            assert(done2[p.len() - 1] == done[p.len() - 1]);
        } else {
            assert(p == path2);
            assert(p =~= path2.subrange(0, p.len() as int));
        }
    }
    assert forall|k: int| 0 <= k <= path2.len() implies (#[trigger] walk(new, path2.take(k)))
        is Some by {
        if k <= path.len() {
            assert(path2.take(k) =~= path.take(k));
            assert(walk(cur, path.take(k)) is Some);
        } else {
            assert(path2.take(k) =~= path2);
        }
    }
}

/// The table.
pub struct PIT {
    nodes: Vec<PITNode>,
}

impl View for PIT {
    type V = Seq<NodeView>;

    /// The nodes of the arena, each as what it holds.
    closed spec fn view(&self) -> Seq<NodeView> {
        self.nodes@.map_values(|n: PITNode| n@)
    }
}

/// `records` after a request with `nonce` went out through `face`: the
/// record under `key` takes the nonce and a zero timestamp and keeps its face;
/// where there was none, one is made for `face`.
pub open spec fn with_out_record(
    records: Map<u64, OutRecord>,
    key: u64,
    face: Face,
    nonce: u32,
) -> Map<u64, OutRecord> {
    if records.contains_key(key) {
        records.insert(key, OutRecord { face: records[key].face, nonce, timestamp: 0 })
    } else {
        records.insert(key, OutRecord { face, nonce, timestamp: 0 })
    }
}

/// The components of a name that starts with `done` and goes on with what
/// `rest` splits into file under a path that starts with the path of `done`.
proof fn lemma_path_of_prefix(done: Seq<Seq<u8>>, rest: Seq<Seq<u8>>)
    ensures
        name_path(done + rest).take(done.len() as int) == name_path(done),
        name_path(done + rest).len() == done.len() + rest.len(),
{
    assert(name_path(done + rest).take(done.len() as int) =~= name_path(done));
}

impl PIT {
    /// The nodes form a trie.
    pub open spec fn wf(&self) -> bool {
        is_trie(self@)
    }

    /// A table with the root alone.
    pub fn new() -> (r: PIT)
        ensures
            r.wf(),
            r@ == seq![fresh_node(Seq::empty())],
    {
        let mut nodes: Vec<PITNode> = Vec::new();
        nodes.push(PITNode::new(Vec::new()));
        let r = PIT { nodes };
        assert(r@ =~= seq![fresh_node(Seq::empty())]);
        assert(walk(r@, Seq::empty()) == Some(0usize));
        assert(reachable(r@, 0));
        r
    }

    /// The number of nodes.
    pub fn len(&self) -> (n: usize)
        ensures
            n == self@.len(),
    {
        self.nodes.len()
    }

    /// Node `id`.
    pub fn node(&self, id: usize) -> (n: &PITNode)
        requires
            id < self@.len(),
        ensures
            n@ == self@[id as int],
    {
        &self.nodes[id]
    }

    /// The child of `node` for `component`, which is made if there is none.
    fn enter(&mut self, node: usize, component: &[u8], Ghost(path): Ghost<Seq<u64>>) -> (c: usize)
        requires
            old(self).wf(),
            walk(old(self)@, path) == Some(node),
        ensures
            final(self).wf(),
            entered(old(self)@, final(self)@, path, component@, c),
    {
        proof {
            lemma_walk_in_range(self@, path);
        }
        let key: u64 = hash64(component);
        let found: Option<usize> = match self.nodes[node].children.get(&key) {
            Some(c) => Some(*c),
            None => None,
        };
        match found {
            Some(c) => {
                assert(path.push(key).drop_last() =~= path);
                assert forall|i: int| 0 <= i < self@.len() implies (#[trigger] self@[i].children).submap_of(
                    self@[i].children,
                ) by {}
                assert(self@[node as int].children.contains_key(key));
                c
            },
            None => {
                let c: usize = self.nodes.len();
                self.nodes.push(PITNode::new(slice_to_vec(component)));
                self.nodes[node].children.insert(key, c);
                proof {
                    let before = old(self)@;
                    let after = self@;
                    assert(after.len() == before.len() + 1);
                    assert(after[c as int].children =~= Map::<u64, usize>::empty());
                    assert(edge_added(before, after, node, key));
                    lemma_edge_added(before, after, node, key, path);
                    assert forall|i: int| 0 <= i < before.len() implies (
                    #[trigger] before[i].children).submap_of(after[i].children) by {
                        if i != node {
                            assert(after[i].children == before[i].children);
                        }
                    }
                }
                c
            },
        }
    }

    /// The child of `node` for `component`, if there is one.
    fn find(&self, node: usize, component: &[u8]) -> (c: Option<usize>)
        requires
            node < self@.len(),
        ensures
            c == child(self@, node, metro_hash64(component@)),
    {
        let key: u64 = hash64(component);
        match self.nodes[node].children.get(&key) {
            Some(c) => Some(*c),
            None => None,
        }
    }

    /// Walks `name` down from the root, making each node that is not there
    /// yet, and returns the node of the name with the strategy and the routes
    /// that the name inherits from the nodes above it.
    ///
    /// A component that does not decode, or that says it is longer than what
    /// is left of the name, ends the walk with its error. The nodes made for
    /// the components before it stay.
    pub fn insert_or_get(&mut self, name: &Vec<u8>) -> (r: Result<
        (usize, u64, Vec<NextHop>),
        DecodeError,
    >)
        requires
            old(self).wf(),
        ensures
            final(self).wf(),
            grown(old(self)@, final(self)@, split_name(name@).0),
            forall|i: int| 0 <= i < final(self)@.len() ==> node_kept(old(self)@, final(self)@, i),
            match r {
                Ok((id, strategy, nexthops)) => spec_get(final(self)@, name@) == Some(
                    (id, strategy, nexthops@),
                ),
                Err(e) => split_name(name@).1 == Some(e),
            },
    {
        let mut o: usize = 0;
        let mut node: usize = 0;
        let mut strategy: u64 = 0;
        let mut nexthops: Vec<NextHop> = Vec::new();
        let ghost mut done: Seq<Seq<u8>> = Seq::empty();
        proof {
            assert(name@.skip(0) =~= name@);
            assert(done + split_name(name@).0 =~= split_name(name@).0);
            assert(name_path(done) =~= Seq::<u64>::empty());
            assert forall|k: int| 0 <= k <= name_path(done).len() implies (#[trigger] walk(
                self@,
                name_path(done).take(k),
            )) is Some by {
                assert(name_path(done).take(k) =~= Seq::<u64>::empty());
            }
            assert forall|i: int| 0 <= i < self@.len() implies (#[trigger] self@[i].children).submap_of(
                self@[i].children,
            ) by {}
        }
        while o < name.len()
            invariant
                o <= name.len(),
                is_trie(self@),
                split_name(name@) == (
                    done + split_name(name@.skip(o as int)).0,
                    split_name(name@.skip(o as int)).1,
                ),
                walk(self@, name_path(done)) == Some(node),
                grown(old(self)@, self@, done),
                forall|i: int| 0 <= i < self@.len() ==> node_kept(old(self)@, self@, i),
                strategy == inherited_strategy(self@, name_path(done)),
                nexthops@ == inherited_nexthops(self@, name_path(done)),
            decreases name.len() - o,
        {
            let rest = slice_subrange(name.as_slice(), o, name.len());
            assert(rest@ =~= name@.skip(o as int));
            let tlo = match read_tlo(rest) {
                Ok(t) => t,
                Err(e) => {
                    assert(done + Seq::<Seq<u8>>::empty() =~= done);
                    return Err(e);
                },
            };
            proof {
                lemma_walk_in_range(self@, name_path(done));
            }
            if self.nodes[node].strategy > 0 {
                strategy = self.nodes[node].strategy;
            }
            if self.nodes[node].nexthops.len() > 0 {
                nexthops = self.nodes[node].nexthops.clone();
            }
            if tlo.l > (rest.len() - tlo.o) as u64 {
                assert(done + Seq::<Seq<u8>>::empty() =~= done);
                return Err(DecodeError::IncorrectNameEncoding);
            }
            let n: usize = tlo.o + tlo.l as usize;
            let component = slice_subrange(rest, 0, n);
            let ghost before = self@;
            let next = self.enter(node, component, Ghost(name_path(done)));
            proof {
                let c = name@.skip(o as int).take(n as int);
                assert(component@ =~= c);
                lemma_grown_step(old(self)@, before, self@, done, c, next);
                assert forall|i: int| 0 <= i < before.len() implies routes_kept(
                    before,
                    self@,
                    i,
                ) by {
                    assert(node_kept(before, self@, i));
                }
                lemma_inherited_stable(before, self@, name_path(done));
                assert(name_path(done.push(c)).drop_last() =~= name_path(done));
                assert(walk(before, name_path(done)) is Some);
                assert(walk(self@, name_path(done)) == Some(node));
                assert(node_kept(before, self@, node as int));
                assert(node_kept(old(self)@, before, node as int));
                assert(name@.skip(o as int).skip(n as int) =~= name@.skip(o + n));
                assert(done + (seq![c] + split_name(name@.skip(o + n)).0) =~= done.push(c)
                    + split_name(name@.skip(o + n)).0);
                done = done.push(c);
            }
            node = next;
            o = o + n;
        }
        proof {
            assert(done + Seq::<Seq<u8>>::empty() =~= done);
        }
        Ok((node, strategy, nexthops))
    }

    /// Walks `name` down from the root without making any node. The answer is
    /// the node of the name, with the strategy and the routes that the name
    /// inherits; it is `None` where a node is missing on the way or a
    /// component does not decode.
    pub fn get(&self, name: &Vec<u8>) -> (r: Option<(usize, u64, Vec<NextHop>)>)
        requires
            self.wf(),
        ensures
            match r {
                Some((id, strategy, nexthops)) => spec_get(self@, name@) == Some(
                    (id, strategy, nexthops@),
                ),
                None => spec_get(self@, name@) is None,
            },
    {
        let mut o: usize = 0;
        let mut node: usize = 0;
        let mut strategy: u64 = 0;
        let mut nexthops: Vec<NextHop> = Vec::new();
        let ghost mut done: Seq<Seq<u8>> = Seq::empty();
        proof {
            assert(name@.skip(0) =~= name@);
            assert(done + split_name(name@).0 =~= split_name(name@).0);
            assert(name_path(done) =~= Seq::<u64>::empty());
        }
        while o < name.len()
            invariant
                o <= name.len(),
                is_trie(self@),
                split_name(name@) == (
                    done + split_name(name@.skip(o as int)).0,
                    split_name(name@.skip(o as int)).1,
                ),
                walk(self@, name_path(done)) == Some(node),
                strategy == inherited_strategy(self@, name_path(done)),
                nexthops@ == inherited_nexthops(self@, name_path(done)),
            decreases name.len() - o,
        {
            let rest = slice_subrange(name.as_slice(), o, name.len());
            assert(rest@ =~= name@.skip(o as int));
            let tlo = match read_tlo(rest) {
                Ok(t) => t,
                Err(e) => {
                    return None;
                },
            };
            proof {
                lemma_walk_in_range(self@, name_path(done));
            }
            if self.nodes[node].strategy > 0 {
                strategy = self.nodes[node].strategy;
            }
            if self.nodes[node].nexthops.len() > 0 {
                nexthops = self.nodes[node].nexthops.clone();
            }
            if tlo.l > (rest.len() - tlo.o) as u64 {
                return None;
            }
            let n: usize = tlo.o + tlo.l as usize;
            let component = slice_subrange(rest, 0, n);
            let ghost c = name@.skip(o as int).take(n as int);
            proof {
                assert(component@ =~= c);
                assert(name_path(done.push(c)) =~= name_path(done).push(metro_hash64(c)));
                assert(name_path(done.push(c)).drop_last() =~= name_path(done));
                assert(name@.skip(o as int).skip(n as int) =~= name@.skip(o + n));
                assert(done + (seq![c] + split_name(name@.skip(o + n)).0) =~= done.push(c)
                    + split_name(name@.skip(o + n)).0);
            }
            match self.find(node, component) {
                Some(next) => {
                    node = next;
                },
                None => {
                    proof {
                        let tail = split_name(name@.skip(o + n)).0;
                        let full = name_path(done.push(c) + tail);
                        lemma_path_of_prefix(done.push(c), tail);
                        if walk(self@, full) is Some {
                            lemma_walk_prefix(self@, full, done.len() as int + 1);
                        }
                    }
                    return None;
                },
            }
            proof {
                done = done.push(c);
            }
            o = o + n;
        }
        proof {
            assert(done + Seq::<Seq<u8>>::empty() =~= done);
        }
        Some((node, strategy, nexthops))
    }

    /// The nodes of all the prefixes of `name` that the table has, shortest
    /// first and without the root: the nodes whose pending requests a Data
    /// packet of that name answers. A component that does not decode ends the
    /// name there.
    pub fn get_all_can_be_pfx(&self, name: &Vec<u8>) -> (r: Vec<usize>)
        requires
            self.wf(),
        ensures
            r@ == matching_nodes(self@, name_path(split_name(name@).0)),
            forall|i: int| 0 <= i < r@.len() ==> r@[i] < self@.len(),
    {
        let mut o: usize = 0;
        let mut node: usize = 0;
        let mut nodes: Vec<usize> = Vec::new();
        let ghost mut done: Seq<Seq<u8>> = Seq::empty();
        proof {
            assert(name@.skip(0) =~= name@);
            assert(done + split_name(name@).0 =~= split_name(name@).0);
            assert(name_path(done) =~= Seq::<u64>::empty());
        }
        while o < name.len()
            invariant
                o <= name.len(),
                is_trie(self@),
                split_name(name@) == (
                    done + split_name(name@.skip(o as int)).0,
                    split_name(name@.skip(o as int)).1,
                ),
                walk(self@, name_path(done)) == Some(node),
                nodes@ == matching_nodes(self@, name_path(done)),
                forall|i: int| 0 <= i < nodes@.len() ==> nodes@[i] < self@.len(),
            decreases name.len() - o,
        {
            let rest = slice_subrange(name.as_slice(), o, name.len());
            assert(rest@ =~= name@.skip(o as int));
            let tlo = match read_tlo(rest) {
                Ok(t) => t,
                Err(e) => {
                    assert(done + Seq::<Seq<u8>>::empty() =~= done);
                    return nodes;
                },
            };
            if tlo.l > (rest.len() - tlo.o) as u64 {
                assert(done + Seq::<Seq<u8>>::empty() =~= done);
                return nodes;
            }
            let n: usize = tlo.o + tlo.l as usize;
            let component = slice_subrange(rest, 0, n);
            let ghost c = name@.skip(o as int).take(n as int);
            proof {
                lemma_walk_in_range(self@, name_path(done));
                assert(component@ =~= c);
                assert(name_path(done.push(c)) =~= name_path(done).push(metro_hash64(c)));
                assert(name_path(done.push(c)).drop_last() =~= name_path(done));
                assert(name@.skip(o as int).skip(n as int) =~= name@.skip(o + n));
                assert(done + (seq![c] + split_name(name@.skip(o + n)).0) =~= done.push(c)
                    + split_name(name@.skip(o + n)).0);
            }
            match self.find(node, component) {
                Some(next) => {
                    proof {
                        lemma_walk_in_range(self@, name_path(done.push(c)));
                    }
                    nodes.push(next);
                    node = next;
                },
                None => {
                    proof {
                        let tail = split_name(name@.skip(o + n)).0;
                        let full = name_path(done.push(c) + tail);
                        lemma_path_of_prefix(done.push(c), tail);
                        lemma_matching_stops(self@, full, done.len() as int + 1);
                    }
                    return nodes;
                },
            }
            proof {
                done = done.push(c);
            }
            o = o + n;
        }
        proof {
            assert(done + Seq::<Seq<u8>>::empty() =~= done);
        }
        nodes
    }

    /// Installs a route at node `id`.
    pub fn insert_hop(&mut self, id: usize, hop: NextHop)
        requires
            old(self).wf(),
            id < old(self)@.len(),
        ensures
            final(self).wf(),
            final(self)@ == old(self)@.update(
                id as int,
                NodeView { nexthops: with_hop(old(self)@[id as int].nexthops, hop), ..old(self)@[id as int] },
            ),
    {
        self.nodes[id].insert_hop(hop);
        proof {
            lemma_same_shape(old(self)@, old(self)@, self@, Seq::empty());
        }
        assert(self@ =~= old(self)@.update(
            id as int,
            NodeView { nexthops: with_hop(old(self)@[id as int].nexthops, hop), ..old(self)@[id as int] },
        ));
    }

    /// Adds a pending request at node `id`, behind those that are there.
    pub fn add_in_record(&mut self, id: usize, record: InRecord)
        requires
            old(self).wf(),
            id < old(self)@.len(),
        ensures
            final(self).wf(),
            final(self)@ == old(self)@.update(
                id as int,
                NodeView { in_records: old(self)@[id as int].in_records.push(record), ..old(self)@[id as int] },
            ),
    {
        self.nodes[id].in_records.push(record);
        proof {
            lemma_same_shape(old(self)@, old(self)@, self@, Seq::empty());
        }
        assert(self@ =~= old(self)@.update(
            id as int,
            NodeView { in_records: old(self)@[id as int].in_records.push(record), ..old(self)@[id as int] },
        ));
    }

    /// Notes at node `id` that a request with `nonce` went out through
    /// `face`, whose record is kept under `key`.
    pub fn record_out(&mut self, id: usize, key: u64, face: Face, nonce: u32)
        requires
            old(self).wf(),
            id < old(self)@.len(),
        ensures
            final(self).wf(),
            final(self)@ == old(self)@.update(
                id as int,
                NodeView {
                    out_records: with_out_record(old(self)@[id as int].out_records, key, face, nonce),
                    ..old(self)@[id as int]
                },
            ),
    {
        let known: Option<Face> = match self.nodes[id].out_records.get(&key) {
            Some(record) => Some(record.face),
            None => None,
        };
        let record = match known {
            Some(f) => OutRecord { face: f, nonce, timestamp: 0 },
            None => OutRecord { face, nonce, timestamp: 0 },
        };
        self.nodes[id].out_records.insert(key, record);
        proof {
            lemma_same_shape(old(self)@, old(self)@, self@, Seq::empty());
        }
        assert(self@ =~= old(self)@.update(
            id as int,
            NodeView {
                out_records: with_out_record(old(self)@[id as int].out_records, key, face, nonce),
                ..old(self)@[id as int]
            },
        ));
    }
}

} // verus!
