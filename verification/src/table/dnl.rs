//! The dead nonce list: a bounded record of the Interests seen lately, by
//! which a looping Interest is told from a new one.

use std::collections::{HashSet, VecDeque};
use vstd::prelude::*;
use vstd::std_specs::hash::*;
use vstd::std_specs::vecdeque::*;

verus! {

broadcast use {group_hash_axioms, vstd::std_specs::vecdeque::group_vec_dequeue_axioms};

/// Hashes in the order in which they came in, each at most once. A set
/// answers membership; a queue keeps the order in which they leave.
pub struct DeadNonceList {
    set: HashSet<u64>,
    queue: VecDeque<u64>,
    max_len: usize,
}

impl View for DeadNonceList {
    type V = Seq<u64>;

    /// The entries, oldest first.
    closed spec fn view(&self) -> Seq<u64> {
        self.queue@
    }
}

/// What `insert` makes of `entries`: `nonce` goes to the end unless it is there
/// already.
pub open spec fn inserted(entries: Seq<u64>, nonce: u64) -> Seq<u64> {
    if entries.contains(nonce) {
        entries
    } else {
        entries.push(nonce)
    }
}

/// `entries` after every hash of `hashes` has been inserted, first to last.
pub open spec fn inserted_all(entries: Seq<u64>, hashes: Seq<u64>) -> Seq<u64>
    decreases hashes.len(),
{
    if hashes.len() == 0 {
        entries
    } else {
        inserted(inserted_all(entries, hashes.drop_last()), hashes.last())
    }
}

/// What `clean` keeps of `entries`: the newest `max_len` of them.
pub open spec fn retained(entries: Seq<u64>, max_len: nat) -> Seq<u64> {
    if entries.len() > max_len {
        entries.subrange(entries.len() - max_len, entries.len() as int)
    } else {
        entries
    }
}

impl DeadNonceList {
    /// The set holds what the queue holds, and the queue holds nothing twice.
    pub closed spec fn wf(&self) -> bool {
        &&& self.queue@.no_duplicates()
        &&& self.set@ == self.queue@.to_set()
    }

    /// In a well-formed list no entry occurs twice.
    pub proof fn lemma_distinct(&self)
        requires
            self.wf(),
        ensures
            self@.no_duplicates(),
    {
    }

    /// The number of entries that `clean` cuts the list down to.
    pub closed spec fn max_len(&self) -> usize {
        self.max_len
    }

    /// An empty list that `clean` will hold to `max_len` entries.
    pub fn new(max_len: usize) -> (r: DeadNonceList)
        ensures
            r.wf(),
            r@ == Seq::<u64>::empty(),
            r.max_len() == max_len,
    {
        let r = DeadNonceList { set: HashSet::new(), queue: VecDeque::new(), max_len };
        assert(r.queue@.to_set() =~= Set::<u64>::empty());
        r
    }

    /// Records `nonce` as the newest entry, unless it is in the list already.
    /// The list may grow past `max_len`: only `clean` shortens it.
    pub fn insert(&mut self, nonce: u64)
        requires
            old(self).wf(),
        ensures
            final(self).wf(),
            final(self)@ == inserted(old(self)@, nonce),
            final(self).max_len() == old(self).max_len(),
    {
        if self.set.contains(&nonce) {
            return ;
        }
        self.set.insert(nonce);
        self.queue.push_back(nonce);
        proof {
            let q = old(self).queue@;
            assert(q.push(nonce).to_set() =~= q.to_set().insert(nonce)) by {
                assert forall|x: u64| q.push(nonce).to_set().contains(x) <==> q.to_set().insert(
                    nonce,
                ).contains(x) by {
                    if q.push(nonce).contains(x) {
                        let i = choose|i: int| 0 <= i < q.push(nonce).len() && q.push(nonce)[i] == x;
                        if i < q.len() {
                            assert(q[i] == x);
                        }
                    }
                    if q.contains(x) {
                        let i = choose|i: int| 0 <= i < q.len() && q[i] == x;
                        assert(q.push(nonce)[i] == x);
                    }
                    if x == nonce {
                        assert(q.push(nonce)[q.len() as int] == x);
                    }
                }
            }
        }
    }

    /// Whether `nonce` is in the list.
    pub fn contains(&self, nonce: u64) -> (b: bool)
        requires
            self.wf(),
        ensures
            b == self@.contains(nonce),
    {
        self.set.contains(&nonce)
    }

    /// Drops the oldest entries until at most `max_len` are left.
    pub fn clean(&mut self)
        requires
            old(self).wf(),
        ensures
            final(self).wf(),
            final(self)@ == retained(old(self)@, old(self).max_len() as nat),
            final(self).max_len() == old(self).max_len(),
    {
        while self.queue.len() > self.max_len
            invariant
                self.max_len == old(self).max_len,
                self.queue@.no_duplicates(),
                self.set@ == self.queue@.to_set(),
                self.queue@.len() <= old(self).queue@.len(),
                self.queue@.len() == old(self).queue@.len() || self.queue@.len() >= self.max_len,
                self.queue@ == old(self).queue@.subrange(
                    old(self).queue@.len() - self.queue@.len(),
                    old(self).queue@.len() as int,
                ),
            decreases self.queue@.len(),
        {
            let ghost before = self.queue@;
            let nonce = self.queue.pop_front().unwrap();
            self.set.remove(&nonce);
            proof {
                let after = self.queue@;
                assert(after == before.subrange(1, before.len() as int));
                assert(after.to_set() =~= before.to_set().remove(nonce)) by {
                    assert forall|x: u64| after.to_set().contains(x) <==> before.to_set().remove(
                        nonce,
                    ).contains(x) by {
                        if after.contains(x) {
                            let i = choose|i: int| 0 <= i < after.len() && after[i] == x;
                            assert(before[i + 1] == x);
                        }
                        if before.contains(x) && x != nonce {
                            let i = choose|i: int| 0 <= i < before.len() && before[i] == x;
                            assert(after[i - 1] == x);
                        }
                    }
                }
            }
        }
        assert(self.queue@ =~= retained(old(self).queue@, self.max_len as nat));
    }
}

/// Inserting hashes that are all different into an empty list gives the
/// list of them, in their order.
pub proof fn lemma_inserted_all_distinct(hashes: Seq<u64>)
    requires
        hashes.no_duplicates(),
    ensures
        inserted_all(Seq::empty(), hashes) == hashes,
    decreases hashes.len(),
{
    if hashes.len() > 0 {
        let front = hashes.drop_last();
        lemma_inserted_all_distinct(front);
        if front.contains(hashes.last()) {
            let i = choose|i: int| 0 <= i < front.len() && front[i] == hashes.last();
            assert(hashes[i] == hashes[hashes.len() - 1]);
        }
        assert(front.push(hashes.last()) =~= hashes);
    }
}

/// The bound of the list: after `max_len + extra` different hashes went into
/// an empty list, a cleaning leaves exactly `max_len` entries. They are the
/// newest ones in their order, so the oldest went first, and a hash is found
/// in the list only if it is one of those.
pub proof fn lemma_clean_keeps_newest(hashes: Seq<u64>, max_len: nat, extra: nat)
    requires
        hashes.no_duplicates(),
        hashes.len() == max_len + extra,
    ensures
        ({
            let kept = retained(inserted_all(Seq::empty(), hashes), max_len);
            &&& kept.len() == max_len
            &&& kept == hashes.subrange(extra as int, hashes.len() as int)
            &&& forall|i: int|
                0 <= i < hashes.len() ==> (kept.contains(#[trigger] hashes[i]) <==> i >= extra)
            &&& forall|h: u64| kept.contains(h) ==> hashes.contains(h)
        }),
{
    lemma_inserted_all_distinct(hashes);
    let kept = retained(hashes, max_len);
    assert(kept =~= hashes.subrange(extra as int, hashes.len() as int));
    assert forall|i: int| 0 <= i < hashes.len() implies (kept.contains(#[trigger] hashes[i])
        <==> i >= extra) by {
        if i >= extra {
            assert(kept[i - extra] == hashes[i]);
        }
        if kept.contains(hashes[i]) {
            let j = choose|j: int| 0 <= j < kept.len() && kept[j] == hashes[i];
            assert(hashes[extra + j] == hashes[i]);
        }
    }
    assert forall|h: u64| kept.contains(h) implies hashes.contains(h) by {
        let j = choose|j: int| 0 <= j < kept.len() && kept[j] == h;
        assert(hashes[extra + j] == h);
    }
}

} // verus!
