//! The state that one pipeline worker owns: its pending interest table, its
//! dead nonce list, and the packets it has made ready to be sent.

use vstd::prelude::*;
use crate::face::Face;
use self::dnl::DeadNonceList;
use self::pit::{NodeView, PIT};

pub mod dnl;
pub mod pit;
pub mod trie;

verus! {

/// How many entries a cleaning leaves in the dead nonce list.
pub const DNL_MAX_LENGTH: usize = 4096;

/// The tables of one shard and its queue of outgoing packets. Whoever runs
/// the worker takes the packets from the queue and sends them.
pub struct Table {
    pub dnl: DeadNonceList,
    pub pit: PIT,
    /// Packets ready to go out, each with the face it goes to.
    pub send_queue: Vec<(Vec<u8>, Face)>,
    /// Whether an Interest is forwarded although its node has pending
    /// requests already. It is, unless this is switched off.
    pub forward_aggregated: bool,
}

/// What a table holds.
pub struct TableView {
    /// The dead nonce list, oldest entry first.
    pub dnl: Seq<u64>,
    /// The number of entries that a cleaning leaves in the dead nonce list.
    pub dnl_max_len: usize,
    /// Whether an Interest is forwarded although its node has pending
    /// requests already.
    pub forward_aggregated: bool,
    /// The nodes of the pending interest table.
    pub pit: Seq<NodeView>,
    /// The queue of outgoing packets, oldest first.
    pub sent: Seq<(Seq<u8>, Face)>,
}

/// The queue `queue` with each packet as its bytes.
pub open spec fn queue_view(queue: Seq<(Vec<u8>, Face)>) -> Seq<(Seq<u8>, Face)> {
    queue.map_values(|p: (Vec<u8>, Face)| (p.0@, p.1))
}

impl View for Table {
    type V = TableView;

    open spec fn view(&self) -> TableView {
        TableView {
            dnl: self.dnl@,
            dnl_max_len: self.dnl.max_len(),
            forward_aggregated: self.forward_aggregated,
            pit: self.pit@,
            sent: queue_view(self.send_queue@),
        }
    }
}

/// The table `new` is set up as `old` is: the bound of the dead nonce list
/// and the handling of aggregated Interests are the same.
pub open spec fn settings_kept(old: TableView, new: TableView) -> bool {
    &&& new.dnl_max_len == old.dnl_max_len
    &&& new.forward_aggregated == old.forward_aggregated
}

impl Table {
    /// Both tables are well-formed.
    pub open spec fn wf(&self) -> bool {
        self.dnl.wf() && self.pit.wf()
    }

    /// An empty table: a trie with the root alone, no nonce seen, nothing to
    /// send. Every Interest that finds a route will be forwarded.
    pub fn new() -> (r: Table)
        ensures
            r.wf(),
            r@.dnl == Seq::<u64>::empty(),
            r@.dnl_max_len == DNL_MAX_LENGTH,
            r@.forward_aggregated,
            r@.pit == seq![self::pit::fresh_node(Seq::empty())],
            r@.sent == Seq::<(Seq<u8>, Face)>::empty(),
    {
        let r = Table {
            dnl: DeadNonceList::new(DNL_MAX_LENGTH),
            pit: PIT::new(),
            send_queue: Vec::new(),
            forward_aggregated: true,
        };
        assert(r@.sent =~= Seq::<(Seq<u8>, Face)>::empty());
        r
    }

    /// Cuts the dead nonce list down to its bound. Nothing does this on its
    /// own: the worker calls it from time to time.
    pub fn clean(&mut self)
        requires
            old(self).wf(),
        ensures
            final(self).wf(),
            final(self)@ == (TableView {
                dnl: self::dnl::retained(old(self)@.dnl, old(self)@.dnl_max_len as nat),
                ..old(self)@
            }),
    {
        self.dnl.clean();
    }

    /// Hands out the packets that are ready and leaves the queue empty.
    pub fn take_outgoing(&mut self) -> (out: Vec<(Vec<u8>, Face)>)
        ensures
            queue_view(out@) == old(self)@.sent,
            final(self)@ == (TableView { sent: Seq::empty(), ..old(self)@ }),
            final(self).wf() == old(self).wf(),
    {
        let mut out: Vec<(Vec<u8>, Face)> = Vec::new();
        std::mem::swap(&mut out, &mut self.send_queue);
        assert(self@.sent =~= Seq::<(Seq<u8>, Face)>::empty());
        out
    }
}

} // verus!
