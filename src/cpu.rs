//! The out-of-order core: in-order retirement from a reorder buffer, miss-status
//! holding registers that coalesce reads, and a dated response queue.
use vstd::prelude::*;

use std::collections::HashMap;

use crate::mem_request::{Delivery, MemRequest, MemRequestType, MemResponse, MemResponseReceiver};
use crate::simulator::Simulator;
use crate::trace::{records_of, TraceReader, TraceRecord};
use vstd::arithmetic::div_mod::{
    lemma_add_mod_noop_right, lemma_mod_bound, lemma_mod_sub_multiples_vanish, lemma_small_mod,
};

verus! {

broadcast use vstd::std_specs::hash::group_hash_axioms;

/// The ready cycle of a reorder-buffer entry that waits for memory.
pub const CYCLE_INFINITY: i64 = 0x7FFF_FFFF_FFFF_FFFF;

proof fn lemma_mod_shift(h: int, x: int, m: int)
    requires
        m > 0,
    ensures
        ((h % m) + x) % m == (h + x) % m,
{
    lemma_add_mod_noop_right(x, h, m);
}

/// Advancing an index of a ring of `m` slots by one.
proof fn lemma_ring_succ(i: int, m: int)
    requires
        0 <= i < m,
    ensures
        (i + 1) % m == if i + 1 >= m { 0 } else { i + 1 },
        (i + 0) % m == i,
{
    lemma_small_mod(i as nat, m as nat);
    if i + 1 < m {
        lemma_small_mod((i + 1) as nat, m as nat);
    } else {
        assert((i + 1) % m == 0) by (nonlinear_arith)
            requires
                i + 1 == m,
                m > 0,
        ;
    }
}

proof fn lemma_mod_below_twice(x: int, m: int)
    requires
        0 <= x < 2 * m,
    ensures
        x % m == if x < m { x } else { x - m },
{
    if x < m {
        lemma_small_mod(x as nat, m as nat);
    } else {
        lemma_mod_sub_multiples_vanish(x, m);
        lemma_small_mod((x - m) as nat, m as nat);
    }
}

/// Distinct offsets below `m` from one index name distinct slots of a ring of `m`.
proof fn lemma_ring_distinct(h: int, j1: int, j2: int, m: int)
    requires
        0 <= h,
        0 <= j1 < j2 < m,
    ensures
        (h + j1) % m != (h + j2) % m,
{
    lemma_mod_bound(h, m);
    lemma_mod_shift(h, j1, m);
    lemma_mod_shift(h, j2, m);
    lemma_mod_below_twice(h % m + j1, m);
    lemma_mod_below_twice(h % m + j2, m);
}

/// The offset from head `h` of slot `i` in a ring of `m` slots.
pub open spec fn ring_offset(h: int, i: int, m: int) -> int {
    (i - h + m) % m
}

proof fn lemma_ring_offset(h: int, i: int, m: int)
    requires
        0 <= h < m,
        0 <= i < m,
    ensures
        0 <= ring_offset(h, i, m) < m,
        (h + ring_offset(h, i, m)) % m == i,
{
    lemma_mod_below_twice(i - h + m, m);
    let o = ring_offset(h, i, m);
    lemma_mod_below_twice(h + o, m);
}

proof fn lemma_ring_offset_of_index(h: int, j: int, m: int)
    requires
        0 <= h < m,
        0 <= j < m,
    ensures
        0 <= (h + j) % m < m,
        ring_offset(h, (h + j) % m, m) == j,
{
    lemma_mod_below_twice(h + j, m);
    let i = (h + j) % m;
    lemma_mod_below_twice(i - h + m, m);
}

/// One outstanding read address and the reorder-buffer entries waiting on it.
pub struct Mshr {
    pub addr: u64,
    pub issued: bool,
    pub rob_indices: Vec<usize>,
}

impl Mshr {
    pub fn new(addr: u64) -> (r: Mshr)
        ensures
            r.addr == addr,
            !r.issued,
            r.rob_indices@.len() == 0,
    {
        Mshr { addr, issued: false, rob_indices: Vec::new() }
    }
}

/// Responses ordered by delivery cycle.
pub open spec fn sorted_by_cycle(q: Seq<Delivery>) -> bool {
    forall|i: int, j: int| 0 <= i <= j < q.len() ==> #[trigger] q[i].cycle <= #[trigger] q[j].cycle
}

/// The index of the first response from `i` on that is due after `cycle`.
pub open spec fn first_later_from(q: Seq<Delivery>, cycle: i64, i: int) -> int
    decreases q.len() - i,
{
    if i < 0 || i >= q.len() {
        q.len() as int
    } else if q[i].cycle > cycle {
        i
    } else {
        first_later_from(q, cycle, i + 1)
    }
}

/// The response queue `q` after each response of `ds` was queued in turn.
pub open spec fn received_all(q: Seq<Delivery>, ds: Seq<Delivery>) -> Seq<Delivery>
    decreases ds.len(),
{
    if ds.len() == 0 {
        q
    } else {
        let p = received_all(q, ds.drop_last());
        p.insert(first_later_from(p, ds.last().cycle, 0), ds.last())
    }
}

/// The addresses of a sequence of responses.
pub open spec fn addrs_of(q: Seq<Delivery>) -> Seq<u64> {
    q.map_values(|d: Delivery| d.response.addr)
}

/// `rob` with every entry listed in `idx` made ready at `now`.
pub open spec fn release(rob: Seq<i64>, idx: Seq<usize>, now: i64) -> Seq<i64> {
    Seq::new(rob.len(), |i: int| if idx.contains(i as usize) { now } else { rob[i] })
}

/// `rob` after the waiters of each address of `addrs`, as listed in `mshrs`, were
/// released in turn.
pub open spec fn released_by(rob: Seq<i64>, mshrs: Map<u64, Mshr>, addrs: Seq<u64>, now: i64) -> Seq<i64>
    decreases addrs.len(),
{
    if addrs.len() == 0 {
        rob
    } else {
        release(
            released_by(rob, mshrs, addrs.drop_last(), now),
            mshrs[addrs.last()].rob_indices@,
            now,
        )
    }
}

/// The read requests in `reqs` go to pairwise distinct addresses.
pub open spec fn reads_distinct(reqs: Seq<MemRequest>) -> bool {
    forall|i: int, j: int|
        0 <= i < j < reqs.len() && reqs[i].req_type == MemRequestType::Read && reqs[j].req_type
            == MemRequestType::Read ==> #[trigger] reqs[i].addr != #[trigger] reqs[j].addr
}

/// `reqs` holds a read of `a`.
pub open spec fn has_read_of(reqs: Seq<MemRequest>, a: u64) -> bool {
    exists|i: int|
        0 <= i < reqs.len() && #[trigger] reqs[i] == (MemRequest { addr: a, req_type: MemRequestType::Read })
}

/// The waiter lists of an MSHR table, by address.
pub open spec fn waiters_of(m: Map<u64, Mshr>) -> Map<u64, Seq<usize>> {
    Map::new(|a: u64| m.contains_key(a), |a: u64| m[a].rob_indices@)
}

/// What the issue phase works on: the reorder buffer and its tail, the current
/// record, how many records it has taken from the trace, the MSHR waiter lists,
/// and the requests it has sent.
pub struct IssueModel {
    pub rob: Seq<i64>,
    pub tail: int,
    pub cur: TraceRecord,
    pub taken: nat,
    pub waiters: Map<u64, Seq<usize>>,
    pub sent: Seq<MemRequest>,
}

/// One issue slot at `now` in a reorder buffer of `size` entries, with `recs`
/// the trace records still to come:
/// - with `prec > 0` the slot is a non-memory instruction, ready at `now`, and
///   `prec` drops by one;
/// - a write is sent, its slot is ready at `now`, and the next record is taken;
/// - a read's slot waits (`CYCLE_INFINITY`) and joins the waiter list of its
///   address; the read is sent only if the address had no MSHR; the next record
///   is taken.
pub open spec fn issue_slot(m: IssueModel, now: i64, size: int, recs: spec_fn(nat) -> TraceRecord) -> IssueModel {
    let tail = if m.tail + 1 >= size { 0 } else { m.tail + 1 };
    if m.cur.prec > 0 {
        IssueModel {
            rob: m.rob.update(m.tail, now),
            tail,
            cur: TraceRecord { prec: (m.cur.prec - 1) as u64, ..m.cur },
            ..m
        }
    } else if m.cur.is_write {
        IssueModel {
            rob: m.rob.update(m.tail, now),
            tail,
            cur: recs(m.taken),
            taken: m.taken + 1,
            sent: m.sent.push(MemRequest { addr: m.cur.addr, req_type: MemRequestType::Write }),
            ..m
        }
    } else {
        let a = m.cur.addr;
        let known = m.waiters.contains_key(a);
        IssueModel {
            rob: m.rob.update(m.tail, CYCLE_INFINITY),
            tail,
            cur: recs(m.taken),
            taken: m.taken + 1,
            waiters: m.waiters.insert(
                a,
                (if known { m.waiters[a] } else { Seq::empty() }).push(m.tail as usize),
            ),
            sent: if known {
                m.sent
            } else {
                m.sent.push(MemRequest { addr: a, req_type: MemRequestType::Read })
            },
        }
    }
}

/// `k` issue slots in a row.
pub open spec fn issue_slots(
    m: IssueModel,
    now: i64,
    size: int,
    recs: spec_fn(nat) -> TraceRecord,
    k: nat,
) -> IssueModel
    decreases k,
{
    if k == 0 {
        m
    } else {
        issue_slot(issue_slots(m, now, size, recs, (k - 1) as nat), now, size, recs)
    }
}

pub struct Core {
    pub superscalar_width: usize,
    pub rob_size: usize,
    pub rob_head: usize,
    pub rob_tail: usize,
    pub rob_insns: usize,
    pub rob: Vec<i64>,
    pub cur_mem: TraceRecord,
    pub mshrs: HashMap<u64, Mshr>,
    pub waiting_responses: Vec<Delivery>,
    pub insns_retired: u64,
}

impl Core {
    /// The reorder buffer's head, tail and occupancy agree with its capacity.
    pub open spec fn rob_wf(&self) -> bool {
        &&& self.rob@.len() == self.rob_size
        &&& self.rob_insns <= self.rob_size
        &&& if self.rob_size == 0 {
            self.rob_head == 0 && self.rob_tail == 0
        } else {
            &&& self.rob_head < self.rob_size
            &&& self.rob_tail < self.rob_size
            &&& self.rob_tail == (self.rob_head + self.rob_insns) % (self.rob_size as int)
        }
    }

    /// Each outstanding miss is keyed by its address, has been sent to memory, and
    /// names entries of the reorder buffer.
    pub open spec fn mshrs_wf(&self) -> bool {
        forall|a: u64|
            #[trigger] self.mshrs@.contains_key(a) ==> {
                let m = self.mshrs@[a];
                &&& m.addr == a
                &&& m.issued
                &&& forall|j: int| 0 <= j < m.rob_indices@.len() ==> #[trigger] m.rob_indices@[j] < self.rob_size
            }
    }

    /// Slot `i` of the reorder buffer holds a live entry.
    pub open spec fn is_live(&self, i: int) -> bool {
        0 <= i < self.rob_size && ring_offset(self.rob_head as int, i, self.rob_size as int)
            < self.rob_insns
    }

    /// Every waiter of an MSHR is a live entry still waiting for memory, and no
    /// entry waits on two MSHRs.
    pub open spec fn waiters_wf(&self) -> bool {
        &&& forall|a: u64, j: int|
            #![trigger self.mshrs@[a].rob_indices@[j]]
            self.mshrs@.contains_key(a) && 0 <= j < self.mshrs@[a].rob_indices@.len() ==> {
                let i = self.mshrs@[a].rob_indices@[j] as int;
                &&& self.is_live(i)
                &&& self.rob@[i] == CYCLE_INFINITY
            }
        &&& forall|a: u64, b: u64, j: int, k: int|
            #![trigger self.mshrs@[a].rob_indices@[j], self.mshrs@[b].rob_indices@[k]]
            a != b && self.mshrs@.contains_key(a) && self.mshrs@.contains_key(b) && 0 <= j
                < self.mshrs@[a].rob_indices@.len() && 0 <= k < self.mshrs@[b].rob_indices@.len()
                ==> self.mshrs@[a].rob_indices@[j] != self.mshrs@[b].rob_indices@[k]
    }

    pub open spec fn wf(&self) -> bool {
        &&& self.rob_wf()
        &&& self.mshrs_wf()
        &&& self.waiters_wf()
        &&& sorted_by_cycle(self.waiting_responses@)
    }

    /// The `j`-th live entry of the reorder buffer, counted from its head.
    pub open spec fn rob_entry(&self, j: int) -> i64 {
        self.rob@[(self.rob_head + j) % (self.rob_size as int)]
    }

    /// Makes a core with an empty reorder buffer of `rob_size` entries, holding the
    /// first record of `trace`.
    pub fn new<T: TraceReader>(trace_reader: &mut T, superscalar_width: usize, rob_size: usize) -> (r: Core)
        ensures
            r.wf(),
            r.superscalar_width == superscalar_width,
            r.rob_size == rob_size,
            r.rob_head == 0,
            r.rob_tail == 0,
            r.rob_insns == 0,
            r.insns_retired == 0,
            r.cur_mem == old(trace_reader).record_at(0),
            forall|i: nat| #[trigger] final(trace_reader).record_at(i) == old(trace_reader).record_at(i + 1),
            r.mshrs@.len() == 0,
            r.waiting_responses@.len() == 0,
    {
        let cur_mem = trace_reader.next_trace_record();
        let mut rob: Vec<i64> = Vec::new();
        let mut i: usize = 0;
        while i < rob_size
            invariant
                i <= rob_size,
                rob@.len() == i,
            decreases rob_size - i,
        {
            rob.push(0);
            i = i + 1;
        }
        proof {
            if rob_size > 0 {
                lemma_small_mod(0, rob_size as nat);
            }
        }
        Core {
            superscalar_width,
            rob_size,
            rob_head: 0,
            rob_tail: 0,
            rob_insns: 0,
            rob,
            cur_mem,
            mshrs: HashMap::new(),
            waiting_responses: Vec::new(),
            insns_retired: 0,
        }
    }

    /// `next` is `self` after its retire phase at `now`: the `k` oldest entries
    /// left, where `k` is as large as possible with each of them ready at `now`,
    /// `k <= superscalar_width` and `k <= rob_insns`; `insns_retired` grew by `k`.
    pub open spec fn retired(&self, next: &Core, now: i64) -> bool {
        let k = next.insns_retired - self.insns_retired;
        &&& 0 <= k <= self.superscalar_width
        &&& k <= self.rob_insns
        &&& forall|j: int| 0 <= j < k ==> #[trigger] self.rob_entry(j) <= now
        &&& (k < self.superscalar_width && k < self.rob_insns) ==> self.rob_entry(k) > now
        &&& next.rob_insns == self.rob_insns - k
        &&& self.rob_size > 0 ==> next.rob_head == (self.rob_head + k) % (self.rob_size as int)
        &&& next.rob@ == self.rob@
        &&& next.rob_size == self.rob_size
        &&& next.rob_tail == self.rob_tail
        &&& next.superscalar_width == self.superscalar_width
        &&& next.cur_mem == self.cur_mem
        &&& next.mshrs@ == self.mshrs@
        &&& next.waiting_responses@ == self.waiting_responses@
    }

    /// Retires up to `superscalar_width` entries from the head, stopping at the
    /// first entry not ready at `now`.
    fn tick_retire(&mut self, now: i64)
        requires
            old(self).wf(),
            now < CYCLE_INFINITY,
            old(self).insns_retired + old(self).superscalar_width <= u64::MAX,
        ensures
            final(self).wf(),
            old(self).retired(final(self), now),
    {
        let mut remaining = self.superscalar_width;
        proof {
            if self.rob_size > 0 {
                lemma_ring_succ(self.rob_head as int, self.rob_size as int);
            }
        }
        while remaining > 0 && self.rob_insns > 0
            invariant
                self.wf(),
                self.rob@ == old(self).rob@,
                self.rob_size == old(self).rob_size,
                self.rob_tail == old(self).rob_tail,
                self.superscalar_width == old(self).superscalar_width,
                self.cur_mem == old(self).cur_mem,
                self.mshrs@ == old(self).mshrs@,
                self.waiting_responses@ == old(self).waiting_responses@,
                remaining <= self.superscalar_width,
                self.insns_retired == old(self).insns_retired + (self.superscalar_width - remaining),
                self.rob_insns == old(self).rob_insns - (self.superscalar_width - remaining),
                old(self).rob_size > 0 ==> self.rob_head == (old(self).rob_head + (self.superscalar_width - remaining)) % (old(self).rob_size as int),
                old(self).insns_retired + old(self).superscalar_width <= u64::MAX,
                now < CYCLE_INFINITY,
                forall|j: int| 0 <= j < self.superscalar_width - remaining ==> #[trigger] old(self).rob_entry(j) <= now,
            ensures
                (remaining > 0 && self.rob_insns > 0) ==> self.rob_entry(0) > now,
            decreases remaining,
        {
            proof {
                lemma_ring_succ(self.rob_head as int, self.rob_size as int);
                lemma_mod_shift(
                    old(self).rob_head + (self.superscalar_width - remaining),
                    1,
                    self.rob_size as int,
                );
                lemma_mod_shift(self.rob_head + 1, self.rob_insns - 1, self.rob_size as int);
                assert(self.rob_entry(0) == self.rob@[self.rob_head as int]);
                assert(old(self).rob_entry(self.superscalar_width - remaining) == self.rob@[self.rob_head as int]);
            }
            if self.rob[self.rob_head] > now {
                break;
            }
            let ghost before = *self;
            remaining = remaining - 1;
            self.rob_insns = self.rob_insns - 1;
            self.rob_head = self.rob_head + 1;
            if self.rob_head >= self.rob_size {
                self.rob_head = 0;
            }
            self.insns_retired = self.insns_retired + 1;
            proof {
                let m = self.rob_size as int;
                let h = before.rob_head as int;
                assert forall|a: u64, j: int|
                    self.mshrs@.contains_key(a) && 0 <= j < self.mshrs@[a].rob_indices@.len() implies
                    #[trigger] self.is_live(self.mshrs@[a].rob_indices@[j] as int) by {
                    let i = self.mshrs@[a].rob_indices@[j] as int;
                    assert(before.is_live(i) && before.rob@[i] == CYCLE_INFINITY);
                    let o = ring_offset(h, i, m);
                    lemma_ring_offset(h, i, m);
                    if o == 0 {
                        lemma_small_mod(h as nat, m as nat);
                    }
                    assert(o >= 1);
                    lemma_mod_shift(h + 1, o - 1, m);
                    lemma_ring_offset_of_index(self.rob_head as int, o - 1, m);
                }
            }
        }
        proof {
            if self.rob_size > 0 {
                lemma_ring_succ(self.rob_head as int, self.rob_size as int);
            }
        }
    }

    /// Takes the MSHR of `addr` out of the table, or makes a fresh one.
    fn get_mshr(&mut self, addr: u64) -> (m: Mshr)
        ensures
            if old(self).mshrs@.contains_key(addr) {
                &&& m == old(self).mshrs@[addr]
                &&& final(self).mshrs@ == old(self).mshrs@.remove(addr)
            } else {
                &&& m.addr == addr
                &&& !m.issued
                &&& m.rob_indices@.len() == 0
                &&& final(self).mshrs@ == old(self).mshrs@
            },
            final(self).rob@ == old(self).rob@,
            final(self).rob_size == old(self).rob_size,
            final(self).rob_head == old(self).rob_head,
            final(self).rob_tail == old(self).rob_tail,
            final(self).rob_insns == old(self).rob_insns,
            final(self).superscalar_width == old(self).superscalar_width,
            final(self).cur_mem == old(self).cur_mem,
            final(self).waiting_responses@ == old(self).waiting_responses@,
            final(self).insns_retired == old(self).insns_retired,
    {
        match self.mshrs.remove(&addr) {
            Some(m) => m,
            None => Mshr::new(addr),
        }
    }

    /// Puts `mshr` back in the table, sending its read to memory first if that
    /// has not been done.
    fn issue_mshr(&mut self, mshr: Mshr, out: &mut Vec<MemRequest>)
        ensures
            final(self).mshrs@ == old(self).mshrs@.insert(mshr.addr, final(self).mshrs@[mshr.addr]),
            final(self).mshrs@[mshr.addr].addr == mshr.addr,
            final(self).mshrs@[mshr.addr].issued,
            final(self).mshrs@[mshr.addr].rob_indices@ == mshr.rob_indices@,
            final(out)@ == if mshr.issued {
                old(out)@
            } else {
                old(out)@.push(MemRequest { addr: mshr.addr, req_type: MemRequestType::Read })
            },
            final(self).rob@ == old(self).rob@,
            final(self).rob_size == old(self).rob_size,
            final(self).rob_head == old(self).rob_head,
            final(self).rob_tail == old(self).rob_tail,
            final(self).rob_insns == old(self).rob_insns,
            final(self).superscalar_width == old(self).superscalar_width,
            final(self).cur_mem == old(self).cur_mem,
            final(self).waiting_responses@ == old(self).waiting_responses@,
            final(self).insns_retired == old(self).insns_retired,
    {
        let mut m = mshr;
        if !m.issued {
            out.push(MemRequest { addr: m.addr, req_type: MemRequestType::Read });
            m.issued = true;
        }
        self.mshrs.insert(m.addr, m);
    }

    /// Sends a write to memory; nobody waits for it.
    fn issue_write(addr: u64, out: &mut Vec<MemRequest>)
        ensures
            final(out)@ == old(out)@.push(MemRequest { addr, req_type: MemRequestType::Write }),
    {
        out.push(MemRequest { addr, req_type: MemRequestType::Write });
    }

    /// The issue phase's view of the core before it starts.
    pub open spec fn issue_model(&self) -> IssueModel {
        IssueModel {
            rob: self.rob@,
            tail: self.rob_tail as int,
            cur: self.cur_mem,
            taken: 0,
            waiters: waiters_of(self.mshrs@),
            sent: Seq::empty(),
        }
    }

    /// The number of slots an issue phase fills: as many as the width allows and
    /// the reorder buffer has free.
    pub open spec fn issue_count(&self) -> nat {
        let free = self.rob_size - self.rob_insns;
        (if self.superscalar_width <= free { self.superscalar_width as int } else { free }) as nat
    }

    /// The issue phase at `now` over the records `recs`, slot by slot.
    pub open spec fn issue_result(&self, now: i64, recs: spec_fn(nat) -> TraceRecord) -> IssueModel {
        issue_slots(self.issue_model(), now, self.rob_size as int, recs, self.issue_count())
    }

    /// `next` is `self` after an issue phase at `now` that read its records from
    /// `recs` and sent `sent`: exactly `issue_count()` slots were issued, each as
    /// `issue_slot` says.
    pub open spec fn issued_from(
        &self,
        next: &Core,
        now: i64,
        recs: spec_fn(nat) -> TraceRecord,
        sent: Seq<MemRequest>,
    ) -> bool {
        let m = self.issue_result(now, recs);
        &&& next.rob_insns == self.rob_insns + self.issue_count()
        &&& next.rob@ == m.rob
        &&& next.rob_tail == m.tail
        &&& next.cur_mem == m.cur
        &&& waiters_of(next.mshrs@) == m.waiters
        &&& sent == m.sent
    }

    /// What an issue phase at `now` may do to the core: fill the reorder buffer
    /// by at most `superscalar_width` entries, each ready at `now` or
    /// waiting for memory, and open an MSHR for each read it sends, at most one
    /// per address and none for an address that already had one.
    pub open spec fn issued(&self, next: &Core, now: i64, sent: Seq<MemRequest>) -> bool {
        let k = next.rob_insns - self.rob_insns;
        &&& 0 <= k <= self.superscalar_width
        &&& next.rob_head == self.rob_head
        &&& next.rob_size == self.rob_size
        &&& next.superscalar_width == self.superscalar_width
        &&& next.insns_retired == self.insns_retired
        &&& next.waiting_responses@ == self.waiting_responses@
        &&& forall|j: int| 0 <= j < self.rob_insns ==> #[trigger] next.rob_entry(j) == self.rob_entry(j)
        &&& forall|j: int|
            self.rob_insns <= j < next.rob_insns ==> #[trigger] next.rob_entry(j) == now
                || next.rob_entry(j) == CYCLE_INFINITY
        &&& reads_distinct(sent)
        &&& forall|i: int|
            0 <= i < sent.len() && (#[trigger] sent[i]).req_type == MemRequestType::Read
                ==> !self.mshrs@.contains_key(sent[i].addr)
        &&& forall|a: u64|
            #[trigger] next.mshrs@.contains_key(a) <==> self.mshrs@.contains_key(a) || has_read_of(
                sent,
                a,
            )
    }

    /// Fills up to `superscalar_width` reorder-buffer slots from the trace: one
    /// per non-memory instruction, then one for the memory reference itself. A
    /// write is sent and is ready at once; a read joins the MSHR of its address,
    /// which sends it to memory only when newly made.
    fn tick_issue<T: TraceReader>(&mut self, now: i64, trace_reader: &mut T, out: &mut Vec<MemRequest>)
        requires
            old(self).wf(),
            0 <= now < CYCLE_INFINITY,
        ensures
            final(self).wf(),
            final(out)@.len() >= old(out)@.len(),
            final(out)@.take(old(out)@.len() as int) == old(out)@,
            old(self).issued(final(self), now, final(out)@.skip(old(out)@.len() as int)),
            final(self).rob_insns - old(self).rob_insns < old(self).superscalar_width
                ==> final(self).rob_insns == old(self).rob_size,
            ({
                let recs = |i: nat| old(trace_reader).record_at(i);
                &&& old(self).issued_from(final(self), now, recs, final(out)@.skip(old(out)@.len() as int))
                &&& forall|i: nat| #[trigger] final(trace_reader).record_at(i) == old(trace_reader).record_at(
                    i + old(self).issue_result(now, recs).taken,
                )
            }),
    {
        let ghost out0 = out@;
        let ghost recs = |i: nat| old(trace_reader).record_at(i);
        let ghost m0 = self.issue_model();
        let ghost size = self.rob_size as int;
        let mut remaining = self.superscalar_width;
        proof {
            assert(waiters_of(self.mshrs@) == m0.waiters);
            assert(out@.skip(out0.len() as int) =~= Seq::<MemRequest>::empty());
        }
        while remaining > 0 && self.rob_insns < self.rob_size
            invariant
                self.wf(),
                0 <= now < CYCLE_INFINITY,
                out@.len() >= out0.len(),
                out@.take(out0.len() as int) == out0,
                remaining <= self.superscalar_width,
                self.rob_insns == old(self).rob_insns + (self.superscalar_width - remaining),
                old(self).issued(self, now, out@.skip(out0.len() as int)),
                self.rob_size == size,
                self.superscalar_width == old(self).superscalar_width,
                m0 == old(self).issue_model(),
                recs == (|i: nat| old(trace_reader).record_at(i)),
                ({
                    let m = issue_slots(m0, now, size, recs, (self.superscalar_width - remaining) as nat);
                    &&& self.rob@ == m.rob
                    &&& self.rob_tail == m.tail
                    &&& self.cur_mem == m.cur
                    &&& waiters_of(self.mshrs@) == m.waiters
                    &&& out@.skip(out0.len() as int) == m.sent
                    &&& forall|i: nat| #[trigger] trace_reader.record_at(i) == old(trace_reader).record_at(i + m.taken)
                }),
            decreases remaining,
        {
            let ghost j = (self.superscalar_width - remaining) as nat;
            let ghost mj = issue_slots(m0, now, size, recs, j);
            let ghost w0 = waiters_of(self.mshrs@);
            let ghost before = *self;
            let ghost sent0 = out@.skip(out0.len() as int);
            let tail = self.rob_tail;
            proof {
                lemma_mod_bound(self.rob_head + self.rob_insns, self.rob_size as int);
                assert(self.rob_entry(self.rob_insns as int) == self.rob@[tail as int]);
            }
            if self.cur_mem.prec > 0 {
                self.rob.set(tail, now);
                self.cur_mem.prec = self.cur_mem.prec - 1;
            } else {
                if self.cur_mem.is_write {
                    Self::issue_write(self.cur_mem.addr, out);
                    self.rob.set(tail, now);
                } else {
                    let a = self.cur_mem.addr;
                    let mut mshr = self.get_mshr(a);
                    mshr.rob_indices.push(tail);
                    let ghost pushed = mshr.rob_indices@;
                    proof {
                        let prior = if w0.contains_key(a) { w0[a] } else { Seq::<usize>::empty() };
                        assert(pushed == prior.push(tail));
                    }
                    self.rob.set(tail, CYCLE_INFINITY);
                    self.issue_mshr(mshr, out);
                    proof {
                        let prior = if w0.contains_key(a) { w0[a] } else { Seq::<usize>::empty() };
                        assert forall|x: u64| #[trigger] waiters_of(self.mshrs@).contains_key(x) == w0.insert(
                            a,
                            prior.push(tail),
                        ).contains_key(x) by {
                            if x != a {
                                assert(self.mshrs@.contains_key(x) == before.mshrs@.contains_key(x));
                            }
                        }
                        assert forall|x: u64| #[trigger] waiters_of(self.mshrs@).contains_key(x) implies waiters_of(
                            self.mshrs@,
                        )[x] == w0.insert(a, prior.push(tail))[x] by {
                            if x != a {
                                assert(self.mshrs@[x] == before.mshrs@[x]);
                            }
                        }
                        assert(waiters_of(self.mshrs@) =~= w0.insert(a, prior.push(tail)));
                    }
                }
                self.cur_mem = trace_reader.next_trace_record();
            }
            remaining = remaining - 1;
            self.rob_insns = self.rob_insns + 1;
            self.rob_tail = self.rob_tail + 1;
            if self.rob_tail >= self.rob_size {
                self.rob_tail = 0;
            }
            proof {
                let m1 = issue_slots(m0, now, size, recs, j + 1);
                assert(m1 == issue_slot(mj, now, size, recs));
                assert(self.rob@ =~= m1.rob);
                assert(self.rob_tail == m1.tail);
                if before.cur_mem.prec == 0 && !before.cur_mem.is_write {
                    let a = before.cur_mem.addr;
                    assert(before.mshrs@.contains_key(a) ==> before.mshrs@[a].issued);
                    assert(waiters_of(self.mshrs@) =~= m1.waiters);
                } else {
                    assert(waiters_of(self.mshrs@) =~= m1.waiters);
                }
                assert(out@.skip(out0.len() as int) =~= m1.sent);
                let m = self.rob_size as int;
                lemma_ring_succ(tail as int, m);
                lemma_mod_shift(self.rob_head + before.rob_insns, 1, m);
                let sent = out@.skip(out0.len() as int);
                assert forall|j: int| 0 <= j < before.rob_insns implies #[trigger] self.rob_entry(j)
                    == before.rob_entry(j) by {
                    lemma_ring_distinct(self.rob_head as int, j, before.rob_insns as int, m);
                }
                assert(self.rob_entry(before.rob_insns as int) == self.rob@[tail as int]);
                if sent.len() > sent0.len() {
                    assert(sent == sent0.push(sent[sent.len() - 1]));
                } else {
                    assert(sent == sent0);
                }
                assert forall|a: u64|
                    #[trigger] self.mshrs@.contains_key(a) <==> old(self).mshrs@.contains_key(a)
                        || has_read_of(sent, a) by {
                    if has_read_of(sent0, a) {
                        let i = choose|i: int|
                            0 <= i < sent0.len() && #[trigger] sent0[i] == (MemRequest {
                                addr: a,
                                req_type: MemRequestType::Read,
                            });
                        assert(sent[i] == sent0[i]);
                    }
                    if sent.len() > sent0.len() && has_read_of(sent, a) {
                        let i = choose|i: int|
                            0 <= i < sent.len() && #[trigger] sent[i] == (MemRequest {
                                addr: a,
                                req_type: MemRequestType::Read,
                            });
                        if i < sent0.len() {
                            assert(sent0[i] == sent[i]);
                        }
                    }
                }
                assert forall|a: u64| #[trigger] self.mshrs@.contains_key(a) implies {
                    let mm = self.mshrs@[a];
                    &&& mm.addr == a
                    &&& mm.issued
                    &&& forall|j: int| 0 <= j < mm.rob_indices@.len() ==> #[trigger] mm.rob_indices@[j] < self.rob_size
                } by {
                    assert(before.mshrs@.contains_key(a) ==> before.mshrs@[a].addr == a);
                }
                let h = self.rob_head as int;
                lemma_ring_offset_of_index(h, before.rob_insns as int, m);
                lemma_mod_bound(h + before.rob_insns, m);
                assert(ring_offset(h, tail as int, m) == before.rob_insns);
                let wn = waiters_of(self.mshrs@);
                assert forall|x: u64, j: int|
                    self.mshrs@.contains_key(x) && 0 <= j < self.mshrs@[x].rob_indices@.len() implies {
                    let i = #[trigger] self.mshrs@[x].rob_indices@[j] as int;
                    &&& self.is_live(i)
                    &&& self.rob@[i] == CYCLE_INFINITY
                    &&& (i != tail ==> before.mshrs@.contains_key(x) && j < before.mshrs@[x].rob_indices@.len()
                        && before.mshrs@[x].rob_indices@[j] == i)
                } by {
                    assert(wn[x] == self.mshrs@[x].rob_indices@);
                    assert(w0.contains_key(x) ==> w0[x] == before.mshrs@[x].rob_indices@);
                    if before.mshrs@.contains_key(x) && j < before.mshrs@[x].rob_indices@.len() {
                        let i = before.mshrs@[x].rob_indices@[j] as int;
                        assert(before.is_live(i));
                        assert(before.rob@[i] == CYCLE_INFINITY);
                        lemma_ring_offset(h, i, m);
                    }
                }
                assert forall|x: u64, y: u64, j: int, k: int|
                    x != y && self.mshrs@.contains_key(x) && self.mshrs@.contains_key(y) && 0 <= j
                        < self.mshrs@[x].rob_indices@.len() && 0 <= k < self.mshrs@[y].rob_indices@.len()
                        implies #[trigger] self.mshrs@[x].rob_indices@[j] != #[trigger] self.mshrs@[y].rob_indices@[k] by {
                    let ix = self.mshrs@[x].rob_indices@[j];
                    let iy = self.mshrs@[y].rob_indices@[k];
                    if ix == iy {
                        if ix as int == tail as int {
                            assert(iy as int == tail as int);
                        } else {
                            assert(before.mshrs@[x].rob_indices@[j] == ix);
                            assert(before.mshrs@[y].rob_indices@[k] == iy);
                        }
                    }
                }
            }
        }
        proof {
            let k = (self.superscalar_width - remaining) as nat;
            assert(k == old(self).issue_count());
            assert(old(self).issued_from(self, now, recs, out@.skip(out0.len() as int)));
        }
    }

    /// Hands a response to its MSHR: every waiting entry becomes ready at `now`
    /// and the MSHR is closed. Returns whether the address had an MSHR.
    fn deliver_mem_response(&mut self, now: i64, response: MemResponse) -> (found: bool)
        requires
            old(self).wf(),
        ensures
            final(self).wf(),
            found == old(self).mshrs@.contains_key(response.addr),
            found ==> final(self).mshrs@ == old(self).mshrs@.remove(response.addr),
            found ==> final(self).rob@ == release(
                old(self).rob@,
                old(self).mshrs@[response.addr].rob_indices@,
                now,
            ),
            !found ==> final(self).mshrs@ == old(self).mshrs@ && final(self).rob@ == old(self).rob@,
            final(self).rob_size == old(self).rob_size,
            final(self).rob_head == old(self).rob_head,
            final(self).rob_tail == old(self).rob_tail,
            final(self).rob_insns == old(self).rob_insns,
            final(self).superscalar_width == old(self).superscalar_width,
            final(self).cur_mem == old(self).cur_mem,
            final(self).waiting_responses@ == old(self).waiting_responses@,
            final(self).insns_retired == old(self).insns_retired,
    {
        match self.mshrs.remove(&response.addr) {
            Some(m) => {
                let ghost rob0 = self.rob@;
                let n = m.rob_indices.len();
                let mut i: usize = 0;
                while i < n
                    invariant
                        n == m.rob_indices@.len(),
                        i <= n,
                        m == old(self).mshrs@[response.addr],
                        old(self).mshrs_wf(),
                        old(self).mshrs@.contains_key(response.addr),
                        self.rob_size == old(self).rob_size,
                        self.rob@ == release(rob0, m.rob_indices@.take(i as int), now),
                        rob0.len() == self.rob_size,
                        self.mshrs@ == old(self).mshrs@.remove(response.addr),
                        self.rob_head == old(self).rob_head,
                        self.rob_tail == old(self).rob_tail,
                        self.rob_insns == old(self).rob_insns,
                        self.superscalar_width == old(self).superscalar_width,
                        self.cur_mem == old(self).cur_mem,
                        self.waiting_responses@ == old(self).waiting_responses@,
                        self.insns_retired == old(self).insns_retired,
                    decreases n - i,
                {
                    let idx = m.rob_indices[i];
                    self.rob.set(idx, now);
                    proof {
                        let t0 = m.rob_indices@.take(i as int);
                        let t1 = m.rob_indices@.take(i + 1);
                        assert(t1 == t0.push(idx));
                        assert forall|x: usize| #[trigger] t1.contains(x) <==> t0.contains(x) || x == idx by {
                            if t1.contains(x) {
                                let w = choose|w: int| 0 <= w < t1.len() && t1[w] == x;
                                if w < t0.len() {
                                    assert(t0[w] == x);
                                }
                            }
                            if t0.contains(x) {
                                let w = choose|w: int| 0 <= w < t0.len() && t0[w] == x;
                                assert(t1[w] == x);
                            }
                            if x == idx {
                                assert(t1[i as int] == x);
                            }
                        }
                        assert(self.rob@ =~= release(rob0, t1, now));
                    }
                    i = i + 1;
                }
                assert(m.rob_indices@.take(n as int) == m.rob_indices@);
                true
            },
            None => false,
        }
    }

    /// `next` is `self` after the first `n` queued responses were delivered at
    /// `now`: each was due, each found an MSHR, their waiters became ready and
    /// their MSHRs closed.
    pub open spec fn delivered(&self, next: &Core, now: i64, n: int) -> bool {
        let q = self.waiting_responses@;
        let d = addrs_of(q.take(n));
        &&& 0 <= n <= q.len()
        &&& forall|j: int| 0 <= j < n ==> (#[trigger] q[j]).cycle <= now
        &&& d.no_duplicates()
        &&& forall|j: int| 0 <= j < n ==> self.mshrs@.contains_key(#[trigger] d[j])
        &&& next.mshrs@ == self.mshrs@.remove_keys(d.to_set())
        &&& next.rob@ == released_by(self.rob@, self.mshrs@, d, now)
        &&& next.rob_size == self.rob_size
        &&& next.rob_head == self.rob_head
        &&& next.rob_tail == self.rob_tail
        &&& next.rob_insns == self.rob_insns
        &&& next.superscalar_width == self.superscalar_width
        &&& next.cur_mem == self.cur_mem
        &&& next.insns_retired == self.insns_retired
    }

    /// `next` is `self` after a memory phase at `now` that delivered every due
    /// response, in queue order.
    pub open spec fn drained(&self, next: &Core, now: i64) -> bool {
        let q = self.waiting_responses@;
        let n = q.len() - next.waiting_responses@.len();
        &&& 0 <= n <= q.len()
        &&& next.waiting_responses@ == q.skip(n)
        &&& self.delivered(next, now, n)
        &&& n < q.len() ==> q[n].cycle > now
    }

    /// `next` is `self` after a memory phase at `now` that delivered responses in
    /// queue order until it met a due response for `a`, which had no MSHR (none
    /// at the start, or the one it had was closed by an earlier response).
    pub open spec fn stuck(&self, next: &Core, now: i64, a: u64) -> bool {
        let q = self.waiting_responses@;
        let n = q.len() - next.waiting_responses@.len();
        &&& 1 <= n <= q.len()
        &&& next.waiting_responses@ == q.skip(n)
        &&& self.delivered(next, now, n - 1)
        &&& q[n - 1].cycle <= now
        &&& a == q[n - 1].response.addr
        &&& !(self.mshrs@.contains_key(a) && !addrs_of(q.take(n - 1)).contains(a))
    }

    /// Drains the responses due at `now`, in queue order. A due response whose
    /// address has no MSHR stops the phase and is returned as the error.
    fn tick_mem(&mut self, now: i64) -> (r: Result<(), u64>)
        requires
            old(self).wf(),
        ensures
            final(self).wf(),
            match r {
                Ok(()) => old(self).drained(final(self), now),
                Err(a) => old(self).stuck(final(self), now, a),
            },
    {
        let ghost q = self.waiting_responses@;
        let ghost mut j: int = 0;
        proof {
            assert(addrs_of(q.take(0)) =~= Seq::<u64>::empty());
            assert(self.mshrs@ =~= self.mshrs@.remove_keys(Seq::<u64>::empty().to_set()));
            assert(q.skip(0) =~= q);
        }
        while self.waiting_responses.len() > 0 && self.waiting_responses[0].cycle <= now
            invariant
                self.wf(),
                old(self).wf(),
                q == old(self).waiting_responses@,
                0 <= j <= q.len(),
                self.waiting_responses@ == q.skip(j),
                old(self).delivered(self, now, j),
            decreases q.len() - j,
        {
            let d = self.waiting_responses.remove(0);
            let ghost prev = *self;
            assert(d == q[j]);
            let found = self.deliver_mem_response(now, d.response);
            if !found {
                proof {
                    let dd = addrs_of(q.take(j));
                    assert(self.waiting_responses@ =~= q.skip(j + 1));
                    if old(self).mshrs@.contains_key(d.response.addr) && !dd.contains(d.response.addr) {
                        assert(!dd.to_set().contains(d.response.addr));
                        assert(prev.mshrs@.contains_key(d.response.addr));
                    }
                }
                return Err(d.response.addr);
            }
            proof {
                let a = d.response.addr;
                let d0 = addrs_of(q.take(j));
                let d1 = addrs_of(q.take(j + 1));
                assert(q.take(j + 1) == q.take(j).push(q[j]));
                assert(d1 =~= d0.push(a));
                assert(d1.drop_last() =~= d0);
                assert(!d0.contains(a)) by {
                    if d0.contains(a) {
                        assert(d0.to_set().contains(a));
                    }
                }
                d0.lemma_push_to_set_commute(a);
                assert(d1.to_set() =~= d0.to_set().insert(a));
                assert(self.mshrs@ =~= old(self).mshrs@.remove_keys(d1.to_set()));
                assert(prev.mshrs@[a] == old(self).mshrs@[a]);
                assert forall|x: int| 0 <= x < j + 1 implies old(self).mshrs@.contains_key(#[trigger] d1[x]) by {
                    if x < j {
                        assert(d1[x] == d0[x]);
                    }
                }
                assert(self.waiting_responses@ =~= q.skip(j + 1));
                j = j + 1;
            }
        }
        Ok(())
    }

    /// `next` is `self` with a response for `cycle` inserted into the queue after
    /// every response due no later than `cycle`; nothing else changed.
    pub open spec fn queued(&self, next: &Core, cycle: i64, response: MemResponse) -> bool {
        &&& next.waiting_responses@ == self.waiting_responses@.insert(
            first_later_from(self.waiting_responses@, cycle, 0),
            Delivery { cycle, response },
        )
        &&& next.rob@ == self.rob@
        &&& next.rob_size == self.rob_size
        &&& next.rob_head == self.rob_head
        &&& next.rob_tail == self.rob_tail
        &&& next.rob_insns == self.rob_insns
        &&& next.superscalar_width == self.superscalar_width
        &&& next.cur_mem == self.cur_mem
        &&& next.mshrs@ == self.mshrs@
        &&& next.insns_retired == self.insns_retired
    }

    /// Queues a response for delivery at `cycle`, after every queued response
    /// due no later than `cycle`.
    pub fn receive_response(&mut self, cycle: i64, response: MemResponse)
        requires
            old(self).wf(),
        ensures
            final(self).wf(),
            old(self).queued(final(self), cycle, response),
    {
        let ghost q = self.waiting_responses@;
        let n = self.waiting_responses.len();
        let mut i: usize = 0;
        while i < n && self.waiting_responses[i].cycle <= cycle
            invariant
                n == q.len(),
                q == self.waiting_responses@,
                i <= n,
                forall|j: int| 0 <= j < i ==> (#[trigger] q[j]).cycle <= cycle,
                first_later_from(q, cycle, 0) == first_later_from(q, cycle, i as int),
            decreases n - i,
        {
            i = i + 1;
        }
        assert(first_later_from(q, cycle, i as int) == i);
        let d = Delivery { cycle, response };
        self.waiting_responses.insert(i, d);
        proof {
            let s = self.waiting_responses@;
            assert forall|a: int, b: int| 0 <= a <= b < s.len() implies #[trigger] s[a].cycle
                <= #[trigger] s[b].cycle by {
                if a < i && b < i {
                    assert(s[a] == q[a] && s[b] == q[b]);
                } else if a < i && b == i {
                    assert(s[a] == q[a]);
                } else if a < i {
                    assert(s[a] == q[a] && s[b] == q[b - 1]);
                } else if a == i && b > i {
                    assert(s[b] == q[b - 1]);
                    assert(q[i as int].cycle > cycle);
                    assert(q[i as int].cycle <= q[b - 1].cycle);
                } else if a > i {
                    assert(s[a] == q[a - 1] && s[b] == q[b - 1]);
                }
            }
        }
    }

    /// `next` is `self` after a full cycle at `now`: the retire phase, a memory
    /// phase that delivered every due response, and an issue phase that read
    /// its records from the stream `before`, leaving `after`, and sent `sent`.
    pub open spec fn ticked(
        &self,
        next: &Core,
        now: i64,
        before: spec_fn(nat) -> TraceRecord,
        after: spec_fn(nat) -> TraceRecord,
        sent: Seq<MemRequest>,
    ) -> bool {
        exists|a: Core, b: Core|
            {
                &&& #[trigger] self.retired(&a, now)
                &&& #[trigger] a.drained(&b, now)
                &&& b.wf()
                &&& forall|i: int|
                    0 <= i < b.waiting_responses@.len() ==> (#[trigger] b.waiting_responses@[i]).cycle
                        > now
                &&& b.issued(next, now, sent)
                &&& next.rob_insns - b.rob_insns < b.superscalar_width ==> next.rob_insns == b.rob_size
                &&& b.issued_from(next, now, before, sent)
                &&& forall|i: nat| #[trigger] after(i) == before(i + b.issue_result(now, before).taken)
            }
    }

    /// `next` is `self` after a cycle at `now` that retired, then stopped in its
    /// memory phase at a due response for `x` that had no MSHR.
    pub open spec fn tick_stuck(&self, next: &Core, now: i64, x: u64) -> bool {
        exists|a: Core| #[trigger] self.retired(&a, now) && a.stuck(next, now, x)
    }

    /// One cycle of the core at the simulator's current cycle: retire, then
    /// deliver due responses, then issue. The requests issued are appended to
    /// `out`. A due response without an MSHR ends the cycle early and is
    /// returned as the error.
    pub fn tick<T: TraceReader>(
        &mut self,
        sim: &Simulator,
        trace_reader: &mut T,
        out: &mut Vec<MemRequest>,
    ) -> (r: Result<(), u64>)
        requires
            old(self).wf(),
            old(self).insns_retired + old(self).superscalar_width <= u64::MAX,
            0 <= sim.cycle() < CYCLE_INFINITY,
        ensures
            final(self).wf(),
            old(self).insns_retired <= final(self).insns_retired <= old(self).insns_retired
                + old(self).superscalar_width,
            final(self).superscalar_width == old(self).superscalar_width,
            final(self).rob_size == old(self).rob_size,
            final(out)@.len() >= old(out)@.len(),
            final(out)@.take(old(out)@.len() as int) == old(out)@,
            r is Ok ==> old(self).ticked(
                final(self),
                sim.cycle() as i64,
                records_of(old(trace_reader)),
                records_of(final(trace_reader)),
                final(out)@.skip(old(out)@.len() as int),
            ),
            r is Err ==> forall|i: nat| #[trigger] final(trace_reader).record_at(i) == old(trace_reader).record_at(i),
            r matches Err(x) ==> old(self).tick_stuck(final(self), sim.cycle() as i64, x),
            r is Err ==> final(out)@ == old(out)@,
    {
        let now = sim.now();
        assert(sim.cycle() as i64 == now);
        self.tick_retire(now);
        let ghost a = *self;
        let m = self.tick_mem(now);
        if m.is_err() {
            assert(old(self).retired(&a, sim.cycle() as i64) && a.stuck(self, sim.cycle() as i64, m->Err_0));
            return m;
        }
        let ghost b = *self;
        assert(old(self).retired(&a, sim.cycle() as i64) && a.drained(&b, sim.cycle() as i64));
        proof {
            let q = a.waiting_responses@;
            let n = q.len() - b.waiting_responses@.len();
            assert forall|i: int| 0 <= i < b.waiting_responses@.len() implies (#[trigger] b.waiting_responses@[i]).cycle
                > now by {
                assert(b.waiting_responses@[i] == q[n + i]);
                assert(q[n].cycle <= q[n + i].cycle);
            }
        }
        self.tick_issue(now, trace_reader, out);
        assert(b.issued(self, sim.cycle() as i64, out@.skip(old(out)@.len() as int)));
        assert(b.issued_from(
            self,
            sim.cycle() as i64,
            records_of(old(trace_reader)),
            out@.skip(old(out)@.len() as int),
        ));
        assert(records_of(old(trace_reader)) == (|i: nat| old(trace_reader).record_at(i)));
        Ok(())
    }
}

impl MemResponseReceiver for Core {
    open spec fn ready(&self) -> bool {
        self.wf()
    }

    open spec fn received(&self, next: &Core, cycle: i64, response: MemResponse) -> bool {
        self.queued(next, cycle, response)
    }

    fn receive_response(&mut self, cycle: i64, response: MemResponse) {
        Core::receive_response(self, cycle, response);
    }
}

/// The reorder buffer of a well-formed core never holds more than its capacity.
pub proof fn lemma_rob_occupancy_bounded(core: Core)
    requires
        core.wf(),
    ensures
        0 <= core.rob_insns <= core.rob_size,
{
}

/// Reads are coalesced: in one issue phase every read sent to memory goes to an
/// address that had no MSHR and now has one, and no address is read twice, so
/// there are no more reads than newly outstanding addresses.
pub proof fn lemma_reads_coalesced(before: Core, after: Core, now: i64, sent: Seq<MemRequest>)
    requires
        before.issued(&after, now, sent),
    ensures
        reads_distinct(sent),
        forall|i: int|
            0 <= i < sent.len() && (#[trigger] sent[i]).req_type == MemRequestType::Read ==> {
                &&& !before.mshrs@.contains_key(sent[i].addr)
                &&& after.mshrs@.contains_key(sent[i].addr)
            },
{
    assert forall|i: int|
        0 <= i < sent.len() && (#[trigger] sent[i]).req_type == MemRequestType::Read implies after.mshrs@.contains_key(
        sent[i].addr) by {
        assert(sent[i] == (MemRequest { addr: sent[i].addr, req_type: MemRequestType::Read }));
        assert(has_read_of(sent, sent[i].addr));
    }
}

/// A memory phase delivers responses in order of their delivery cycles.
pub proof fn lemma_deliveries_in_order(core: Core, next: Core, now: i64, n: int)
    requires
        core.wf(),
        core.delivered(&next, now, n),
    ensures
        forall|i: int, j: int|
            0 <= i <= j < n ==> #[trigger] core.waiting_responses@[i].cycle
                <= #[trigger] core.waiting_responses@[j].cycle,
{
}

} // verus!
