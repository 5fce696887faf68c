//! One core and one DRAM on a shared clock, ticked in the fixed per-cycle order.
use vstd::prelude::*;

use crate::cpu::{received_all, Core};
use crate::dram::{Dram, MAX_CYCLE};
use crate::mem_request::{Delivery, MemRequest};
use crate::simulator::Simulator;
use crate::trace::{records_of, TraceReader, TraceRecord};

verus! {

/// The simulated machine. Requests go from the core to the DRAM and responses
/// back through this driver, so neither component holds the other.
pub struct System {
    pub sim: Simulator,
    pub core: Core,
    pub dram: Dram,
}

impl System {
    pub open spec fn wf(&self) -> bool {
        &&& self.core.wf()
        &&& self.dram.wf()
        &&& 0 <= self.sim.cycle()
    }

    /// `next` is `self` after one full step at `self`'s cycle: the core ticked,
    /// reading its records from the stream `before`, leaving `after`, and
    /// sending `sent`; the DRAM took in `sent` in order and ticked; its
    /// responses were queued at the core in order; the clock advanced.
    pub open spec fn stepped(
        &self,
        next: &System,
        before: spec_fn(nat) -> TraceRecord,
        after: spec_fn(nat) -> TraceRecord,
    ) -> bool {
        let now = self.sim.cycle() as i64;
        exists|c1: Core, sent: Seq<MemRequest>, d1: Dram|
            {
                &&& #[trigger] self.core.ticked(&c1, now, before, after, sent)
                &&& #[trigger] d1.same_config(&self.dram)
                &&& d1.wf()
                &&& forall|c: int|
                    0 <= c < d1.channels@.len() ==> {
                        &&& (#[trigger] d1.channels@[c]).banks@ == self.dram.channels@[c].banks@
                        &&& d1.channels@[c].next_request == self.dram.channels@[c].next_request
                        &&& d1.channels@[c].waiting_reqs@ == self.dram.queues_after(sent)[c]
                    }
                &&& next.dram.same_config(&d1)
                &&& forall|c: int|
                    0 <= c < d1.channels@.len() ==> d1.channel_ticked(
                        c,
                        now,
                        #[trigger] next.dram.channels@[c],
                    )
                &&& next.core.waiting_responses@ == received_all(
                    c1.waiting_responses@,
                    d1.deliveries_upto(now, d1.channels@.len() as int),
                )
                &&& next.core.rob@ == c1.rob@
                &&& next.core.rob_size == c1.rob_size
                &&& next.core.rob_head == c1.rob_head
                &&& next.core.rob_tail == c1.rob_tail
                &&& next.core.rob_insns == c1.rob_insns
                &&& next.core.superscalar_width == c1.superscalar_width
                &&& next.core.cur_mem == c1.cur_mem
                &&& next.core.mshrs@ == c1.mshrs@
                &&& next.core.insns_retired == c1.insns_retired
                &&& next.sim.cycle() == self.sim.cycle() + 1
            }
    }

    /// `next` is `self` after a step whose core stopped at a due response for `x`
    /// that had no MSHR; the DRAM and the clock were left alone.
    pub open spec fn step_stuck(&self, next: &System, x: u64) -> bool {
        &&& self.core.tick_stuck(&next.core, self.sim.cycle() as i64, x)
        &&& next.dram == self.dram
        &&& next.sim == self.sim
    }

    /// `next` is `self` after `n` full steps, reading the trace stream `before`
    /// and leaving `after`.
    pub open spec fn steps(
        &self,
        next: &System,
        n: nat,
        before: spec_fn(nat) -> TraceRecord,
        after: spec_fn(nat) -> TraceRecord,
    ) -> bool {
        exists|states: Seq<System>, streams: Seq<spec_fn(nat) -> TraceRecord>|
            #[trigger] self.steps_through(states, streams, n) && states[n as int] == *next
                && streams[0] == before && streams[n as int] == after
    }

    /// `states` and `streams` record `n` full steps from `self`, one state and
    /// trace stream before each step and one after the last.
    pub open spec fn steps_through(
        &self,
        states: Seq<System>,
        streams: Seq<spec_fn(nat) -> TraceRecord>,
        n: nat,
    ) -> bool {
        &&& states.len() == n + 1
        &&& streams.len() == n + 1
        &&& states[0] == *self
        &&& forall|k: int|
            0 <= k < n ==> (#[trigger] states[k]).stepped(&states[k + 1], streams[k], streams[k + 1])
    }

    pub fn new(sim: Simulator, core: Core, dram: Dram) -> (r: System)
        requires
            core.wf(),
            dram.wf(),
            0 <= sim.cycle(),
        ensures
            r.wf(),
            r.sim == sim,
            r.core == core,
            r.dram == dram,
    {
        System { sim, core, dram }
    }

    /// One system cycle: the core ticks, its requests reach the DRAM, the DRAM
    /// ticks and its responses are queued at the core, then the clock advances.
    /// A response without an MSHR stops the cycle and is returned as the error.
    pub fn step<T: TraceReader>(&mut self, trace_reader: &mut T) -> (r: Result<(), u64>)
        requires
            old(self).wf(),
            old(self).sim.cycle() < MAX_CYCLE,
            old(self).core.insns_retired + old(self).core.superscalar_width <= u64::MAX,
        ensures
            final(self).wf(),
            old(self).core.insns_retired <= final(self).core.insns_retired
                <= old(self).core.insns_retired + old(self).core.superscalar_width,
            final(self).core.superscalar_width == old(self).core.superscalar_width,
            final(self).core.rob_size == old(self).core.rob_size,
            final(self).dram.same_config(&old(self).dram),
            r is Ok ==> final(self).sim.cycle() == old(self).sim.cycle() + 1,
            r is Err ==> final(self).sim.cycle() == old(self).sim.cycle(),
            r is Ok ==> old(self).stepped(
                final(self),
                records_of(old(trace_reader)),
                records_of(final(trace_reader)),
            ),
            r matches Err(x) ==> old(self).step_stuck(final(self), x),
            r is Err ==> forall|i: nat| #[trigger] final(trace_reader).record_at(i) == old(trace_reader).record_at(i),
    {
        let ghost now = self.sim.cycle() as i64;
        let mut reqs: Vec<MemRequest> = Vec::new();
        let res = self.core.tick(&self.sim, trace_reader, &mut reqs);
        if res.is_err() {
            return res;
        }
        let ghost core1 = self.core;
        let ghost sent = reqs@;
        let ghost d0 = self.dram;
        proof {
            assert(reqs@.skip(0) =~= reqs@);
            assert(d0.queues_after(reqs@.take(0)) =~= d0.queues_after(Seq::<MemRequest>::empty()));
            assert(reqs@.take(0) =~= Seq::<MemRequest>::empty());
        }
        let n = reqs.len();
        let mut i: usize = 0;
        while i < n
            invariant
                n == reqs@.len(),
                sent == reqs@,
                i <= n,
                d0 == old(self).dram,
                d0.wf(),
                self.dram.wf(),
                self.dram.same_config(&old(self).dram),
                self.sim == old(self).sim,
                self.core == core1,
                d0.queues_after(reqs@.take(i as int)).len() == d0.channels@.len(),
                forall|c: int|
                    0 <= c < d0.channels@.len() ==> {
                        &&& (#[trigger] self.dram.channels@[c]).banks@ == d0.channels@[c].banks@
                        &&& self.dram.channels@[c].next_request == d0.channels@[c].next_request
                        &&& self.dram.channels@[c].waiting_reqs@ == d0.queues_after(reqs@.take(i as int))[c]
                    },
            decreases n - i,
        {
            self.dram.submit(reqs[i]);
            proof {
                assert(reqs@.take(i + 1).drop_last() =~= reqs@.take(i as int));
                assert(reqs@.take(i + 1).last() == reqs@[i as int]);
            }
            i = i + 1;
        }
        proof {
            assert(reqs@.take(n as int) =~= reqs@);
        }
        let ghost d1 = self.dram;
        let mut ds: Vec<Delivery> = Vec::new();
        self.dram.tick(&self.sim, &mut ds);
        let ghost dels = ds@;
        proof {
            assert(dels =~= d1.deliveries_upto(now, d1.channels@.len() as int));
            assert(ds@.take(0) =~= Seq::<Delivery>::empty());
        }
        let ghost core2 = self.core;
        let ghost d2 = self.dram;
        let m = ds.len();
        let mut j: usize = 0;
        while j < m
            invariant
                m == ds@.len(),
                dels == ds@,
                j <= m,
                self.core.wf(),
                self.core.waiting_responses@ == received_all(core2.waiting_responses@, ds@.take(j as int)),
                self.core.rob@ == core2.rob@,
                self.core.rob_size == core2.rob_size,
                self.core.rob_head == core2.rob_head,
                self.core.rob_tail == core2.rob_tail,
                self.core.rob_insns == core2.rob_insns,
                self.core.superscalar_width == core2.superscalar_width,
                self.core.cur_mem == core2.cur_mem,
                self.core.mshrs@ == core2.mshrs@,
                self.core.insns_retired == core2.insns_retired,
                self.sim == old(self).sim,
                self.dram == d2,
            decreases m - j,
        {
            let d = ds[j];
            self.core.receive_response(d.cycle, d.response);
            proof {
                assert(ds@.take(j + 1).drop_last() =~= ds@.take(j as int));
                assert(ds@.take(j + 1).last() == d);
            }
            j = j + 1;
        }
        proof {
            assert(ds@.take(m as int) =~= ds@);
        }
        self.sim.tick();
        proof {
            assert(self.dram == d2);
            assert(core2 == core1);
            assert(forall|c: int|
                0 <= c < d1.channels@.len() ==> d1.channel_ticked(c, now, #[trigger] self.dram.channels@[c]));
            assert(self.core.waiting_responses@ == received_all(
                core1.waiting_responses@,
                d1.deliveries_upto(now, d1.channels@.len() as int),
            ));
            assert(self.sim.cycle() == old(self).sim.cycle() + 1);
            assert(self.dram.same_config(&d1));
            assert(old(self).core.ticked(
                &core1,
                now,
                records_of(old(trace_reader)),
                records_of(trace_reader),
                sent,
            ));
            assert(d1.same_config(&old(self).dram));
        }
        Ok(())
    }

    /// Steps the machine until the clock reaches `sim_cycles`.
    pub fn run<T: TraceReader>(&mut self, trace_reader: &mut T, sim_cycles: i64) -> (r: Result<(), u64>)
        requires
            old(self).wf(),
            sim_cycles <= MAX_CYCLE,
            old(self).core.insns_retired + old(self).core.superscalar_width * (sim_cycles
                - old(self).sim.cycle()) <= u64::MAX,
        ensures
            final(self).wf(),
            final(self).core.insns_retired >= old(self).core.insns_retired,
            r is Ok ==> final(self).sim.cycle() >= sim_cycles,
            r is Ok && old(self).sim.cycle() <= sim_cycles ==> final(self).sim.cycle() == sim_cycles,
            r is Ok ==> old(self).steps(
                final(self),
                (final(self).sim.cycle() - old(self).sim.cycle()) as nat,
                records_of(old(trace_reader)),
                records_of(final(trace_reader)),
            ),
            r is Ok && old(self).sim.cycle() > sim_cycles ==> *final(self) == *old(self),
            r matches Err(x) ==> exists|mid: System, tm: spec_fn(nat) -> TraceRecord|
                {
                    &&& #[trigger] old(self).steps(
                        &mid,
                        (mid.sim.cycle() - old(self).sim.cycle()) as nat,
                        records_of(old(trace_reader)),
                        tm,
                    )
                    &&& mid.step_stuck(final(self), x)
                    &&& forall|i: nat| #[trigger] final(trace_reader).record_at(i) == tm(i)
                },
    {
        let w = self.core.superscalar_width;
        let ghost c0 = self.sim.cycle();
        proof {
            lemma_steps_start(*old(self), records_of(old(trace_reader)));
        }
        while self.sim.now() < sim_cycles
            invariant
                self.wf(),
                sim_cycles <= MAX_CYCLE,
                self.core.superscalar_width == w,
                self.core.insns_retired >= old(self).core.insns_retired,
                self.core.insns_retired + w * (sim_cycles - self.sim.cycle()) <= u64::MAX,
                old(self).sim.cycle() <= sim_cycles ==> self.sim.cycle() <= sim_cycles,
                c0 == old(self).sim.cycle(),
                self.sim.cycle() >= c0,
                old(self).steps(
                    self,
                    (self.sim.cycle() - c0) as nat,
                    records_of(old(trace_reader)),
                    records_of(trace_reader),
                ),
                old(self).sim.cycle() > sim_cycles ==> *self == *old(self),
            decreases sim_cycles - self.sim.cycle(),
        {
            let ghost c0 = self.sim.cycle();
            let ghost prev = *self;
            let ghost tprev = *trace_reader;
            assert(w * (sim_cycles - c0) == w + w * (sim_cycles - c0 - 1)) by (nonlinear_arith);
            assert(w * (sim_cycles - c0 - 1) >= 0) by (nonlinear_arith)
                requires
                    sim_cycles - c0 - 1 >= 0,
            ;
            let res = self.step(trace_reader);
            if res.is_err() {
                proof {
                    assert(old(self).steps(
                        &prev,
                        (prev.sim.cycle() - old(self).sim.cycle()) as nat,
                        records_of(old(trace_reader)),
                        records_of(&tprev),
                    ));
                    assert forall|i: nat| #[trigger] trace_reader.record_at(i) == records_of(&tprev)(i) by {}
                }
                return res;
            }
            proof {
                let k = (self.sim.cycle() - old(self).sim.cycle()) as nat;
                assert(k >= 1);
                assert(old(self).steps(
                    &prev,
                    (k - 1) as nat,
                    records_of(old(trace_reader)),
                    records_of(&tprev),
                ));
                assert(prev.stepped(self, records_of(&tprev), records_of(trace_reader)));
                lemma_steps_extend(
                    *old(self),
                    prev,
                    *self,
                    (k - 1) as nat,
                    records_of(old(trace_reader)),
                    records_of(&tprev),
                    records_of(trace_reader),
                );
            }
        }
        Ok(())
    }
}

proof fn lemma_steps_start(s0: System, t0: spec_fn(nat) -> TraceRecord)
    ensures
        s0.steps(&s0, 0, t0, t0),
{
    assert(s0.steps_through(seq![s0], seq![t0], 0));
}

proof fn lemma_steps_extend(
    s0: System,
    mid: System,
    next: System,
    n: nat,
    t0: spec_fn(nat) -> TraceRecord,
    tm: spec_fn(nat) -> TraceRecord,
    t1: spec_fn(nat) -> TraceRecord,
)
    requires
        s0.steps(&mid, n, t0, tm),
        mid.stepped(&next, tm, t1),
    ensures
        s0.steps(&next, (n + 1) as nat, t0, t1),
{
    let (states, streams) = choose|states: Seq<System>, streams: Seq<spec_fn(nat) -> TraceRecord>|
        #[trigger] s0.steps_through(states, streams, n) && states[n as int] == mid && streams[0] == t0
            && streams[n as int] == tm;
    let st2 = states.push(next);
    let sr2 = streams.push(t1);
    assert forall|k: int| 0 <= k < n + 1 implies (#[trigger] st2[k]).stepped(&st2[k + 1], sr2[k], sr2[k + 1]) by {
        if k < n {
            assert(st2[k] == states[k] && st2[k + 1] == states[k + 1]);
            assert(sr2[k] == streams[k] && sr2[k + 1] == streams[k + 1]);
            assert(states[k].stepped(&states[k + 1], streams[k], streams[k + 1]));
        }
    }
    assert(s0.steps_through(st2, sr2, (n + 1) as nat));
}

} // verus!
