//! The DRAM model: channels of banks with row buffers, FR-FCFS arbitration and
//! timing accounting.
use vstd::prelude::*;

use crate::mem_request::{response_of, Delivery, MemRequest, MemRequestReceiver};
use crate::simulator::Simulator;
use crate::util::cons_vec;

verus! {

/// Low address bits that select a byte within a burst.
pub const DRAM_OFFSET_BITS: u64 = 6;

/// Address bits that lie below the bank field, channel bits aside.
pub const DRAM_ROW_SIZE_BITS: u64 = 13;

/// Marks a bank whose row buffer is closed.
pub const NO_OPEN_ROW: u64 = 0xFFFF_FFFF_FFFF_FFFF;

/// Largest clock divider or timing constant (in DRAM clocks) that a DRAM accepts.
pub const MAX_TIMING: i64 = 65536;

/// Largest cycle at which the DRAM may be ticked; later cycles could overflow
/// the scheduled times.
pub const MAX_CYCLE: i64 = 0x3FFF_FFFF_FFFF_FFFF;

/// `bits` ones in the low bits.
pub open spec fn low_mask(bits: u64) -> u64 {
    ((1u64 << bits) - 1u64) as u64
}

pub open spec fn channel_of(addr: u64, channel_bits: u64) -> u64 {
    (addr >> DRAM_OFFSET_BITS) & low_mask(channel_bits)
}

pub open spec fn bank_of(addr: u64, channel_bits: u64, bank_bits: u64) -> u64 {
    (addr >> ((DRAM_ROW_SIZE_BITS + channel_bits) as u64)) & low_mask(bank_bits)
}

pub open spec fn row_of(addr: u64, channel_bits: u64, bank_bits: u64) -> u64 {
    addr >> ((DRAM_ROW_SIZE_BITS + channel_bits + bank_bits) as u64)
}

/// The address that holds `row`, `bank` and `channel` in their fields and `off`
/// in the offset bits.
pub open spec fn encode_addr(
    row: u64,
    bank: u64,
    channel: u64,
    off: u64,
    channel_bits: u64,
    bank_bits: u64,
) -> u64 {
    (row << ((DRAM_ROW_SIZE_BITS + channel_bits + bank_bits) as u64)) | (bank << ((
    DRAM_ROW_SIZE_BITS + channel_bits) as u64)) | (channel << DRAM_OFFSET_BITS) | off
}

/// A geometry whose fields all fit in a 64-bit address.
pub open spec fn geometry_fits(channel_bits: u64, bank_bits: u64) -> bool {
    DRAM_ROW_SIZE_BITS + channel_bits + bank_bits < 64
}

proof fn lemma_mask_bound(x: u64, b: u64)
    requires
        b < 64,
    ensures
        1u64 <= (1u64 << b),
        x & low_mask(b) < (1u64 << b),
{
    assert(1u64 <= (1u64 << b)) by (bit_vector)
        requires
            b < 64,
    ;
    assert(x & (((1u64 << b) - 1u64) as u64) < (1u64 << b)) by (bit_vector)
        requires
            b < 64,
    ;
}

proof fn lemma_count_fits(b: u64)
    requires
        b < 32,
    ensures
        (1u64 << b) <= usize::MAX,
{
    assert((1u64 << b) <= 0xFFFF_FFFFu64) by (bit_vector)
        requires
            b < 32,
    ;
}

/// No decoded row equals the closed-row marker, so an open row is never taken
/// for a closed bank.
pub proof fn lemma_row_is_never_closed_marker(addr: u64, channel_bits: u64, bank_bits: u64)
    requires
        geometry_fits(channel_bits, bank_bits),
    ensures
        row_of(addr, channel_bits, bank_bits) != NO_OPEN_ROW,
{
    let s = (DRAM_ROW_SIZE_BITS + channel_bits + bank_bits) as u64;
    assert(addr >> s != 0xFFFF_FFFF_FFFF_FFFFu64) by (bit_vector)
        requires
            13 <= s < 64,
    ;
}

/// Decoding an address, then writing its fields back with any offset, gives an
/// address that decodes to the same channel, bank and row.
pub proof fn lemma_decode_encode(addr: u64, off: u64, channel_bits: u64, bank_bits: u64)
    requires
        geometry_fits(channel_bits, bank_bits),
        off < 64,
    ensures
        ({
            let a = encode_addr(
                row_of(addr, channel_bits, bank_bits),
                bank_of(addr, channel_bits, bank_bits),
                channel_of(addr, channel_bits),
                off,
                channel_bits,
                bank_bits,
            );
            &&& channel_of(a, channel_bits) == channel_of(addr, channel_bits)
            &&& bank_of(a, channel_bits, bank_bits) == bank_of(addr, channel_bits, bank_bits)
            &&& row_of(a, channel_bits, bank_bits) == row_of(addr, channel_bits, bank_bits)
        }),
{
    let cb = channel_bits;
    let bb = bank_bits;
    let bl = (13 + cb) as u64;
    let rl = (13 + cb + bb) as u64;
    assert({
        let a = ((addr >> rl) << rl) | ((((addr >> bl) & (((1u64 << bb) - 1u64) as u64))) << bl)
            | ((((addr >> 6u64) & (((1u64 << cb) - 1u64) as u64))) << 6u64) | off;
        &&& (a >> 6u64) & (((1u64 << cb) - 1u64) as u64) == (addr >> 6u64) & (((1u64 << cb)
            - 1u64) as u64)
        &&& (a >> bl) & (((1u64 << bb) - 1u64) as u64) == (addr >> bl) & (((1u64 << bb)
            - 1u64) as u64)
        &&& a >> rl == addr >> rl
    }) by (bit_vector)
        requires
            cb + bb < 51,
            bl == 13 + cb,
            rl == 13 + cb + bb,
            off < 64,
    ;
}

#[derive(Clone, Copy, Debug, PartialEq, Eq, Structural)]
pub enum RequestConflictState {
    Hit,
    Miss,
    Conflict,
}

/// How a request for `row` stands to a bank whose open row is `open_row`.
pub open spec fn classify(open_row: u64, row: u64) -> RequestConflictState {
    if open_row == NO_OPEN_ROW {
        RequestConflictState::Miss
    } else if open_row == row {
        RequestConflictState::Hit
    } else {
        RequestConflictState::Conflict
    }
}

#[derive(Clone, Copy, Debug, PartialEq, Eq, Structural)]
pub struct Bank {
    pub open_row: u64,
    pub next_request: i64,
    pub next_conflict: i64,
}

impl Bank {
    pub open spec fn initial() -> Bank {
        Bank { open_row: NO_OPEN_ROW, next_request: -1i64, next_conflict: -1i64 }
    }

    pub fn new() -> (r: Bank)
        ensures
            r == Bank::initial(),
    {
        Bank { open_row: NO_OPEN_ROW, next_request: -1, next_conflict: -1 }
    }
}

/// A memory request decoded into the coordinates of its bank.
#[derive(Clone, Copy, Debug, PartialEq, Eq, Structural)]
pub struct Request {
    pub channel: u64,
    pub bank: u64,
    pub row: u64,
    pub mem_req: MemRequest,
}

impl Request {
    pub fn respond(&self, cycle: i64) -> (r: Option<Delivery>)
        ensures
            r == response_of(self.mem_req, cycle),
    {
        self.mem_req.respond(cycle)
    }
}

pub struct Channel {
    pub banks: Vec<Bank>,
    pub waiting_reqs: Vec<Request>,
    pub next_request: i64,
}

impl Channel {
    pub fn new(num_banks: usize) -> (r: Channel)
        ensures
            r.banks@.len() == num_banks,
            forall|i: int| 0 <= i < num_banks ==> #[trigger] r.banks@[i] == Bank::initial(),
            r.waiting_reqs@.len() == 0,
            r.next_request == -1,
    {
        let banks = cons_vec(num_banks, || -> (b: Bank) ensures b == Bank::initial() { Bank::new() });
        Channel { banks, waiting_reqs: Vec::new(), next_request: -1 }
    }
}

/// `n` idle channels of `num_banks` closed banks each.
fn idle_channels(n: usize, num_banks: usize) -> (r: Vec<Channel>)
    ensures
        r@.len() == n,
        forall|c: int|
            0 <= c < n ==> {
                let ch = #[trigger] r@[c];
                &&& ch.next_request == -1
                &&& ch.waiting_reqs@.len() == 0
                &&& ch.banks@.len() == num_banks
                &&& forall|b: int| 0 <= b < num_banks ==> #[trigger] ch.banks@[b] == Bank::initial()
            },
{
    let mut v: Vec<Channel> = Vec::new();
    let mut i: usize = 0;
    while i < n
        invariant
            i <= n,
            v@.len() == i,
            forall|c: int|
                0 <= c < i ==> {
                    let ch = #[trigger] v@[c];
                    &&& ch.next_request == -1
                    &&& ch.waiting_reqs@.len() == 0
                    &&& ch.banks@.len() == num_banks
                    &&& forall|b: int| 0 <= b < num_banks ==> #[trigger] ch.banks@[b] == Bank::initial()
                },
        decreases n - i,
    {
        v.push(Channel::new(num_banks));
        i = i + 1;
    }
    v
}

/// A request that may be issued now to its bank and hits the open row.
pub open spec fn is_hit(banks: Seq<Bank>, req: Request, now: i64) -> bool {
    let b = banks[req.bank as int];
    b.next_request <= now && classify(b.open_row, req.row) == RequestConflictState::Hit
}

/// A request that may be issued now: its bank is free, and a conflict only once
/// the open row has been open long enough.
pub open spec fn is_candidate(banks: Seq<Bank>, req: Request, now: i64) -> bool {
    let b = banks[req.bank as int];
    b.next_request <= now && !(classify(b.open_row, req.row) == RequestConflictState::Conflict
        && b.next_conflict > now)
}

pub open spec fn first_hit_from(banks: Seq<Bank>, reqs: Seq<Request>, now: i64, i: int) -> int
    decreases reqs.len() - i,
{
    if i < 0 || i >= reqs.len() {
        reqs.len() as int
    } else if is_hit(banks, reqs[i], now) {
        i
    } else {
        first_hit_from(banks, reqs, now, i + 1)
    }
}

pub open spec fn first_candidate_from(
    banks: Seq<Bank>,
    reqs: Seq<Request>,
    now: i64,
    i: int,
) -> int
    decreases reqs.len() - i,
{
    if i < 0 || i >= reqs.len() {
        reqs.len() as int
    } else if is_candidate(banks, reqs[i], now) {
        i
    } else {
        first_candidate_from(banks, reqs, now, i + 1)
    }
}

proof fn lemma_first_from_bounds(banks: Seq<Bank>, reqs: Seq<Request>, now: i64, i: int)
    requires
        0 <= i <= reqs.len(),
    ensures
        i <= first_hit_from(banks, reqs, now, i) <= reqs.len(),
        i <= first_candidate_from(banks, reqs, now, i) <= reqs.len(),
    decreases reqs.len() - i,
{
    if i < reqs.len() {
        lemma_first_from_bounds(banks, reqs, now, i + 1);
    }
}

/// The FR-FCFS choice among waiting requests: the oldest that hits an open row,
/// else the oldest that may be issued, else none.
pub open spec fn selected(banks: Seq<Bank>, reqs: Seq<Request>, now: i64) -> Option<int> {
    let h = first_hit_from(banks, reqs, now, 0);
    let c = first_candidate_from(banks, reqs, now, 0);
    if h < reqs.len() {
        Some(h)
    } else if c < reqs.len() {
        Some(c)
    } else {
        None
    }
}

/// The waiting requests of a channel name banks that exist.
pub open spec fn banks_in_range(banks: Seq<Bank>, reqs: Seq<Request>) -> bool {
    forall|i: int| 0 <= i < reqs.len() ==> (#[trigger] reqs[i]).bank < banks.len()
}

/// Classifies a request for `row` against a bank's open row.
fn conflict_state(open_row: u64, row: u64) -> (r: RequestConflictState)
    ensures
        r == classify(open_row, row),
{
    if open_row == NO_OPEN_ROW {
        RequestConflictState::Miss
    } else if open_row == row {
        RequestConflictState::Hit
    } else {
        RequestConflictState::Conflict
    }
}

/// The DRAM subsystem: `1 << channel_bits` channels of `1 << bank_bits` banks.
/// Timing constants are in DRAM clocks; one DRAM clock is `clock_divider` cycles.
pub struct Dram {
    pub channel_bits: u64,
    pub bank_bits: u64,
    pub bank_lsb: u64,
    pub row_lsb: u64,
    pub clock_divider: i64,
    pub t_ccd: i64,
    pub t_cl: i64,
    pub t_rcd: i64,
    pub t_rp: i64,
    pub t_ras: i64,
    pub channels: Vec<Channel>,
}

/// Timing constants that the DRAM accepts.
pub open spec fn timing_ok(
    clock_divider: i64,
    t_ccd: i64,
    t_cl: i64,
    t_rcd: i64,
    t_rp: i64,
    t_ras: i64,
) -> bool {
    &&& 1 <= clock_divider <= MAX_TIMING
    &&& 0 <= t_ccd <= MAX_TIMING
    &&& 0 <= t_cl <= MAX_TIMING
    &&& 0 <= t_rcd <= MAX_TIMING
    &&& 0 <= t_rp <= MAX_TIMING
    &&& 0 <= t_ras <= MAX_TIMING
}

/// A cycle at which the DRAM may be ticked.
pub open spec fn cycle_ok(now: int) -> bool {
    0 <= now <= MAX_CYCLE
}

impl Dram {
    pub open spec fn num_channels(&self) -> int {
        (1u64 << self.channel_bits) as int
    }

    pub open spec fn num_banks(&self) -> int {
        (1u64 << self.bank_bits) as int
    }

    /// The decoded form of `mem_req` under this geometry.
    pub open spec fn decode(&self, mem_req: MemRequest) -> Request {
        Request {
            channel: channel_of(mem_req.addr, self.channel_bits),
            bank: bank_of(mem_req.addr, self.channel_bits, self.bank_bits),
            row: row_of(mem_req.addr, self.channel_bits, self.bank_bits),
            mem_req,
        }
    }

    pub open spec fn channel_wf(&self, ch: Channel, c: int) -> bool {
        &&& ch.banks@.len() == self.num_banks()
        &&& forall|i: int|
            0 <= i < ch.waiting_reqs@.len() ==> {
                let r = #[trigger] ch.waiting_reqs@[i];
                &&& r == self.decode(r.mem_req)
                &&& r.channel == c
                &&& r.bank < ch.banks@.len()
            }
    }

    pub open spec fn wf(&self) -> bool {
        &&& geometry_fits(self.channel_bits, self.bank_bits)
        &&& self.bank_lsb == DRAM_ROW_SIZE_BITS + self.channel_bits
        &&& self.row_lsb == self.bank_lsb + self.bank_bits
        &&& timing_ok(
            self.clock_divider,
            self.t_ccd,
            self.t_cl,
            self.t_rcd,
            self.t_rp,
            self.t_ras,
        )
        &&& self.channels@.len() == self.num_channels()
        &&& forall|c: int|
            0 <= c < self.channels@.len() ==> self.channel_wf(#[trigger] self.channels@[c], c)
    }

    /// The geometry and timing of `self` and `o` agree.
    pub open spec fn same_config(&self, o: &Dram) -> bool {
        &&& self.channel_bits == o.channel_bits
        &&& self.bank_bits == o.bank_bits
        &&& self.bank_lsb == o.bank_lsb
        &&& self.row_lsb == o.row_lsb
        &&& self.clock_divider == o.clock_divider
        &&& self.t_ccd == o.t_ccd
        &&& self.t_cl == o.t_cl
        &&& self.t_rcd == o.t_rcd
        &&& self.t_rp == o.t_rp
        &&& self.t_ras == o.t_ras
        &&& self.channels@.len() == o.channels@.len()
    }

    /// DRAM clocks spent before the activate: a precharge on a conflict.
    pub open spec fn precharge_delay(&self, class: RequestConflictState) -> int {
        if class == RequestConflictState::Conflict {
            self.t_rp as int
        } else {
            0
        }
    }

    /// DRAM clocks until the bank accepts its next command: precharge on a
    /// conflict, activate on anything but a hit, then the column access.
    pub open spec fn access_delay(&self, class: RequestConflictState) -> int {
        self.precharge_delay(class) + (if class == RequestConflictState::Hit {
            0
        } else {
            self.t_rcd as int
        }) + self.t_ccd
    }

    /// The cycle `cycles` DRAM clocks after `now`.
    pub open spec fn after_spec(&self, now: int, cycles: int) -> int {
        now + cycles * self.clock_divider
    }

    /// A bank after a request for `row` was issued to it at `now`.
    pub open spec fn bank_after_issue(&self, bank: Bank, row: u64, now: i64) -> Bank {
        let class = classify(bank.open_row, row);
        if class == RequestConflictState::Hit {
            Bank {
                next_request: self.after_spec(now as int, self.access_delay(class)) as i64,
                ..bank
            }
        } else {
            Bank {
                open_row: row,
                next_request: self.after_spec(now as int, self.access_delay(class)) as i64,
                next_conflict: self.after_spec(
                    now as int,
                    self.precharge_delay(class) + self.t_ras,
                ) as i64,
            }
        }
    }

    /// The cycle at which the data of a request of class `class` issued at `now`
    /// reaches the requester.
    pub open spec fn response_cycle(&self, class: RequestConflictState, now: i64) -> int {
        self.after_spec(now as int, self.access_delay(class) + self.t_cl)
    }

    /// The request that channel `c` issues when ticked at `now`, if any.
    pub open spec fn issued_on(&self, c: int, now: i64) -> Option<Request> {
        let ch = self.channels@[c];
        if now % self.clock_divider == 0 && ch.next_request <= now {
            match selected(ch.banks@, ch.waiting_reqs@, now) {
                Some(i) => Some(ch.waiting_reqs@[i]),
                None => None,
            }
        } else {
            None
        }
    }

    /// `nc` is channel `c` after a tick at `now`.
    pub open spec fn channel_ticked(&self, c: int, now: i64, nc: Channel) -> bool {
        let oc = self.channels@[c];
        match self.issued_on(c, now) {
            Some(req) => {
                &&& nc.waiting_reqs@ == oc.waiting_reqs@.remove(
                    selected(oc.banks@, oc.waiting_reqs@, now)->0,
                )
                &&& nc.next_request == self.after_spec(now as int, self.t_ccd as int)
                &&& nc.banks@ == oc.banks@.update(
                    req.bank as int,
                    self.bank_after_issue(oc.banks@[req.bank as int], req.row, now),
                )
            },
            None => {
                &&& nc.waiting_reqs@ == oc.waiting_reqs@
                &&& nc.next_request == oc.next_request
                &&& nc.banks@ == oc.banks@
            },
        }
    }

    /// The response that channel `c` schedules when ticked at `now`, if any.
    pub open spec fn delivery_on(&self, c: int, now: i64) -> Option<Delivery> {
        match self.issued_on(c, now) {
            Some(req) => response_of(
                req.mem_req,
                self.response_cycle(
                    classify(self.channels@[c].banks@[req.bank as int].open_row, req.row),
                    now,
                ) as i64,
            ),
            None => None,
        }
    }

    /// The responses that channels `0..n` schedule when ticked at `now`, in channel order.
    pub open spec fn deliveries_upto(&self, now: i64, n: int) -> Seq<Delivery>
        decreases n,
    {
        if n <= 0 {
            Seq::empty()
        } else {
            let prev = self.deliveries_upto(now, n - 1);
            match self.delivery_on(n - 1, now) {
                Some(d) => prev.push(d),
                None => prev,
            }
        }
    }

    /// A DRAM with the usual timing: a divider of 4, `t_ccd` 4, `t_cl`, `t_rcd`
    /// and `t_rp` 11, `t_ras` 28.
    pub fn new(channel_bits: u64, bank_bits: u64) -> (r: Dram)
        requires
            geometry_fits(channel_bits, bank_bits),
            channel_bits < 32,
            bank_bits < 32,
        ensures
            r.wf(),
            r.channel_bits == channel_bits,
            r.bank_bits == bank_bits,
            r.clock_divider == 4,
            r.t_ccd == 4,
            r.t_cl == 11,
            r.t_rcd == 11,
            r.t_rp == 11,
            r.t_ras == 28,
            r.is_idle(),
    {
        Dram::with_timing(channel_bits, bank_bits, 4, 4, 11, 11, 11, 28)
    }

    /// Every channel is free, has an empty queue, and every bank is closed and free.
    pub open spec fn is_idle(&self) -> bool {
        forall|c: int|
            0 <= c < self.channels@.len() ==> {
                let ch = #[trigger] self.channels@[c];
                &&& ch.waiting_reqs@.len() == 0
                &&& ch.next_request == -1
                &&& forall|b: int| 0 <= b < ch.banks@.len() ==> #[trigger] ch.banks@[b] == Bank::initial()
            }
    }

    pub fn with_timing(
        channel_bits: u64,
        bank_bits: u64,
        clock_divider: i64,
        t_ccd: i64,
        t_cl: i64,
        t_rcd: i64,
        t_rp: i64,
        t_ras: i64,
    ) -> (r: Dram)
        requires
            geometry_fits(channel_bits, bank_bits),
            channel_bits < 32,
            bank_bits < 32,
            timing_ok(clock_divider, t_ccd, t_cl, t_rcd, t_rp, t_ras),
        ensures
            r.wf(),
            r.channel_bits == channel_bits,
            r.bank_bits == bank_bits,
            r.clock_divider == clock_divider,
            r.t_ccd == t_ccd,
            r.t_cl == t_cl,
            r.t_rcd == t_rcd,
            r.t_rp == t_rp,
            r.t_ras == t_ras,
            r.is_idle(),
    {
        let bank_lsb = DRAM_ROW_SIZE_BITS + channel_bits;
        proof {
            lemma_count_fits(channel_bits);
            lemma_count_fits(bank_bits);
        }
        let num_channels = (1u64 << channel_bits) as usize;
        let num_banks = (1u64 << bank_bits) as usize;
        let channels = idle_channels(num_channels, num_banks);
        Dram {
            channel_bits,
            bank_bits,
            bank_lsb,
            row_lsb: bank_lsb + bank_bits,
            clock_divider,
            t_ccd,
            t_cl,
            t_rcd,
            t_rp,
            t_ras,
            channels,
        }
    }

    /// Picks the request to issue next on `chan`, if any, and takes it out of the queue.
    fn best_request(chan: &mut Channel, now: i64) -> (r: Option<Request>)
        requires
            banks_in_range(old(chan).banks@, old(chan).waiting_reqs@),
        ensures
            final(chan).banks@ == old(chan).banks@,
            final(chan).next_request == old(chan).next_request,
            match selected(old(chan).banks@, old(chan).waiting_reqs@, now) {
                Some(i) => r == Some(old(chan).waiting_reqs@[i]) && final(chan).waiting_reqs@ == old(
                    chan,
                ).waiting_reqs@.remove(i),
                None => r.is_none() && final(chan).waiting_reqs@ == old(chan).waiting_reqs@,
            },
    {
        let ghost banks = chan.banks@;
        let ghost reqs = chan.waiting_reqs@;
        let mut best: Option<usize> = None;
        let mut hit = false;
        let n = chan.waiting_reqs.len();
        let mut i: usize = 0;
        while i < n
            invariant_except_break
                !hit,
                first_hit_from(banks, reqs, now, 0) == first_hit_from(banks, reqs, now, i as int),
                match best {
                    Some(j) => j < i && first_candidate_from(banks, reqs, now, 0) == j,
                    None => first_candidate_from(banks, reqs, now, 0) == first_candidate_from(
                        banks,
                        reqs,
                        now,
                        i as int,
                    ),
                },
            invariant
                n == reqs.len(),
                chan.banks@ == banks,
                chan.waiting_reqs@ == reqs,
                banks_in_range(banks, reqs),
                i <= n,
            ensures
                hit ==> i < n && best == Some(i) && first_hit_from(banks, reqs, now, 0) == i,
                !hit ==> i == n && first_hit_from(banks, reqs, now, 0) == first_hit_from(
                    banks,
                    reqs,
                    now,
                    i as int,
                ) && match best {
                    Some(j) => j < i && first_candidate_from(banks, reqs, now, 0) == j,
                    None => first_candidate_from(banks, reqs, now, 0) == first_candidate_from(
                        banks,
                        reqs,
                        now,
                        i as int,
                    ),
                },
            decreases n - i,
        {
            let req = chan.waiting_reqs[i];
            assert(req == reqs[i as int]);
            assert(req.bank < banks.len());
            assert(banks.len() == chan.banks.len());
            assert(chan.banks.len() <= usize::MAX);
            let bi = req.bank as usize;
            assert(bi == req.bank);
            let bank = chan.banks[bi];
            assert(bank == banks[req.bank as int]);
            if bank.next_request <= now {
                let state = conflict_state(bank.open_row, req.row);
                if state == RequestConflictState::Hit {
                    best = Some(i);
                    hit = true;
                    break;
                } else if state == RequestConflictState::Conflict && bank.next_conflict > now {
                } else if best.is_none() {
                    best = Some(i);
                }
            }
            i = i + 1;
        }
        proof {
            lemma_first_from_bounds(banks, reqs, now, 0);
            if !hit {
                assert(first_hit_from(banks, reqs, now, n as int) == n);
                if best.is_none() {
                    assert(first_candidate_from(banks, reqs, now, n as int) == n);
                }
            }
        }
        match best {
            Some(j) => Some(chan.waiting_reqs.remove(j)),
            None => None,
        }
    }

    /// Decodes a memory request into its channel, bank and row.
    fn make_request(&self, mem_req: MemRequest) -> (r: Request)
        requires
            self.wf(),
        ensures
            r == self.decode(mem_req),
            r.channel < self.num_channels(),
            r.bank < self.num_banks(),
    {
        let addr = mem_req.addr;
        proof {
            lemma_mask_bound(addr >> DRAM_OFFSET_BITS, self.channel_bits);
            lemma_mask_bound(addr >> self.bank_lsb, self.bank_bits);
        }
        Request {
            channel: (addr >> DRAM_OFFSET_BITS) & ((1u64 << self.channel_bits) - 1u64),
            bank: (addr >> self.bank_lsb) & ((1u64 << self.bank_bits) - 1u64),
            row: addr >> self.row_lsb,
            mem_req,
        }
    }

    /// A request that this DRAM can route: its channel and bank exist.
    pub open spec fn routes(&self, req: Request) -> bool {
        &&& req.channel < self.channels@.len()
        &&& req.bank < self.channels@[req.channel as int].banks@.len()
    }

    fn request_conflict_state(&self, req: &Request) -> (r: RequestConflictState)
        requires
            self.routes(*req),
        ensures
            r == classify(self.channels@[req.channel as int].banks@[req.bank as int].open_row, req.row),
    {
        assert(self.channels.len() <= usize::MAX);
        let c = req.channel as usize;
        assert(self.channels[c as int].banks.len() <= usize::MAX);
        let b = req.bank as usize;
        conflict_state(self.channels[c].banks[b].open_row, req.row)
    }

    /// The cycle `cycles` DRAM clocks after `now`.
    fn after(&self, now: i64, cycles: i64) -> (r: i64)
        requires
            self.wf(),
            cycle_ok(now as int),
            0 <= cycles <= 8 * MAX_TIMING,
        ensures
            r == self.after_spec(now as int, cycles as int),
    {
        let cd = self.clock_divider;
        assert(0 <= cycles * cd <= 8 * MAX_TIMING * MAX_TIMING) by (nonlinear_arith)
            requires
                0 <= cycles <= 8 * MAX_TIMING,
                1 <= cd <= MAX_TIMING,
        ;
        now + cycles * cd
    }

    /// Issues `req` at `now`: updates its channel and bank and schedules its response.
    fn issue_request(&mut self, req: Request, now: i64) -> (r: Option<Delivery>)
        requires
            old(self).wf(),
            old(self).routes(req),
            cycle_ok(now as int),
        ensures
            final(self).wf(),
            final(self).same_config(old(self)),
            forall|c: int|
                0 <= c < old(self).channels@.len() && c != req.channel ==> #[trigger] final(self).channels@[c]
                    == old(self).channels@[c],
            ({
                let oc = old(self).channels@[req.channel as int];
                let nc = final(self).channels@[req.channel as int];
                &&& nc.waiting_reqs@ == oc.waiting_reqs@
                &&& nc.next_request == old(self).after_spec(now as int, old(self).t_ccd as int)
                &&& nc.banks@ == oc.banks@.update(
                    req.bank as int,
                    old(self).bank_after_issue(oc.banks@[req.bank as int], req.row, now),
                )
            }),
            r == response_of(
                req.mem_req,
                old(self).response_cycle(
                    classify(
                        old(self).channels@[req.channel as int].banks@[req.bank as int].open_row,
                        req.row,
                    ),
                    now,
                ) as i64,
            ),
    {
        assert(self.channels.len() <= usize::MAX);
        let c = req.channel as usize;
        assert(self.channels[c as int].banks.len() <= usize::MAX);
        let b = req.bank as usize;
        let req_state = self.request_conflict_state(&req);
        let mut req_delay: i64 = 0;
        let next_channel = self.after(now, self.t_ccd);
        let mut bank = self.channels[c].banks[b];
        if req_state == RequestConflictState::Conflict {
            req_delay = req_delay + self.t_rp;
        }
        if req_state != RequestConflictState::Hit {
            bank.next_conflict = self.after(now, req_delay + self.t_ras);
            req_delay = req_delay + self.t_rcd;
            bank.open_row = req.row;
        }
        req_delay = req_delay + self.t_ccd;
        bank.next_request = self.after(now, req_delay);
        let response_at = self.after(now, req_delay + self.t_cl);
        self.channels[c].next_request = next_channel;
        self.channels[c].banks.set(b, bank);
        proof {
            let ghost ch = self.channels@[c as int];
            assert(self.channel_wf(ch, c as int));
            assert forall|k: int| 0 <= k < self.channels@.len() implies self.channel_wf(
                #[trigger] self.channels@[k],
                k,
            ) by {
                if k != c {
                    assert(self.channels@[k] == old(self).channels@[k]);
                    assert(old(self).channel_wf(old(self).channels@[k], k));
                }
            }
        }
        req.respond(response_at)
    }

    proof fn lemma_no_deliveries_off_clock(&self, now: i64, n: int)
        requires
            now % self.clock_divider != 0,
        ensures
            self.deliveries_upto(now, n) == Seq::<Delivery>::empty(),
        decreases n,
    {
        if n > 0 {
            self.lemma_no_deliveries_off_clock(now, n - 1);
        }
    }

    /// One DRAM step at the simulator's current cycle. On a DRAM clock edge each
    /// free channel issues its FR-FCFS choice, if any; the responses to reads are
    /// appended to `out` in channel order.
    pub fn tick(&mut self, sim: &Simulator, out: &mut Vec<Delivery>)
        requires
            old(self).wf(),
            cycle_ok(sim.cycle()),
        ensures
            final(self).wf(),
            final(self).same_config(old(self)),
            forall|c: int|
                0 <= c < old(self).channels@.len() ==> old(self).channel_ticked(
                    c,
                    sim.cycle() as i64,
                    #[trigger] final(self).channels@[c],
                ),
            final(out)@ == old(out)@ + old(self).deliveries_upto(
                sim.cycle() as i64,
                old(self).channels@.len() as int,
            ),
    {
        let now = sim.now();
        if now % self.clock_divider == 0 {
            let n = self.channels.len();
            let mut c: usize = 0;
            while c < n
                invariant
                    n == old(self).channels@.len(),
                    old(self).wf(),
                    c <= n,
                    self.wf(),
                    self.same_config(old(self)),
                    cycle_ok(now as int),
                    now == sim.cycle(),
                    now % self.clock_divider == 0,
                    forall|k: int|
                        0 <= k < c ==> old(self).channel_ticked(
                            k,
                            now,
                            #[trigger] self.channels@[k],
                        ),
                    forall|k: int| c <= k < n ==> #[trigger] self.channels@[k] == old(self).channels@[k],
                    out@ == old(out)@ + old(self).deliveries_upto(now, c as int),
                decreases n - c,
            {
                assert(old(self).channel_wf(old(self).channels@[c as int], c as int));
                if self.channels[c].next_request <= now {
                    let ghost ch = self.channels@[c as int];
                    assert(banks_in_range(ch.banks@, ch.waiting_reqs@));
                    let r = Self::best_request(&mut self.channels[c], now);
                    proof {
                        lemma_first_from_bounds(ch.banks@, ch.waiting_reqs@, now, 0);
                        let nch = self.channels@[c as int];
                        assert forall|i: int| 0 <= i < nch.waiting_reqs@.len() implies {
                            let q = #[trigger] nch.waiting_reqs@[i];
                            &&& q == self.decode(q.mem_req)
                            &&& q.channel == c
                            &&& q.bank < nch.banks@.len()
                        } by {
                            match selected(ch.banks@, ch.waiting_reqs@, now) {
                                Some(j) => {
                                    if i < j {
                                        assert(nch.waiting_reqs@[i] == ch.waiting_reqs@[i]);
                                    } else {
                                        assert(nch.waiting_reqs@[i] == ch.waiting_reqs@[i + 1]);
                                    }
                                },
                                None => {},
                            }
                        }
                        assert(self.channel_wf(nch, c as int));
                        assert forall|k: int| 0 <= k < self.channels@.len() implies self.channel_wf(
                            #[trigger] self.channels@[k],
                            k,
                        ) by {
                            if k != c {
                                assert(old(self).channel_wf(old(self).channels@[k], k));
                            }
                        }
                    }
                    match r {
                        Some(req) => {
                            let d = self.issue_request(req, now);
                            match d {
                                Some(x) => {
                                    out.push(x);
                                },
                                None => {},
                            }
                        },
                        None => {},
                    }
                }
                assert(old(self).channel_ticked(c as int, now, self.channels@[c as int]));
                assert(old(self).deliveries_upto(now, c + 1) == old(self).deliveries_upto(now, c as int)
                    + match old(self).delivery_on(c as int, now) {
                    Some(d) => seq![d],
                    None => Seq::empty(),
                });
                c = c + 1;
            }
        } else {
            proof {
                old(self).lemma_no_deliveries_off_clock(now, old(self).channels@.len() as int);
            }
            assert(out@ == old(out)@ + Seq::<Delivery>::empty());
        }
    }

    /// `next` is `self` with `mem_req`, decoded, appended to its channel's queue;
    /// nothing else changed.
    pub open spec fn submitted(&self, next: &Dram, mem_req: MemRequest) -> bool {
        let r = self.decode(mem_req);
        let oc = self.channels@[r.channel as int];
        let nc = next.channels@[r.channel as int];
        &&& next.same_config(self)
        &&& r.channel < self.channels@.len()
        &&& nc.waiting_reqs@ == oc.waiting_reqs@.push(r)
        &&& nc.banks@ == oc.banks@
        &&& nc.next_request == oc.next_request
        &&& forall|c: int|
            0 <= c < self.channels@.len() && c != r.channel ==> #[trigger] next.channels@[c]
                == self.channels@[c]
    }

    /// The channel queues after each request of `reqs` was submitted in turn.
    pub open spec fn queues_after(&self, reqs: Seq<MemRequest>) -> Seq<Seq<Request>>
        decreases reqs.len(),
    {
        if reqs.len() == 0 {
            Seq::new(self.channels@.len(), |c: int| self.channels@[c].waiting_reqs@)
        } else {
            let p = self.queues_after(reqs.drop_last());
            let r = self.decode(reqs.last());
            p.update(r.channel as int, p[r.channel as int].push(r))
        }
    }

    /// Accepts a memory request: decodes it and appends it to its channel's queue.
    pub fn submit(&mut self, mem_req: MemRequest)
        requires
            old(self).wf(),
        ensures
            final(self).wf(),
            final(self).same_config(old(self)),
            old(self).submitted(final(self), mem_req),
    {
        let req = self.make_request(mem_req);
        assert(self.channels.len() <= usize::MAX);
        let c = req.channel as usize;
        self.channels[c].waiting_reqs.push(req);
        proof {
            assert(old(self).channel_wf(old(self).channels@[c as int], c as int));
            let nch = self.channels@[c as int];
            assert forall|i: int| 0 <= i < nch.waiting_reqs@.len() implies {
                let q = #[trigger] nch.waiting_reqs@[i];
                &&& q == self.decode(q.mem_req)
                &&& q.channel == c
                &&& q.bank < nch.banks@.len()
            } by {
                if i < nch.waiting_reqs@.len() - 1 {
                    assert(nch.waiting_reqs@[i] == old(self).channels@[c as int].waiting_reqs@[i]);
                }
            }
            assert forall|k: int| 0 <= k < self.channels@.len() implies self.channel_wf(
                #[trigger] self.channels@[k],
                k,
            ) by {
                if k != c {
                    assert(old(self).channel_wf(old(self).channels@[k], k));
                }
            }
        }
    }
}

impl MemRequestReceiver for Dram {
    open spec fn ready(&self) -> bool {
        self.wf()
    }

    open spec fn accepted(&self, next: &Dram, request: MemRequest) -> bool {
        self.submitted(next, request)
    }

    fn receive_request(&mut self, request: MemRequest) {
        self.submit(request);
    }
}

proof fn lemma_first_hit_is_hit(banks: Seq<Bank>, reqs: Seq<Request>, now: i64, i: int)
    requires
        0 <= i <= reqs.len(),
        first_hit_from(banks, reqs, now, i) < reqs.len(),
    ensures
        is_hit(banks, reqs[first_hit_from(banks, reqs, now, i)], now),
    decreases reqs.len() - i,
{
    if i < reqs.len() && !is_hit(banks, reqs[i], now) {
        lemma_first_hit_is_hit(banks, reqs, now, i + 1);
    }
}

proof fn lemma_first_candidate_is_candidate(banks: Seq<Bank>, reqs: Seq<Request>, now: i64, i: int)
    requires
        0 <= i <= reqs.len(),
        first_candidate_from(banks, reqs, now, i) < reqs.len(),
    ensures
        is_candidate(banks, reqs[first_candidate_from(banks, reqs, now, i)], now),
    decreases reqs.len() - i,
{
    if i < reqs.len() && !is_candidate(banks, reqs[i], now) {
        lemma_first_candidate_is_candidate(banks, reqs, now, i + 1);
    }
}

/// The request that a channel issues may be issued: its bank is free, and a
/// request that conflicts with the open row comes only once precharge is allowed.
pub proof fn lemma_issued_is_eligible(d: Dram, c: int, now: i64)
    requires
        d.wf(),
        0 <= c < d.channels@.len(),
        d.issued_on(c, now) is Some,
    ensures
        ({
            let ch = d.channels@[c];
            let req = d.issued_on(c, now)->0;
            let bank = ch.banks@[req.bank as int];
            &&& ch.next_request <= now
            &&& req.bank < ch.banks@.len()
            &&& is_candidate(ch.banks@, req, now)
            &&& bank.next_request <= now
            &&& classify(bank.open_row, req.row) == RequestConflictState::Conflict ==> bank.next_conflict
                <= now
        }),
{
    let ch = d.channels@[c];
    assert(d.channel_wf(ch, c));
    lemma_first_from_bounds(ch.banks@, ch.waiting_reqs@, now, 0);
    let h = first_hit_from(ch.banks@, ch.waiting_reqs@, now, 0);
    if h < ch.waiting_reqs@.len() {
        lemma_first_hit_is_hit(ch.banks@, ch.waiting_reqs@, now, 0);
    } else {
        lemma_first_candidate_is_candidate(ch.banks@, ch.waiting_reqs@, now, 0);
    }
}

proof fn lemma_after_bounds(d: Dram, now: i64, x: int)
    requires
        d.wf(),
        cycle_ok(now as int),
        0 <= x <= 8 * MAX_TIMING,
    ensures
        now <= d.after_spec(now as int, x) <= i64::MAX,
{
    let cd = d.clock_divider as int;
    assert(0 <= x * cd <= 8 * MAX_TIMING * MAX_TIMING) by (nonlinear_arith)
        requires
            0 <= x <= 8 * MAX_TIMING,
            1 <= cd <= MAX_TIMING,
    ;
}

proof fn lemma_after_mono(d: Dram, now: int, x: int, y: int)
    requires
        d.wf(),
        x <= y,
    ensures
        d.after_spec(now, x) <= d.after_spec(now, y),
{
    let cd = d.clock_divider as int;
    assert(x * cd <= y * cd) by (nonlinear_arith)
        requires
            x <= y,
            1 <= cd,
    ;
}

/// Commands on one channel are at least `t_ccd` DRAM clocks apart: channel `c`
/// of `d1` issues at `t1` and becomes `ch1`; a later state `d2` whose channel
/// still has the busy time that issue set (submissions and idle ticks keep it)
/// issues on `c` at `t2` only if `t2 >= t1 + t_ccd * clock_divider`.
pub proof fn lemma_channel_spacing(d1: Dram, ch1: Channel, d2: Dram, c: int, t1: i64, t2: i64)
    requires
        d1.wf(),
        d2.wf(),
        0 <= c < d1.channels@.len(),
        d2.same_config(&d1),
        cycle_ok(t1 as int),
        d1.issued_on(c, t1) is Some,
        d1.channel_ticked(c, t1, ch1),
        d2.channels@[c].next_request == ch1.next_request,
        d2.issued_on(c, t2) is Some,
    ensures
        t2 >= t1 + d1.t_ccd * d1.clock_divider,
{
    lemma_after_bounds(d1, t1, d1.t_ccd as int);
    lemma_issued_is_eligible(d2, c, t2);
}

/// Commands on one bank are at least `t_ccd` DRAM clocks apart: channel `c` of
/// `d1` issues to a bank at `t1` and becomes `ch1`; a later state `d2` in which
/// that bank is as the issue left it issues to the bank again, at `t2`, only if
/// `t2 >= t1 + t_ccd * clock_divider`.
pub proof fn lemma_bank_spacing(d1: Dram, ch1: Channel, d2: Dram, c: int, t1: i64, t2: i64)
    requires
        d1.wf(),
        d2.wf(),
        0 <= c < d1.channels@.len(),
        d2.same_config(&d1),
        cycle_ok(t1 as int),
        d1.issued_on(c, t1) is Some,
        d1.channel_ticked(c, t1, ch1),
        d2.issued_on(c, t2) is Some,
        d2.issued_on(c, t2)->0.bank == d1.issued_on(c, t1)->0.bank,
        d2.channels@[c].banks@[d1.issued_on(c, t1)->0.bank as int] == ch1.banks@[d1.issued_on(
            c,
            t1,
        )->0.bank as int],
    ensures
        t2 >= t1 + d1.t_ccd * d1.clock_divider,
{
    let req = d1.issued_on(c, t1)->0;
    let b = req.bank as int;
    lemma_issued_is_eligible(d1, c, t1);
    lemma_issued_is_eligible(d2, c, t2);
    let class = classify(d1.channels@[c].banks@[b].open_row, req.row);
    lemma_after_bounds(d1, t1, d1.access_delay(class));
    lemma_after_bounds(d1, t1, d1.t_ccd as int);
    lemma_after_mono(d1, t1 as int, d1.t_ccd as int, d1.access_delay(class));
}

/// A row stays open at least `t_ras` DRAM clocks: channel `c` of `d1` opens a
/// row of a bank at `t1` and becomes `ch1`; a later state `d2` in which that bank
/// is as the issue left it precharges it for a conflicting request, at `t2`,
/// only if `t2 >= t1 + t_ras * clock_divider`.
pub proof fn lemma_row_open_minimum(d1: Dram, ch1: Channel, d2: Dram, c: int, t1: i64, t2: i64)
    requires
        d1.wf(),
        d2.wf(),
        0 <= c < d1.channels@.len(),
        d2.same_config(&d1),
        cycle_ok(t1 as int),
        d1.issued_on(c, t1) is Some,
        classify(
            d1.channels@[c].banks@[d1.issued_on(c, t1)->0.bank as int].open_row,
            d1.issued_on(c, t1)->0.row,
        ) != RequestConflictState::Hit,
        d1.channel_ticked(c, t1, ch1),
        d2.issued_on(c, t2) is Some,
        d2.issued_on(c, t2)->0.bank == d1.issued_on(c, t1)->0.bank,
        d2.channels@[c].banks@[d1.issued_on(c, t1)->0.bank as int] == ch1.banks@[d1.issued_on(
            c,
            t1,
        )->0.bank as int],
        classify(
            d2.channels@[c].banks@[d2.issued_on(c, t2)->0.bank as int].open_row,
            d2.issued_on(c, t2)->0.row,
        ) == RequestConflictState::Conflict,
    ensures
        t2 >= t1 + d1.t_ras * d1.clock_divider,
{
    let req = d1.issued_on(c, t1)->0;
    let b = req.bank as int;
    lemma_issued_is_eligible(d1, c, t1);
    lemma_issued_is_eligible(d2, c, t2);
    let class = classify(d1.channels@[c].banks@[b].open_row, req.row);
    lemma_after_bounds(d1, t1, d1.precharge_delay(class) + d1.t_ras);
    lemma_after_bounds(d1, t1, d1.t_ras as int);
    lemma_after_mono(d1, t1 as int, d1.t_ras as int, d1.precharge_delay(class) + d1.t_ras);
}

/// Every response is scheduled at least `t_cl` DRAM clocks after its issue.
pub proof fn lemma_response_latency(d: Dram, c: int, now: i64)
    requires
        d.wf(),
        0 <= c < d.channels@.len(),
        cycle_ok(now as int),
        d.delivery_on(c, now) is Some,
    ensures
        d.delivery_on(c, now)->0.cycle >= now + d.t_cl * d.clock_divider,
{
    let req = d.issued_on(c, now)->0;
    lemma_issued_is_eligible(d, c, now);
    let class = classify(d.channels@[c].banks@[req.bank as int].open_row, req.row);
    lemma_after_bounds(d, now, d.access_delay(class) + d.t_cl);
    lemma_after_bounds(d, now, d.t_cl as int);
    lemma_after_mono(d, now as int, d.t_cl as int, d.access_delay(class) + d.t_cl);
}

/// A hit costs `t_ccd + t_cl` DRAM clocks, a miss `t_rcd + t_ccd + t_cl`, and a
/// conflict `t_rp + t_rcd + t_ccd + t_cl`.
pub proof fn lemma_latency_by_class(d: Dram, now: i64)
    ensures
        d.response_cycle(RequestConflictState::Hit, now) == now + (d.t_ccd + d.t_cl) * d.clock_divider,
        d.response_cycle(RequestConflictState::Miss, now) == now + (d.t_rcd + d.t_ccd + d.t_cl)
            * d.clock_divider,
        d.response_cycle(RequestConflictState::Conflict, now) == now + (d.t_rp + d.t_rcd + d.t_ccd
            + d.t_cl) * d.clock_divider,
{
}

} // verus!
