use nijikawa::cpu::Core;
use nijikawa::dram::{Bank, Dram, RequestConflictState, NO_OPEN_ROW};
use nijikawa::mem_request::{Delivery, MemRequest, MemRequestType, MemResponse};
use nijikawa::simulator::Simulator;
use nijikawa::system::System;
use nijikawa::trace::{parse_trace_line, TraceRecord, VecTraceReader};

fn rec(prec: u64, is_write: bool, addr: u64) -> TraceRecord {
    TraceRecord { addr, prec, is_write }
}

fn arith_filler() -> TraceRecord {
    rec(1_000_000_000, false, 0)
}

fn machine(trace: &mut VecTraceReader, width: usize, rob: usize) -> System {
    let sim = Simulator::new();
    let dram = Dram::new(1, 4);
    let core = Core::new(trace, width, rob);
    System::new(sim, core, dram)
}

fn read(addr: u64) -> MemRequest {
    MemRequest { addr, req_type: MemRequestType::Read }
}

fn tick_dram_until(dram: &mut Dram, sim: &mut Simulator, until: i64, out: &mut Vec<Delivery>) {
    while sim.now() < until {
        dram.tick(sim, out);
        sim.tick();
    }
}

#[test]
fn simulator_counts_cycles() {
    let mut sim = Simulator::new();
    assert_eq!(sim.now(), 0);
    sim.tick();
    sim.tick();
    assert_eq!(sim.now(), 2);
}

#[test]
fn respond_answers_reads_only() {
    let r = read(128).respond(40);
    assert_eq!(r, Some(Delivery { cycle: 40, response: MemResponse { addr: 128 } }));
    let w = MemRequest { addr: 128, req_type: MemRequestType::Write };
    assert_eq!(w.respond(40), None);
}

#[test]
fn cons_vec_calls_the_constructor_per_element() {
    let v = nijikawa::util::cons_vec(3, || 7u8);
    assert_eq!(v, vec![7u8, 7, 7]);
}

#[test]
fn new_dram_is_idle_with_default_timing() {
    let d = Dram::new(1, 4);
    assert_eq!(d.channels.len(), 2);
    assert_eq!(d.channels[0].banks.len(), 16);
    assert_eq!(d.bank_lsb, 14);
    assert_eq!(d.row_lsb, 18);
    assert_eq!((d.clock_divider, d.t_ccd, d.t_cl, d.t_rcd, d.t_rp, d.t_ras), (4, 4, 11, 11, 11, 28));
    assert_eq!(d.channels[1].banks[15], Bank { open_row: NO_OPEN_ROW, next_request: -1, next_conflict: -1 });
}

#[test]
fn submit_decodes_channel_bank_and_row() {
    let mut d = Dram::new(1, 4);
    // channel bit 6, bank bits 14..18, row from bit 18
    let addr: u64 = (5u64 << 18) | (9u64 << 14) | (1u64 << 6) | 17;
    d.submit(read(addr));
    assert_eq!(d.channels[0].waiting_reqs.len(), 0);
    let r = d.channels[1].waiting_reqs[0];
    assert_eq!((r.channel, r.bank, r.row), (1, 9, 5));
}

#[test]
fn decode_then_encode_keeps_fields() {
    let mut d = Dram::new(1, 4);
    let addr: u64 = 0xDEAD_BEEF_1234_5678;
    d.submit(read(addr));
    let c = ((addr >> 6) & 1) as usize;
    let r = d.channels[c].waiting_reqs[0];
    for off in [0u64, 1, 33, 63] {
        let back = (r.row << 18) | (r.bank << 14) | (r.channel << 6) | off;
        let mut d2 = Dram::new(1, 4);
        d2.submit(read(back));
        let r2 = d2.channels[c].waiting_reqs[0];
        assert_eq!((r2.channel, r2.bank, r2.row), (r.channel, r.bank, r.row));
    }
}

#[test]
fn dram_ticks_only_on_divider_edges() {
    let mut d = Dram::new(1, 4);
    let mut sim = Simulator::new();
    sim.tick();
    d.submit(read(0));
    let mut out = Vec::new();
    d.tick(&sim, &mut out);
    assert!(out.is_empty());
    assert_eq!(d.channels[0].waiting_reqs.len(), 1);
    tick_dram_until(&mut d, &mut sim, 5, &mut out);
    assert_eq!(out, vec![Delivery { cycle: 4 + 26 * 4, response: MemResponse { addr: 0 } }]);
}

#[test]
fn cold_read_then_hits() {
    let mut d = Dram::new(1, 4);
    let mut sim = Simulator::new();
    let mut out = Vec::new();
    d.submit(read(0));
    d.tick(&sim, &mut out);
    // miss: t_rcd + t_ccd + t_cl DRAM clocks
    assert_eq!(out, vec![Delivery { cycle: (11 + 4 + 11) * 4, response: MemResponse { addr: 0 } }]);
    assert_eq!(d.channels[0].banks[0], Bank { open_row: 0, next_request: 60, next_conflict: 112 });
    assert_eq!(d.channels[0].next_request, 16);
    d.submit(read(0));
    out.clear();
    tick_dram_until(&mut d, &mut sim, 61, &mut out);
    // the bank is busy until cycle 60; then a hit costs t_ccd + t_cl
    assert_eq!(out, vec![Delivery { cycle: 60 + (4 + 11) * 4, response: MemResponse { addr: 0 } }]);
    assert_eq!(d.channels[0].banks[0].next_request, 60 + 4 * 4);
    assert_eq!(d.channels[0].banks[0].next_conflict, 112);
}

#[test]
fn row_conflict_pays_precharge_after_t_ras() {
    let mut d = Dram::new(1, 4);
    let mut sim = Simulator::new();
    let mut out = Vec::new();
    let a: u64 = 0;
    let b: u64 = 1u64 << 18;
    d.submit(read(a));
    d.submit(read(b));
    tick_dram_until(&mut d, &mut sim, 112, &mut out);
    assert_eq!(out.len(), 1);
    assert_eq!(d.channels[0].waiting_reqs.len(), 1);
    tick_dram_until(&mut d, &mut sim, 113, &mut out);
    assert_eq!(out[1], Delivery { cycle: 112 + (11 + 11 + 4 + 11) * 4, response: MemResponse { addr: b } });
    assert_eq!(d.channels[0].banks[0].open_row, 1);
    assert_eq!(d.channels[0].banks[0].next_conflict, 112 + (11 + 28) * 4);
}

#[test]
fn alternating_rows_conflict_every_other_request() {
    let mut d = Dram::new(1, 4);
    let mut sim = Simulator::new();
    let mut out = Vec::new();
    let rows = [0u64, 1, 0, 1];
    for (i, r) in rows.iter().enumerate() {
        let at = 200 * i as i64;
        tick_dram_until(&mut d, &mut sim, at, &mut out);
        d.submit(read(r << 18));
    }
    tick_dram_until(&mut d, &mut sim, 1000, &mut out);
    let cycles: Vec<i64> = out.iter().map(|x| x.cycle).collect();
    // first a miss, then every request switches rows and pays t_rp + t_rcd + t_ccd + t_cl
    assert_eq!(cycles, vec![26 * 4, 200 + 37 * 4, 400 + 37 * 4, 600 + 37 * 4]);
}

#[test]
fn hit_preempts_older_conflict() {
    let mut d = Dram::new(1, 4);
    let mut sim = Simulator::new();
    let mut out = Vec::new();
    d.submit(read(0));
    tick_dram_until(&mut d, &mut sim, 1, &mut out);
    d.submit(read(1u64 << 18));
    d.submit(read(64 * 2));
    tick_dram_until(&mut d, &mut sim, 61, &mut out);
    assert_eq!(out[1].response.addr, 128);
    assert_eq!(d.channels[0].waiting_reqs[0].row, 1);
}

#[test]
fn channels_proceed_independently() {
    let mut d = Dram::new(1, 4);
    let sim = Simulator::new();
    let mut out = Vec::new();
    d.submit(read(0));
    d.submit(read(64));
    d.tick(&sim, &mut out);
    assert_eq!(out.len(), 2);
    assert_eq!(out[0], Delivery { cycle: 104, response: MemResponse { addr: 0 } });
    assert_eq!(out[1], Delivery { cycle: 104, response: MemResponse { addr: 64 } });
    assert_eq!(d.channels[0].next_request, 16);
    assert_eq!(d.channels[1].next_request, 16);
}

#[test]
fn writes_are_issued_without_response() {
    let mut d = Dram::new(1, 4);
    let sim = Simulator::new();
    let mut out = Vec::new();
    d.submit(MemRequest { addr: 0, req_type: MemRequestType::Write });
    d.tick(&sim, &mut out);
    assert!(out.is_empty());
    assert!(d.channels[0].waiting_reqs.is_empty());
    assert_eq!(d.channels[0].banks[0].open_row, 0);
}

#[test]
fn response_queue_orders_by_cycle() {
    let mut t = VecTraceReader::new(vec![], arith_filler());
    let mut c = Core::new(&mut t, 4, 8);
    c.receive_response(30, MemResponse { addr: 1 });
    c.receive_response(10, MemResponse { addr: 2 });
    c.receive_response(20, MemResponse { addr: 3 });
    c.receive_response(10, MemResponse { addr: 4 });
    let order: Vec<(i64, u64)> = c.waiting_responses.iter().map(|d| (d.cycle, d.response.addr)).collect();
    assert_eq!(order, vec![(10, 2), (10, 4), (20, 3), (30, 1)]);
}

#[test]
fn response_without_mshr_is_an_error() {
    let mut t = VecTraceReader::new(vec![], arith_filler());
    let mut c = Core::new(&mut t, 4, 8);
    c.receive_response(0, MemResponse { addr: 99 });
    let sim = Simulator::new();
    let mut out = Vec::new();
    assert_eq!(c.tick(&sim, &mut t, &mut out), Err(99));
}

#[test]
fn pure_arith_trace_retires_full_width() {
    let mut t = VecTraceReader::new(vec![], arith_filler());
    let mut m = machine(&mut t, 4, 192);
    assert_eq!(m.run(&mut t, 100), Ok(()));
    assert_eq!(m.sim.now(), 100);
    assert_eq!(m.core.insns_retired, 396);
    assert_eq!(m.core.rob_insns, 4);
}

#[test]
fn ten_reads_of_one_address_coalesce() {
    let mut records = Vec::new();
    for _ in 0..10 {
        records.push(rec(0, false, 0));
    }
    let mut t = VecTraceReader::new(records, arith_filler());
    let mut c = Core::new(&mut t, 10, 16);
    let sim = Simulator::new();
    let mut out = Vec::new();
    assert_eq!(c.tick(&sim, &mut t, &mut out), Ok(()));
    assert_eq!(out, vec![read(0)]);
    assert_eq!(c.mshrs.len(), 1);
    assert_eq!(c.mshrs[&0].rob_indices.len(), 10);
    assert!(c.mshrs[&0].issued);
    assert_eq!(c.rob_insns, 10);
}

#[test]
fn coalesced_reads_retire_together() {
    let mut records = Vec::new();
    for _ in 0..10 {
        records.push(rec(0, false, 0));
    }
    let mut t = VecTraceReader::new(records, rec(0, true, 4096));
    let mut m = machine(&mut t, 10, 10);
    assert_eq!(m.run(&mut t, 105), Ok(()));
    assert_eq!(m.core.insns_retired, 0);
    assert_eq!(m.dram.channels[0].waiting_reqs.len(), 0);
    assert_eq!(m.run(&mut t, 106), Ok(()));
    assert_eq!(m.core.insns_retired, 10);
    assert!(m.core.mshrs.is_empty());
}

#[test]
fn single_address_reads_issue_once_per_group() {
    let mut t = VecTraceReader::new(vec![], rec(0, false, 0));
    let mut m = machine(&mut t, 4, 8);
    assert_eq!(m.run(&mut t, 104), Ok(()));
    // one read went out for the whole ROB-full group
    assert_eq!(m.core.mshrs.len(), 1);
    assert_eq!(m.core.mshrs[&0].rob_indices.len(), 8);
    assert_eq!(m.core.insns_retired, 0);
    assert_eq!(m.run(&mut t, 105), Ok(()));
    // the response made every waiting entry ready in the same cycle
    assert!(m.core.mshrs.is_empty());
    assert_eq!(m.core.rob, vec![104i64; 8]);
    assert_eq!(m.run(&mut t, 106), Ok(()));
    assert_eq!(m.core.insns_retired, 4);
    assert_eq!(m.run(&mut t, 107), Ok(()));
    assert_eq!(m.core.insns_retired, 8);
}

#[test]
fn all_writes_never_open_mshrs() {
    let mut t = VecTraceReader::new(vec![], rec(0, true, 640));
    let mut m = machine(&mut t, 4, 16);
    assert_eq!(m.run(&mut t, 50), Ok(()));
    assert!(m.core.mshrs.is_empty());
    assert!(m.core.waiting_responses.is_empty());
    assert_eq!(m.core.insns_retired, 4 * 49);
}

#[test]
fn unique_reads_saturate_on_dram() {
    let mut records = Vec::new();
    for i in 0..10_000u64 {
        records.push(rec(0, false, i << 18));
    }
    let mut t = VecTraceReader::new(records, arith_filler());
    let mut m = machine(&mut t, 4, 4);
    assert_eq!(m.run(&mut t, 2000), Ok(()));
    let retired = m.core.insns_retired;
    assert!(retired > 0);
    assert!(retired < 2000);
    assert!(m.core.rob_insns <= 4);
}

#[test]
fn retire_stops_at_pending_read() {
    let records = vec![rec(2, false, 0)];
    let mut t = VecTraceReader::new(records, arith_filler());
    let mut c = Core::new(&mut t, 4, 8);
    let mut sim = Simulator::new();
    let mut out = Vec::new();
    assert_eq!(c.tick(&sim, &mut t, &mut out), Ok(()));
    assert_eq!(c.rob_insns, 4);
    sim.tick();
    assert_eq!(c.tick(&sim, &mut t, &mut out), Ok(()));
    // the two arithmetic entries retire; the read blocks the rest
    assert_eq!(c.insns_retired, 2);
    assert_eq!(c.rob[c.rob_head], nijikawa::cpu::CYCLE_INFINITY);
}

#[test]
fn classification_is_taken_before_opening_the_row() {
    let mut d = Dram::new(0, 0);
    let sim = Simulator::new();
    let mut out = Vec::new();
    d.submit(read(3u64 << 13));
    d.tick(&sim, &mut out);
    assert_eq!(out[0].cycle, (11 + 4 + 11) * 4);
    assert_eq!(d.channels[0].banks[0].open_row, 3);
    let _ = RequestConflictState::Hit;
}

#[test]
fn trace_lines_parse() {
    assert_eq!(parse_trace_line(b"12 R 4096"), Some(rec(12, false, 4096)));
    assert_eq!(parse_trace_line(b"0 W 18446744073709551615 77\n"), Some(rec(0, true, u64::MAX)));
    assert_eq!(parse_trace_line(b"  3\tR   64  "), Some(rec(3, false, 64)));
}

#[test]
fn bad_trace_lines_are_rejected() {
    assert_eq!(parse_trace_line(b""), None);
    assert_eq!(parse_trace_line(b"1 R"), None);
    assert_eq!(parse_trace_line(b"1 R 2 3 4"), None);
    assert_eq!(parse_trace_line(b"1 X 2"), None);
    assert_eq!(parse_trace_line(b"1 RW 2"), None);
    assert_eq!(parse_trace_line(b"-1 R 2"), None);
    assert_eq!(parse_trace_line(b"1 R 18446744073709551616"), None);
    assert_eq!(parse_trace_line(b"1 R 0x10"), None);
}

#[test]
fn custom_timing_scales_latency() {
    let mut d = Dram::with_timing(0, 1, 2, 1, 5, 3, 2, 10);
    let sim = Simulator::new();
    let mut out = Vec::new();
    d.submit(read(0));
    d.tick(&sim, &mut out);
    // miss: (t_rcd + t_ccd + t_cl) * clock_divider
    assert_eq!(out[0].cycle, (3 + 1 + 5) * 2);
    assert_eq!(d.channels[0].banks[0], Bank { open_row: 0, next_request: (3 + 1) * 2, next_conflict: 10 * 2 });
    assert_eq!(d.channels[0].next_request, 2);
}

#[test]
fn step_advances_the_clock_once() {
    let mut t = VecTraceReader::new(vec![], arith_filler());
    let mut m = machine(&mut t, 2, 4);
    assert_eq!(m.step(&mut t), Ok(()));
    assert_eq!(m.sim.now(), 1);
    assert_eq!(m.core.rob_insns, 2);
    assert_eq!(m.step(&mut t), Ok(()));
    assert_eq!(m.core.insns_retired, 2);
}
