//! The request/response contract between the core and the memory.
use vstd::prelude::*;

verus! {

#[derive(Clone, Copy, Debug, PartialEq, Eq, Structural)]
pub enum MemRequestType {
    Read,
    Write,
}

/// A request to memory. Reads expect a response; writes are fire-and-forget.
#[derive(Clone, Copy, Debug, PartialEq, Eq, Structural)]
pub struct MemRequest {
    pub addr: u64,
    pub req_type: MemRequestType,
}

/// The answer to a read; the address identifies the read it answers.
#[derive(Clone, Copy, Debug, PartialEq, Eq, Structural)]
pub struct MemResponse {
    pub addr: u64,
}

/// A response together with the cycle at which it becomes visible.
#[derive(Clone, Copy, Debug, PartialEq, Eq, Structural)]
pub struct Delivery {
    pub cycle: i64,
    pub response: MemResponse,
}

/// Anything that accepts memory requests.
pub trait MemRequestReceiver {
    spec fn ready(&self) -> bool;

    /// `next` is `self` after it took in `request`.
    spec fn accepted(&self, next: &Self, request: MemRequest) -> bool;

    fn receive_request(&mut self, request: MemRequest)
        requires
            old(self).ready(),
        ensures
            final(self).ready(),
            old(self).accepted(final(self), request),
    ;
}

/// Anything that accepts dated memory responses.
pub trait MemResponseReceiver {
    spec fn ready(&self) -> bool;

    /// `next` is `self` after it took in `response`, due at `cycle`.
    spec fn received(&self, next: &Self, cycle: i64, response: MemResponse) -> bool;

    fn receive_response(&mut self, cycle: i64, response: MemResponse)
        requires
            old(self).ready(),
        ensures
            final(self).ready(),
            old(self).received(final(self), cycle, response),
    ;
}

/// What answering `req` at `cycle` hands back: a delivery for a read, nothing for a write.
pub open spec fn response_of(req: MemRequest, cycle: i64) -> Option<Delivery> {
    match req.req_type {
        MemRequestType::Read => Some(Delivery { cycle, response: MemResponse { addr: req.addr } }),
        MemRequestType::Write => None,
    }
}

impl MemRequest {
    /// Answers the request at `cycle`: only a read has someone waiting for the answer.
    pub fn respond(&self, cycle: i64) -> (r: Option<Delivery>)
        ensures
            r == response_of(*self, cycle),
    {
        match self.req_type {
            MemRequestType::Read => Some(Delivery { cycle, response: MemResponse { addr: self.addr } }),
            MemRequestType::Write => None,
        }
    }
}

} // verus!
