//! Requests to the flush pipeline.

use vstd::prelude::*;
use crate::memcache::{MemCache, MemCacheView};

verus! {

/// A batch of caches staged for being written to files, each with the
/// id of its family.
#[derive(Debug)]
pub struct FlushReq {
    pub mems: Vec<(u32, MemCache)>,
    pub wait_req: i32,
}

/// A flush request as contracts speak of it.
pub struct FlushReqView {
    pub mems: Seq<(u32, MemCacheView)>,
    pub wait_req: i32,
}

impl FlushReqView {
    /// Number of samples in the caches of the request.
    pub open spec fn cell_count(self) -> nat {
        count_mems(self.mems)
    }
}

/// Number of samples in the caches of `mems`.
pub open spec fn count_mems(mems: Seq<(u32, MemCacheView)>) -> nat
    decreases mems.len(),
{
    if mems.len() == 0 {
        0
    } else {
        count_mems(mems.drop_last()) + mems.last().1.cell_count()
    }
}

/// Number of samples in the caches of all of `reqs`.
pub open spec fn count_flushed(reqs: Seq<FlushReqView>) -> nat
    decreases reqs.len(),
{
    if reqs.len() == 0 {
        0
    } else {
        count_flushed(reqs.drop_last()) + reqs.last().cell_count()
    }
}

impl View for FlushReq {
    type V = FlushReqView;

    open spec fn view(&self) -> FlushReqView {
        FlushReqView {
            mems: Seq::new(self.mems@.len(), |i: int| (self.mems@[i].0, self.mems@[i].1@)),
            wait_req: self.wait_req,
        }
    }
}

/// The requests of `reqs` as contracts speak of them.
pub open spec fn flush_req_views(reqs: Seq<FlushReq>) -> Seq<FlushReqView> {
    reqs.map_values(|r: FlushReq| r@)
}

/// Puts `reqs` at the end of the flush queue, in their order, and
/// returns how many times the sink is to be woken: once for each request
/// queued.
pub fn enqueue(queue: &mut Vec<FlushReq>, reqs: Vec<FlushReq>) -> (wakes: usize)
    ensures
        final(queue)@ == old(queue)@ + reqs@,
        flush_req_views(final(queue)@) == flush_req_views(old(queue)@) + flush_req_views(reqs@),
        wakes == reqs@.len(),
{
    let wakes = reqs.len();
    let ghost added = reqs@;
    let mut rest = reqs;
    queue.append(&mut rest);
    assert(flush_req_views(queue@) =~= flush_req_views(old(queue)@) + flush_req_views(added));
    wakes
}

} // verus!
