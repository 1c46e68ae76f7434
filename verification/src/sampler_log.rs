//! A noise sampler that keeps the record of what it was asked and what it answered.
//!
//! The sampler itself is a private field, so code outside this module reaches it only
//! through `ask`, and the record holds every request made of it, in order.
use crate::surface::{SamplerReply, SamplerRequest};
use vstd::prelude::*;

verus! {

/// A sampler and the requests it was asked, each with its answer, in order.
pub struct SamplerLog<F> {
    sampler: F,
    entries: Ghost<Seq<(SamplerRequest, SamplerReply)>>,
}

/// The requests of `entries`, in order.
pub open spec fn requests_of(entries: Seq<(SamplerRequest, SamplerReply)>) -> Seq<SamplerRequest> {
    entries.map_values(|e: (SamplerRequest, SamplerReply)| e.0)
}

/// Recording one more entry adds its request to the requests recorded.
pub(crate) proof fn lemma_requests_push(
    entries: Seq<(SamplerRequest, SamplerReply)>,
    e: (SamplerRequest, SamplerReply),
)
    ensures
        requests_of(entries.push(e)) == requests_of(entries).push(e.0),
{
    assert(requests_of(entries.push(e)) =~= requests_of(entries).push(e.0));
}

impl<F: Fn(SamplerRequest) -> SamplerReply> SamplerLog<F> {
    /// The sampler that answers.
    pub closed spec fn sampler(self) -> F {
        self.sampler
    }

    /// Every request asked so far, with its answer, in order.
    pub closed spec fn entries(self) -> Seq<(SamplerRequest, SamplerReply)> {
        self.entries@
    }

    /// `sampler`, asked nothing yet.
    pub fn new(sampler: F) -> (log: Self)
        ensures
            log.sampler() == sampler,
            log.entries() == Seq::<(SamplerRequest, SamplerReply)>::empty(),
    {
        SamplerLog { sampler, entries: Ghost(Seq::empty()) }
    }

    /// Asks the sampler `request` and records it with the answer.
    pub fn ask(&mut self, request: SamplerRequest) -> (reply: SamplerReply)
        requires
            old(self).sampler().requires((request,)),
        ensures
            final(self).sampler() == old(self).sampler(),
            final(self).entries() == old(self).entries().push((request, reply)),
            call_ensures(old(self).sampler(), (request,), reply),
    {
        let reply = (self.sampler)(request);
        self.entries = Ghost(self.entries@.push((request, reply)));
        reply
    }
}

} // verus!
