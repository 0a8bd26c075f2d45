use vstd::prelude::*;
use crate::operation::{InternalResult, ObservedErrorOutput};
use crate::timeline::NodeId;

verus! {

/// A grounding time as resolved for one candidate, tagged with the candidate's
/// position so that responses arriving in any order can be paired back.
#[derive(Clone, Copy, Debug, PartialEq, Eq, Structural)]
pub struct MarkedValue {
    pub marker: usize,
    pub value: i64,
}

/// The latest of the resolved times strictly before `t`; on a tie, the one that
/// arrived last.
pub open spec fn latest_before(rs: Seq<MarkedValue>, t: i64) -> Option<MarkedValue>
    decreases rs.len(),
{
    if rs.len() == 0 {
        None
    } else {
        let best = latest_before(rs.drop_last(), t);
        let x = rs.last();
        if x.value < t && (best.is_none() || x.value >= best.unwrap().value) {
            Some(x)
        } else {
            best
        }
    }
}

/// Whether every response is a resolved time.
pub open spec fn all_resolved(rs: Seq<InternalResult<MarkedValue>>) -> bool {
    forall|i: int| 0 <= i < rs.len() ==> rs[i] is Ok
}

/// The resolved times of a list of responses that all resolved.
pub open spec fn resolved_values(rs: Seq<InternalResult<MarkedValue>>) -> Seq<MarkedValue> {
    rs.map_values(|r: InternalResult<MarkedValue>| r->Ok_0)
}

/// The upstream a read at `t` is bound to: the latest ungrounded candidate
/// resolved strictly before `t`, unless the grounded fallback is later.
pub open spec fn decision(
    t: i64,
    grounded: Option<(i64, NodeId)>,
    candidates: Seq<NodeId>,
    values: Seq<MarkedValue>,
) -> Option<(i64, NodeId)> {
    match (latest_before(values, t), grounded) {
        (Some(ug), Some(gr)) => if gr.0 > ug.value {
            Some(gr)
        } else {
            Some((ug.value, candidates[ug.marker as int]))
        },
        (Some(ug), None) => Some((ug.value, candidates[ug.marker as int])),
        (None, Some(gr)) => Some(gr),
        (None, None) => None,
    }
}

/// Every marker names a candidate.
pub open spec fn markers_valid(rs: Seq<InternalResult<MarkedValue>>, n: int) -> bool {
    forall|i: int| 0 <= i < rs.len() && rs[i] is Ok ==> (#[trigger] rs[i])->Ok_0.marker < n
}

/// Chooses the upstream of a read at `t` from the grounded fallback and the
/// resolved times of the ungrounded candidates. Fails where any candidate's time
/// failed to resolve; gives `None` where nothing precedes `t`.
pub fn choose_upstream(
    t: i64,
    grounded: Option<(i64, NodeId)>,
    candidates: &Vec<NodeId>,
    responses: &Vec<InternalResult<MarkedValue>>,
) -> (r: InternalResult<Option<(i64, NodeId)>>)
    requires
        markers_valid(responses@, candidates@.len() as int),
    ensures
        r is Err <==> !all_resolved(responses@),
        r is Ok ==> r->Ok_0 == decision(t, grounded, candidates@, resolved_values(responses@)),
{
    let mut best: Option<MarkedValue> = None;
    let mut i: usize = 0;
    while i < responses.len()
        invariant
            i <= responses@.len(),
            markers_valid(responses@, candidates@.len() as int),
            all_resolved(responses@.take(i as int)),
            best == latest_before(resolved_values(responses@.take(i as int)), t),
            best.is_some() ==> best.unwrap().marker < candidates@.len(),
        decreases responses@.len() - i,
    {
        let ghost prefix = responses@.take(i + 1);
        assert(prefix.drop_last() == responses@.take(i as int));
        assert(resolved_values(prefix).drop_last() =~= resolved_values(responses@.take(i as int)));
        match responses[i] {
            Err(_) => {
                assert(!all_resolved(responses@)) by {
                    assert(responses@[i as int] is Err);
                }
                return Err(ObservedErrorOutput);
            },
            Ok(x) => {
                assert(resolved_values(prefix).last() == x);
                if x.value < t && (best.is_none() || x.value >= best.unwrap().value) {
                    best = Some(x);
                }
            },
        }
        i = i + 1;
    }
    assert(responses@.take(i as int) == responses@);
    match (best, grounded) {
        (Some(ug), Some(gr)) => if gr.0 > ug.value {
            Ok(Some(gr))
        } else {
            Ok(Some((ug.value, candidates[ug.marker])))
        },
        (Some(ug), None) => Ok(Some((ug.value, candidates[ug.marker]))),
        (None, Some(gr)) => Ok(Some(gr)),
        (None, None) => Ok(None),
    }
}

/// Chooses, for one reader, among ungrounded writers that may precede it and a
/// grounded fallback, once the writers' times are known.
#[derive(Debug)]
pub struct UngroundedUpstreamResolver {
    time: i64,
    grounded_upstream: Option<(i64, NodeId)>,
    ungrounded_upstreams: Vec<NodeId>,
    grounding_responses: Vec<InternalResult<MarkedValue>>,
    cached_decision: Option<InternalResult<Option<(i64, NodeId)>>>,
}

impl UngroundedUpstreamResolver {
    pub closed spec fn time(&self) -> i64 {
        self.time
    }

    pub closed spec fn grounded_upstream(&self) -> Option<(i64, NodeId)> {
        self.grounded_upstream
    }

    pub closed spec fn candidates(&self) -> Seq<NodeId> {
        self.ungrounded_upstreams@
    }

    pub closed spec fn responses(&self) -> Seq<InternalResult<MarkedValue>> {
        self.grounding_responses@
    }

    pub closed spec fn decided(&self) -> Option<InternalResult<Option<(i64, NodeId)>>> {
        self.cached_decision
    }

    /// Responses so far are fewer than the candidates, or the decision was taken
    /// on them; every marker names a candidate.
    pub closed spec fn wf(&self) -> bool {
        &&& markers_valid(self.grounding_responses@, self.ungrounded_upstreams@.len() as int)
        &&& self.grounding_responses@.len() <= self.ungrounded_upstreams@.len()
    }

    pub fn new(time: i64, grounded: Option<(i64, NodeId)>, ungrounded: Vec<NodeId>) -> (r: Self)
        ensures
            r.wf(),
            r.time() == time,
            r.grounded_upstream() == grounded,
            r.candidates() == ungrounded@,
            r.responses().len() == 0,
            r.decided().is_none(),
    {
        UngroundedUpstreamResolver {
            time,
            grounded_upstream: grounded,
            ungrounded_upstreams: ungrounded,
            grounding_responses: Vec::new(),
            cached_decision: None,
        }
    }

    /// The decision taken, if all candidates have answered.
    pub fn cached(&self) -> (r: Option<InternalResult<Option<(i64, NodeId)>>>)
        ensures
            r == self.decided(),
    {
        self.cached_decision
    }

    /// Records one candidate's grounding response. Once every candidate has
    /// answered, takes the decision, caches it and returns it.
    pub fn respond(&mut self, value: InternalResult<MarkedValue>) -> (r: Option<InternalResult<Option<(i64, NodeId)>>>)
        requires
            old(self).wf(),
            old(self).responses().len() < old(self).candidates().len(),
            value is Ok ==> value->Ok_0.marker < old(self).candidates().len(),
        ensures
            final(self).wf(),
            final(self).time() == old(self).time(),
            final(self).grounded_upstream() == old(self).grounded_upstream(),
            final(self).candidates() == old(self).candidates(),
            ({
                let rs = old(self).responses().push(value);
                let complete = rs.len() == old(self).candidates().len();
                &&& !complete ==> r.is_none() && final(self).responses() == rs
                    && final(self).decided() == old(self).decided()
                &&& complete ==> final(self).responses().len() == 0
                    && r.is_some() && final(self).decided() == r
                    && (r.unwrap() is Err <==> !all_resolved(rs))
                    && (r.unwrap() is Ok ==> r.unwrap()->Ok_0 == decision(
                        old(self).time(),
                        old(self).grounded_upstream(),
                        old(self).candidates(),
                        resolved_values(rs),
                    ))
            }),
    {
        self.grounding_responses.push(value);
        if self.grounding_responses.len() == self.ungrounded_upstreams.len() {
            let d = choose_upstream(
                self.time,
                self.grounded_upstream,
                &self.ungrounded_upstreams,
                &self.grounding_responses,
            );
            self.grounding_responses = Vec::new();
            self.cached_decision = Some(d);
            Some(d)
        } else {
            None
        }
    }

    /// Forgets the decision, so that the next read asks the candidates again.
    pub fn clear_cache(&mut self)
        requires
            old(self).wf(),
        ensures
            final(self).wf(),
            final(self).decided().is_none(),
            final(self).time() == old(self).time(),
            final(self).grounded_upstream() == old(self).grounded_upstream(),
            final(self).candidates() == old(self).candidates(),
            final(self).responses() == old(self).responses(),
    {
        self.cached_decision = None;
    }
}

} // verus!
