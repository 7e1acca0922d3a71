//! The flow table: 5-tuple to flow id, with reverse-direction attachment.

use vstd::prelude::*;
use crate::tuple::{Duration, FiveTuple};

verus! {

/// Identifier of a flow, unique within one analyzer.
pub type FlowID = u64;

/// A bidirectional conversation.
#[derive(Clone, Copy, Debug, PartialEq, Eq, Structural)]
pub struct Flow {
    pub flow_id: FlowID,
    /// Canonical direction: the 5-tuple of the first packet seen
    pub five_tuple: FiveTuple,
    pub first_seen: Duration,
    pub last_seen: Duration,
}

impl Flow {
    pub fn new(five_tuple: &FiveTuple, secs: u64, micros: u32) -> (r: Flow)
        requires
            micros < 1_000_000,
        ensures
            r.flow_id == 0,
            r.five_tuple == *five_tuple,
            r.first_seen == (Duration { secs, micros }),
            r.last_seen == r.first_seen,
    {
        let ts = Duration::new(secs, micros);
        Flow { flow_id: 0, five_tuple: *five_tuple, first_seen: ts, last_seen: ts }
    }
}

/// Flows stored by id: the flow with id `i` is at index `i`, so ids are handed
/// out by a counter and never reused.
pub struct FlowMap {
    flows: Vec<Flow>,
}

impl View for FlowMap {
    type V = Seq<Flow>;

    closed spec fn view(&self) -> Seq<Flow> {
        self.flows@
    }
}

impl FlowMap {
    /// Each flow sits at the index of its id, and no two flows are the same
    /// conversation (in either direction).
    pub open spec fn wf(&self) -> bool {
        &&& forall|i: int| 0 <= i < self@.len() ==> (#[trigger] self@[i]).flow_id == i
        &&& forall|i: int, j: int|
            0 <= i < self@.len() && 0 <= j < self@.len() && i != j ==> !(
            #[trigger] self@[i]).five_tuple.same_flow(#[trigger] self@[j].five_tuple)
    }

    /// Some flow is the conversation of `t`.
    pub open spec fn has_flow(&self, t: FiveTuple) -> bool {
        exists|i: int| 0 <= i < self@.len() && (#[trigger] self@[i]).five_tuple.same_flow(t)
    }

    /// The id of the flow that `t` belongs to, if any.
    pub open spec fn lookup_spec(&self, t: FiveTuple) -> Option<FlowID> {
        if self.has_flow(t) {
            Some(
                (choose|i: int| 0 <= i < self@.len() && (#[trigger] self@[i]).five_tuple.same_flow(t))
                    as FlowID,
            )
        } else {
            None
        }
    }

    pub fn new() -> (r: FlowMap)
        ensures
            r.wf(),
            r@.len() == 0,
    {
        FlowMap { flows: Vec::new() }
    }

    pub fn len(&self) -> (r: usize)
        ensures
            r == self@.len(),
    {
        self.flows.len()
    }

    /// A flow with index `i` is the only one that matches its own tuples.
    pub proof fn lemma_lookup_index(&self, t: FiveTuple, i: int)
        requires
            self.wf(),
            0 <= i < self@.len(),
            self@[i].five_tuple.same_flow(t),
        ensures
            self.lookup_spec(t) == Some(i as FlowID),
    {
        let j = choose|j: int| 0 <= j < self@.len() && (#[trigger] self@[j]).five_tuple.same_flow(t);
        if j != i {
            let a = self@[i].five_tuple;
            let b = self@[j].five_tuple;
            assert(a.same_flow(b));
        }
    }

    pub fn lookup_flow(&self, t: &FiveTuple) -> (r: Option<FlowID>)
        requires
            self.wf(),
        ensures
            r == self.lookup_spec(*t),
    {
        let mut i: usize = 0;
        while i < self.flows.len()
            invariant
                self.wf(),
                0 <= i <= self@.len(),
                forall|k: int| 0 <= k < i ==> !(#[trigger] self@[k]).five_tuple.same_flow(*t),
            decreases self@.len() - i,
        {
            let f = &self.flows[i];
            if f.five_tuple == *t || f.five_tuple.get_reverse() == *t {
                proof {
                    self.lemma_lookup_index(*t, i as int);
                }
                return Some(i as FlowID);
            }
            i = i + 1;
        }
        None
    }

    /// Insert `flow` for tuple `t`. Where `t` or its reverse already has a
    /// flow, `t` attaches to it and its id is returned; otherwise the flow is
    /// stored under a fresh id, with `t` as its canonical direction.
    pub fn insert_flow(&mut self, t: FiveTuple, flow: Flow) -> (r: FlowID)
        requires
            old(self).wf(),
            old(self)@.len() < usize::MAX,
        ensures
            final(self).wf(),
            old(self).has_flow(t) ==> final(self)@ == old(self)@ && Some(r) == old(self).lookup_spec(t),
            !old(self).has_flow(t) ==> {
                &&& r == old(self)@.len()
                &&& final(self)@ == old(self)@.push(
                    Flow { flow_id: r, five_tuple: t, ..flow },
                )
                &&& forall|i: int| 0 <= i < old(self)@.len() ==> (#[trigger] old(self)@[i]).flow_id != r
            },
            final(self).lookup_spec(t) == Some(r),
    {
        match self.lookup_flow(&t) {
            Some(id) => id,
            None => {
                let id = self.flows.len() as FlowID;
                let f = Flow { flow_id: id, five_tuple: t, ..flow };
                self.flows.push(f);
                proof {
                    assert forall|i: int, j: int|
                        0 <= i < self@.len() && 0 <= j < self@.len() && i != j implies !(
                        #[trigger] self@[i]).five_tuple.same_flow(#[trigger] self@[j].five_tuple) by {
                        if i == id as int {
                            assert(!old(self)@[j].five_tuple.same_flow(t));
                            lemma_same_flow_symmetric(old(self)@[j].five_tuple, t);
                        } else if j == id as int {
                            assert(!old(self)@[i].five_tuple.same_flow(t));
                        }
                    }
                    self.lemma_lookup_index(t, id as int);
                }
                id
            }
        }
    }

    pub fn get_flow(&self, id: FlowID) -> (r: Option<Flow>)
        requires
            self.wf(),
        ensures
            id < self@.len() ==> r == Some(self@[id as int]),
            id >= self@.len() ==> r.is_none(),
    {
        if id < self.flows.len() as u64 {
            Some(self.flows[id as usize])
        } else {
            None
        }
    }

    /// Record activity on flow `id` at time `now`; `last_seen` never goes back.
    pub fn touch_flow(&mut self, id: FlowID, now: Duration)
        requires
            old(self).wf(),
            id < old(self)@.len(),
        ensures
            final(self).wf(),
            final(self)@.len() == old(self)@.len(),
            forall|i: int| 0 <= i < old(self)@.len() && i != id ==> final(self)@[i] == old(self)@[i],
            final(self)@[id as int].flow_id == id,
            final(self)@[id as int].five_tuple == old(self)@[id as int].five_tuple,
            final(self)@[id as int].first_seen == old(self)@[id as int].first_seen,
            final(self)@[id as int].last_seen.total_micros() >= old(self)@[id as int].last_seen.total_micros(),
            final(self)@[id as int].last_seen.total_micros() >= now.total_micros(),
            final(self)@[id as int].last_seen == now || final(self)@[id as int].last_seen == old(self)@[id as int].last_seen,
    {
        let n = self.flows.len();
        assert(id < n);
        let idx = id as usize;
        let mut f = self.flows[idx];
        f.last_seen = f.last_seen.later(&now);
        self.flows.set(idx, f);
        proof {
            assert forall|i: int, j: int|
                0 <= i < self@.len() && 0 <= j < self@.len() && i != j implies !(
                #[trigger] self@[i]).five_tuple.same_flow(#[trigger] self@[j].five_tuple) by {
                assert(self@[i].five_tuple == old(self)@[i].five_tuple);
                assert(self@[j].five_tuple == old(self)@[j].five_tuple);
            }
        }
    }

    /// All flows, in order of creation.
    pub fn values(&self) -> (r: &Vec<Flow>)
        ensures
            r@ == self@,
    {
        &self.flows
    }

    pub fn clear(&mut self)
        ensures
            final(self).wf(),
            final(self)@.len() == 0,
    {
        self.flows.clear();
    }
}

pub proof fn lemma_same_flow_symmetric(a: FiveTuple, b: FiveTuple)
    ensures
        a.same_flow(b) == b.same_flow(a),
{
}

/// Every flow is found again from its canonical tuple and from the reverse of
/// it.
pub proof fn lemma_flow_identity(m: &FlowMap, i: int)
    requires
        m.wf(),
        0 <= i < m@.len(),
    ensures
        m.lookup_spec(m@[i].five_tuple) == Some(m@[i].flow_id),
        m.lookup_spec(m@[i].five_tuple.reverse()) == Some(m@[i].flow_id),
{
    m.lemma_lookup_index(m@[i].five_tuple, i);
    m.lemma_lookup_index(m@[i].five_tuple.reverse(), i);
}

/// No two flows of a table share an id.
pub proof fn lemma_flow_ids_unique(m: &FlowMap, i: int, j: int)
    requires
        m.wf(),
        0 <= i < m@.len(),
        0 <= j < m@.len(),
        i != j,
    ensures
        m@[i].flow_id != m@[j].flow_id,
{
}

} // verus!
