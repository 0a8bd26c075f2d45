use vstd::prelude::*;
use crate::activity::ActivityId;
use crate::body::Term;
use crate::exec::ErrorAccumulator;
use crate::graph::{
    eval, eval_node, grounding_of, fresh_memo, new_memo, place_writes, unplace_writes, EvalRun, EvalState, Fault, Graph, Node,
    NodeView, NodeWrite, ResourceTimeline,
};
use crate::hashing::{bincode_of, chain, initial_value_hash, widen};
use crate::history::History;
use crate::operation::OpError;
use crate::timeline::{range_writers, EntryView, MaybeGrounded, NodeId, Timeline};

verus! {

/// Why a plan refused an edit or a query.
#[derive(Debug)]
pub enum PlanError {
    /// The plan has no resource with this id.
    UnknownResource(u64),
    /// The plan has no activity with this id.
    UnknownActivity(ActivityId),
    /// An operation would happen at or before the initial conditions.
    BeforeInitialConditions(i64),
    /// A time left the `i64` range.
    TimeOverflow,
    /// Every activity id has been given out.
    TooManyActivities,
    /// An operation's window ends before it begins.
    EmptyWindow,
    /// No writer precedes the requested time.
    NoUpstream,
    /// The value leads to something the plan does not hold.
    Unresolved,
    /// Operation bodies failed; each failure appears once.
    Failed(Vec<OpError>),
}

/// The value each resource holds when a plan begins.
pub struct InitialConditions {
    values: Vec<(u64, u64)>,
}

/// No resource appears twice.
pub open spec fn ids_unique(s: Seq<(u64, u64)>) -> bool {
    forall|i: int, j: int| 0 <= i < j < s.len() ==> s[i].0 != s[j].0
}

impl View for InitialConditions {
    type V = Seq<(u64, u64)>;

    closed spec fn view(&self) -> Seq<(u64, u64)> {
        self.values@
    }
}

impl InitialConditions {
    pub fn new() -> (r: InitialConditions)
        ensures
            r@.len() == 0,
    {
        InitialConditions { values: Vec::new() }
    }

    /// Sets the initial value of `resource`, replacing an earlier one.
    pub fn insert(self, resource: u64, value: u64) -> (r: InitialConditions)
        requires
            ids_unique(self@),
        ensures
            ids_unique(r@),
            (exists|i: int| 0 <= i < self@.len() && self@[i].0 == resource) ==> exists|i: int|
                0 <= i < self@.len() && self@[i].0 == resource && r@ == self@.update(i, (resource, value)),
            !(exists|i: int| 0 <= i < self@.len() && self@[i].0 == resource) ==> r@ == self@.push((resource, value)),
    {
        let mut values = self.values;
        let mut i: usize = 0;
        while i < values.len()
            invariant
                i <= values@.len(),
                values@ == self@,
                ids_unique(self@),
                forall|j: int| 0 <= j < i ==> values@[j].0 != resource,
            decreases values@.len() - i,
        {
            if values[i].0 == resource {
                values.set(i, (resource, value));
                assert(forall|j: int| 0 <= j < values@.len() ==> #[trigger] values@[j].0 == self@[j].0);
                return InitialConditions { values };
            }
            i = i + 1;
        }
        values.push((resource, value));
        InitialConditions { values }
    }

    /// Takes out the initial value of `resource`, if it has one.
    pub fn take(&mut self, resource: u64) -> (r: Option<u64>)
        requires
            ids_unique(old(self)@),
        ensures
            ids_unique(final(self)@),
            r.is_none() <==> forall|i: int| 0 <= i < old(self)@.len() ==> old(self)@[i].0 != resource,
            r.is_none() ==> final(self)@ == old(self)@,
            r.is_some() ==> exists|i: int|
                0 <= i < old(self)@.len() && old(self)@[i] == (resource, r.unwrap()) && final(self)@ == old(self)@.remove(i),
    {
        let mut i: usize = 0;
        while i < self.values.len()
            invariant
                i <= self.values@.len(),
                self.values@ == old(self)@,
                ids_unique(old(self)@),
                forall|j: int| 0 <= j < i ==> self.values@[j].0 != resource,
            decreases self.values@.len() - i,
        {
            if self.values[i].0 == resource {
                let ghost before = self.values@;
                let (_, v) = self.values.remove(i);
                proof {
                    assert forall|a: int, b: int| 0 <= a < b < self.values@.len() implies self.values@[a].0
                        != self.values@[b].0 by {
                        let a2 = if a < i { a } else { a + 1 };
                        let b2 = if b < i { b } else { b + 1 };
                        assert(self.values@[a] == before[a2] && self.values@[b] == before[b2]);
                    }
                }
                return Some(v);
            }
            i = i + 1;
        }
        None
    }
}

/// A value an operation writes: the resource, and the terms whose sum it writes.
#[derive(Debug)]
pub struct OperationWrite {
    pub resource: u64,
    pub terms: Vec<Term>,
}

/// When an operation happens, relative to its activity's start.
#[derive(Clone, Copy, Debug, PartialEq, Eq, Structural)]
pub enum OpTime {
    /// At a fixed offset.
    At(i64),
    /// Somewhere from offset `min` to offset `max`: at `min` plus the delay that
    /// resource `delay` holds just before `min`.
    Between { min: i64, max: i64, delay: u64 },
}

/// An operation of an activity: when it happens relative to the activity's start,
/// the identity of its body, what it reads and what it writes.
#[derive(Debug)]
pub struct Operation {
    pub time: OpTime,
    pub kind: u64,
    pub reads: Vec<u64>,
    pub writes: Vec<OperationWrite>,
}

/// A unit of planning: a fixed set of operations.
#[derive(Debug)]
pub struct Activity {
    pub operations: Vec<Operation>,
}

/// The position of resource `id` among `ids`, or -1.
pub open spec fn index_of(ids: Seq<u64>, id: u64) -> int
    decreases ids.len(),
{
    if ids.len() == 0 {
        -1
    } else if index_of(ids.drop_last(), id) >= 0 {
        index_of(ids.drop_last(), id)
    } else if ids.last() == id {
        ids.len() - 1
    } else {
        -1
    }
}

/// The first resource among `rs` that is not in `ids`.
pub open spec fn first_unknown(ids: Seq<u64>, rs: Seq<u64>) -> Option<u64>
    decreases rs.len(),
{
    if rs.len() == 0 {
        None
    } else {
        match first_unknown(ids, rs.drop_last()) {
            Some(u) => Some(u),
            None => if index_of(ids, rs.last()) < 0 {
                Some(rs.last())
            } else {
                None
            },
        }
    }
}

/// The resources an operation writes.
pub open spec fn written_ids(op: Operation) -> Seq<u64> {
    op.writes@.map_values(|w: OperationWrite| w.resource)
}

/// Why operation `op` of an activity started at `time` cannot go in a plan that
/// begins at `start` over resources `ids`, checked in that order: its times leave
/// the range, its (earliest) time falls at or before `start`, its window is
/// empty, or it names an unknown resource.
pub open spec fn op_problem(ids: Seq<u64>, start: i64, time: i64, op: Operation) -> Option<PlanError> {
    let t = match op.time {
        OpTime::At(o) => time + o,
        OpTime::Between { min, .. } => time + min,
    };
    let late = match op.time {
        OpTime::At(o) => time + o,
        OpTime::Between { max, .. } => time + max,
    };
    if !(i64::MIN <= t <= i64::MAX) || !(i64::MIN <= late <= i64::MAX) {
        Some(PlanError::TimeOverflow)
    } else if t <= start {
        Some(PlanError::BeforeInitialConditions(t as i64))
    } else if op.time is Between && late <= t {
        Some(PlanError::EmptyWindow)
    } else if op.time matches OpTime::Between { delay, .. } && index_of(ids, delay) < 0 {
        Some(PlanError::UnknownResource(op.time->delay))
    } else {
        match first_unknown(ids, op.reads@) {
            Some(u) => Some(PlanError::UnknownResource(u)),
            None => match first_unknown(ids, written_ids(op)) {
                Some(u) => Some(PlanError::UnknownResource(u)),
                None => None,
            },
        }
    }
}

/// The problem of the first of the first `n` operations that has one.
pub open spec fn ops_problem(ids: Seq<u64>, start: i64, time: i64, ops: Seq<Operation>, n: int) -> Option<PlanError>
    decreases n,
{
    if n <= 0 || n > ops.len() {
        None
    } else {
        match ops_problem(ids, start, time, ops, n - 1) {
            Some(p) => Some(p),
            None => op_problem(ids, start, time, ops[n - 1]),
        }
    }
}

/// The state a query over `n` nodes starts from: the plan's history and run
/// counts, no failures recorded yet, and nothing computed yet.
pub open spec fn query_start(hist: Map<(u64, u64), u64>, runs: Seq<u64>, n: nat) -> EvalState {
    EvalState { hist, errors: Seq::empty(), runs, memo: fresh_memo(n) }
}

/// The values of the first `i` writers of a view of resource `res`, each
/// evaluated at its own time (for an ungrounded writer, the time its grounding
/// gives), in order; the first that fails ends the view.
pub open spec fn view_fold(
    g: crate::graph::GraphView,
    st: EvalState,
    res: int,
    ws: Seq<MaybeGrounded>,
    i: int,
) -> (EvalState, Result<Seq<(i64, u64)>, Fault>)
    decreases i,
{
    if i <= 0 || i > ws.len() {
        (st, Ok(Seq::empty()))
    } else {
        let (st1, prev) = view_fold(g, st, res, ws, i - 1);
        match prev {
            Err(f) => (st1, Err(f)),
            Ok(vs) => match ws[i - 1] {
                MaybeGrounded::Grounded(t, n) => {
                    let (st2, o) = eval_node(g, st1, n as int, t, res);
                    match o {
                        Err(f) => (st2, Err(f)),
                        Ok(p) => (st2, Ok(vs.push((t, p.1)))),
                    }
                },
                MaybeGrounded::Ungrounded(n) => {
                    let (st2, o) = grounding_of(g, st1, n as int, i64::MAX);
                    match o {
                        Err(f) => (st2, Err(f)),
                        Ok(time) => {
                            let (st3, o2) = eval_node(g, st2, n as int, time, res);
                            match o2 {
                                Err(f) => (st3, Err(f)),
                                Ok(p) => (st3, Ok(vs.push((time, p.1)))),
                            }
                        },
                    }
                },
            },
        }
    }
}

/// Once a writer of a view fails, the view fails the same way.
proof fn lemma_view_fails(g: crate::graph::GraphView, st: EvalState, res: int, ws: Seq<MaybeGrounded>, i: int, j: int)
    requires
        0 < i <= j <= ws.len(),
        view_fold(g, st, res, ws, i).1 is Err,
    ensures
        view_fold(g, st, res, ws, j) == view_fold(g, st, res, ws, i),
    decreases j - i,
{
    if j > i {
        lemma_view_fails(g, st, res, ws, i, j - 1);
    }
}

/// The error a query reports for an evaluation that found no value without a
/// body failing.
pub open spec fn fault_error(f: Fault) -> PlanError {
    match f {
        Fault::NoWriter => PlanError::NoUpstream,
        _ => PlanError::Unresolved,
    }
}

/// The sum of the run counts of the given nodes; a node the plan lacks counts
/// nothing.
pub open spec fn runs_total(runs: Seq<u64>, nodes: Seq<NodeId>) -> int
    decreases nodes.len(),
{
    if nodes.len() == 0 {
        0
    } else {
        runs_total(runs, nodes.drop_last()) + if nodes.last() < runs.len() {
            runs[nodes.last() as int] as int
        } else {
            0
        }
    }
}

/// The node that operation `op` of an activity started at `time` becomes in a
/// plan over resources `ids`.
pub open spec fn op_node(ids: Seq<u64>, time: i64, op: Operation) -> NodeView {
    NodeView {
        time: match op.time {
            OpTime::At(o) => (time + o) as i64,
            OpTime::Between { min, .. } => (time + min) as i64,
        },
        kind: op.kind,
        reads: op.reads@.map_values(|r: u64| index_of(ids, r) as usize),
        writes: op.writes@.map_values(|w: OperationWrite| (index_of(ids, w.resource) as usize, w.terms@)),
        initial: None,
        seed_hash: 0,
        window: match op.time {
            OpTime::At(_) => None,
            OpTime::Between { min, max, delay } => Some(
                ((time + min) as i64, (time + max) as i64, index_of(ids, delay) as usize),
            ),
        },
    }
}

/// The nodes an activity's operations become.
pub open spec fn activity_nodes_of(ids: Seq<u64>, time: i64, ops: Seq<Operation>) -> Seq<NodeView> {
    ops.map_values(|op: Operation| op_node(ids, time, op))
}

/// The timelines after the first `i` of `nodes`, numbered from `base`, are
/// placed in order.
pub open spec fn place_nodes(tls: Seq<Seq<EntryView>>, nodes: Seq<NodeView>, base: int, i: int) -> Seq<Seq<EntryView>>
    decreases i,
{
    if i <= 0 || i > nodes.len() {
        tls
    } else {
        let n = nodes[i - 1];
        place_writes(place_nodes(tls, nodes, base, i - 1), n, (base + i - 1) as usize, n.writes.len() as int)
    }
}

/// The timelines after the first `i` of the nodes `which` are taken off, in
/// order.
pub open spec fn unplace_nodes(tls: Seq<Seq<EntryView>>, nodes: Seq<NodeView>, which: Seq<NodeId>, i: int) -> Seq<
    Seq<EntryView>,
>
    decreases i,
{
    if i <= 0 || i > which.len() {
        tls
    } else {
        let prev = unplace_nodes(tls, nodes, which, i - 1);
        let n = which[i - 1] as int;
        if n < nodes.len() {
            unplace_writes(prev, nodes[n], nodes[n].writes.len() as int)
        } else {
            prev
        }
    }
}

/// The node that gives resource `i` its initial value `v` at `time`.
pub open spec fn initial_node(i: int, time: i64, v: u64) -> NodeView {
    NodeView {
        time,
        kind: 0,
        reads: Seq::empty(),
        writes: seq![(i as usize, seq![Term::Const(v)])],
        initial: Some(v),
        seed_hash: chain(0, widen(bincode_of(v))),
        window: None,
    }
}

/// The timeline of resource `i` in a new plan: its initial node at `time` alone.
pub open spec fn initial_timeline(i: int, time: i64) -> Seq<EntryView> {
    seq![EntryView { time, grounded: Some(i as usize), ungrounded: Seq::empty() }]
}

/// The activities of a plan, with the nodes each decomposed into.
#[derive(Debug)]
pub struct ActivityRecord {
    pub id: ActivityId,
    pub nodes: Vec<NodeId>,
}

/// A session: the history that plans opened in it share.
pub struct Session {
    history: History,
}

impl Session {
    pub closed spec fn history(&self) -> Map<(u64, u64), u64> {
        self.history@
    }

    pub fn new() -> (r: Session)
        ensures
            r.history() == Map::<(u64, u64), u64>::empty(),
    {
        Session { history: History::new() }
    }

    /// A session that carries on from a history recorded earlier.
    pub fn from_history(history: History) -> (r: Session)
        ensures
            r.history() == history@,
    {
        Session { history }
    }

    pub fn into_history(self) -> (r: History)
        ensures
            r@ == self.history(),
    {
        self.history
    }

    /// Opens a plan that begins at `time` with the given initial conditions.
    pub fn new_plan(self, time: i64, initial_conditions: InitialConditions) -> (r: Plan)
        requires
            ids_unique(initial_conditions@),
        ensures
            r.wf(),
            r.start() == time,
            r.history() == self.history(),
            r.resource_ids() == initial_conditions@.map_values(|p: (u64, u64)| p.0),
            r.activity_count() == 0,
            r.id_counter() == 0,
            r.graph().nodes.len() == initial_conditions@.len(),
            r.graph().timelines.len() == initial_conditions@.len(),
            forall|i: int| 0 <= i < initial_conditions@.len() ==> #[trigger] r.graph().nodes[i] == initial_node(
                i,
                time,
                initial_conditions@[i].1,
            ),
            forall|i: int| 0 <= i < initial_conditions@.len() ==> #[trigger] r.graph().timelines[i] == initial_timeline(
                i,
                time,
            ),
            r.runs() == Seq::new(initial_conditions@.len(), |i: int| 0u64),
    {
        Plan::new(self, time, initial_conditions)
    }
}

/// A plan being edited and queried: activities placed in time over resources that
/// start from initial conditions.
pub struct Plan {
    graph: Graph,
    run: EvalRun,
    activities: Vec<ActivityRecord>,
    id_counter: u32,
    start: i64,
}

impl Plan {
    pub closed spec fn graph(&self) -> crate::graph::GraphView {
        self.graph@
    }

    pub closed spec fn history(&self) -> Map<(u64, u64), u64> {
        self.run.history@
    }

    pub closed spec fn runs(&self) -> Seq<u64> {
        self.run.runs@
    }

    pub closed spec fn start(&self) -> i64 {
        self.start
    }

    pub closed spec fn resource_ids(&self) -> Seq<u64> {
        self.graph@.ids
    }

    pub closed spec fn id_counter(&self) -> u32 {
        self.id_counter
    }

    pub closed spec fn activity_count(&self) -> int {
        self.activities@.len() as int
    }

    pub closed spec fn activity_nodes(&self) -> Seq<Seq<NodeId>> {
        self.activities@.map_values(|a: ActivityRecord| a.nodes@)
    }

    pub closed spec fn activity_ids(&self) -> Seq<ActivityId> {
        self.activities@.map_values(|a: ActivityRecord| a.id)
    }

    /// Timelines well formed, resource ids unique, activity ids unique and all
    /// below the next one to be given out.
    pub closed spec fn wf(&self) -> bool {
        &&& self.graph.wf()
        &&& forall|i: int, j: int| 0 <= i < j < self.graph.resources@.len()
            ==> self.graph.resources@[i].id != self.graph.resources@[j].id
        &&& forall|i: int| 0 <= i < self.activities@.len() ==> (#[trigger] self.activities@[i]).id.0 < self.id_counter
        &&& forall|i: int, j: int| 0 <= i < j < self.activities@.len() ==> self.activities@[i].id != self.activities@[j].id
    }

    fn new(session: Session, time: i64, initial_conditions: InitialConditions) -> (r: Plan)
        requires
            ids_unique(initial_conditions@),
        ensures
            r.wf(),
            r.start() == time,
            r.history() == session.history(),
            r.resource_ids() == initial_conditions@.map_values(|p: (u64, u64)| p.0),
            r.activity_count() == 0,
            r.id_counter() == 0,
            r.graph().nodes.len() == initial_conditions@.len(),
            r.graph().timelines.len() == initial_conditions@.len(),
            forall|i: int| 0 <= i < initial_conditions@.len() ==> #[trigger] r.graph().nodes[i] == initial_node(
                i,
                time,
                initial_conditions@[i].1,
            ),
            forall|i: int| 0 <= i < initial_conditions@.len() ==> #[trigger] r.graph().timelines[i] == initial_timeline(
                i,
                time,
            ),
            r.runs() == Seq::new(initial_conditions@.len(), |i: int| 0u64),
    {
        let mut resources: Vec<ResourceTimeline> = Vec::new();
        let mut nodes: Vec<Node> = Vec::new();
        let mut runs: Vec<u64> = Vec::new();
        let values = &initial_conditions.values;
        let mut i: usize = 0;
        while i < values.len()
            invariant
                i <= values@.len(),
                values@ == initial_conditions@,
                ids_unique(values@),
                resources@.len() == i,
                nodes@.len() == i,
                runs@.len() == i,
                forall|j: int| 0 <= j < i ==> (#[trigger] resources@[j]).timeline.wf(),
                forall|j: int| 0 <= j < i ==> (#[trigger] resources@[j]).id == values@[j].0,
                forall|j: int| 0 <= j < i ==> (#[trigger] nodes@[j])@ == initial_node(j, time, values@[j].1),
                forall|j: int| 0 <= j < i ==> (#[trigger] resources@[j]).timeline.entries() == initial_timeline(j, time),
                forall|j: int| 0 <= j < i ==> #[trigger] runs@[j] == 0,
            decreases values@.len() - i,
        {
            let (id, v) = values[i];
            let seed_hash = initial_value_hash(v);
            let mut terms: Vec<Term> = Vec::new();
            terms.push(Term::Const(v));
            let mut writes: Vec<NodeWrite> = Vec::new();
            writes.push(NodeWrite { resource: i, terms });
            assert(writes@.map_values(|w: NodeWrite| (w.resource, w.terms@)) =~~= seq![(i, seq![Term::Const(v)])]);
            let reads: Vec<usize> = Vec::new();
            assert(reads@ =~= Seq::<usize>::empty());
            let node = Node { time, kind: 0, reads, writes, initial: Some(v), seed_hash, window: None };
            assert(node@ =~~= initial_node(i as int, time, v));
            nodes.push(node);
            runs.push(0);
            let timeline = Timeline::init(time, i);
            assert(timeline.entries()[0].ungrounded =~= Seq::<crate::timeline::Reach>::empty());
            assert(timeline.entries() =~~= initial_timeline(i as int, time));
            resources.push(ResourceTimeline { id, timeline });
            i = i + 1;
        }
        assert(resources@.map_values(|r: ResourceTimeline| r.id) =~= values@.map_values(|p: (u64, u64)| p.0));
        let graph = Graph { resources, nodes };
        let run = EvalRun { history: session.history, errors: ErrorAccumulator::new(), runs, memo: Vec::new() };
        let plan = Plan { graph, run, activities: Vec::new(), id_counter: 0, start: time };
        proof {
            let ids = plan.graph.resources@.map_values(|r: ResourceTimeline| r.id);
            assert forall|a: int, b: int| 0 <= a < b < plan.graph.resources@.len()
                implies plan.graph.resources@[a].id != plan.graph.resources@[b].id by {
                assert(ids[a] == values@[a].0 && ids[b] == values@[b].0);
            }
            assert(plan.runs() =~= Seq::new(initial_conditions@.len(), |i: int| 0u64));
        }
        plan
    }

    /// The resources of `rs` checked against the plan, as positions; the first
    /// unknown one otherwise.
    fn resolve_ids(&self, rs: &Vec<u64>) -> (r: Result<Vec<usize>, u64>)
        ensures
            first_unknown(self.graph@.ids, rs@) is None <==> r is Ok,
            r is Err ==> first_unknown(self.graph@.ids, rs@) == Some(r->Err_0),
            r is Ok ==> r->Ok_0@.len() == rs@.len()
                && forall|j: int| 0 <= j < rs@.len() ==> (#[trigger] r->Ok_0@[j]) < self.graph.resources@.len()
                    && r->Ok_0@[j] == index_of(self.graph@.ids, rs@[j]),
    {
        let ghost ids = self.graph@.ids;
        let mut out: Vec<usize> = Vec::new();
        let mut k: usize = 0;
        while k < rs.len()
            invariant
                k <= rs@.len(),
                ids == self.graph@.ids,
                first_unknown(ids, rs@.take(k as int)) is None,
                out@.len() == k,
                forall|j: int| 0 <= j < k ==> (#[trigger] out@[j]) < self.graph.resources@.len()
                    && out@[j] == index_of(ids, rs@[j]),
            decreases rs@.len() - k,
        {
            assert(rs@.take(k + 1).drop_last() == rs@.take(k as int));
            match self.find_resource(rs[k]) {
                None => {
                    proof {
                        lemma_first_unknown_prefix(ids, rs@, k + 1);
                    }
                    return Err(rs[k]);
                },
                Some(i) => {
                    out.push(i);
                },
            }
            k = k + 1;
        }
        assert(rs@.take(k as int) == rs@);
        Ok(out)
    }

    /// The node that operation `op` of an activity started at `time` becomes, or
    /// why it cannot go in the plan.
    fn decompose_op(&self, time: i64, op: &Operation) -> (r: Result<Node, PlanError>)
        ensures
            op_problem(self.graph@.ids, self.start, time, *op) is None <==> r is Ok,
            r is Err ==> op_problem(self.graph@.ids, self.start, time, *op) == Some(r->Err_0),
            r is Ok ==> r->Ok_0@ == op_node(self.graph@.ids, time, *op),
            r is Ok ==> (r->Ok_0.window matches Some(w) ==> w.0 < w.1),
    {
        let (early, late) = match op.time {
            OpTime::At(o) => (o, o),
            OpTime::Between { min, max, .. } => (min, max),
        };
        let t = match time.checked_add(early) {
            Some(t) => t,
            None => {
                return Err(PlanError::TimeOverflow);
            },
        };
        let u = match time.checked_add(late) {
            Some(u) => u,
            None => {
                return Err(PlanError::TimeOverflow);
            },
        };
        if t <= self.start {
            return Err(PlanError::BeforeInitialConditions(t));
        }
        let window = match op.time {
            OpTime::At(_) => None,
            OpTime::Between { delay, .. } => {
                if u <= t {
                    return Err(PlanError::EmptyWindow);
                }
                match self.find_resource(delay) {
                    Some(d) => Some((t, u, d)),
                    None => {
                        return Err(PlanError::UnknownResource(delay));
                    },
                }
            },
        };
        let reads = match self.resolve_ids(&op.reads) {
            Ok(v) => v,
            Err(u) => {
                return Err(PlanError::UnknownResource(u));
            },
        };
        let mut written: Vec<u64> = Vec::new();
        let mut k: usize = 0;
        while k < op.writes.len()
            invariant
                k <= op.writes@.len(),
                written@ == written_ids(*op).take(k as int),
            decreases op.writes@.len() - k,
        {
            written.push(op.writes[k].resource);
            k = k + 1;
            assert(written@ =~= written_ids(*op).take(k as int));
        }
        assert(written_ids(*op).take(k as int) == written_ids(*op));
        let targets = match self.resolve_ids(&written) {
            Ok(v) => v,
            Err(u) => {
                return Err(PlanError::UnknownResource(u));
            },
        };
        let ghost ids = self.graph@.ids;
        let mut writes: Vec<NodeWrite> = Vec::new();
        let mut m: usize = 0;
        while m < op.writes.len()
            invariant
                m <= op.writes@.len(),
                targets@.len() == op.writes@.len(),
                written@ == written_ids(*op),
                writes@.len() == m,
                forall|j: int| 0 <= j < targets@.len() ==> (#[trigger] targets@[j]) == index_of(ids, written@[j]),
                writes@.map_values(|w: NodeWrite| (w.resource, w.terms@)) == op.writes@.take(m as int).map_values(
                    |w: OperationWrite| (index_of(ids, w.resource) as usize, w.terms@),
                ),
                forall|j: int| 0 <= j < m ==> (#[trigger] writes@[j]).resource as int == index_of(ids, op.writes@[j].resource)
                    && writes@[j].terms@ == op.writes@[j].terms@,
            decreases op.writes@.len() - m,
        {
            let terms = copy_terms(&op.writes[m].terms);
            let ghost before = writes@;
            writes.push(NodeWrite { resource: targets[m], terms });
            proof {
                assert(written@[m as int] == op.writes@[m as int].resource);
                assert(targets@[m as int] as int == index_of(ids, op.writes@[m as int].resource));
                assert(op.writes@.take(m + 1) =~= op.writes@.take(m as int).push(op.writes@[m as int]));
                assert forall|j: int| 0 <= j < m + 1 implies (#[trigger] writes@[j]).resource as int == index_of(
                    ids,
                    op.writes@[j].resource,
                ) && writes@[j].terms@ == op.writes@[j].terms@ by {
                    if j < m {
                        assert(writes@[j] == before[j]);
                    }
                }
            }
            m = m + 1;
            assert(writes@.map_values(|w: NodeWrite| (w.resource, w.terms@)) =~= op.writes@.take(m as int).map_values(
                |w: OperationWrite| (index_of(ids, w.resource) as usize, w.terms@),
            ));
        }
        assert(op.writes@.take(m as int) == op.writes@);
        let node = Node { time: t, kind: op.kind, reads, writes, initial: None, seed_hash: 0, window };
        assert(node@.reads =~= op.reads@.map_values(|r: u64| index_of(ids, r) as usize));
        Ok(node)
    }

    /// Places an activity starting at `time`: each of its operations becomes a
    /// node, written into the timelines of the resources it writes. Fails, leaving
    /// the plan as it was, where every activity id is taken or an operation cannot
    /// go in the plan.
    pub fn insert(&mut self, time: i64, activity: &Activity) -> (r: Result<ActivityId, PlanError>)
        requires
            old(self).wf(),
        ensures
            final(self).wf(),
            final(self).resource_ids() == old(self).resource_ids(),
            final(self).start() == old(self).start(),
            final(self).history() == old(self).history(),
            old(self).id_counter() == u32::MAX ==> r == Err::<ActivityId, PlanError>(PlanError::TooManyActivities),
            old(self).id_counter() < u32::MAX ==> ({
                let problem = ops_problem(
                    old(self).resource_ids(),
                    old(self).start(),
                    time,
                    activity.operations@,
                    activity.operations@.len() as int,
                );
                &&& problem is Some ==> r == Err::<ActivityId, PlanError>(problem.unwrap())
                &&& problem is None ==> {
                    let added = activity_nodes_of(old(self).resource_ids(), time, activity.operations@);
                    &&& r == Ok::<ActivityId, PlanError>(ActivityId(old(self).id_counter()))
                    &&& final(self).id_counter() == old(self).id_counter() + 1
                    &&& final(self).activity_ids() == old(self).activity_ids().push(ActivityId(old(self).id_counter()))
                    &&& final(self).graph().nodes == old(self).graph().nodes + added
                    &&& final(self).graph().timelines == place_nodes(
                        old(self).graph().timelines,
                        added,
                        old(self).graph().nodes.len() as int,
                        added.len() as int,
                    )
                }
            }),
            r is Err ==> final(self).graph() == old(self).graph() && final(self).runs() == old(self).runs()
                && final(self).id_counter() == old(self).id_counter()
                && final(self).activity_ids() == old(self).activity_ids(),
    {
        if self.id_counter == u32::MAX {
            return Err(PlanError::TooManyActivities);
        }
        let ghost ids = self.graph@.ids;
        let ops = &activity.operations;
        let mut built: Vec<Node> = Vec::new();
        let mut i: usize = 0;
        while i < ops.len()
            invariant
                i <= ops@.len(),
                ops@ == activity.operations@,
                *self == *old(self),
                old(self).wf(),
                self.id_counter < u32::MAX,
                ids == self.graph@.ids,
                ops_problem(ids, self.start, time, ops@, i as int) is None,
                built@.len() == i,
                forall|j: int| 0 <= j < i ==> (#[trigger] built@[j])@ == op_node(ids, time, ops@[j]),
                forall|j: int| 0 <= j < i ==> ((#[trigger] built@[j]).window matches Some(w) ==> w.0 < w.1),
            decreases ops@.len() - i,
        {
            match self.decompose_op(time, &ops[i]) {
                Err(e) => {
                    proof {
                        assert(ops_problem(ids, self.start, time, ops@, i + 1) == Some(e));
                        lemma_ops_problem_stays(ids, self.start, time, ops@, i + 1, ops@.len() as int);
                    }
                    return Err(e);
                },
                Ok(node) => {
                    built.push(node);
                },
            }
            i = i + 1;
        }
        let id = ActivityId::new(self.id_counter);
        let mut nodes: Vec<NodeId> = Vec::new();
        let ghost n0 = self.graph@.nodes.len();
        let ghost nodes0 = self.graph@.nodes;
        let ghost tls0 = self.graph@.timelines;
        let ghost acts0 = self.activity_ids();
        let ghost added = activity_nodes_of(ids, time, ops@);
        assert(forall|j: int| 0 <= j < built@.len() ==> (#[trigger] built@[j])@ == added[j]);
        let mut k: usize = 0;
        while k < built.len()
            invariant
                k <= built@.len(),
                built@.len() == added.len(),
                ops@ == activity.operations@,
                self.wf(),
                self.graph@.ids == ids,
                self.start == old(self).start,
                self.run.history@ == old(self).run.history@,
                n0 == old(self).graph@.nodes.len(),
                nodes0 == old(self).graph@.nodes,
                tls0 == old(self).graph@.timelines,
                added == activity_nodes_of(ids, time, ops@),
                self.graph@.nodes == nodes0 + added.take(k as int),
                self.graph@.timelines == place_nodes(tls0, added, n0 as int, k as int),
                self.activity_ids() == acts0,
                self.id_counter == old(self).id_counter,
                self.id_counter < u32::MAX,
                forall|j: int| k <= j < built@.len() ==> (#[trigger] built@[j])@ == added[j],
                forall|j: int| k <= j < built@.len() ==> ((#[trigger] built@[j]).window matches Some(w) ==> w.0 < w.1),
            decreases built@.len() - k,
        {
            let ghost built_full = built@;
            let node = take_node(&mut built, k);
            proof {
                assert forall|j: int| k + 1 <= j < built@.len() implies (#[trigger] built@[j])@ == added[j] by {
                    assert(built@[j] == built_full[j]);
                }
                assert forall|j: int| k + 1 <= j < built@.len() implies ((#[trigger] built@[j]).window matches Some(w) ==> w.0
                    < w.1) by {
                    assert(built@[j] == built_full[j]);
                }
            }
            let ghost ids_before = self.graph@.ids;
            let nid = self.graph.add_node(node);
            self.run.runs.push(0);
            nodes.push(nid);
            proof {
                assert forall|a: int, b: int| 0 <= a < b < self.graph.resources@.len()
                    implies self.graph.resources@[a].id != self.graph.resources@[b].id by {
                    assert(self.graph@.ids[a] == ids_before[a] && self.graph@.ids[b] == ids_before[b]);
                }
                assert(added.take(k + 1) =~= added.take(k as int).push(added[k as int]));
                assert(self.graph@.nodes =~= nodes0 + added.take(k + 1));
                assert(nid == n0 + k);
            }
            k = k + 1;
        }
        assert(added.take(k as int) == added);
        self.activities.push(ActivityRecord { id, nodes });
        assert(self.activity_ids() =~= acts0.push(id));
        self.id_counter = self.id_counter + 1;
        Ok(id)
    }

    /// Takes the activity with id `id` out of the plan, and its nodes off the
    /// timelines. Fails where the plan has no such activity.
    pub fn remove(&mut self, id: ActivityId) -> (r: Result<(), PlanError>)
        requires
            old(self).wf(),
        ensures
            final(self).wf(),
            final(self).resource_ids() == old(self).resource_ids(),
            final(self).start() == old(self).start(),
            final(self).history() == old(self).history(),
            final(self).id_counter() == old(self).id_counter(),
            final(self).graph().nodes == old(self).graph().nodes,
            (r is Ok) <==> old(self).activity_ids().contains(id),
            r is Err ==> r == Err::<(), PlanError>(PlanError::UnknownActivity(id))
                && final(self).graph() == old(self).graph() && final(self).activity_ids() == old(self).activity_ids()
                && final(self).activity_nodes() == old(self).activity_nodes() && final(self).runs() == old(self).runs(),
            r is Ok ==> !final(self).activity_ids().contains(id),
            r is Ok ==> exists|i: int| 0 <= i < old(self).activity_ids().len()
                && old(self).activity_ids()[i] == id
                && final(self).activity_ids() == old(self).activity_ids().remove(i)
                && final(self).graph().timelines == unplace_nodes(
                    old(self).graph().timelines,
                    old(self).graph().nodes,
                    old(self).activity_nodes()[i],
                    old(self).activity_nodes()[i].len() as int,
                ),
    {
        let mut i: usize = 0;
        while i < self.activities.len()
            invariant
                i <= self.activities@.len(),
                *self == *old(self),
                old(self).wf(),
                self.activities@ == old(self).activities@,
                forall|j: int| 0 <= j < i ==> self.activities@[j].id != id,
            decreases self.activities@.len() - i,
        {
            if self.activities[i].id == id {
                let ghost acts = self.activity_ids();
                let ghost which = self.activity_nodes()[i as int];
                let ghost before = self.activities@;
                let record = self.activities.remove(i);
                assert(record.nodes@ == which);
                assert(self.activity_ids() =~= acts.remove(i as int));
                proof {
                    assert forall|a: int| 0 <= a < self.activities@.len() implies (#[trigger] self.activities@[a]).id.0
                        < self.id_counter by {
                        let a2 = if a < i { a } else { a + 1 };
                        assert(self.activities@[a] == before[a2]);
                    }
                    assert forall|a: int, b: int| 0 <= a < b < self.activities@.len() implies self.activities@[a].id
                        != self.activities@[b].id by {
                        let a2 = if a < i { a } else { a + 1 };
                        let b2 = if b < i { b } else { b + 1 };
                        assert(self.activities@[a] == before[a2] && self.activities@[b] == before[b2]);
                    }
                    assert forall|a: int| 0 <= a < self.activities@.len() implies (#[trigger] self.activities@[a]).id != id by {
                        let a2 = if a < i { a } else { a + 1 };
                        assert(self.activities@[a] == before[a2]);
                        assert(before[i as int].id == id);
                    }
                }
                let mut k: usize = 0;
                while k < record.nodes.len()
                    invariant
                        k <= record.nodes@.len(),
                        self.graph.wf(),
                        self.graph@.nodes == old(self).graph@.nodes,
                        self.graph@.ids == old(self).graph@.ids,
                        self.graph.resources@.len() == old(self).graph.resources@.len(),
                        self.activity_ids() == acts.remove(i as int),
                        forall|a: int| 0 <= a < self.activities@.len() ==> (#[trigger] self.activities@[a]).id.0
                            < self.id_counter,
                        forall|a: int, b: int| 0 <= a < b < self.activities@.len() ==> self.activities@[a].id
                            != self.activities@[b].id,
                        forall|a: int| 0 <= a < self.activities@.len() ==> (#[trigger] self.activities@[a]).id != id,
                        self.run.history@ == old(self).run.history@,
                        self.id_counter == old(self).id_counter,
                        self.start == old(self).start,
                        k <= which.len(),
                        record.nodes@ == which,
                        self.graph@.timelines == unplace_nodes(old(self).graph@.timelines, old(self).graph@.nodes, which, k as int),
                        forall|a: int, b: int| 0 <= a < b < self.graph.resources@.len()
                            ==> self.graph.resources@[a].id != self.graph.resources@[b].id,
                    decreases record.nodes@.len() - k,
                {
                    let ghost ids_before = self.graph@.ids;
                    let _ = self.graph.remove_node_writes(record.nodes[k]);
                    proof {
                        assert forall|a: int, b: int| 0 <= a < b < self.graph.resources@.len()
                            implies self.graph.resources@[a].id != self.graph.resources@[b].id by {
                            assert(self.graph@.ids[a] == ids_before[a] && self.graph@.ids[b] == ids_before[b]);
                        }
                    }
                    k = k + 1;
                }
                proof {
                    assert(acts[i as int] == id);
                    assert(acts.contains(id));
                }
                return Ok(());
            }
            i = i + 1;
        }
        proof {
            assert forall|j: int| 0 <= j < self.activity_ids().len() implies self.activity_ids()[j] != id by {
                assert(self.activity_ids()[j] == self.activities@[j].id);
            }
        }
        Err(PlanError::UnknownActivity(id))
    }

    /// Turns a failed evaluation into the error a query reports.
    fn query_error(&mut self, f: Fault) -> (r: PlanError)
        ensures
            final(self).graph == old(self).graph,
            final(self).run.history@ == old(self).run.history@,
            final(self).run.runs@ == old(self).run.runs@,
            final(self).run.errors@.len() == 0,
            final(self).activities@ == old(self).activities@,
            final(self).id_counter == old(self).id_counter,
            final(self).start == old(self).start,
            old(self).run.errors@.len() > 0 ==> r is Failed && r->Failed_0@ == old(self).run.errors@,
            old(self).run.errors@.len() == 0 ==> match f {
                Fault::Failed => r is Failed && r->Failed_0@.len() == 0,
                _ => r == fault_error(f),
            },
    {
        let errors = self.run.errors.take();
        if errors.len() > 0 {
            return PlanError::Failed(errors);
        }
        match f {
            Fault::NoWriter => PlanError::NoUpstream,
            Fault::Unresolved => PlanError::Unresolved,
            Fault::Failed => PlanError::Failed(Vec::new()),
        }
    }

    /// The value of `resource` at `time`: what the last writer at or before `time`
    /// wrote, evaluated through the plan, taking from history whatever it already
    /// holds. Fails where the resource is unknown, nothing writes it by then, or a
    /// body on the way fails; each body failure is reported once.
    pub fn sample(&mut self, resource: u64, time: i64) -> (r: Result<u64, PlanError>)
        requires
            old(self).wf(),
        ensures
            final(self).wf(),
            final(self).graph() == old(self).graph(),
            final(self).start() == old(self).start(),
            final(self).id_counter() == old(self).id_counter(),
            final(self).activity_ids() == old(self).activity_ids(),
            index_of(old(self).resource_ids(), resource) < 0 ==> r == Err::<u64, PlanError>(PlanError::UnknownResource(resource))
                && final(self).history() == old(self).history() && final(self).runs() == old(self).runs(),
            index_of(old(self).resource_ids(), resource) >= 0 && time == i64::MAX ==> r == Err::<u64, PlanError>(PlanError::TimeOverflow)
                && final(self).history() == old(self).history() && final(self).runs() == old(self).runs(),
            index_of(old(self).resource_ids(), resource) >= 0 && time < i64::MAX ==> ({
                let (st, o) = eval(
                    old(self).graph(),
                    query_start(old(self).history(), old(self).runs(), old(self).graph().nodes.len()),
                    index_of(old(self).resource_ids(), resource),
                    (time + 1) as i64,
                );
                &&& final(self).history() == st.hist
                &&& final(self).runs() == st.runs
                &&& st.errors.len() > 0 ==> r is Err && r->Err_0 is Failed && r->Err_0->Failed_0@ == st.errors
                &&& st.errors.len() == 0 ==> match o {
                    Ok(p) => r == Ok::<u64, PlanError>(p.1),
                    Err(Fault::Failed) => r is Err && r->Err_0 is Failed && r->Err_0->Failed_0@.len() == 0,
                    Err(f) => r == Err::<u64, PlanError>(fault_error(f)),
                }
            }),
    {
        let ri = match self.find_resource(resource) {
            Some(i) => i,
            None => {
                return Err(PlanError::UnknownResource(resource));
            },
        };
        if time == i64::MAX {
            return Err(PlanError::TimeOverflow);
        }
        self.run.errors = ErrorAccumulator::new();
        self.run.memo = new_memo(self.graph.nodes.len());
        let o = self.graph.eval(ri, time + 1, &mut self.run);
        if !self.run.errors.is_empty() {
            let e = self.query_error(Fault::Failed);
            return Err(e);
        }
        match o {
            Ok(p) => Ok(p.1),
            Err(f) => {
                let e = self.query_error(f);
                Err(e)
            },
        }
    }

    /// The values of `resource` over `lo .. hi`: one for each grounded writer in
    /// the range, and, where the range does not begin with one, for the writer in
    /// force at `lo`; then one for each ungrounded writer that may fall in the
    /// range; each paired with the writer's time.
    pub fn view(&mut self, resource: u64, lo: i64, hi: i64) -> (r: Result<Vec<(i64, u64)>, PlanError>)
        requires
            old(self).wf(),
        ensures
            final(self).wf(),
            final(self).graph() == old(self).graph(),
            final(self).start() == old(self).start(),
            final(self).id_counter() == old(self).id_counter(),
            final(self).activity_ids() == old(self).activity_ids(),
            index_of(old(self).resource_ids(), resource) < 0 ==> r is Err && r->Err_0 == PlanError::UnknownResource(resource)
                && final(self).history() == old(self).history() && final(self).runs() == old(self).runs(),
            index_of(old(self).resource_ids(), resource) >= 0 ==> ({
                let ri = index_of(old(self).resource_ids(), resource);
                let ws = range_writers(old(self).graph().timelines[ri], lo, hi);
                let (st, o) = view_fold(
                    old(self).graph(),
                    query_start(old(self).history(), old(self).runs(), old(self).graph().nodes.len()),
                    ri,
                    ws,
                    ws.len() as int,
                );
                &&& final(self).history() == st.hist
                &&& final(self).runs() == st.runs
                &&& st.errors.len() > 0 ==> r is Err && r->Err_0 is Failed && r->Err_0->Failed_0@ == st.errors
                &&& st.errors.len() == 0 ==> match o {
                    Ok(vs) => r is Ok && r->Ok_0@ == vs,
                    Err(Fault::Failed) => r is Err && r->Err_0 is Failed && r->Err_0->Failed_0@.len() == 0,
                    Err(f) => r is Err && r->Err_0 == fault_error(f),
                }
            }),
    {
        let ri = match self.find_resource(resource) {
            Some(i) => i,
            None => {
                return Err(PlanError::UnknownResource(resource));
            },
        };
        proof {
            assert(self.graph.resources@[ri as int].timeline.wf());
        }
        let ws = self.graph.resources[ri].timeline.range(lo, hi);
        self.run.errors = ErrorAccumulator::new();
        self.run.memo = new_memo(self.graph.nodes.len());
        let ghost g = self.graph@;
        let ghost st0 = self.run@;
        let mut out: Vec<(i64, u64)> = Vec::new();
        let mut i: usize = 0;
        while i < ws.len()
            invariant
                i <= ws@.len(),
                self.wf(),
                g == self.graph@,
                ri < self.graph.resources@.len(),
                ri == index_of(g.ids, resource),
                ws@ == range_writers(g.timelines[ri as int], lo, hi),
                st0 == query_start(old(self).history(), old(self).runs(), old(self).graph().nodes.len()),
                (self.run@, Ok::<Seq<(i64, u64)>, Fault>(out@)) == view_fold(g, st0, ri as int, ws@, i as int),
                self.graph == old(self).graph,
                self.activities@ == old(self).activities@,
                self.id_counter == old(self).id_counter,
                self.start == old(self).start,
            decreases ws@.len() - i,
        {
            let o = match ws[i] {
                MaybeGrounded::Grounded(t, n) => match self.graph.eval_node(n, t, ri, &mut self.run) {
                    Ok(p) => Ok((t, p.1)),
                    Err(f) => Err(f),
                },
                MaybeGrounded::Ungrounded(n) => match self.graph.ground_time(n, i64::MAX, &mut self.run) {
                    Err(f) => Err(f),
                    Ok(time) => match self.graph.eval_node(n, time, ri, &mut self.run) {
                        Ok(p) => Ok((time, p.1)),
                        Err(f) => Err(f),
                    },
                },
            };
            match o {
                Ok(x) => {
                    out.push(x);
                },
                Err(f) => {
                    proof {
                        lemma_view_fails(g, st0, ri as int, ws@, i + 1, ws@.len() as int);
                    }
                    let e = self.query_error(f);
                    return Err(e);
                },
            }
            i = i + 1;
        }
        if !self.run.errors.is_empty() {
            let e = self.query_error(Fault::Failed);
            return Err(e);
        }
        Ok(out)
    }

    /// How many times the bodies of an activity's nodes have run, at most
    /// `u64::MAX`; `None` where the plan has no such activity.
    pub fn activity_runs(&self, id: ActivityId) -> (r: Option<u64>)
        ensures
            r.is_none() <==> !self.activity_ids().contains(id),
            r.is_some() ==> exists|i: int| 0 <= i < self.activity_ids().len() && self.activity_ids()[i] == id && ({
                let total = runs_total(self.runs(), self.activity_nodes()[i]);
                r.unwrap() == if total > u64::MAX { u64::MAX as int } else { total }
            }),
    {
        let mut i: usize = 0;
        while i < self.activities.len()
            invariant
                i <= self.activities@.len(),
                forall|j: int| 0 <= j < i ==> self.activities@[j].id != id,
            decreases self.activities@.len() - i,
        {
            if self.activities[i].id == id {
                let nodes = &self.activities[i].nodes;
                let mut acc: u64 = 0;
                let mut k: usize = 0;
                while k < nodes.len()
                    invariant
                        k <= nodes@.len(),
                        acc == ({
                            let total = runs_total(self.run.runs@, nodes@.take(k as int));
                            if total > u64::MAX { u64::MAX as int } else { total }
                        }),
                        runs_total(self.run.runs@, nodes@.take(k as int)) >= 0,
                    decreases nodes@.len() - k,
                {
                    assert(nodes@.take(k + 1).drop_last() == nodes@.take(k as int));
                    let x: u64 = if nodes[k] < self.run.runs.len() { self.run.runs[nodes[k]] } else { 0 };
                    acc = acc.saturating_add(x);
                    k = k + 1;
                }
                assert(nodes@.take(k as int) == nodes@);
                proof {
                    assert(self.activity_ids()[i as int] == id);
                    assert(self.activity_nodes()[i as int] == nodes@);
                }
                return Some(acc);
            }
            i = i + 1;
        }
        proof {
            assert forall|j: int| 0 <= j < self.activity_ids().len() implies self.activity_ids()[j] != id by {
                assert(self.activity_ids()[j] == self.activities@[j].id);
            }
        }
        None
    }

    /// The activity that node `node` belongs to, so that a failure reported for a
    /// node can be laid at its activity's door; `None` for an initial condition
    /// or a node whose activity was removed.
    pub fn activity_of(&self, node: NodeId) -> (r: Option<ActivityId>)
        ensures
            r.is_none() <==> forall|i: int| 0 <= i < self.activity_ids().len() ==> !self.activity_nodes()[i].contains(node),
            r.is_some() ==> exists|i: int| 0 <= i < self.activity_ids().len() && self.activity_ids()[i] == r.unwrap()
                && self.activity_nodes()[i].contains(node),
    {
        let mut i: usize = 0;
        while i < self.activities.len()
            invariant
                i <= self.activities@.len(),
                forall|j: int| 0 <= j < i ==> !self.activity_nodes()[j].contains(node),
            decreases self.activities@.len() - i,
        {
            let nodes = &self.activities[i].nodes;
            let mut k: usize = 0;
            while k < nodes.len()
                invariant
                    k <= nodes@.len(),
                    i < self.activities@.len(),
                    *nodes == self.activities@[i as int].nodes,
                    forall|j: int| 0 <= j < k ==> nodes@[j] != node,
                decreases nodes@.len() - k,
            {
                if nodes[k] == node {
                    proof {
                        assert(self.activity_nodes()[i as int] == nodes@);
                        assert(self.activity_nodes()[i as int][k as int] == node);
                        assert(self.activity_ids()[i as int] == self.activities@[i as int].id);
                    }
                    return Some(self.activities[i].id);
                }
                k = k + 1;
            }
            proof {
                assert(self.activity_nodes()[i as int] == nodes@);
            }
            i = i + 1;
        }
        None
    }

    /// Closes the plan, handing back its session with everything the plan's
    /// queries recorded.
    pub fn into_session(self) -> (r: Session)
        ensures
            r.history() == self.history(),
    {
        Session { history: self.run.history }
    }

    /// The position of resource `id`, if the plan has it.
    fn find_resource(&self, id: u64) -> (r: Option<usize>)
        ensures
            r.is_none() <==> index_of(self.graph@.ids, id) < 0,
            r.is_some() ==> r.unwrap() == index_of(self.graph@.ids, id) && r.unwrap() < self.graph.resources@.len(),
    {
        let ghost ids = self.graph@.ids;
        let mut i: usize = 0;
        while i < self.graph.resources.len()
            invariant
                i <= self.graph.resources@.len(),
                ids == self.graph@.ids,
                index_of(ids.take(i as int), id) < 0,
            decreases self.graph.resources@.len() - i,
        {
            proof {
                assert(ids.take(i + 1).drop_last() == ids.take(i as int));
            }
            if self.graph.resources[i].id == id {
                proof {
                    lemma_index_of_prefix(ids, id, i + 1);
                }
                return Some(i);
            }
            i = i + 1;
        }
        assert(ids.take(i as int) == ids);
        None
    }
}

/// Where the first unknown resource lies within the first `n`, it is the first
/// unknown one of all.
proof fn lemma_first_unknown_prefix(ids: Seq<u64>, rs: Seq<u64>, n: int)
    requires
        0 < n <= rs.len(),
        first_unknown(ids, rs.take(n)) is Some,
    ensures
        first_unknown(ids, rs) == first_unknown(ids, rs.take(n)),
    decreases rs.len() - n,
{
    if n < rs.len() {
        assert(rs.take(n + 1).drop_last() == rs.take(n));
        lemma_first_unknown_prefix(ids, rs, n + 1);
    } else {
        assert(rs.take(n) == rs);
    }
}

/// Once an operation has a problem, the activity has that problem.
proof fn lemma_ops_problem_stays(ids: Seq<u64>, start: i64, time: i64, ops: Seq<Operation>, n: int, m: int)
    requires
        0 < n <= m <= ops.len(),
        ops_problem(ids, start, time, ops, n) is Some,
    ensures
        ops_problem(ids, start, time, ops, m) == ops_problem(ids, start, time, ops, n),
    decreases m - n,
{
    if m > n {
        lemma_ops_problem_stays(ids, start, time, ops, n, m - 1);
    }
}

/// A copy of a list of terms.
fn copy_terms(terms: &Vec<Term>) -> (r: Vec<Term>)
    ensures
        r@ == terms@,
{
    let mut r: Vec<Term> = Vec::new();
    let mut i: usize = 0;
    while i < terms.len()
        invariant
            i <= terms@.len(),
            r@ == terms@.take(i as int),
        decreases terms@.len() - i,
    {
        r.push(terms[i]);
        i = i + 1;
        assert(r@ =~= terms@.take(i as int));
    }
    assert(terms@.take(i as int) == terms@);
    r
}

/// Moves the node at `k` out of `nodes`, leaving a placeholder.
fn take_node(nodes: &mut Vec<Node>, k: usize) -> (r: Node)
    requires
        k < old(nodes)@.len(),
    ensures
        r == old(nodes)@[k as int],
        final(nodes)@.len() == old(nodes)@.len(),
        forall|j: int| 0 <= j < old(nodes)@.len() && j != k ==> final(nodes)@[j] == old(nodes)@[j],
        final(nodes)@[k as int].writes@.len() == 0,
{
    let placeholder = Node {
        time: 0,
        kind: 0,
        reads: Vec::new(),
        writes: Vec::new(),
        initial: None,
        seed_hash: 0,
        window: None,
    };
    let r = nodes.remove(k);
    nodes.insert(k, placeholder);
    r
}

/// Where `id` first appears within the first `n` ids, that is where it first
/// appears among all of them.
proof fn lemma_index_of_prefix(ids: Seq<u64>, id: u64, n: int)
    requires
        0 < n <= ids.len(),
        index_of(ids.take(n), id) >= 0,
    ensures
        index_of(ids, id) == index_of(ids.take(n), id),
    decreases ids.len() - n,
{
    if n < ids.len() {
        assert(ids.take(n + 1).drop_last() == ids.take(n));
        lemma_index_of_prefix(ids, id, n + 1);
    } else {
        assert(ids.take(n) == ids);
    }
}

} // verus!
