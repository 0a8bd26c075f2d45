use vstd::prelude::*;
use crate::body::{body_outputs, sum_terms, Term};
use crate::exec::ErrorAccumulator;
use crate::hashing::{chain, structural_hash};
use crate::history::{put_first, History, HistoryKey};
use crate::operation::OpError;
use crate::operation::InternalResult;
use crate::ungrounded::{all_resolved, choose_upstream, decision, resolved_values, MarkedValue};
use crate::timeline::{
    count_before, grounded_inserted, grounded_removed, merged_reaches, stop_index, ungrounded_inserted,
    ungrounded_removed, EntryView, NodeId, Timeline,
};

verus! {

/// One value an operation writes: the resource (by its position in the plan) and
/// the terms whose sum is written.
#[derive(Debug)]
pub struct NodeWrite {
    pub resource: usize,
    pub terms: Vec<Term>,
}

/// An operation node placed in a plan.
#[derive(Debug)]
pub struct Node {
    /// When it happens.
    pub time: i64,
    /// The identity of its body; two nodes of one kind compute the same function.
    pub kind: u64,
    /// The resources it reads, by position in the plan.
    pub reads: Vec<usize>,
    pub writes: Vec<NodeWrite>,
    /// For an initial condition: the value it sets.
    pub initial: Option<u64>,
    /// For an initial condition: the hash of its value.
    pub seed_hash: u64,
    /// For a node whose time is fixed only during evaluation: the earliest and
    /// latest times it may happen at, and the resource (by position) whose value
    /// just before the earliest time is its delay past the earliest time.
    pub window: Option<(i64, i64, usize)>,
}

pub ghost struct NodeView {
    pub time: i64,
    pub kind: u64,
    pub reads: Seq<usize>,
    pub writes: Seq<(usize, Seq<Term>)>,
    pub initial: Option<u64>,
    pub seed_hash: u64,
    pub window: Option<(i64, i64, usize)>,
}

impl Node {
    pub open spec fn view(&self) -> NodeView {
        NodeView {
            time: self.time,
            kind: self.kind,
            reads: self.reads@,
            writes: self.writes@.map_values(|w: NodeWrite| (w.resource, w.terms@)),
            initial: self.initial,
            seed_hash: self.seed_hash,
            window: self.window,
        }
    }
}

/// A resource's id and its timeline of writers.
#[derive(Debug)]
pub struct ResourceTimeline {
    pub id: u64,
    pub timeline: Timeline,
}

/// The graph a plan evaluates: the timelines of its resources and its nodes.
pub struct Graph {
    pub resources: Vec<ResourceTimeline>,
    pub nodes: Vec<Node>,
}

pub ghost struct GraphView {
    pub ids: Seq<u64>,
    pub timelines: Seq<Seq<EntryView>>,
    pub nodes: Seq<NodeView>,
}

impl Graph {
    pub open spec fn view(&self) -> GraphView {
        GraphView {
            ids: self.resources@.map_values(|r: ResourceTimeline| r.id),
            timelines: self.resources@.map_values(|r: ResourceTimeline| r.timeline.entries()),
            nodes: self.nodes@.map_values(|n: Node| n.view()),
        }
    }

    /// Every timeline is well formed.
    pub open spec fn wf(&self) -> bool {
        forall|i: int| 0 <= i < self.resources@.len() ==> (#[trigger] self.resources@[i]).timeline.wf()
    }
}

/// Why a read produced no value.
#[derive(Clone, Copy, Debug, PartialEq, Eq, Structural)]
pub enum Fault {
    /// No writer precedes the read.
    NoWriter,
    /// The read leads to something the plan does not hold: a node or resource it
    /// lacks, or an ungrounded writer with no window.
    Unresolved,
    /// A body upstream failed; the failure is recorded where it happened.
    Failed,
}

/// A structural hash and a value, or why there is none.
pub type Outcome = Result<(u64, u64), Fault>;

/// An outcome a query has already computed for a node: the time it was
/// evaluated at, the resource asked for, and the outcome.
#[derive(Clone, Copy, Debug)]
pub struct MemoEntry {
    pub time: i64,
    pub res: usize,
    pub outcome: Outcome,
}

/// What evaluation changes: the history, the failures recorded, how many times
/// each node's body ran, and, per node, the outcomes the current query has
/// already computed.
pub ghost struct EvalState {
    pub hist: Map<HistoryKey, u64>,
    pub errors: Seq<OpError>,
    pub runs: Seq<u64>,
    pub memo: Seq<Seq<MemoEntry>>,
}

/// The first outcome recorded for time `k` and resource `res`.
pub open spec fn memo_find(ms: Seq<MemoEntry>, k: i64, res: int) -> Option<Outcome>
    decreases ms.len(),
{
    if ms.len() == 0 {
        None
    } else {
        match memo_find(ms.drop_last(), k, res) {
            Some(o) => Some(o),
            None => if ms.last().time == k && ms.last().res as int == res {
                Some(ms.last().outcome)
            } else {
                None
            },
        }
    }
}

/// The outcome the current query already computed for node `n` at `k` for `res`.
pub open spec fn recall(st: EvalState, n: int, k: i64, res: int) -> Option<Outcome> {
    if 0 <= n < st.memo.len() {
        memo_find(st.memo[n], k, res)
    } else {
        None
    }
}

/// `st` with outcome `o` recorded for node `n` at `k` for `res`.
pub open spec fn remember(st: EvalState, n: int, k: i64, res: int, o: Outcome) -> EvalState {
    if 0 <= n < st.memo.len() && 0 <= res <= usize::MAX {
        EvalState {
            memo: st.memo.update(n, st.memo[n].push(MemoEntry { time: k, res: res as usize, outcome: o })),
            ..st
        }
    } else {
        st
    }
}

/// The timelines after node `nv`, numbered `id`, is recorded as a writer of the
/// resources of its first `j` writes, in order: grounded at its time, or, for a
/// node with a window, ungrounded over the window.
pub open spec fn place_writes(tls: Seq<Seq<EntryView>>, nv: NodeView, id: NodeId, j: int) -> Seq<Seq<EntryView>>
    decreases j,
{
    if j <= 0 || j > nv.writes.len() {
        tls
    } else {
        let prev = place_writes(tls, nv, id, j - 1);
        let r = nv.writes[j - 1].0 as int;
        if r < prev.len() {
            prev.update(
                r,
                match nv.window {
                    Some(w) => ungrounded_inserted(prev[r], w.0, w.1, id),
                    None => grounded_inserted(prev[r], nv.time, id),
                },
            )
        } else {
            prev
        }
    }
}

/// The timelines after node `nv` is taken off the resources of its first `j`
/// writes, in order.
pub open spec fn unplace_writes(tls: Seq<Seq<EntryView>>, nv: NodeView, j: int) -> Seq<Seq<EntryView>>
    decreases j,
{
    if j <= 0 || j > nv.writes.len() {
        tls
    } else {
        let prev = unplace_writes(tls, nv, j - 1);
        let r = nv.writes[j - 1].0 as int;
        if r < prev.len() {
            prev.update(
                r,
                match nv.window {
                    Some(w) => ungrounded_removed(prev[r], w.0, w.1),
                    None => grounded_removed(prev[r], nv.time),
                },
            )
        } else {
            prev
        }
    }
}

/// What a read at some time depends on, as the timeline says.
pub ghost enum Lookup {
    /// Nothing to read.
    Missing(Fault),
    /// A single grounded writer, with its time.
    Writer(i64, NodeId),
    /// A choice among ungrounded writers, with the grounded fallback and its time.
    Choice(Option<(i64, NodeId)>, Seq<NodeId>),
}

/// What a read at `t` depends on.
pub open spec fn lookup(tl: Seq<EntryView>, t: i64) -> Lookup {
    let k = count_before(tl, t);
    let i = stop_index(tl, t, k);
    let m = merged_reaches(tl, i, k);
    if i < 0 {
        Lookup::Missing(Fault::NoWriter)
    } else if m.len() > 0 {
        Lookup::Choice(
            match tl[i].grounded {
                Some(g) => Some((tl[i].time, g)),
                None => None,
            },
            m.map_values(|x: crate::timeline::Reach| x.1),
        )
    } else if tl[i].grounded.is_none() {
        Lookup::Missing(Fault::Unresolved)
    } else {
        Lookup::Writer(tl[i].time, tl[i].grounded.unwrap())
    }
}

/// One more body run of node `n`.
pub open spec fn bump(runs: Seq<u64>, n: int) -> Seq<u64> {
    if 0 <= n < runs.len() && runs[n] < u64::MAX {
        runs.update(n, (runs[n] + 1) as u64)
    } else {
        runs
    }
}

/// `hist` with the first `i` outputs of a node stored under hash `h`.
pub open spec fn store_outputs(
    hist: Map<HistoryKey, u64>,
    ids: Seq<u64>,
    writes: Seq<(usize, Seq<Term>)>,
    h: u64,
    outs: Seq<u64>,
    i: int,
) -> Map<HistoryKey, u64>
    decreases i,
{
    if i <= 0 || i > writes.len() || i > outs.len() {
        hist
    } else {
        let prev = store_outputs(hist, ids, writes, h, outs, i - 1);
        let r = writes[i - 1].0;
        if r < ids.len() {
            put_first(prev, (ids[r as int], h), outs[i - 1])
        } else {
            prev
        }
    }
}

/// The terms of each write.
pub open spec fn write_terms(writes: Seq<(usize, Seq<Term>)>) -> Seq<Seq<Term>> {
    writes.map_values(|w: (usize, Seq<Term>)| w.1)
}

/// The hashes of read results.
pub open spec fn hashes_of(pairs: Seq<(u64, u64)>) -> Seq<u64> {
    pairs.map_values(|p: (u64, u64)| p.0)
}

/// The values of read results.
pub open spec fn values_of(pairs: Seq<(u64, u64)>) -> Seq<u64> {
    pairs.map_values(|p: (u64, u64)| p.1)
}

/// The value of resource `res` read at `t`: the output of the writer the timeline
/// gives, evaluated at that writer's time; where the timeline offers a choice,
/// the writer chosen once the candidates' times are known.
pub open spec fn eval(g: GraphView, st: EvalState, res: int, t: i64) -> (EvalState, Outcome)
    decreases t - i64::MIN, 1int, 0int,
{
    if !(0 <= res < g.timelines.len()) {
        (st, Err(Fault::Unresolved))
    } else {
        match lookup(g.timelines[res], t) {
            Lookup::Missing(f) => (st, Err(f)),
            Lookup::Writer(k, n) => if k < t && n < g.nodes.len() {
                eval_node(g, st, n as int, k, res)
            } else {
                (st, Err(Fault::Unresolved))
            },
            Lookup::Choice(fallback, cands) => if cands.len() > usize::MAX {
                (st, Err(Fault::Unresolved))
            } else {
                let (st1, rv) = resolve_fold(g, st, cands, t, cands.len() as int);
                match rv {
                    Err(f) => (st1, Err(f)),
                    Ok(vs) => match decision(t, fallback, cands, vs) {
                        None => (st1, Err(Fault::NoWriter)),
                        Some(w) => if w.0 < t && w.1 < g.nodes.len() {
                            eval_node(g, st1, w.1 as int, w.0, res)
                        } else {
                            (st1, Err(Fault::Unresolved))
                        },
                    },
                }
            },
        }
    }
}

/// The times of the first `i` candidates, each tagged with its position; the
/// first that fails ends the list.
pub open spec fn resolve_fold(g: GraphView, st: EvalState, cands: Seq<NodeId>, t: i64, i: int) -> (EvalState, Result<
    Seq<MarkedValue>,
    Fault,
>)
    decreases t - i64::MIN, 0int, i,
{
    if i <= 0 || i > cands.len() {
        (st, Ok(Seq::empty()))
    } else {
        let (st1, prev) = resolve_fold(g, st, cands, t, i - 1);
        match prev {
            Err(f) => (st1, Err(f)),
            Ok(vs) => {
                let (st2, o) = grounding_of(g, st1, cands[i - 1] as int, t);
                match o {
                    Err(f) => (st2, Err(f)),
                    Ok(time) => (st2, Ok(vs.push(MarkedValue { marker: (i - 1) as usize, value: time }))),
                }
            },
        }
    }
}

/// When node `c`, a candidate for a read at `t`, happens: the earliest time of
/// its window plus the delay its grounding resource holds just before then. A
/// delay that leaves the window is a failure of the node.
pub open spec fn grounding_of(g: GraphView, st: EvalState, c: int, t: i64) -> (EvalState, Result<i64, Fault>)
    decreases t - i64::MIN, 0int, 0int,
{
    if !(0 <= c < g.nodes.len()) {
        (st, Err(Fault::Unresolved))
    } else {
        match g.nodes[c].window {
            None => (st, Err(Fault::Unresolved)),
            Some(win) => if !(win.0 < t) {
                (st, Err(Fault::Unresolved))
            } else {
                let (st1, o) = eval(g, st, win.2 as int, win.0);
                match o {
                    Err(f) => (st1, Err(f)),
                    Ok(p) => if win.0 + p.1 <= win.1 {
                        (st1, Ok((win.0 + p.1) as i64))
                    } else {
                        (
                            EvalState { errors: st1.errors.push(OpError::OutOfWindow { node: c as usize }), ..st1 },
                            Err(Fault::Failed),
                        )
                    },
                }
            },
        }
    }
}

/// The output of node `n` for resource `res`, at time `k`: an initial condition
/// stores its value in history under its hash, unless a value is there already,
/// and gives what the history then holds; any other node gives what the current query already computed
/// for it, or else is computed now and the outcome kept for the rest of the query.
pub open spec fn eval_node(g: GraphView, st: EvalState, n: int, k: i64, res: int) -> (EvalState, Outcome)
    decreases k - i64::MIN, 4int, 0int,
{
    if !(0 <= n < g.nodes.len()) {
        (st, Err(Fault::Unresolved))
    } else {
        let node = g.nodes[n];
        match node.initial {
            Some(v) => {
                let key = (g.ids[res], node.seed_hash);
                let hist = put_first(st.hist, key, v);
                (EvalState { hist, ..st }, Ok((node.seed_hash, hist[key])))
            },
            None => match recall(st, n, k, res) {
                Some(o) => (st, o),
                None => {
                    let (st1, o) = compute_node(g, st, n, k, res);
                    (remember(st1, n, k, res, o), o)
                },
            },
        }
    }
}

/// Computes node `n` for resource `res` at time `k`: reads its inputs, hashes,
/// and takes the value from history under that hash, or runs its body and
/// stores what it writes.
pub open spec fn compute_node(g: GraphView, st: EvalState, n: int, k: i64, res: int) -> (EvalState, Outcome)
    decreases k - i64::MIN, 3int, 0int,
{
    if !(0 <= n < g.nodes.len()) {
        (st, Err(Fault::Unresolved))
    } else {
        let (st1, rr) = eval_reads(g, st, n, k, g.nodes[n].reads.len() as int);
        match rr {
            Err(f) => (st1, Err(f)),
            Ok(pairs) => finish_node(g, st1, n, k, res, pairs),
        }
    }
}

/// The last step of a node, once its reads are in.
pub open spec fn finish_node(
    g: GraphView,
    st: EvalState,
    n: int,
    k: i64,
    res: int,
    pairs: Seq<(u64, u64)>,
) -> (EvalState, Outcome) {
    let node = g.nodes[n];
    let h = chain(node.kind, hashes_of(pairs));
    let key = (g.ids[res], h);
    if st.hist.contains_key(key) {
        (st, Ok((h, st.hist[key])))
    } else {
        match body_outputs(write_terms(node.writes), values_of(pairs)) {
            None => (
                EvalState { errors: st.errors.push(OpError::Overflow { node: n as usize, time: k }), ..st },
                Err(Fault::Failed),
            ),
            Some(outs) => {
                let hist = store_outputs(st.hist, g.ids, node.writes, h, outs, node.writes.len() as int);
                let st2 = EvalState { hist, runs: bump(st.runs, n), ..st };
                if hist.contains_key(key) {
                    (st2, Ok((h, hist[key])))
                } else {
                    (st2, Err(Fault::Unresolved))
                }
            },
        }
    }
}

/// The first `i` reads of node `n`, at time `k`, in order; the first that fails
/// ends the list.
pub open spec fn eval_reads(g: GraphView, st: EvalState, n: int, k: i64, i: int) -> (EvalState, Result<Seq<(u64, u64)>, Fault>)
    decreases k - i64::MIN, 2int, i,
{
    if i <= 0 || !(0 <= n < g.nodes.len()) || i > g.nodes[n].reads.len() {
        (st, Ok(Seq::empty()))
    } else {
        let (st1, prev) = eval_reads(g, st, n, k, i - 1);
        match prev {
            Err(f) => (st1, Err(f)),
            Ok(ps) => {
                let (st2, o) = eval(g, st1, g.nodes[n].reads[i - 1] as int, k);
                match o {
                    Err(f) => (st2, Err(f)),
                    Ok(x) => (st2, Ok(ps.push(x))),
                }
            },
        }
    }
}

/// Once a read fails, the list of reads fails the same way.
pub proof fn lemma_reads_fail(g: GraphView, st: EvalState, n: int, k: i64, i: int, j: int)
    requires
        0 <= n < g.nodes.len(),
        0 < i <= j <= g.nodes[n].reads.len(),
        eval_reads(g, st, n, k, i).1 is Err,
    ensures
        eval_reads(g, st, n, k, j) == eval_reads(g, st, n, k, i),
    decreases j - i,
{
    if j > i {
        lemma_reads_fail(g, st, n, k, i, j - 1);
    }
}

/// Once a candidate's time fails to resolve, the resolution fails the same way.
pub proof fn lemma_resolve_fail(g: GraphView, st: EvalState, cands: Seq<NodeId>, t: i64, i: int, j: int)
    requires
        0 < i <= j <= cands.len(),
        resolve_fold(g, st, cands, t, i).1 is Err,
    ensures
        resolve_fold(g, st, cands, t, j) == resolve_fold(g, st, cands, t, i),
    decreases j - i,
{
    if j > i {
        lemma_resolve_fail(g, st, cands, t, i, j - 1);
    }
}

/// What the timeline gives for a read.
pub enum Found {
    Missing(Fault),
    Writer(i64, NodeId),
    Choice(Option<(i64, NodeId)>, Vec<NodeId>),
}

impl Found {
    pub open spec fn view(&self) -> Lookup {
        match self {
            Found::Missing(f) => Lookup::Missing(*f),
            Found::Writer(k, n) => Lookup::Writer(*k, *n),
            Found::Choice(fb, c) => Lookup::Choice(*fb, c@),
        }
    }
}

/// The mutable part of an evaluation.
pub struct EvalRun {
    pub history: History,
    pub errors: ErrorAccumulator,
    pub runs: Vec<u64>,
    pub memo: Vec<Vec<MemoEntry>>,
}

impl EvalRun {
    pub open spec fn view(&self) -> EvalState {
        EvalState {
            hist: self.history@,
            errors: self.errors@,
            runs: self.runs@,
            memo: self.memo@.map_values(|m: Vec<MemoEntry>| m@),
        }
    }
}

/// A memo with nothing recorded, for `n` nodes.
pub open spec fn fresh_memo(n: nat) -> Seq<Seq<MemoEntry>> {
    Seq::new(n, |i: int| Seq::<MemoEntry>::empty())
}

/// An empty memo for `n` nodes.
pub fn new_memo(n: usize) -> (r: Vec<Vec<MemoEntry>>)
    ensures
        r@.map_values(|m: Vec<MemoEntry>| m@) == fresh_memo(n as nat),
{
    let mut r: Vec<Vec<MemoEntry>> = Vec::new();
    let mut i: usize = 0;
    while i < n
        invariant
            i <= n,
            r@.len() == i,
            forall|j: int| 0 <= j < i ==> (#[trigger] r@[j])@ == Seq::<MemoEntry>::empty(),
        decreases n - i,
    {
        let empty: Vec<MemoEntry> = Vec::new();
        assert(empty@ =~= Seq::<MemoEntry>::empty());
        r.push(empty);
        i = i + 1;
    }
    assert(r@.map_values(|m: Vec<MemoEntry>| m@) =~= fresh_memo(n as nat));
    r
}

impl Graph {
    /// What a read of resource `res` at `t` depends on.
    fn find(&self, res: usize, t: i64) -> (r: Found)
        requires
            self.wf(),
            res < self.resources@.len(),
        ensures
            r.view() == lookup(self@.timelines[res as int], t),
            r matches Found::Writer(k, _) ==> k < t,
            r matches Found::Choice(Some(fb), _) ==> fb.0 < t,
    {
        proof {
            assert(self.resources@[res as int].timeline.wf());
            let tl = self@.timelines[res as int];
            crate::timeline::lemma_count_before(tl, t);
            crate::timeline::lemma_stop_index(tl, t, count_before(tl, t));
        }
        match self.resources[res].timeline.search_possible_upstreams(t) {
            None => Found::Missing(Fault::NoWriter),
            Some(found) => {
                let entry_time = found.entry_time;
                let grounded = found.grounded;
                if found.ungrounded.len() > 0 {
                    let fallback = match grounded {
                        Some(g) => Some((entry_time, g)),
                        None => None,
                    };
                    match found.into_upstream(t) {
                        crate::timeline::Upstream::Resolver { candidates, .. } => Found::Choice(fallback, candidates),
                        _ => Found::Missing(Fault::Unresolved),
                    }
                } else {
                    match grounded {
                        Some(g) => Found::Writer(entry_time, g),
                        None => Found::Missing(Fault::Unresolved),
                    }
                }
            },
        }
    }

    /// The value of resource `res` read at `t`.
    pub fn eval(&self, res: usize, t: i64, run: &mut EvalRun) -> (r: Outcome)
        requires
            self.wf(),
        ensures
            (final(run)@, r) == eval(self@, old(run)@, res as int, t),
        decreases t - i64::MIN, 1int, 0int,
    {
        if res >= self.resources.len() {
            return Err(Fault::Unresolved);
        }
        match self.find(res, t) {
            Found::Missing(f) => Err(f),
            Found::Writer(k, n) => {
                if n < self.nodes.len() {
                    self.eval_node(n, k, res, run)
                } else {
                    Err(Fault::Unresolved)
                }
            },
            Found::Choice(fallback, cands) => {
                let ghost g = self@;
                let ghost st0 = run@;
                let mut responses: Vec<InternalResult<MarkedValue>> = Vec::new();
                let mut i: usize = 0;
                assert(resolved_values(responses@) =~= Seq::<MarkedValue>::empty());
                while i < cands.len()
                    invariant
                        self.wf(),
                        g == self@,
                        st0 == old(run)@,
                        res < self.resources@.len(),
                        lookup(g.timelines[res as int], t) == Lookup::Choice(fallback, cands@),
                        fallback matches Some(fb) ==> fb.0 < t,
                        i <= cands@.len(),
                        responses@.len() == i,
                        forall|j: int| 0 <= j < i ==> (#[trigger] responses@[j]) is Ok && responses@[j]->Ok_0.marker == j,
                        (run@, Ok::<Seq<MarkedValue>, Fault>(resolved_values(responses@))) == resolve_fold(
                            g,
                            st0,
                            cands@,
                            t,
                            i as int,
                        ),
                    decreases cands@.len() - i,
                {
                    let o = self.ground_time(cands[i], t, run);
                    proof {
                        assert(resolve_fold(g, st0, cands@, t, i + 1) == match o {
                            Err(f) => (run@, Err::<Seq<MarkedValue>, Fault>(f)),
                            Ok(time) => (run@, Ok(resolved_values(responses@).push(MarkedValue { marker: i, value: time }))),
                        });
                    }
                    match o {
                        Err(f) => {
                            proof {
                                lemma_resolve_fail(g, st0, cands@, t, i + 1, cands@.len() as int);
                            }
                            return Err(f);
                        },
                        Ok(time) => {
                            let ghost before = responses@;
                            responses.push(Ok(MarkedValue { marker: i, value: time }));
                            assert(resolved_values(responses@) =~= resolved_values(before).push(
                                MarkedValue { marker: i, value: time },
                            ));
                        },
                    }
                    i = i + 1;
                }
                proof {
                    assert(all_resolved(responses@));
                }
                match choose_upstream(t, fallback, &cands, &responses) {
                    Err(_) => Err(Fault::Unresolved),
                    Ok(None) => Err(Fault::NoWriter),
                    Ok(Some(w)) => {
                        if w.0 < t && w.1 < self.nodes.len() {
                            self.eval_node(w.1, w.0, res, run)
                        } else {
                            Err(Fault::Unresolved)
                        }
                    },
                }
            },
        }
    }

    /// When candidate node `c` of a read at `t` happens.
    pub fn ground_time(&self, c: usize, t: i64, run: &mut EvalRun) -> (r: Result<i64, Fault>)
        requires
            self.wf(),
        ensures
            (final(run)@, r) == grounding_of(self@, old(run)@, c as int, t),
        decreases t - i64::MIN, 0int, 0int,
    {
        if c >= self.nodes.len() {
            return Err(Fault::Unresolved);
        }
        match self.nodes[c].window {
            None => Err(Fault::Unresolved),
            Some(win) => {
                if !(win.0 < t) {
                    return Err(Fault::Unresolved);
                }
                match self.eval(win.2, win.0, run) {
                    Err(f) => Err(f),
                    Ok(p) => {
                        let at: i128 = win.0 as i128 + p.1 as i128;
                        if at <= win.1 as i128 {
                            Ok(at as i64)
                        } else {
                            run.errors.push(OpError::OutOfWindow { node: c });
                            Err(Fault::Failed)
                        }
                    },
                }
            },
        }
    }

    /// The output of node `n` for resource `res`, at time `k`.
    pub fn eval_node(&self, n: usize, k: i64, res: usize, run: &mut EvalRun) -> (r: Outcome)
        requires
            self.wf(),
            res < self.resources@.len(),
        ensures
            (final(run)@, r) == eval_node(self@, old(run)@, n as int, k, res as int),
        decreases k - i64::MIN, 4int, 0int,
    {
        if n >= self.nodes.len() {
            return Err(Fault::Unresolved);
        }
        if let Some(v) = self.nodes[n].initial {
            let seed = self.nodes[n].seed_hash;
            let stored = run.history.insert(self.resources[res].id, seed, v);
            return Ok((seed, stored));
        }
        if n < run.memo.len() {
            let mut i: usize = 0;
            while i < run.memo[n].len()
                invariant
                    n < run.memo@.len(),
                    n < self.nodes@.len(),
                    self.nodes@[n as int].initial is None,
                    run@ == old(run)@,
                    i <= run.memo@[n as int]@.len(),
                    memo_find(run.memo@[n as int]@.take(i as int), k, res as int) is None,
                decreases run.memo@[n as int]@.len() - i,
            {
                assert(run.memo@[n as int]@.take(i + 1).drop_last() == run.memo@[n as int]@.take(i as int));
                let e = run.memo[n][i];
                if e.time == k && e.res == res {
                    proof {
                        assert(e == run.memo@[n as int]@[i as int]);
                        lemma_memo_find_prefix(run.memo@[n as int]@, k, res as int, i + 1);
                        assert(run@.memo[n as int] == run.memo@[n as int]@);
                        assert(recall(run@, n as int, k, res as int) == Some(e.outcome));
                    }
                    return e.outcome;
                }
                i = i + 1;
            }
            assert(run.memo@[n as int]@.take(i as int) == run.memo@[n as int]@);
        }
        let o = self.compute_node(n, k, res, run);
        if n < run.memo.len() {
            let ghost before = run@;
            run.memo[n].push(MemoEntry { time: k, res, outcome: o });
            assert(run@.memo =~= before.memo.update(
                n as int,
                before.memo[n as int].push(MemoEntry { time: k, res, outcome: o }),
            ));
        }
        o
    }

    /// Computes node `n` for resource `res` at time `k`.
    fn compute_node(&self, n: usize, k: i64, res: usize, run: &mut EvalRun) -> (r: Outcome)
        requires
            self.wf(),
            res < self.resources@.len(),
            n < self.nodes@.len(),
            self.nodes@[n as int].initial.is_none(),
        ensures
            (final(run)@, r) == compute_node(self@, old(run)@, n as int, k, res as int),
        decreases k - i64::MIN, 3int, 0int,
    {
        let node = &self.nodes[n];
        let ghost g = self@;
        let ghost st0 = run@;
        let mut pairs: Vec<(u64, u64)> = Vec::new();
        let mut i: usize = 0;
        while i < node.reads.len()
            invariant
                self.wf(),
                g == self@,
                st0 == old(run)@,
                res < self.resources@.len(),
                n < self.nodes@.len(),
                *node == self.nodes@[n as int],
                node.initial.is_none(),
                i <= node.reads@.len(),
                (run@, Ok::<Seq<(u64, u64)>, Fault>(pairs@)) == eval_reads(g, st0, n as int, k, i as int),
            decreases node.reads@.len() - i,
        {
            let o = self.eval(node.reads[i], k, run);
            proof {
                assert(g.nodes[n as int].reads[i as int] == node.reads@[i as int]);
                assert(eval_reads(g, st0, n as int, k, i + 1) == match o {
                    Err(f) => (run@, Err::<Seq<(u64, u64)>, Fault>(f)),
                    Ok(x) => (run@, Ok(pairs@.push(x))),
                });
            }
            match o {
                Err(f) => {
                    proof {
                        lemma_reads_fail(g, st0, n as int, k, i + 1, node.reads@.len() as int);
                        assert(g.nodes[n as int].initial.is_none());
                        assert(g.nodes[n as int].reads.len() == node.reads@.len());
                        assert(eval_reads(g, st0, n as int, k, node.reads@.len() as int) == (run@, Err::<Seq<(u64, u64)>, Fault>(f)));
                        assert(compute_node(g, st0, n as int, k, res as int) == (run@, Err::<(u64, u64), Fault>(f)));
                    }
                    return Err(f);
                },
                Ok(x) => {
                    pairs.push(x);
                },
            }
            i = i + 1;
        }
        self.finish_node(n, k, res, &pairs, run)
    }

    /// Hashes the reads of node `n`, then takes its output from history or runs
    /// its body.
    fn finish_node(&self, n: usize, k: i64, res: usize, pairs: &Vec<(u64, u64)>, run: &mut EvalRun) -> (r: Outcome)
        requires
            n < self.nodes@.len(),
            res < self.resources@.len(),
        ensures
            (final(run)@, r) == finish_node(self@, old(run)@, n as int, k, res as int, pairs@),
    {
        let node = &self.nodes[n];
        let ghost errs0 = run.errors@;
        let ghost runs0 = run.runs@;
        let mut hashes: Vec<u64> = Vec::new();
        let mut vals: Vec<u64> = Vec::new();
        let mut i: usize = 0;
        while i < pairs.len()
            invariant
                i <= pairs@.len(),
                n < self.nodes@.len(),
                *node == self.nodes@[n as int],
                run@ == old(run)@,
                hashes@ == hashes_of(pairs@.take(i as int)),
                vals@ == values_of(pairs@.take(i as int)),
            decreases pairs@.len() - i,
        {
            hashes.push(pairs[i].0);
            vals.push(pairs[i].1);
            i = i + 1;
            assert(hashes@ =~= hashes_of(pairs@.take(i as int)));
            assert(vals@ =~= values_of(pairs@.take(i as int)));
        }
        assert(pairs@.take(i as int) == pairs@);
        let h = structural_hash(node.kind, &hashes);
        let id = self.resources[res].id;
        if let Some(v) = run.history.get(id, h) {
            return Ok((h, v));
        }
        let ghost wt = write_terms(node@.writes);
        let mut outs: Vec<u64> = Vec::new();
        let mut j: usize = 0;
        while j < node.writes.len()
            invariant
                j <= node.writes@.len(),
                n < self.nodes@.len(),
                res < self.resources@.len(),
                *node == self.nodes@[n as int],
                h == chain(node.kind, hashes@),
                hashes@ == hashes_of(pairs@),
                vals@ == values_of(pairs@),
                run@ == old(run)@,
                !old(run)@.hist.contains_key((self@.ids[res as int], h)),
                wt == write_terms(node@.writes),
                body_outputs(wt.take(j as int), vals@) == Some(outs@),
            decreases node.writes@.len() - j,
        {
            assert(wt.take(j + 1).drop_last() == wt.take(j as int));
            match sum_terms(&node.writes[j].terms, &vals) {
                Some(x) => {
                    outs.push(x);
                },
                None => {
                    proof {
                        assert(wt.take(j + 1).last() == node.writes@[j as int].terms@);
                        lemma_outputs_fail(wt, vals@, j + 1);
                    }
                    run.errors.push(OpError::Overflow { node: n, time: k });
                    return Err(Fault::Failed);
                },
            }
            j = j + 1;
        }
        assert(wt.take(j as int) == wt);
        proof {
            lemma_outputs_len(wt, vals@);
        }
        let ghost hist0 = run.history@;
        let mut m: usize = 0;
        while m < node.writes.len()
            invariant
                m <= node.writes@.len(),
                n < self.nodes@.len(),
                res < self.resources@.len(),
                *node == self.nodes@[n as int],
                h == chain(node.kind, hashes@),
                hashes@ == hashes_of(pairs@),
                vals@ == values_of(pairs@),
                body_outputs(write_terms(node@.writes), vals@) == Some(outs@),
                !old(run)@.hist.contains_key((self@.ids[res as int], h)),
                hist0 == old(run)@.hist,
                outs@.len() == node.writes@.len(),
                run.history@ == store_outputs(hist0, self@.ids, node@.writes, h, outs@, m as int),
                run@.memo == old(run)@.memo,
                run.errors@ == errs0,
                run.runs@ == runs0,
            decreases node.writes@.len() - m,
        {
            let r = node.writes[m].resource;
            if r < self.resources.len() {
                let _ = run.history.insert(self.resources[r].id, h, outs[m]);
            }
            m = m + 1;
        }
        if n < run.runs.len() && run.runs[n] < u64::MAX {
            let c = run.runs[n];
            run.runs.set(n, c + 1);
        }
        match run.history.get(id, h) {
            Some(v) => Ok((h, v)),
            None => Err(Fault::Unresolved),
        }
    }
}

/// Where a match lies within the first `i` entries, it is the first match of all.
pub proof fn lemma_memo_find_prefix(ms: Seq<MemoEntry>, k: i64, res: int, i: int)
    requires
        0 < i <= ms.len(),
        memo_find(ms.take(i - 1), k, res) is None,
        ms[i - 1].time == k && ms[i - 1].res as int == res,
    ensures
        memo_find(ms, k, res) == Some(ms[i - 1].outcome),
    decreases ms.len() - i,
{
    if i < ms.len() {
        assert(ms.take(i + 1).drop_last() == ms.take(i));
        assert(ms.take(i).drop_last() == ms.take(i - 1));
        assert(memo_find(ms.take(i), k, res) == Some(ms[i - 1].outcome));
        lemma_memo_find_prefix_step(ms, k, res, i);
    } else {
        assert(ms.drop_last() == ms.take(i - 1));
    }
}

/// A match found among the first `i` entries stays the first match as entries
/// are added.
pub proof fn lemma_memo_find_prefix_step(ms: Seq<MemoEntry>, k: i64, res: int, i: int)
    requires
        0 < i <= ms.len(),
        memo_find(ms.take(i), k, res) is Some,
    ensures
        memo_find(ms, k, res) == memo_find(ms.take(i), k, res),
    decreases ms.len() - i,
{
    if i < ms.len() {
        assert(ms.take(i + 1).drop_last() == ms.take(i));
        lemma_memo_find_prefix_step(ms, k, res, i + 1);
    } else {
        assert(ms.take(i) == ms);
    }
}

/// A body that succeeds writes one value per write.
pub proof fn lemma_outputs_len(ws: Seq<Seq<Term>>, vals: Seq<u64>)
    ensures
        body_outputs(ws, vals).is_some() ==> body_outputs(ws, vals).unwrap().len() == ws.len(),
    decreases ws.len(),
{
    if ws.len() > 0 {
        lemma_outputs_len(ws.drop_last(), vals);
    }
}

impl Graph {
    /// Appends `node` and records it as the grounded writer, at its time, on the
    /// timeline of every resource it writes. Returns its id.
    pub fn add_node(&mut self, node: Node) -> (r: NodeId)
        requires
            old(self).wf(),
            node.window matches Some(w) ==> w.0 < w.1,
        ensures
            final(self).wf(),
            r == old(self).nodes@.len(),
            final(self).nodes@.len() == old(self).nodes@.len() + 1,
            final(self)@.nodes == old(self)@.nodes.push(node@),
            final(self)@.ids == old(self)@.ids,
            final(self).resources@.len() == old(self).resources@.len(),
            final(self)@.timelines == place_writes(old(self)@.timelines, node@, r, node@.writes.len() as int),
    {
        let id = self.nodes.len();
        let ghost ids0 = self@.ids;
        let ghost tls0 = self@.timelines;
        let mut j: usize = 0;
        while j < node.writes.len()
            invariant
                self.wf(),
                j <= node.writes@.len(),
                id == self.nodes@.len(),
                self.nodes@ == old(self).nodes@,
                self@.ids == ids0,
                tls0 == old(self)@.timelines,
                self.resources@.len() == old(self).resources@.len(),
                node.window matches Some(w) ==> w.0 < w.1,
                self@.timelines == place_writes(tls0, node@, id, j as int),
            decreases node.writes@.len() - j,
        {
            let r = node.writes[j].resource;
            let ghost before = self@.timelines;
            assert(node@.writes[j as int].0 == r);
            if r < self.resources.len() {
                proof {
                    assert(self.resources@[r as int].timeline.wf());
                }
                match node.window {
                    Some(w) => {
                        let _ = self.resources[r].timeline.insert_ungrounded(w.0, w.1, id);
                        proof {
                            assert(self@.timelines =~= before.update(r as int, ungrounded_inserted(before[r as int], w.0, w.1, id)));
                        }
                    },
                    None => {
                        let _ = self.resources[r].timeline.insert_grounded(node.time, id);
                        proof {
                            assert(self@.timelines =~= before.update(r as int, grounded_inserted(before[r as int], node.time, id)));
                        }
                    },
                }
                proof {
                    assert forall|i: int| 0 <= i < self.resources@.len() implies (#[trigger] self.resources@[i]).timeline.wf() by {
                    }
                    assert(self@.ids =~= ids0);
                }
            }
            j = j + 1;
        }
        let ghost tl0 = self@.timelines;
        self.nodes.push(node);
        assert(self@.timelines =~= tl0);
        assert(self@.nodes =~= old(self)@.nodes.push(node@));
        assert(self@.ids =~= ids0);
        id
    }

    /// Takes node `n`'s writes off the timelines of the resources it writes.
    /// Returns whether each of them was there.
    pub fn remove_node_writes(&mut self, n: NodeId) -> (r: bool)
        requires
            old(self).wf(),
        ensures
            final(self).wf(),
            final(self)@.nodes == old(self)@.nodes,
            final(self).nodes@.len() == old(self).nodes@.len(),
            final(self)@.ids == old(self)@.ids,
            final(self).resources@.len() == old(self).resources@.len(),
            n >= old(self).nodes@.len() ==> final(self)@.timelines == old(self)@.timelines,
            n < old(self).nodes@.len() ==> final(self)@.timelines == unplace_writes(
                old(self)@.timelines,
                old(self)@.nodes[n as int],
                old(self)@.nodes[n as int].writes.len() as int,
            ),
    {
        if n >= self.nodes.len() {
            return false;
        }
        let ghost ids0 = self@.ids;
        let ghost tls0 = self@.timelines;
        let ghost node = self@.nodes[n as int];
        let mut all = true;
        let mut j: usize = 0;
        while j < self.nodes[n].writes.len()
            invariant
                self.wf(),
                n < self.nodes@.len(),
                self@.nodes == old(self)@.nodes,
                self.nodes@ == old(self).nodes@,
                self@.ids == ids0,
                node == old(self)@.nodes[n as int],
                tls0 == old(self)@.timelines,
                j <= node.writes.len(),
                self.resources@.len() == old(self).resources@.len(),
                self@.timelines == unplace_writes(tls0, node, j as int),
            decreases self.nodes@[n as int].writes@.len() - j,
        {
            let r = self.nodes[n].writes[j].resource;
            let t = self.nodes[n].time;
            let ghost before = self@.timelines;
            assert(node.writes[j as int].0 == r);
            if r < self.resources.len() {
                proof {
                    assert(self.resources@[r as int].timeline.wf());
                }
                let removed = match self.nodes[n].window {
                    Some(w) => {
                        let removed = self.resources[r].timeline.remove_ungrounded(w.0, w.1);
                        proof {
                            assert(self@.timelines =~= before.update(r as int, ungrounded_removed(before[r as int], w.0, w.1)));
                        }
                        removed
                    },
                    None => {
                        let removed = self.resources[r].timeline.remove_grounded(t);
                        proof {
                            assert(self@.timelines =~= before.update(r as int, grounded_removed(before[r as int], t)));
                        }
                        removed
                    },
                };
                if !removed {
                    all = false;
                }
                proof {
                    assert forall|i: int| 0 <= i < self.resources@.len() implies (#[trigger] self.resources@[i]).timeline.wf() by {
                    }
                    assert(self@.ids =~= ids0);
                    assert(self@.nodes =~= old(self)@.nodes);
                }
            } else {
                all = false;
            }
            j = j + 1;
        }
        all
    }
}

/// Once a write's sum overflows, the body fails whatever follows.
pub proof fn lemma_outputs_fail(ws: Seq<Seq<Term>>, vals: Seq<u64>, j: int)
    requires
        0 < j <= ws.len(),
        body_outputs(ws.take(j), vals).is_none(),
    ensures
        body_outputs(ws, vals).is_none(),
    decreases ws.len() - j,
{
    if j < ws.len() {
        assert(ws.take(j + 1).drop_last() == ws.take(j));
        lemma_outputs_fail(ws, vals, j + 1);
    } else {
        assert(ws.take(j) == ws);
    }
}

} // verus!
