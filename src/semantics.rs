use vstd::prelude::*;
use crate::body::body_outputs;
use crate::graph::{
    compute_node, eval, eval_node, eval_reads, finish_node, fresh_memo, grounding_of, hashes_of, lookup,
    memo_find, recall, remember, resolve_fold, store_outputs, values_of, write_terms, EvalState, Fault, GraphView,
    Lookup, MemoEntry, Outcome,
};
use crate::ungrounded::{decision, MarkedValue};
use crate::graph::{place_writes, unplace_writes, NodeView};
use crate::hashing::chain;
use crate::timeline::{grounded_inserted, grounded_removed, EntryView, NodeId};
use crate::history::HistoryKey;
use crate::body::Term;

verus! {

/// The value the first write of `writes` to a resource with id `id` writes, among
/// the outputs `outs`.
pub open spec fn first_write_value(ids: Seq<u64>, writes: Seq<(usize, Seq<Term>)>, outs: Seq<u64>, id: u64, i: int) -> Option<u64>
    decreases i,
{
    if i <= 0 || i > writes.len() || i > outs.len() {
        None
    } else {
        match first_write_value(ids, writes, outs, id, i - 1) {
            Some(v) => Some(v),
            None => {
                let r = writes[i - 1].0;
                if r < ids.len() && ids[r as int] == id {
                    Some(outs[i - 1])
                } else {
                    None
                }
            },
        }
    }
}

/// The value of resource `res` read at `t`, computed from scratch: every body on
/// the way runs, and no history is consulted.
pub open spec fn pure_eval(g: GraphView, res: int, t: i64) -> Outcome
    decreases t - i64::MIN, 1int, 0int,
{
    if !(0 <= res < g.timelines.len()) {
        Err(Fault::Unresolved)
    } else {
        match lookup(g.timelines[res], t) {
            Lookup::Missing(f) => Err(f),
            Lookup::Writer(k, n) => if k < t && n < g.nodes.len() {
                pure_node(g, n as int, k, res)
            } else {
                Err(Fault::Unresolved)
            },
            Lookup::Choice(fallback, cands) => if cands.len() > usize::MAX {
                Err(Fault::Unresolved)
            } else {
                match pure_resolve(g, cands, t, cands.len() as int) {
                    Err(f) => Err(f),
                    Ok(vs) => match decision(t, fallback, cands, vs) {
                        None => Err(Fault::NoWriter),
                        Some(w) => if w.0 < t && w.1 < g.nodes.len() {
                            pure_node(g, w.1 as int, w.0, res)
                        } else {
                            Err(Fault::Unresolved)
                        },
                    },
                }
            },
        }
    }
}

/// The times of the first `i` candidates, computed from scratch.
pub open spec fn pure_resolve(g: GraphView, cands: Seq<NodeId>, t: i64, i: int) -> Result<Seq<MarkedValue>, Fault>
    decreases t - i64::MIN, 0int, i,
{
    if i <= 0 || i > cands.len() {
        Ok(Seq::empty())
    } else {
        match pure_resolve(g, cands, t, i - 1) {
            Err(f) => Err(f),
            Ok(vs) => match pure_grounding(g, cands[i - 1] as int, t) {
                Err(f) => Err(f),
                Ok(time) => Ok(vs.push(MarkedValue { marker: (i - 1) as usize, value: time })),
            },
        }
    }
}

/// When candidate `c` of a read at `t` happens, computed from scratch.
pub open spec fn pure_grounding(g: GraphView, c: int, t: i64) -> Result<i64, Fault>
    decreases t - i64::MIN, 0int, 0int,
{
    if !(0 <= c < g.nodes.len()) {
        Err(Fault::Unresolved)
    } else {
        match g.nodes[c].window {
            None => Err(Fault::Unresolved),
            Some(win) => if !(win.0 < t) {
                Err(Fault::Unresolved)
            } else {
                match pure_eval(g, win.2 as int, win.0) {
                    Err(f) => Err(f),
                    Ok(p) => if win.0 + p.1 <= win.1 {
                        Ok((win.0 + p.1) as i64)
                    } else {
                        Err(Fault::Failed)
                    },
                }
            },
        }
    }
}

/// The output of node `n` for resource `res`, at time `k`, computed from scratch.
pub open spec fn pure_node(g: GraphView, n: int, k: i64, res: int) -> Outcome
    decreases k - i64::MIN, 4int, 0int,
{
    if !(0 <= n < g.nodes.len()) {
        Err(Fault::Unresolved)
    } else {
        let node = g.nodes[n];
        match node.initial {
            Some(v) => Ok((node.seed_hash, v)),
            None => match pure_reads(g, n, k, node.reads.len() as int) {
                Err(f) => Err(f),
                Ok(pairs) => {
                    let h = chain(node.kind, hashes_of(pairs));
                    match body_outputs(write_terms(node.writes), values_of(pairs)) {
                        None => Err(Fault::Failed),
                        Some(outs) => match first_write_value(
                            g.ids,
                            node.writes,
                            outs,
                            g.ids[res],
                            node.writes.len() as int,
                        ) {
                            Some(v) => Ok((h, v)),
                            None => Err(Fault::Unresolved),
                        },
                    }
                },
            },
        }
    }
}

/// The first `i` reads of node `n` at time `k`, computed from scratch.
pub open spec fn pure_reads(g: GraphView, n: int, k: i64, i: int) -> Result<Seq<(u64, u64)>, Fault>
    decreases k - i64::MIN, 2int, i,
{
    if i <= 0 || !(0 <= n < g.nodes.len()) || i > g.nodes[n].reads.len() {
        Ok(Seq::empty())
    } else {
        match pure_reads(g, n, k, i - 1) {
            Err(f) => Err(f),
            Ok(ps) => match pure_eval(g, g.nodes[n].reads[i - 1] as int, k) {
                Err(f) => Err(f),
                Ok(x) => Ok(ps.push(x)),
            },
        }
    }
}

/// The structural hash of node `n` at time `k`, where its reads all have values.
pub open spec fn node_hash(g: GraphView, n: int, k: i64) -> Option<u64> {
    if !(0 <= n < g.nodes.len()) {
        None
    } else {
        match g.nodes[n].initial {
            Some(_) => Some(g.nodes[n].seed_hash),
            None => match pure_reads(g, n, k, g.nodes[n].reads.len() as int) {
                Err(_) => None,
                Ok(pairs) => Some(chain(g.nodes[n].kind, hashes_of(pairs))),
            },
        }
    }
}

/// Every value the history holds under a key that some node's computation would
/// look up is that computation's value.
pub open spec fn faithful(g: GraphView, hist: Map<HistoryKey, u64>) -> bool {
    forall|n: int, k: i64, res: int, h: u64|
        0 <= res < g.ids.len() && #[trigger] node_hash(g, n, k) == Some(h) && #[trigger] hist.contains_key((g.ids[res], h))
            ==> pure_node(g, n, k, res) == Ok::<(u64, u64), Fault>((h, hist[(g.ids[res], h)]))
}

/// No two computations of the graph that share a resource id and a structural
/// hash produce different outcomes, where either produces a value.
pub open spec fn collision_free(g: GraphView) -> bool {
    forall|n1: int, k1: i64, r1: int, n2: int, k2: i64, r2: int|
        #![trigger pure_node(g, n1, k1, r1), pure_node(g, n2, k2, r2)]
        0 <= r1 < g.ids.len() && 0 <= r2 < g.ids.len() && g.ids[r1] == g.ids[r2]
            && node_hash(g, n1, k1) == node_hash(g, n2, k2)
            && node_hash(g, n1, k1) is Some && pure_node(g, n1, k1, r1) is Ok
            ==> pure_node(g, n2, k2, r2) == pure_node(g, n1, k1, r1)
}

/// What storing a node's outputs does to a history: a key gains a value only
/// where it had none, and then from the first write to its resource.
pub proof fn lemma_store_outputs(
    hist: Map<HistoryKey, u64>,
    ids: Seq<u64>,
    writes: Seq<(usize, Seq<Term>)>,
    h: u64,
    outs: Seq<u64>,
    i: int,
)
    ensures
        forall|kk: HistoryKey| #[trigger] store_outputs(hist, ids, writes, h, outs, i).contains_key(kk) <==> (
            hist.contains_key(kk) || (kk.1 == h && first_write_value(ids, writes, outs, kk.0, i) is Some)),
        forall|kk: HistoryKey| #[trigger] store_outputs(hist, ids, writes, h, outs, i).contains_key(kk) ==>
            store_outputs(hist, ids, writes, h, outs, i)[kk] == if hist.contains_key(kk) {
                hist[kk]
            } else {
                first_write_value(ids, writes, outs, kk.0, i).unwrap()
            },
    decreases i,
{
    if i <= 0 || i > writes.len() || i > outs.len() {
    } else {
        lemma_store_outputs(hist, ids, writes, h, outs, i - 1);
        let prev = store_outputs(hist, ids, writes, h, outs, i - 1);
        let cur = store_outputs(hist, ids, writes, h, outs, i);
        let r = writes[i - 1].0;
        assert forall|kk: HistoryKey| #[trigger] cur.contains_key(kk) <==> (hist.contains_key(kk) || (kk.1 == h
            && first_write_value(ids, writes, outs, kk.0, i) is Some)) by {
            if r < ids.len() && kk == (ids[r as int], h) {
                assert(cur.contains_key(kk));
            }
        }
        assert forall|kk: HistoryKey| #[trigger] cur.contains_key(kk) implies cur[kk] == if hist.contains_key(kk) {
            hist[kk]
        } else {
            first_write_value(ids, writes, outs, kk.0, i).unwrap()
        } by {
            if prev.contains_key(kk) {
                assert(cur[kk] == prev[kk]);
            }
        }
    }
}

/// Every outcome the current query kept is what computing from scratch gives.
pub open spec fn memo_faithful(g: GraphView, memo: Seq<Seq<MemoEntry>>) -> bool {
    forall|n: int, i: int| 0 <= n < memo.len() && 0 <= i < memo[n].len()
        ==> (#[trigger] memo[n][i]).outcome == pure_node(g, n, memo[n][i].time, memo[n][i].res as int)
}

/// The current query kept no body failure.
pub open spec fn memo_clean(memo: Seq<Seq<MemoEntry>>) -> bool {
    forall|n: int, i: int| 0 <= n < memo.len() && 0 <= i < memo[n].len()
        ==> (#[trigger] memo[n][i]).outcome != Err::<(u64, u64), Fault>(Fault::Failed)
}

/// A fresh memo keeps nothing.
pub proof fn lemma_fresh_memo(g: GraphView, n: nat)
    ensures
        memo_faithful(g, fresh_memo(n)),
        memo_clean(fresh_memo(n)),
{
}

/// What the memo gives back is one of its entries for that time and resource.
pub proof fn lemma_memo_find_entry(ms: Seq<MemoEntry>, k: i64, res: int)
    ensures
        memo_find(ms, k, res) is Some ==> exists|i: int| 0 <= i < ms.len() && ms[i].time == k && ms[i].res as int
            == res && ms[i].outcome == memo_find(ms, k, res).unwrap(),
    decreases ms.len(),
{
    if ms.len() > 0 {
        lemma_memo_find_entry(ms.drop_last(), k, res);
        if memo_find(ms.drop_last(), k, res) is Some {
            let i = choose|i: int| 0 <= i < ms.drop_last().len() && ms.drop_last()[i].time == k
                && ms.drop_last()[i].res as int == res && ms.drop_last()[i].outcome == memo_find(ms.drop_last(), k, res).unwrap();
            assert(ms[i] == ms.drop_last()[i]);
        } else if memo_find(ms, k, res) is Some {
            assert(ms[ms.len() - 1] == ms.last());
        }
    }
}

/// Recalling from a faithful memo gives the outcome from scratch.
proof fn lemma_recall_pure(g: GraphView, st: EvalState, n: int, k: i64, res: int)
    requires
        memo_faithful(g, st.memo),
        recall(st, n, k, res) is Some,
    ensures
        recall(st, n, k, res).unwrap() == pure_node(g, n, k, res),
{
    lemma_memo_find_entry(st.memo[n], k, res);
    let i = choose|i: int| 0 <= i < st.memo[n].len() && st.memo[n][i].time == k && st.memo[n][i].res as int == res
        && st.memo[n][i].outcome == memo_find(st.memo[n], k, res).unwrap();
    assert(st.memo[n][i].outcome == pure_node(g, n, st.memo[n][i].time, st.memo[n][i].res as int));
}

/// Keeping an outcome from scratch keeps the memo faithful.
proof fn lemma_remember_faithful(g: GraphView, st: EvalState, n: int, k: i64, res: int)
    requires
        memo_faithful(g, st.memo),
        0 <= res,
    ensures
        memo_faithful(g, remember(st, n, k, res, pure_node(g, n, k, res)).memo),
{
    let o = pure_node(g, n, k, res);
    let m2 = remember(st, n, k, res, o).memo;
    assert forall|a: int, i: int| 0 <= a < m2.len() && 0 <= i < m2[a].len() implies (#[trigger] m2[a][i]).outcome
        == pure_node(g, a, m2[a][i].time, m2[a][i].res as int) by {
        if 0 <= n < st.memo.len() && res <= usize::MAX && a == n && i == st.memo[n].len() {
        } else if 0 <= n < st.memo.len() && res <= usize::MAX && a == n {
            assert(m2[a][i] == st.memo[a][i]);
        }
    }
}

/// With a faithful history, a faithful memo and no hash collisions, cached
/// evaluation of a read gives what evaluation from scratch gives, and leaves the
/// history and the memo faithful.
pub proof fn lemma_eval_pure(g: GraphView, st: EvalState, res: int, t: i64)
    requires
        g.ids.len() == g.timelines.len(),
        faithful(g, st.hist),
        memo_faithful(g, st.memo),
        collision_free(g),
    ensures
        eval(g, st, res, t).1 == pure_eval(g, res, t),
        faithful(g, eval(g, st, res, t).0.hist),
        memo_faithful(g, eval(g, st, res, t).0.memo),
    decreases t - i64::MIN, 1int, 0int,
{
    if 0 <= res < g.timelines.len() {
        match lookup(g.timelines[res], t) {
            Lookup::Missing(f) => {},
            Lookup::Writer(k, n) => if k < t && n < g.nodes.len() {
                lemma_node_pure(g, st, n as int, k, res);
            },
            Lookup::Choice(fallback, cands) => if cands.len() <= usize::MAX {
                lemma_resolve_pure(g, st, cands, t, cands.len() as int);
                let (st1, rv) = resolve_fold(g, st, cands, t, cands.len() as int);
                if let Ok(vs) = rv {
                    if let Some(w) = decision(t, fallback, cands, vs) {
                        if w.0 < t && w.1 < g.nodes.len() {
                            lemma_node_pure(g, st1, w.1 as int, w.0, res);
                        }
                    }
                }
            },
        }
    }
}

/// The candidates' case of [`lemma_eval_pure`].
pub proof fn lemma_resolve_pure(g: GraphView, st: EvalState, cands: Seq<NodeId>, t: i64, i: int)
    requires
        g.ids.len() == g.timelines.len(),
        faithful(g, st.hist),
        memo_faithful(g, st.memo),
        collision_free(g),
    ensures
        resolve_fold(g, st, cands, t, i).1 == pure_resolve(g, cands, t, i),
        faithful(g, resolve_fold(g, st, cands, t, i).0.hist),
        memo_faithful(g, resolve_fold(g, st, cands, t, i).0.memo),
    decreases t - i64::MIN, 0int, i,
{
    if 0 < i <= cands.len() {
        lemma_resolve_pure(g, st, cands, t, i - 1);
        let (st1, prev) = resolve_fold(g, st, cands, t, i - 1);
        if prev is Ok {
            lemma_grounding_pure(g, st1, cands[i - 1] as int, t);
        }
    }
}

/// The grounding case of [`lemma_eval_pure`].
pub proof fn lemma_grounding_pure(g: GraphView, st: EvalState, c: int, t: i64)
    requires
        g.ids.len() == g.timelines.len(),
        faithful(g, st.hist),
        memo_faithful(g, st.memo),
        collision_free(g),
    ensures
        grounding_of(g, st, c, t).1 == pure_grounding(g, c, t),
        faithful(g, grounding_of(g, st, c, t).0.hist),
        memo_faithful(g, grounding_of(g, st, c, t).0.memo),
    decreases t - i64::MIN, 0int, 0int,
{
    if 0 <= c < g.nodes.len() {
        if let Some(win) = g.nodes[c].window {
            if win.0 < t {
                lemma_eval_pure(g, st, win.2 as int, win.0);
            }
        }
    }
}

/// The node case of [`lemma_eval_pure`].
pub proof fn lemma_node_pure(g: GraphView, st: EvalState, n: int, k: i64, res: int)
    requires
        g.ids.len() == g.timelines.len(),
        0 <= res < g.ids.len(),
        faithful(g, st.hist),
        memo_faithful(g, st.memo),
        collision_free(g),
    ensures
        eval_node(g, st, n, k, res).1 == pure_node(g, n, k, res),
        faithful(g, eval_node(g, st, n, k, res).0.hist),
        memo_faithful(g, eval_node(g, st, n, k, res).0.memo),
    decreases k - i64::MIN, 4int, 0int,
{
    if 0 <= n < g.nodes.len() && g.nodes[n].initial is None {
        if recall(st, n, k, res) is Some {
            lemma_recall_pure(g, st, n, k, res);
        } else {
            lemma_compute_pure(g, st, n, k, res);
            let st1 = compute_node(g, st, n, k, res).0;
            lemma_remember_faithful(g, st1, n, k, res);
        }
    }
}

/// The computing case of [`lemma_eval_pure`].
pub proof fn lemma_compute_pure(g: GraphView, st: EvalState, n: int, k: i64, res: int)
    requires
        g.ids.len() == g.timelines.len(),
        0 <= res < g.ids.len(),
        faithful(g, st.hist),
        memo_faithful(g, st.memo),
        collision_free(g),
        0 <= n < g.nodes.len(),
        g.nodes[n].initial is None,
    ensures
        compute_node(g, st, n, k, res).1 == pure_node(g, n, k, res),
        faithful(g, compute_node(g, st, n, k, res).0.hist),
        memo_faithful(g, compute_node(g, st, n, k, res).0.memo),
    decreases k - i64::MIN, 3int, 0int,
{
    let len = g.nodes[n].reads.len() as int;
    lemma_reads_pure(g, st, n, k, len);
    let (st1, rr) = eval_reads(g, st, n, k, len);
    match rr {
        Err(f) => {},
        Ok(pairs) => {
            lemma_finish_pure(g, st1, n, k, res, pairs);
        },
    }
}

/// The reads case of [`lemma_eval_pure`].
pub proof fn lemma_reads_pure(g: GraphView, st: EvalState, n: int, k: i64, i: int)
    requires
        g.ids.len() == g.timelines.len(),
        faithful(g, st.hist),
        memo_faithful(g, st.memo),
        collision_free(g),
    ensures
        eval_reads(g, st, n, k, i).1 == pure_reads(g, n, k, i),
        faithful(g, eval_reads(g, st, n, k, i).0.hist),
        memo_faithful(g, eval_reads(g, st, n, k, i).0.memo),
    decreases k - i64::MIN, 2int, i,
{
    if i <= 0 || !(0 <= n < g.nodes.len()) || i > g.nodes[n].reads.len() {
    } else {
        lemma_reads_pure(g, st, n, k, i - 1);
        let (st1, prev) = eval_reads(g, st, n, k, i - 1);
        match prev {
            Err(f) => {},
            Ok(ps) => {
                lemma_eval_pure(g, st1, g.nodes[n].reads[i - 1] as int, k);
            },
        }
    }
}

/// The last step of a node, where its reads agree with evaluation from scratch.
proof fn lemma_finish_pure(g: GraphView, st: EvalState, n: int, k: i64, res: int, pairs: Seq<(u64, u64)>)
    requires
        g.ids.len() == g.timelines.len(),
        0 <= res < g.ids.len(),
        faithful(g, st.hist),
        memo_faithful(g, st.memo),
        collision_free(g),
        0 <= n < g.nodes.len(),
        g.nodes[n].initial is None,
        pure_reads(g, n, k, g.nodes[n].reads.len() as int) == Ok::<Seq<(u64, u64)>, Fault>(pairs),
    ensures
        finish_node(g, st, n, k, res, pairs).1 == pure_node(g, n, k, res),
        faithful(g, finish_node(g, st, n, k, res, pairs).0.hist),
        finish_node(g, st, n, k, res, pairs).0.memo == st.memo,
{
    let node = g.nodes[n];
    let h = chain(node.kind, hashes_of(pairs));
    assert(node_hash(g, n, k) == Some(h));
    {
        let key = (g.ids[res], h);
        if st.hist.contains_key(key) {
            assert(pure_node(g, n, k, res) == Ok::<(u64, u64), Fault>((h, st.hist[key])));
        } else {
            match body_outputs(write_terms(node.writes), values_of(pairs)) {
                None => {},
                Some(outs) => {
                    let len = node.writes.len() as int;
                    let hist = store_outputs(st.hist, g.ids, node.writes, h, outs, len);
                    lemma_store_outputs(st.hist, g.ids, node.writes, h, outs, len);
                    assert(hist.contains_key(key) <==> first_write_value(g.ids, node.writes, outs, g.ids[res], len) is Some);
                    assert forall|n2: int, k2: i64, r2: int, h2: u64|
                        0 <= r2 < g.ids.len() && #[trigger] node_hash(g, n2, k2) == Some(h2)
                            && #[trigger] hist.contains_key((g.ids[r2], h2))
                        implies pure_node(g, n2, k2, r2) == Ok::<(u64, u64), Fault>((h2, hist[(g.ids[r2], h2)])) by {
                        let kk = (g.ids[r2], h2);
                        if !st.hist.contains_key(kk) {
                            assert(h2 == h);
                            let v = first_write_value(g.ids, node.writes, outs, g.ids[r2], len).unwrap();
                            assert(pure_node(g, n, k, r2) == Ok::<(u64, u64), Fault>((h, v)));
                            assert(pure_node(g, n2, k2, r2) == pure_node(g, n, k, r2));
                        }
                    }
                },
            }
        }
    }
}

/// An empty history is faithful to every graph.
pub proof fn lemma_empty_faithful(g: GraphView)
    ensures
        faithful(g, Map::<HistoryKey, u64>::empty()),
{
}

/// A query's answer does not depend on which earlier queries ran, nor on which
/// session's history it starts from: over any two faithful histories (an empty
/// one, or one that earlier queries of this plan filled) a read gives the same
/// outcome, and afterwards the histories are still faithful.
pub proof fn lemma_query_deterministic(
    g: GraphView,
    h1: Map<HistoryKey, u64>,
    runs1: Seq<u64>,
    h2: Map<HistoryKey, u64>,
    runs2: Seq<u64>,
    n: nat,
    res: int,
    t: i64,
)
    requires
        g.ids.len() == g.timelines.len(),
        collision_free(g),
        faithful(g, h1),
        faithful(g, h2),
    ensures
        eval(g, crate::plan::query_start(h1, runs1, n), res, t).1 == eval(g, crate::plan::query_start(h2, runs2, n), res, t).1,
        eval(g, crate::plan::query_start(h1, runs1, n), res, t).1 == pure_eval(g, res, t),
        faithful(g, eval(g, crate::plan::query_start(h1, runs1, n), res, t).0.hist),
        faithful(g, eval(g, crate::plan::query_start(h2, runs2, n), res, t).0.hist),
{
    lemma_fresh_memo(g, n);
    lemma_eval_pure(g, crate::plan::query_start(h1, runs1, n), res, t);
    lemma_eval_pure(g, crate::plan::query_start(h2, runs2, n), res, t);
}

/// Seeding a query with a faithful history, such as one a previous session
/// recorded for the same plan, gives the answer a fresh session gives.
pub proof fn lemma_seeded_matches_fresh(g: GraphView, hist: Map<HistoryKey, u64>, runs: Seq<u64>, n: nat, res: int, t: i64)
    requires
        g.ids.len() == g.timelines.len(),
        collision_free(g),
        faithful(g, hist),
    ensures
        eval(g, crate::plan::query_start(hist, runs, n), res, t).1 == eval(
            g,
            crate::plan::query_start(Map::<HistoryKey, u64>::empty(), runs, n),
            res,
            t,
        ).1,
{
    lemma_empty_faithful(g);
    lemma_query_deterministic(g, hist, runs, Map::<HistoryKey, u64>::empty(), runs, n, res, t);
}

/// A query that starts with nothing kept records a failure exactly when its
/// answer is a body failure, and then exactly one: readers that meet a failed
/// upstream record nothing more.
pub proof fn lemma_failure_recorded_once(g: GraphView, st: EvalState, res: int, t: i64)
    requires
        memo_clean(st.memo),
    ensures
        eval(g, st, res, t).1 == Err::<(u64, u64), Fault>(Fault::Failed) ==> exists|e: crate::operation::OpError|
            !(e is Observed) && eval(g, st, res, t).0.errors == st.errors.push(e),
        eval(g, st, res, t).1 != Err::<(u64, u64), Fault>(Fault::Failed) ==> eval(g, st, res, t).0.errors == st.errors
            && memo_clean(eval(g, st, res, t).0.memo),
    decreases t - i64::MIN, 1int, 0int,
{
    if 0 <= res < g.timelines.len() {
        match lookup(g.timelines[res], t) {
            Lookup::Missing(f) => {},
            Lookup::Writer(k, n) => if k < t && n < g.nodes.len() {
                lemma_node_failure_once(g, st, n as int, k, res);
            },
            Lookup::Choice(fallback, cands) => if cands.len() <= usize::MAX {
                lemma_resolve_failure_once(g, st, cands, t, cands.len() as int);
                let (st1, rv) = resolve_fold(g, st, cands, t, cands.len() as int);
                if let Ok(vs) = rv {
                    if let Some(w) = decision(t, fallback, cands, vs) {
                        if w.0 < t && w.1 < g.nodes.len() {
                            lemma_node_failure_once(g, st1, w.1 as int, w.0, res);
                        }
                    }
                }
            },
        }
    }
}

/// The candidates' case of [`lemma_failure_recorded_once`].
pub proof fn lemma_resolve_failure_once(g: GraphView, st: EvalState, cands: Seq<NodeId>, t: i64, i: int)
    requires
        memo_clean(st.memo),
    ensures
        resolve_fold(g, st, cands, t, i).1 == Err::<Seq<MarkedValue>, Fault>(Fault::Failed) ==> exists|
            e: crate::operation::OpError,
        | !(e is Observed) && resolve_fold(g, st, cands, t, i).0.errors == st.errors.push(e),
        resolve_fold(g, st, cands, t, i).1 != Err::<Seq<MarkedValue>, Fault>(Fault::Failed) ==> resolve_fold(
            g,
            st,
            cands,
            t,
            i,
        ).0.errors == st.errors && memo_clean(resolve_fold(g, st, cands, t, i).0.memo),
    decreases t - i64::MIN, 0int, i,
{
    if 0 < i <= cands.len() {
        lemma_resolve_failure_once(g, st, cands, t, i - 1);
        let (st1, prev) = resolve_fold(g, st, cands, t, i - 1);
        if prev is Ok {
            lemma_grounding_failure_once(g, st1, cands[i - 1] as int, t);
        }
    }
}

/// The grounding case of [`lemma_failure_recorded_once`].
pub proof fn lemma_grounding_failure_once(g: GraphView, st: EvalState, c: int, t: i64)
    requires
        memo_clean(st.memo),
    ensures
        grounding_of(g, st, c, t).1 == Err::<i64, Fault>(Fault::Failed) ==> exists|e: crate::operation::OpError|
            !(e is Observed) && grounding_of(g, st, c, t).0.errors == st.errors.push(e),
        grounding_of(g, st, c, t).1 != Err::<i64, Fault>(Fault::Failed) ==> grounding_of(g, st, c, t).0.errors
            == st.errors && memo_clean(grounding_of(g, st, c, t).0.memo),
    decreases t - i64::MIN, 0int, 0int,
{
    if 0 <= c < g.nodes.len() {
        if let Some(win) = g.nodes[c].window {
            if win.0 < t {
                lemma_failure_recorded_once(g, st, win.2 as int, win.0);
                let (st1, o) = eval(g, st, win.2 as int, win.0);
                if let Ok(p) = o {
                    if !(win.0 + p.1 <= win.1) {
                        let e = crate::operation::OpError::OutOfWindow { node: c as usize };
                        assert(grounding_of(g, st, c, t).0.errors == st.errors.push(e));
                    }
                }
            }
        }
    }
}

/// The node case of [`lemma_failure_recorded_once`].
pub proof fn lemma_node_failure_once(g: GraphView, st: EvalState, n: int, k: i64, res: int)
    requires
        memo_clean(st.memo),
    ensures
        eval_node(g, st, n, k, res).1 == Err::<(u64, u64), Fault>(Fault::Failed) ==> exists|e: crate::operation::OpError|
            !(e is Observed) && eval_node(g, st, n, k, res).0.errors == st.errors.push(e),
        eval_node(g, st, n, k, res).1 != Err::<(u64, u64), Fault>(Fault::Failed) ==> eval_node(g, st, n, k, res).0.errors
            == st.errors && memo_clean(eval_node(g, st, n, k, res).0.memo),
    decreases k - i64::MIN, 4int, 0int,
{
    if 0 <= n < g.nodes.len() && g.nodes[n].initial is None {
        if recall(st, n, k, res) is Some {
            lemma_memo_find_entry(st.memo[n], k, res);
        } else {
            lemma_compute_failure_once(g, st, n, k, res);
            let (st1, o) = compute_node(g, st, n, k, res);
            let m2 = remember(st1, n, k, res, o).memo;
            if o != Err::<(u64, u64), Fault>(Fault::Failed) {
                assert forall|a: int, i: int| 0 <= a < m2.len() && 0 <= i < m2[a].len() implies (#[trigger] m2[a][i]).outcome
                    != Err::<(u64, u64), Fault>(Fault::Failed) by {
                    if 0 <= n < st1.memo.len() && 0 <= res <= usize::MAX && a == n && i < st1.memo[n].len() {
                        assert(m2[a][i] == st1.memo[a][i]);
                    }
                }
            }
        }
    }
}

/// The computing case of [`lemma_failure_recorded_once`].
pub proof fn lemma_compute_failure_once(g: GraphView, st: EvalState, n: int, k: i64, res: int)
    requires
        memo_clean(st.memo),
    ensures
        compute_node(g, st, n, k, res).1 == Err::<(u64, u64), Fault>(Fault::Failed) ==> exists|e: crate::operation::OpError|
            !(e is Observed) && compute_node(g, st, n, k, res).0.errors == st.errors.push(e),
        compute_node(g, st, n, k, res).1 != Err::<(u64, u64), Fault>(Fault::Failed) ==> compute_node(g, st, n, k, res).0.errors
            == st.errors && memo_clean(compute_node(g, st, n, k, res).0.memo),
    decreases k - i64::MIN, 3int, 0int,
{
    if 0 <= n < g.nodes.len() {
        let node = g.nodes[n];
        let len = node.reads.len() as int;
        lemma_reads_failure_once(g, st, n, k, len);
        let (st1, rr) = eval_reads(g, st, n, k, len);
        match rr {
            Err(f) => {},
            Ok(pairs) => {
                let h = chain(node.kind, hashes_of(pairs));
                let key = (g.ids[res], h);
                if !st1.hist.contains_key(key) {
                    if body_outputs(write_terms(node.writes), values_of(pairs)) is None {
                        let e = crate::operation::OpError::Overflow { node: n as usize, time: k };
                        assert(compute_node(g, st, n, k, res).0.errors == st.errors.push(e));
                    }
                }
            },
        }
    }
}

/// The reads case of [`lemma_failure_recorded_once`].
pub proof fn lemma_reads_failure_once(g: GraphView, st: EvalState, n: int, k: i64, i: int)
    requires
        memo_clean(st.memo),
    ensures
        eval_reads(g, st, n, k, i).1 == Err::<Seq<(u64, u64)>, Fault>(Fault::Failed) ==> exists|e: crate::operation::OpError|
            !(e is Observed) && eval_reads(g, st, n, k, i).0.errors == st.errors.push(e),
        eval_reads(g, st, n, k, i).1 != Err::<Seq<(u64, u64)>, Fault>(Fault::Failed) ==> eval_reads(g, st, n, k, i).0.errors
            == st.errors && memo_clean(eval_reads(g, st, n, k, i).0.memo),
    decreases k - i64::MIN, 2int, i,
{
    if i <= 0 || !(0 <= n < g.nodes.len()) || i > g.nodes[n].reads.len() {
    } else {
        lemma_reads_failure_once(g, st, n, k, i - 1);
        let (st1, prev) = eval_reads(g, st, n, k, i - 1);
        match prev {
            Err(f) => {},
            Ok(ps) => {
                lemma_failure_recorded_once(g, st1, g.nodes[n].reads[i - 1] as int, k);
            },
        }
    }
}

/// The history holds a value under every key that some computation of the graph
/// looks up.
pub open spec fn complete(g: GraphView, hist: Map<HistoryKey, u64>) -> bool {
    forall|n: int, k: i64, res: int, h: u64|
        0 <= res < g.ids.len() && #[trigger] node_hash(g, n, k) == Some(h) ==> #[trigger] hist.contains_key((g.ids[res], h))
}

/// Where nothing has changed since the history was filled, a query runs no body:
/// with a faithful, complete history it leaves the history and the run counts as
/// they were.
pub proof fn lemma_cached_query_runs_nothing(g: GraphView, st: EvalState, res: int, t: i64)
    requires
        g.ids.len() == g.timelines.len(),
        collision_free(g),
        faithful(g, st.hist),
        memo_faithful(g, st.memo),
        complete(g, st.hist),
    ensures
        eval(g, st, res, t).0.hist == st.hist,
        eval(g, st, res, t).0.runs == st.runs,
    decreases t - i64::MIN, 1int, 0int,
{
    if 0 <= res < g.timelines.len() {
        match lookup(g.timelines[res], t) {
            Lookup::Missing(f) => {},
            Lookup::Writer(k, n) => if k < t && n < g.nodes.len() {
                lemma_cached_node_runs_nothing(g, st, n as int, k, res);
            },
            Lookup::Choice(fallback, cands) => if cands.len() <= usize::MAX {
                lemma_cached_resolve_runs_nothing(g, st, cands, t, cands.len() as int);
                lemma_resolve_pure(g, st, cands, t, cands.len() as int);
                let (st1, rv) = resolve_fold(g, st, cands, t, cands.len() as int);
                if let Ok(vs) = rv {
                    if let Some(w) = decision(t, fallback, cands, vs) {
                        if w.0 < t && w.1 < g.nodes.len() {
                            lemma_cached_node_runs_nothing(g, st1, w.1 as int, w.0, res);
                        }
                    }
                }
            },
        }
    }
}

/// The candidates' case of [`lemma_cached_query_runs_nothing`].
pub proof fn lemma_cached_resolve_runs_nothing(g: GraphView, st: EvalState, cands: Seq<NodeId>, t: i64, i: int)
    requires
        g.ids.len() == g.timelines.len(),
        collision_free(g),
        faithful(g, st.hist),
        memo_faithful(g, st.memo),
        complete(g, st.hist),
    ensures
        resolve_fold(g, st, cands, t, i).0.hist == st.hist,
        resolve_fold(g, st, cands, t, i).0.runs == st.runs,
    decreases t - i64::MIN, 0int, i,
{
    if 0 < i <= cands.len() {
        lemma_cached_resolve_runs_nothing(g, st, cands, t, i - 1);
        lemma_resolve_pure(g, st, cands, t, i - 1);
        let (st1, prev) = resolve_fold(g, st, cands, t, i - 1);
        if prev is Ok {
            lemma_cached_grounding_runs_nothing(g, st1, cands[i - 1] as int, t);
        }
    }
}

/// The grounding case of [`lemma_cached_query_runs_nothing`].
pub proof fn lemma_cached_grounding_runs_nothing(g: GraphView, st: EvalState, c: int, t: i64)
    requires
        g.ids.len() == g.timelines.len(),
        collision_free(g),
        faithful(g, st.hist),
        memo_faithful(g, st.memo),
        complete(g, st.hist),
    ensures
        grounding_of(g, st, c, t).0.hist == st.hist,
        grounding_of(g, st, c, t).0.runs == st.runs,
    decreases t - i64::MIN, 0int, 0int,
{
    if 0 <= c < g.nodes.len() {
        if let Some(win) = g.nodes[c].window {
            if win.0 < t {
                lemma_cached_query_runs_nothing(g, st, win.2 as int, win.0);
            }
        }
    }
}

/// The node case of [`lemma_cached_query_runs_nothing`].
pub proof fn lemma_cached_node_runs_nothing(g: GraphView, st: EvalState, n: int, k: i64, res: int)
    requires
        g.ids.len() == g.timelines.len(),
        0 <= res < g.ids.len(),
        collision_free(g),
        faithful(g, st.hist),
        memo_faithful(g, st.memo),
        complete(g, st.hist),
    ensures
        eval_node(g, st, n, k, res).0.hist == st.hist,
        eval_node(g, st, n, k, res).0.runs == st.runs,
    decreases k - i64::MIN, 4int, 0int,
{
    if 0 <= n < g.nodes.len() && g.nodes[n].initial is None && recall(st, n, k, res) is None {
        let node = g.nodes[n];
        let len = node.reads.len() as int;
        lemma_cached_reads_run_nothing(g, st, n, k, len);
        lemma_reads_pure(g, st, n, k, len);
        let (st1, rr) = eval_reads(g, st, n, k, len);
        match rr {
            Err(f) => {},
            Ok(pairs) => {
                let h = chain(node.kind, hashes_of(pairs));
                assert(node_hash(g, n, k) == Some(h));
                assert(st.hist.contains_key((g.ids[res], h)));
            },
        }
    }
}

/// The reads case of [`lemma_cached_query_runs_nothing`].
pub proof fn lemma_cached_reads_run_nothing(g: GraphView, st: EvalState, n: int, k: i64, i: int)
    requires
        g.ids.len() == g.timelines.len(),
        collision_free(g),
        faithful(g, st.hist),
        memo_faithful(g, st.memo),
        complete(g, st.hist),
    ensures
        eval_reads(g, st, n, k, i).0.hist == st.hist,
        eval_reads(g, st, n, k, i).0.runs == st.runs,
    decreases k - i64::MIN, 2int, i,
{
    if i <= 0 || !(0 <= n < g.nodes.len()) || i > g.nodes[n].reads.len() {
    } else {
        lemma_cached_reads_run_nothing(g, st, n, k, i - 1);
        lemma_reads_pure(g, st, n, k, i - 1);
        let (st1, prev) = eval_reads(g, st, n, k, i - 1);
        match prev {
            Err(f) => {},
            Ok(ps) => {
                lemma_cached_query_runs_nothing(g, st1, g.nodes[n].reads[i - 1] as int, k);
            },
        }
    }
}

/// Every writer the timelines name, grounded or ungrounded, is a node of the
/// graph.
pub open spec fn refs_in(g: GraphView) -> bool {
    &&& forall|r: int, e: int|
        0 <= r < g.timelines.len() && 0 <= e < g.timelines[r].len() && (#[trigger] g.timelines[r][e]).grounded is Some
            ==> g.timelines[r][e].grounded.unwrap() < g.nodes.len()
    &&& forall|r: int, e: int, m: int|
        0 <= r < g.timelines.len() && 0 <= e < g.timelines[r].len() && 0 <= m < g.timelines[r][e].ungrounded.len()
            ==> (#[trigger] g.timelines[r][e].ungrounded[m]).1 < g.nodes.len()
}

/// Whether reach `x` is recorded in one of the entries `lo .. hi`.
pub open spec fn recorded_in(tl: Seq<EntryView>, lo: int, hi: int, x: crate::timeline::Reach) -> bool {
    exists|e: int, m: int| lo <= e < hi && 0 <= m < tl[e].ungrounded.len() && tl[e].ungrounded[m] == x
}

/// Each reach gathered from entries `lo .. hi` is one recorded in one of them.
pub proof fn lemma_merged_members(tl: Seq<EntryView>, lo: int, hi: int)
    requires
        0 <= lo,
        hi <= tl.len(),
    ensures
        forall|x: int| 0 <= x < crate::timeline::merged_reaches(tl, lo, hi).len() ==> recorded_in(
            tl,
            lo,
            hi,
            #[trigger] crate::timeline::merged_reaches(tl, lo, hi)[x],
        ),
    decreases hi - lo,
{
    if hi > lo {
        lemma_merged_members(tl, lo, hi - 1);
        let u = tl[hi - 1].ungrounded;
        let rest = crate::timeline::merged_reaches(tl, lo, hi - 1);
        let all = crate::timeline::merged_reaches(tl, lo, hi);
        assert(all == u + rest);
        assert forall|x: int| 0 <= x < all.len() implies recorded_in(tl, lo, hi, #[trigger] all[x]) by {
            if x < u.len() {
                assert(all[x] == tl[hi - 1].ungrounded[x]);
                assert(lo <= hi - 1 < hi && 0 <= x < tl[hi - 1].ungrounded.len() && tl[hi - 1].ungrounded[x] == all[x]);
            } else {
                let y = x - u.len();
                assert(all[x] == rest[y]);
                assert(recorded_in(tl, lo, hi - 1, rest[y]));
                let (e, m) = choose|e: int, m: int| lo <= e < hi - 1 && 0 <= m < tl[e].ungrounded.len()
                    && tl[e].ungrounded[m] == rest[y];
                assert(lo <= e < hi && 0 <= m < tl[e].ungrounded.len() && tl[e].ungrounded[m] == all[x]);
            }
        }
    }
}

/// A resolution that succeeds gives one time per candidate, each tagged with the
/// candidate's position.
pub proof fn lemma_resolve_shape(g: GraphView, st: EvalState, cands: Seq<NodeId>, t: i64, i: int)
    requires
        0 <= i <= cands.len(),
        cands.len() <= usize::MAX,
    ensures
        resolve_fold(g, st, cands, t, i).1 is Ok ==> {
            let vs = resolve_fold(g, st, cands, t, i).1->Ok_0;
            &&& vs.len() == i
            &&& forall|j: int| 0 <= j < i ==> (#[trigger] vs[j]).marker == j
        },
    decreases i,
{
    if i > 0 {
        lemma_resolve_shape(g, st, cands, t, i - 1);
        let (st1, prev) = resolve_fold(g, st, cands, t, i - 1);
        if let Ok(vs) = prev {
            let (st2, o) = grounding_of(g, st1, cands[i - 1] as int, t);
            if let Ok(time) = o {
                let vs2 = vs.push(MarkedValue { marker: (i - 1) as usize, value: time });
                assert(resolve_fold(g, st, cands, t, i).1 == Ok::<Seq<MarkedValue>, Fault>(vs2));
                assert forall|j: int| 0 <= j < i implies (#[trigger] vs2[j]).marker == j by {
                    if j < i - 1 {
                        assert(vs2[j] == vs[j]);
                    }
                }
            }
        }
    }
}

/// The latest time before `t` is one of the times given.
pub proof fn lemma_latest_member(vs: Seq<MarkedValue>, t: i64)
    ensures
        crate::ungrounded::latest_before(vs, t) is Some ==> exists|j: int| 0 <= j < vs.len() && vs[j]
            == crate::ungrounded::latest_before(vs, t).unwrap(),
    decreases vs.len(),
{
    if vs.len() > 0 {
        lemma_latest_member(vs.drop_last(), t);
        if crate::ungrounded::latest_before(vs.drop_last(), t) is Some {
            let j = choose|j: int| 0 <= j < vs.drop_last().len() && vs.drop_last()[j]
                == crate::ungrounded::latest_before(vs.drop_last(), t).unwrap();
            assert(vs[j] == vs.drop_last()[j]);
        }
        assert(vs[vs.len() - 1] == vs.last());
    }
}

/// `g2` has the resources and timelines of `g`, and `g`'s nodes with more after
/// them.
pub open spec fn extends(g: GraphView, g2: GraphView) -> bool {
    &&& g2.ids == g.ids
    &&& g2.timelines == g.timelines
    &&& g.nodes.len() <= g2.nodes.len()
    &&& forall|i: int| 0 <= i < g.nodes.len() ==> g2.nodes[i] == g.nodes[i]
}

/// A query reads only the nodes the timelines lead to: with the same timelines,
/// nodes added to the graph and no longer on any timeline (such as those of an
/// activity inserted and then removed) change neither the answer, nor what is
/// stored, nor which bodies run.
pub proof fn lemma_unreferenced_nodes_ignored(g: GraphView, g2: GraphView, st: EvalState, res: int, t: i64)
    requires
        refs_in(g),
        extends(g, g2),
    ensures
        eval(g2, st, res, t) == eval(g, st, res, t),
    decreases t - i64::MIN, 1int, 0int,
{
    if 0 <= res < g.timelines.len() {
        let tl = g.timelines[res];
        let k = crate::timeline::count_before(tl, t);
        crate::timeline::lemma_count_before(tl, t);
        crate::timeline::lemma_stop_index(tl, t, k);
        let i = crate::timeline::stop_index(tl, t, k);
        match lookup(tl, t) {
            Lookup::Missing(f) => {},
            Lookup::Writer(kk, n) => {
                assert(tl[i].grounded == Some(n));
                if kk < t {
                    lemma_unreferenced_nodes_ignored_node(g, g2, st, n as int, kk, res);
                }
            },
            Lookup::Choice(fallback, cands) => if cands.len() <= usize::MAX {
                lemma_merged_members(tl, i, k);
                let m = crate::timeline::merged_reaches(tl, i, k);
                assert forall|j: int| 0 <= j < cands.len() implies #[trigger] cands[j] < g.nodes.len() by {
                    assert(cands[j] == m[j].1);
                    assert(recorded_in(tl, i, k, m[j]));
                    let (e, mm) = choose|e: int, mm: int| i <= e < k && 0 <= mm < tl[e].ungrounded.len()
                        && tl[e].ungrounded[mm] == m[j];
                    assert(g.timelines[res][e].ungrounded[mm].1 < g.nodes.len());
                }
                lemma_unreferenced_resolve(g, g2, st, cands, t, cands.len() as int);
                lemma_resolve_shape(g, st, cands, t, cands.len() as int);
                let (st1, rv) = resolve_fold(g, st, cands, t, cands.len() as int);
                if let Ok(vs) = rv {
                    lemma_latest_member(vs, t);
                    if let Some(w) = decision(t, fallback, cands, vs) {
                        if fallback is Some {
                            assert(tl[i].grounded is Some);
                        }
                        assert(w.1 < g.nodes.len());
                        if w.0 < t {
                            lemma_unreferenced_nodes_ignored_node(g, g2, st1, w.1 as int, w.0, res);
                        }
                    }
                }
            },
        }
    }
}

/// The candidates' case of [`lemma_unreferenced_nodes_ignored`].
pub proof fn lemma_unreferenced_resolve(g: GraphView, g2: GraphView, st: EvalState, cands: Seq<NodeId>, t: i64, i: int)
    requires
        refs_in(g),
        extends(g, g2),
        forall|j: int| 0 <= j < cands.len() ==> #[trigger] cands[j] < g.nodes.len(),
    ensures
        resolve_fold(g2, st, cands, t, i) == resolve_fold(g, st, cands, t, i),
    decreases t - i64::MIN, 0int, i,
{
    if 0 < i <= cands.len() {
        lemma_unreferenced_resolve(g, g2, st, cands, t, i - 1);
        let (st1, prev) = resolve_fold(g, st, cands, t, i - 1);
        if prev is Ok {
            lemma_unreferenced_grounding(g, g2, st1, cands[i - 1] as int, t);
        }
    }
}

/// The grounding case of [`lemma_unreferenced_nodes_ignored`].
pub proof fn lemma_unreferenced_grounding(g: GraphView, g2: GraphView, st: EvalState, c: int, t: i64)
    requires
        refs_in(g),
        extends(g, g2),
        0 <= c < g.nodes.len(),
    ensures
        grounding_of(g2, st, c, t) == grounding_of(g, st, c, t),
    decreases t - i64::MIN, 0int, 0int,
{
    if let Some(win) = g.nodes[c].window {
        if win.0 < t {
            lemma_unreferenced_nodes_ignored(g, g2, st, win.2 as int, win.0);
        }
    }
}

/// The node case of [`lemma_unreferenced_nodes_ignored`].
pub proof fn lemma_unreferenced_nodes_ignored_node(g: GraphView, g2: GraphView, st: EvalState, n: int, k: i64, res: int)
    requires
        refs_in(g),
        extends(g, g2),
        0 <= n < g.nodes.len(),
    ensures
        eval_node(g2, st, n, k, res) == eval_node(g, st, n, k, res),
        compute_node(g2, st, n, k, res) == compute_node(g, st, n, k, res),
    decreases k - i64::MIN, 4int, 0int,
{
    let len = g.nodes[n].reads.len() as int;
    lemma_unreferenced_nodes_ignored_reads(g, g2, st, n, k, len);
}

/// The reads case of [`lemma_unreferenced_nodes_ignored`].
pub proof fn lemma_unreferenced_nodes_ignored_reads(g: GraphView, g2: GraphView, st: EvalState, n: int, k: i64, i: int)
    requires
        refs_in(g),
        extends(g, g2),
        0 <= n < g.nodes.len(),
    ensures
        eval_reads(g2, st, n, k, i) == eval_reads(g, st, n, k, i),
    decreases k - i64::MIN, 2int, i,
{
    if i <= 0 || i > g.nodes[n].reads.len() {
    } else {
        lemma_unreferenced_nodes_ignored_reads(g, g2, st, n, k, i - 1);
        let (st1, prev) = eval_reads(g, st, n, k, i - 1);
        match prev {
            Err(f) => {},
            Ok(ps) => {
                lemma_unreferenced_nodes_ignored(g, g2, st1, g.nodes[n].reads[i - 1] as int, k);
            },
        }
    }
}

/// Whether one of the first `j` writes targets resource `r`.
pub open spec fn writes_to(writes: Seq<(usize, Seq<Term>)>, r: int, j: int) -> bool {
    exists|a: int| 0 <= a < j && writes[a].0 as int == r
}

/// No two writes target the same resource, and every write targets one of `n`
/// resources.
pub open spec fn distinct_targets(writes: Seq<(usize, Seq<Term>)>, n: int) -> bool {
    &&& forall|a: int, b: int| 0 <= a < b < writes.len() ==> writes[a].0 != writes[b].0
    &&& forall|a: int| 0 <= a < writes.len() ==> (#[trigger] writes[a]).0 < n
}

/// Placing a grounded node whose writes have distinct targets records it on each
/// target's timeline and leaves the others alone.
pub proof fn lemma_place_writes_at(tls: Seq<Seq<EntryView>>, nv: NodeView, id: NodeId, j: int)
    requires
        0 <= j <= nv.writes.len(),
        nv.window is None,
        distinct_targets(nv.writes, tls.len() as int),
    ensures
        place_writes(tls, nv, id, j).len() == tls.len(),
        forall|r: int| 0 <= r < tls.len() ==> #[trigger] place_writes(tls, nv, id, j)[r] == if writes_to(nv.writes, r, j) {
            grounded_inserted(tls[r], nv.time, id)
        } else {
            tls[r]
        },
    decreases j,
{
    if j > 0 {
        lemma_place_writes_at(tls, nv, id, j - 1);
        let rj = nv.writes[j - 1].0 as int;
        assert forall|r: int| 0 <= r < tls.len() implies #[trigger] place_writes(tls, nv, id, j)[r] == if writes_to(
            nv.writes,
            r,
            j,
        ) {
            grounded_inserted(tls[r], nv.time, id)
        } else {
            tls[r]
        } by {
            if r == rj {
                assert(writes_to(nv.writes, r, j));
                assert(!writes_to(nv.writes, r, j - 1));
            } else if writes_to(nv.writes, r, j) {
                let a = choose|a: int| 0 <= a < j && nv.writes[a].0 as int == r;
                assert(writes_to(nv.writes, r, j - 1));
            }
        }
    }
}

/// Taking a grounded node whose writes have distinct targets off takes it off
/// each target's timeline and leaves the others alone.
pub proof fn lemma_unplace_writes_at(tls: Seq<Seq<EntryView>>, nv: NodeView, j: int)
    requires
        0 <= j <= nv.writes.len(),
        nv.window is None,
        distinct_targets(nv.writes, tls.len() as int),
    ensures
        unplace_writes(tls, nv, j).len() == tls.len(),
        forall|r: int| 0 <= r < tls.len() ==> #[trigger] unplace_writes(tls, nv, j)[r] == if writes_to(nv.writes, r, j) {
            grounded_removed(tls[r], nv.time)
        } else {
            tls[r]
        },
    decreases j,
{
    if j > 0 {
        lemma_unplace_writes_at(tls, nv, j - 1);
        let rj = nv.writes[j - 1].0 as int;
        assert forall|r: int| 0 <= r < tls.len() implies #[trigger] unplace_writes(tls, nv, j)[r] == if writes_to(
            nv.writes,
            r,
            j,
        ) {
            grounded_removed(tls[r], nv.time)
        } else {
            tls[r]
        } by {
            if r == rj {
                assert(writes_to(nv.writes, r, j));
                assert(!writes_to(nv.writes, r, j - 1));
            } else if writes_to(nv.writes, r, j) {
                let a = choose|a: int| 0 <= a < j && nv.writes[a].0 as int == r;
                assert(writes_to(nv.writes, r, j - 1));
            }
        }
    }
}

/// Each target timeline is sorted, has no entry at `t`, and no ungrounded writer
/// reaches `t` there.
pub open spec fn fresh_instant(tls: Seq<Seq<EntryView>>, writes: Seq<(usize, Seq<Term>)>, t: i64) -> bool {
    forall|a: int| 0 <= a < writes.len() ==> {
        let tl = #[trigger] tls[writes[a].0 as int];
        &&& crate::timeline::entries_sorted(tl)
        &&& !crate::timeline::has_entry_at(tl, t)
        &&& crate::timeline::continuing(tl, crate::timeline::count_before(tl, t), t).len() == 0
    }
}

/// Inserting a grounded node at an instant that is fresh on each timeline it
/// writes, then removing it, restores the timelines; the plan then answers every
/// query as it did before, with the same history and the same bodies run.
pub proof fn lemma_rollback_restores(g: GraphView, node: NodeView, st: EvalState, res: int, t: i64)
    requires
        refs_in(g),
        node.window is None,
        distinct_targets(node.writes, g.timelines.len() as int),
        fresh_instant(g.timelines, node.writes, node.time),
    ensures
        ({
            let len = node.writes.len() as int;
            let placed = place_writes(g.timelines, node, g.nodes.len() as usize, len);
            let restored = unplace_writes(placed, node, len);
            &&& restored == g.timelines
            &&& eval(GraphView { timelines: restored, nodes: g.nodes.push(node), ..g }, st, res, t) == eval(g, st, res, t)
        }),
{
    let len = node.writes.len() as int;
    let id = g.nodes.len() as usize;
    let placed = place_writes(g.timelines, node, id, len);
    lemma_place_writes_at(g.timelines, node, id, len);
    assert(distinct_targets(node.writes, placed.len() as int));
    lemma_unplace_writes_at(placed, node, len);
    let restored = unplace_writes(placed, node, len);
    assert forall|r: int| 0 <= r < g.timelines.len() implies #[trigger] restored[r] == g.timelines[r] by {
        if writes_to(node.writes, r, len) {
            let a = choose|a: int| 0 <= a < len && node.writes[a].0 as int == r;
            assert(g.timelines[node.writes[a].0 as int] == g.timelines[r]);
            crate::timeline::lemma_insert_remove_grounded_restores(g.timelines[r], node.time, id);
        }
    }
    assert(restored =~= g.timelines);
    let g2 = GraphView { timelines: restored, nodes: g.nodes.push(node), ..g };
    assert(extends(g, g2));
    lemma_unreferenced_nodes_ignored(g, g2, st, res, t);
}

/// Node `n` has a computation whose structural hash the history lacks, for some
/// resource.
pub open spec fn missed(g: GraphView, hist: Map<HistoryKey, u64>, n: int) -> bool {
    exists|k: i64, res: int, h: u64|
        0 <= res < g.ids.len() && node_hash(g, n, k) == Some(h) && !hist.contains_key((g.ids[res], h))
}

/// What an evaluation step keeps: the run counts keep their length, the history
/// only grows, and a node's count changes only where the node missed in the
/// history the step started from.
pub open spec fn runs_only_on_miss(g: GraphView, st: EvalState, st2: EvalState) -> bool {
    &&& st2.runs.len() == st.runs.len()
    &&& forall|key: HistoryKey| st.hist.contains_key(key) ==> #[trigger] st2.hist.contains_key(key)
    &&& forall|n: int| 0 <= n < st.runs.len() && #[trigger] st2.runs[n] != st.runs[n] ==> missed(g, st.hist, n)
}

/// Two steps in a row keep what each keeps.
proof fn lemma_runs_only_on_miss_chain(g: GraphView, a: EvalState, b: EvalState, c: EvalState)
    requires
        runs_only_on_miss(g, a, b),
        runs_only_on_miss(g, b, c),
    ensures
        runs_only_on_miss(g, a, c),
{
    assert forall|n: int| 0 <= n < a.runs.len() && #[trigger] c.runs[n] != a.runs[n] implies missed(g, a.hist, n) by {
        if b.runs[n] != a.runs[n] {
        } else {
            assert(c.runs[n] != b.runs[n]);
            assert(missed(g, b.hist, n));
            let (k, res, h) = choose|k: i64, res: int, h: u64|
                0 <= res < g.ids.len() && node_hash(g, n, k) == Some(h) && !b.hist.contains_key((g.ids[res], h));
            assert(!a.hist.contains_key((g.ids[res], h)));
        }
    }
}

/// Incrementality: with a faithful history and memo and no hash collisions, a
/// query runs the body of a node only where the history it starts from lacks
/// that node's structural hash; the history only grows.
pub proof fn lemma_bodies_run_only_on_miss(g: GraphView, st: EvalState, res: int, t: i64)
    requires
        g.ids.len() == g.timelines.len(),
        collision_free(g),
        faithful(g, st.hist),
        memo_faithful(g, st.memo),
    ensures
        runs_only_on_miss(g, st, eval(g, st, res, t).0),
    decreases t - i64::MIN, 1int, 0int,
{
    if 0 <= res < g.timelines.len() {
        match lookup(g.timelines[res], t) {
            Lookup::Missing(f) => {},
            Lookup::Writer(k, n) => if k < t && n < g.nodes.len() {
                lemma_node_runs_only_on_miss(g, st, n as int, k, res);
            },
            Lookup::Choice(fallback, cands) => if cands.len() <= usize::MAX {
                lemma_resolve_runs_only_on_miss(g, st, cands, t, cands.len() as int);
                lemma_resolve_pure(g, st, cands, t, cands.len() as int);
                let (st1, rv) = resolve_fold(g, st, cands, t, cands.len() as int);
                if let Ok(vs) = rv {
                    if let Some(w) = decision(t, fallback, cands, vs) {
                        if w.0 < t && w.1 < g.nodes.len() {
                            lemma_node_runs_only_on_miss(g, st1, w.1 as int, w.0, res);
                            lemma_runs_only_on_miss_chain(g, st, st1, eval(g, st, res, t).0);
                        }
                    }
                }
            },
        }
    }
}

/// The candidates' case of [`lemma_bodies_run_only_on_miss`].
pub proof fn lemma_resolve_runs_only_on_miss(g: GraphView, st: EvalState, cands: Seq<NodeId>, t: i64, i: int)
    requires
        g.ids.len() == g.timelines.len(),
        collision_free(g),
        faithful(g, st.hist),
        memo_faithful(g, st.memo),
    ensures
        runs_only_on_miss(g, st, resolve_fold(g, st, cands, t, i).0),
    decreases t - i64::MIN, 0int, i,
{
    if 0 < i <= cands.len() {
        lemma_resolve_runs_only_on_miss(g, st, cands, t, i - 1);
        lemma_resolve_pure(g, st, cands, t, i - 1);
        let (st1, prev) = resolve_fold(g, st, cands, t, i - 1);
        if prev is Ok {
            lemma_grounding_runs_only_on_miss(g, st1, cands[i - 1] as int, t);
            lemma_runs_only_on_miss_chain(g, st, st1, resolve_fold(g, st, cands, t, i).0);
        }
    }
}

/// The grounding case of [`lemma_bodies_run_only_on_miss`].
pub proof fn lemma_grounding_runs_only_on_miss(g: GraphView, st: EvalState, c: int, t: i64)
    requires
        g.ids.len() == g.timelines.len(),
        collision_free(g),
        faithful(g, st.hist),
        memo_faithful(g, st.memo),
    ensures
        runs_only_on_miss(g, st, grounding_of(g, st, c, t).0),
    decreases t - i64::MIN, 0int, 0int,
{
    if 0 <= c < g.nodes.len() {
        if let Some(win) = g.nodes[c].window {
            if win.0 < t {
                lemma_bodies_run_only_on_miss(g, st, win.2 as int, win.0);
            }
        }
    }
}

/// The node case of [`lemma_bodies_run_only_on_miss`].
pub proof fn lemma_node_runs_only_on_miss(g: GraphView, st: EvalState, n: int, k: i64, res: int)
    requires
        g.ids.len() == g.timelines.len(),
        0 <= res < g.ids.len(),
        collision_free(g),
        faithful(g, st.hist),
        memo_faithful(g, st.memo),
    ensures
        runs_only_on_miss(g, st, eval_node(g, st, n, k, res).0),
    decreases k - i64::MIN, 4int, 0int,
{
    if 0 <= n < g.nodes.len() && g.nodes[n].initial is None && recall(st, n, k, res) is None {
        let node = g.nodes[n];
        let len = node.reads.len() as int;
        lemma_reads_run_only_on_miss(g, st, n, k, len);
        lemma_reads_pure(g, st, n, k, len);
        let (st1, rr) = eval_reads(g, st, n, k, len);
        if let Ok(pairs) = rr {
            let h = chain(node.kind, hashes_of(pairs));
            assert(node_hash(g, n, k) == Some(h));
            let key = (g.ids[res], h);
            let st2 = finish_node(g, st1, n, k, res, pairs).0;
            if !st1.hist.contains_key(key) {
                if let Some(outs) = body_outputs(write_terms(node.writes), values_of(pairs)) {
                    lemma_store_outputs(st1.hist, g.ids, node.writes, h, outs, node.writes.len() as int);
                    assert(missed(g, st1.hist, n));
                    assert forall|m: int| 0 <= m < st1.runs.len() && #[trigger] st2.runs[m] != st1.runs[m] implies missed(
                        g,
                        st1.hist,
                        m,
                    ) by {
                        assert(m == n);
                    }
                }
            }
            assert(runs_only_on_miss(g, st1, st2));
            lemma_runs_only_on_miss_chain(g, st, st1, st2);
        }
    }
}

/// The reads case of [`lemma_bodies_run_only_on_miss`].
pub proof fn lemma_reads_run_only_on_miss(g: GraphView, st: EvalState, n: int, k: i64, i: int)
    requires
        g.ids.len() == g.timelines.len(),
        collision_free(g),
        faithful(g, st.hist),
        memo_faithful(g, st.memo),
    ensures
        runs_only_on_miss(g, st, eval_reads(g, st, n, k, i).0),
    decreases k - i64::MIN, 2int, i,
{
    if i <= 0 || !(0 <= n < g.nodes.len()) || i > g.nodes[n].reads.len() {
    } else {
        lemma_reads_run_only_on_miss(g, st, n, k, i - 1);
        lemma_reads_pure(g, st, n, k, i - 1);
        let (st1, prev) = eval_reads(g, st, n, k, i - 1);
        if prev is Ok {
            lemma_bodies_run_only_on_miss(g, st1, g.nodes[n].reads[i - 1] as int, k);
            lemma_runs_only_on_miss_chain(g, st, st1, eval_reads(g, st, n, k, i).0);
        }
    }
}

} // verus!
