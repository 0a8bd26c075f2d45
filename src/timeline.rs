use vstd::prelude::*;

verus! {

/// The index of an operation node in a plan's node arena.
pub type NodeId = usize;

/// An ungrounded writer as seen from a timeline entry: the latest time at which it
/// may happen, and the node.
pub type Reach = (i64, NodeId);

/// What a timeline records at one instant.
#[derive(Debug)]
pub struct TimelineEntry {
    pub time: i64,
    /// The writer that happens exactly at `time`, if any.
    pub grounded: Option<NodeId>,
    /// The ungrounded writers whose window covers `time`, by increasing latest time,
    /// with no latest time twice.
    pub ungrounded: Vec<Reach>,
}

/// An entry as the contracts see it.
pub ghost struct EntryView {
    pub time: i64,
    pub grounded: Option<NodeId>,
    pub ungrounded: Seq<Reach>,
}

impl TimelineEntry {
    pub open spec fn view(&self) -> EntryView {
        EntryView { time: self.time, grounded: self.grounded, ungrounded: self.ungrounded@ }
    }

    /// The writers this entry names: its grounded one, then its ungrounded ones.
    pub fn writers(&self) -> (r: Vec<NodeId>)
        ensures
            r@ == entry_writers(self.view()),
    {
        let mut r: Vec<NodeId> = Vec::new();
        if let Some(g) = self.grounded {
            r.push(g);
        }
        let ghost start = r@;
        let mut i: usize = 0;
        while i < self.ungrounded.len()
            invariant
                i <= self.ungrounded@.len(),
                start == grounded_seq(self.grounded),
                r@ == start + self.ungrounded@.take(i as int).map_values(|x: Reach| x.1),
            decreases self.ungrounded@.len() - i,
        {
            r.push(self.ungrounded[i].1);
            i = i + 1;
            assert(r@ =~= start + self.ungrounded@.take(i as int).map_values(|x: Reach| x.1));
        }
        assert(self.ungrounded@.take(i as int) == self.ungrounded@);
        r
    }
}

/// The views of a list of entries.
pub open spec fn entry_views(s: Seq<TimelineEntry>) -> Seq<EntryView> {
    s.map_values(|e: TimelineEntry| e.view())
}

/// Strictly increasing latest times.
pub open spec fn reaches_sorted(u: Seq<Reach>) -> bool {
    forall|i: int, j: int| 0 <= i < j < u.len() ==> u[i].0 < u[j].0
}

/// Strictly increasing entry times, each entry's ungrounded list sorted.
pub open spec fn entries_sorted(s: Seq<EntryView>) -> bool {
    &&& forall|i: int, j: int| 0 <= i < j < s.len() ==> s[i].time < s[j].time
    &&& forall|i: int| 0 <= i < s.len() ==> reaches_sorted(#[trigger] s[i].ungrounded)
}

/// Whether a backward walk that reaches entry `e` for a read at `t` stops there:
/// the entry has a grounded writer, or an ungrounded one certain to have happened
/// by `t`.
pub open spec fn stops_walk(e: EntryView, t: i64) -> bool {
    e.grounded.is_some() || exists|j: int| 0 <= j < e.ungrounded.len() && e.ungrounded[j].0 <= t
}

/// The number of entries strictly before `t`.
pub open spec fn count_before(s: Seq<EntryView>, t: i64) -> int
    decreases s.len(),
{
    if s.len() == 0 {
        0
    } else if s.last().time < t {
        s.len() as int
    } else {
        count_before(s.drop_last(), t)
    }
}

/// The last index below `k` at which a walk for a read at `t` stops, or -1.
pub open spec fn stop_index(s: Seq<EntryView>, t: i64, k: int) -> int
    decreases k,
{
    if k <= 0 {
        -1
    } else if stops_walk(s[k - 1], t) {
        k - 1
    } else {
        stop_index(s, t, k - 1)
    }
}

/// The reaches in `u` whose latest time is after `t`, in order.
pub open spec fn reaches_after(u: Seq<Reach>, t: i64) -> Seq<Reach>
    decreases u.len(),
{
    if u.len() == 0 {
        Seq::empty()
    } else if u.last().0 > t {
        reaches_after(u.drop_last(), t).push(u.last())
    } else {
        reaches_after(u.drop_last(), t)
    }
}

/// The reaches in `u` whose latest time is before `t`, in order.
pub open spec fn reaches_before(u: Seq<Reach>, t: i64) -> Seq<Reach>
    decreases u.len(),
{
    if u.len() == 0 {
        Seq::empty()
    } else if u.last().0 < t {
        reaches_before(u.drop_last(), t).push(u.last())
    } else {
        reaches_before(u.drop_last(), t)
    }
}

/// `u` with writer `w` recorded under latest time `max`, replacing any other
/// writer recorded there.
pub open spec fn reach_put(u: Seq<Reach>, max: i64, w: NodeId) -> Seq<Reach> {
    reaches_before(u, max).push((max, w)) + reaches_after(u, max)
}

/// `u` without any writer recorded under latest time `max`.
pub open spec fn reach_erase(u: Seq<Reach>, max: i64) -> Seq<Reach> {
    reaches_before(u, max) + reaches_after(u, max)
}

/// The writers named by an entry: its grounded one, then its ungrounded ones.
pub open spec fn entry_writers(e: EntryView) -> Seq<NodeId> {
    grounded_seq(e.grounded) + e.ungrounded.map_values(|x: Reach| x.1)
}

/// The grounded writer, if any, as a sequence.
pub open spec fn grounded_seq(g: Option<NodeId>) -> Seq<NodeId> {
    match g {
        Some(g) => seq![g],
        None => Seq::<NodeId>::empty(),
    }
}

/// The writers that a read at `t` may depend on: what the backward walk gathers.
pub open spec fn upstream_writers(s: Seq<EntryView>, t: i64) -> Seq<NodeId> {
    let k = count_before(s, t);
    let i = stop_index(s, t, k);
    if i < 0 {
        Seq::empty()
    } else {
        merged_reaches(s, i, k).map_values(|x: Reach| x.1) + grounded_seq(s[i].grounded)
    }
}

/// Where the timeline has an entry at exactly `t`.
pub open spec fn has_entry_at(s: Seq<EntryView>, t: i64) -> bool {
    let p = count_before(s, t);
    p < s.len() && s[p].time == t
}

/// The reaches that continue past `t` from the entry just before position `p`.
pub open spec fn continuing(s: Seq<EntryView>, p: int, t: i64) -> Seq<Reach> {
    if p > 0 {
        reaches_after(s[p - 1].ungrounded, t)
    } else {
        Seq::empty()
    }
}

/// `s` with `w` recorded under `max` in every entry at positions `lo .. hi`.
pub open spec fn put_in_range(s: Seq<EntryView>, lo: int, hi: int, max: i64, w: NodeId) -> Seq<EntryView> {
    Seq::new(
        s.len(),
        |j: int|
            if lo <= j < hi {
                EntryView { ungrounded: reach_put(s[j].ungrounded, max, w), ..s[j] }
            } else {
                s[j]
            },
    )
}

/// `s` with nothing recorded under `max` in the entries at positions `lo .. hi`.
pub open spec fn erase_in_range(s: Seq<EntryView>, lo: int, hi: int, max: i64) -> Seq<EntryView> {
    Seq::new(
        s.len(),
        |j: int|
            if lo <= j < hi {
                EntryView { ungrounded: reach_erase(s[j].ungrounded, max), ..s[j] }
            } else {
                s[j]
            },
    )
}

/// The writers named by the entries at positions `lo .. hi`, in order.
pub open spec fn writers_between(s: Seq<EntryView>, lo: int, hi: int) -> Seq<NodeId>
    decreases hi - lo,
{
    if hi <= lo {
        Seq::empty()
    } else {
        writers_between(s, lo, hi - 1) + entry_writers(s[hi - 1])
    }
}

/// A writer found for a view over a range of time.
#[derive(Debug, PartialEq, Eq, Structural)]
pub enum MaybeGrounded {
    /// A grounded writer and its time.
    Grounded(i64, NodeId),
    /// An ungrounded writer, whose time is known only once it is resolved.
    Ungrounded(NodeId),
}

/// The grounded writers of the entries at positions `lo .. hi`, in order.
pub open spec fn grounded_between(s: Seq<EntryView>, lo: int, hi: int) -> Seq<MaybeGrounded>
    decreases hi - lo,
{
    if hi <= lo {
        Seq::empty()
    } else {
        grounded_between(s, lo, hi - 1) + match s[hi - 1].grounded {
            Some(g) => seq![MaybeGrounded::Grounded(s[hi - 1].time, g)],
            None => Seq::<MaybeGrounded>::empty(),
        }
    }
}

/// Whether a view from `lo` needs a writer from before `lo`: no grounded writer
/// lies in the range, or the first lies after `lo`.
pub open spec fn needs_cover(g: Seq<MaybeGrounded>, lo: i64) -> bool {
    g.len() == 0 || match g[0] {
        MaybeGrounded::Grounded(t, _) => t > lo,
        _ => true,
    }
}

/// The writers a view over `lo .. hi` reads: the grounded writers in the range; then,
/// where the range does not begin with one, the grounded writer found by walking
/// back from `lo`; then the ungrounded writers of every entry visited, each once.
pub open spec fn range_writers(s: Seq<EntryView>, lo: i64, hi: i64) -> Seq<MaybeGrounded> {
    let a = count_before(s, lo);
    let b = if hi <= lo { a } else { count_before(s, hi) };
    let inside = grounded_between(s, a, b);
    let i = stop_index(s, lo, a);
    let start = if needs_cover(inside, lo) {
        if i >= 0 { i } else { 0 }
    } else {
        a
    };
    let cover = if needs_cover(inside, lo) && i >= 0 && s[i].grounded.is_some() {
        seq![MaybeGrounded::Grounded(s[i].time, s[i].grounded.unwrap())]
    } else {
        Seq::<MaybeGrounded>::empty()
    };
    inside + cover + distinct_nodes(merged_reaches(s, start, b).map_values(|x: Reach| x.1)).map_values(
        |n: NodeId| MaybeGrounded::Ungrounded(n),
    )
}

/// The nodes of `s` in order, each kept at its first appearance only.
pub open spec fn distinct_nodes(s: Seq<NodeId>) -> Seq<NodeId>
    decreases s.len(),
{
    if s.len() == 0 {
        Seq::empty()
    } else {
        let p = distinct_nodes(s.drop_last());
        if p.contains(s.last()) {
            p
        } else {
            p.push(s.last())
        }
    }
}

/// No node appears twice once repeats are dropped.
pub proof fn lemma_distinct_nodes_unique(s: Seq<NodeId>)
    ensures
        forall|i: int, j: int| 0 <= i < j < distinct_nodes(s).len() ==> distinct_nodes(s)[i] != distinct_nodes(s)[j],
    decreases s.len(),
{
    if s.len() > 0 {
        lemma_distinct_nodes_unique(s.drop_last());
        let p = distinct_nodes(s.drop_last());
        if !p.contains(s.last()) {
            let d = p.push(s.last());
            assert forall|i: int, j: int| 0 <= i < j < d.len() implies d[i] != d[j] by {
                if j == p.len() {
                    assert(d[i] == p[i]);
                    assert(d[j] == s.last());
                } else {
                    assert(d[i] == p[i] && d[j] == p[j]);
                }
            }
        }
    }
}

/// The writers found among grounded entries are all grounded.
pub proof fn lemma_grounded_between_grounded(s: Seq<EntryView>, lo: int, hi: int)
    ensures
        forall|i: int| 0 <= i < grounded_between(s, lo, hi).len() ==> (#[trigger] grounded_between(s, lo, hi)[i]) is Grounded,
    decreases hi - lo,
{
    if hi > lo {
        lemma_grounded_between_grounded(s, lo, hi - 1);
        let prev = grounded_between(s, lo, hi - 1);
        let cur = grounded_between(s, lo, hi);
        assert forall|i: int| 0 <= i < cur.len() implies (#[trigger] cur[i]) is Grounded by {
            if i < prev.len() {
                assert(cur[i] == prev[i]);
            }
        }
    }
}

/// The nodes of `s`, each once, in order of first appearance.
pub fn distinct(s: &Vec<NodeId>) -> (r: Vec<NodeId>)
    ensures
        r@ == distinct_nodes(s@),
{
    let mut r: Vec<NodeId> = Vec::new();
    let mut i: usize = 0;
    while i < s.len()
        invariant
            i <= s@.len(),
            r@ == distinct_nodes(s@.take(i as int)),
        decreases s@.len() - i,
    {
        assert(s@.take(i + 1).drop_last() == s@.take(i as int));
        let x = s[i];
        let mut found = false;
        let mut j: usize = 0;
        while j < r.len()
            invariant
                j <= r@.len(),
                found == exists|m: int| 0 <= m < j && r@[m] == x,
            decreases r@.len() - j,
        {
            if r[j] == x {
                found = true;
            }
            j = j + 1;
        }
        proof {
            if found {
                let m = choose|m: int| 0 <= m < j && r@[m] == x;
                assert(r@.contains(x));
            } else {
                assert(!r@.contains(x));
            }
        }
        if !found {
            r.push(x);
        }
        i = i + 1;
    }
    assert(s@.take(i as int) == s@);
    r
}

/// The timeline after `w` is recorded as an ungrounded writer that happens
/// somewhere in `min ..= max`: under `max` in every entry from `min` up to `max`,
/// and in an entry of its own at `min` where none stood (carrying on the
/// ungrounded writers of the entry before it that reach past `min`).
pub open spec fn ungrounded_inserted(s: Seq<EntryView>, min: i64, max: i64, w: NodeId) -> Seq<EntryView> {
    let p = count_before(s, min);
    let q = count_before(s, max);
    let spread = put_in_range(s, p, q, max, w);
    if has_entry_at(s, min) {
        spread
    } else {
        spread.insert(p, EntryView { time: min, grounded: None, ungrounded: reach_put(continuing(s, p, min), max, w) })
    }
}

/// The timeline after the ungrounded writer recorded under `max` is taken off
/// every entry from `min` up to `max`, and the entry at `min` with it where
/// nothing remains there; unchanged where no entry stands at `min`.
pub open spec fn ungrounded_removed(s: Seq<EntryView>, min: i64, max: i64) -> Seq<EntryView> {
    let p = count_before(s, min);
    let q = count_before(s, max);
    let cleared = erase_in_range(s, p, q, max);
    if !has_entry_at(s, min) {
        s
    } else if p < q && cleared[p].grounded.is_none() && cleared[p].ungrounded.len() == 0 {
        cleared.remove(p)
    } else {
        cleared
    }
}

/// The timeline after `w` is recorded as the grounded writer at `t`: the entry at
/// `t` takes `w`; where there was none, a new one carries on the ungrounded
/// writers of the entry before it that reach past `t`.
pub open spec fn grounded_inserted(s: Seq<EntryView>, t: i64, w: NodeId) -> Seq<EntryView> {
    let p = count_before(s, t);
    if has_entry_at(s, t) {
        s.update(p, EntryView { grounded: Some(w), ..s[p] })
    } else {
        s.insert(p, EntryView { time: t, grounded: Some(w), ungrounded: continuing(s, p, t) })
    }
}

/// The timeline after the grounded writer at `t` is taken off: the entry goes
/// with it where no ungrounded writer remains there.
pub open spec fn grounded_removed(s: Seq<EntryView>, t: i64) -> Seq<EntryView> {
    let p = count_before(s, t);
    if has_entry_at(s, t) && s[p].grounded.is_some() {
        if s[p].ungrounded.len() == 0 {
            s.remove(p)
        } else {
            s.update(p, EntryView { grounded: None, ..s[p] })
        }
    } else {
        s
    }
}

/// In a sorted timeline, the count of entries before `t` is the position that
/// splits the earlier entries from the rest.
pub proof fn lemma_count_before_at(s: Seq<EntryView>, t: i64, p: int)
    requires
        0 <= p <= s.len(),
        forall|j: int| 0 <= j < p ==> s[j].time < t,
        forall|j: int| p <= j < s.len() ==> s[j].time >= t,
    ensures
        count_before(s, t) == p,
    decreases s.len(),
{
    if s.len() > 0 && s.last().time >= t {
        lemma_count_before_at(s.drop_last(), t, p);
    }
}

/// In a sorted timeline, every entry before the count is earlier than `t`, and
/// every other one is not.
pub proof fn lemma_count_before_splits(s: Seq<EntryView>, t: i64)
    requires
        entries_sorted(s),
    ensures
        forall|j: int| 0 <= j < count_before(s, t) ==> s[j].time < t,
        forall|j: int| count_before(s, t) <= j < s.len() ==> s[j].time >= t,
    decreases s.len(),
{
    lemma_count_before(s, t);
    if s.len() > 0 && s.last().time >= t {
        assert(entries_sorted(s.drop_last())) by {
            assert forall|i: int| 0 <= i < s.drop_last().len() implies reaches_sorted(#[trigger] s.drop_last()[i].ungrounded) by {
                assert(s.drop_last()[i] == s[i]);
            }
        }
        lemma_count_before_splits(s.drop_last(), t);
        assert forall|j: int| 0 <= j < count_before(s, t) implies s[j].time < t by {
            assert(s.drop_last()[j] == s[j]);
        }
        assert forall|j: int| count_before(s, t) <= j < s.len() implies s[j].time >= t by {
            if j < s.len() - 1 {
                assert(s.drop_last()[j] == s[j]);
            }
        }
    } else if s.len() > 0 {
        assert forall|j: int| 0 <= j < count_before(s, t) implies s[j].time < t by {
            if j < s.len() - 1 {
                assert(s[j].time < s[s.len() - 1].time);
            }
        }
    }
}

/// Recording a grounded writer at an instant where the timeline had no entry and
/// no ungrounded writer reaches, then taking it off again, gives back the
/// timeline as it was.
pub proof fn lemma_insert_remove_grounded_restores(s: Seq<EntryView>, t: i64, w: NodeId)
    requires
        entries_sorted(s),
        !has_entry_at(s, t),
        continuing(s, count_before(s, t), t).len() == 0,
    ensures
        grounded_removed(grounded_inserted(s, t, w), t) == s,
{
    let p = count_before(s, t);
    lemma_count_before_splits(s, t);
    lemma_count_before(s, t);
    let e = EntryView { time: t, grounded: Some(w), ungrounded: continuing(s, p, t) };
    let s1 = s.insert(p, e);
    assert forall|j: int| p < j < s1.len() implies s1[j].time >= t by {
        assert(s1[j] == s[j - 1]);
    }
    lemma_count_before_at(s1, t, p);
    assert(s1.remove(p) =~= s);
}

/// Keeping the reaches past `t1`, then those past a later `t2`, keeps those past
/// `t2`.
pub proof fn lemma_reaches_after_twice(u: Seq<Reach>, t1: i64, t2: i64)
    requires
        t1 < t2,
    ensures
        reaches_after(reaches_after(u, t1), t2) == reaches_after(u, t2),
    decreases u.len(),
{
    if u.len() > 0 {
        let dl = u.drop_last();
        lemma_reaches_after_twice(dl, t1, t2);
        let x = reaches_after(dl, t1);
        if u.last().0 > t1 {
            assert(x.push(u.last()).drop_last() == x);
            assert(x.push(u.last()).last() == u.last());
        }
    }
}

/// Where another instant `u` falls in a timeline after a grounded writer is
/// recorded at `t`: one place later where a new entry went in before it, else
/// where it was; and it has an entry exactly where it had one.
pub proof fn lemma_position_after_grounded_insert(s: Seq<EntryView>, t: i64, w: NodeId, u: i64)
    requires
        entries_sorted(s),
        t != u,
    ensures
        count_before(grounded_inserted(s, t, w), u) == count_before(s, u) + if t < u && !has_entry_at(s, t) {
            1int
        } else {
            0int
        },
        has_entry_at(grounded_inserted(s, t, w), u) == has_entry_at(s, u),
{
    let p = count_before(s, t);
    let q = count_before(s, u);
    lemma_count_before_splits(s, t);
    lemma_count_before(s, t);
    lemma_count_before_splits(s, u);
    lemma_count_before(s, u);
    let r = grounded_inserted(s, t, w);
    if has_entry_at(s, t) {
        lemma_count_before_at(r, u, q);
        if q < s.len() {
            assert(r[q].time == s[q].time);
        }
    } else if t < u {
        assert(p <= q) by {
            if p > q {
                assert(s[q].time >= u);
                assert(s[q].time < t);
            }
        }
        assert forall|j: int| 0 <= j < q + 1 implies r[j].time < u by {
            if j > p {
                assert(r[j] == s[j - 1]);
            }
        }
        assert forall|j: int| q + 1 <= j < r.len() implies r[j].time >= u by {
            assert(r[j] == s[j - 1]);
        }
        lemma_count_before_at(r, u, q + 1);
        if q < s.len() {
            assert(r[q + 1] == s[q]);
        }
    } else {
        assert(q <= p) by {
            if q > p {
                assert(s[p].time >= t);
                assert(s[p].time < u);
            }
        }
        assert forall|j: int| q <= j < r.len() implies r[j].time >= u by {
            if j > p {
                assert(r[j] == s[j - 1]);
            } else if j < p {
            }
        }
        lemma_count_before_at(r, u, q);
        if q < p {
            assert(r[q] == s[q]);
        } else {
            assert(r[q].time == t);
        }
    }
}

/// Recording grounded writers at two different instants gives the same timeline
/// in either order.
pub proof fn lemma_grounded_inserts_commute(s: Seq<EntryView>, t1: i64, w1: NodeId, t2: i64, w2: NodeId)
    requires
        entries_sorted(s),
        t1 != t2,
    ensures
        grounded_inserted(grounded_inserted(s, t1, w1), t2, w2) == grounded_inserted(
            grounded_inserted(s, t2, w2),
            t1,
            w1,
        ),
{
    if t1 < t2 {
        lemma_inserts_commute_ordered(s, t1, w1, t2, w2);
    } else {
        lemma_inserts_commute_ordered(s, t2, w2, t1, w1);
    }
}

/// [`lemma_grounded_inserts_commute`] where `t1` is the earlier instant.
#[verifier::spinoff_prover]
#[verifier::rlimit(60)]
proof fn lemma_inserts_commute_ordered(s: Seq<EntryView>, t1: i64, w1: NodeId, t2: i64, w2: NodeId)
    requires
        entries_sorted(s),
        t1 < t2,
    ensures
        grounded_inserted(grounded_inserted(s, t1, w1), t2, w2) == grounded_inserted(
            grounded_inserted(s, t2, w2),
            t1,
            w1,
        ),
{
    let p1 = count_before(s, t1);
    let p2 = count_before(s, t2);
    lemma_count_before_splits(s, t1);
    lemma_count_before(s, t1);
    lemma_count_before_splits(s, t2);
    lemma_count_before(s, t2);
    assert(p1 <= p2) by {
        if p1 > p2 {
            assert(s[p2].time >= t2);
            assert(s[p2].time < t1);
        }
    }
    let s1 = grounded_inserted(s, t1, w1);
    let s2 = grounded_inserted(s, t2, w2);
    lemma_position_after_grounded_insert(s, t1, w1, t2);
    lemma_position_after_grounded_insert(s, t2, w2, t1);
    let h1 = has_entry_at(s, t1);
    let h2 = has_entry_at(s, t2);
    if h1 {
        assert(p1 < p2) by {
            if p1 == p2 {
                assert(s[p1].time == t1);
                assert(s[p2].time == t2);
            }
        }
    }
    let left = grounded_inserted(s1, t2, w2);
    let right = grounded_inserted(s2, t1, w1);
    if h1 && h2 {
        assert(left =~= right);
    } else if h1 && !h2 {
        assert(s1[p2 - 1].ungrounded == s[p2 - 1].ungrounded);
        assert(left =~= right);
    } else if !h1 && h2 {
        if p1 > 0 {
            assert(s2[p1 - 1] == s[p1 - 1]);
        }
        assert(left =~= right);
    } else {
        if p1 > 0 {
            assert(s2[p1 - 1] == s[p1 - 1]);
        }
        if p2 == p1 {
            if p1 > 0 {
                lemma_reaches_after_twice(s[p1 - 1].ungrounded, t1, t2);
            }
            assert(continuing(s1, p2 + 1, t2) == continuing(s, p2, t2));
        } else {
            assert(s1[p2] == s[p2 - 1]);
        }
        assert(left =~= right);
    }
}

/// The ungrounded lists of entries `lo .. hi`, latest entry first.
pub open spec fn merged_reaches(s: Seq<EntryView>, lo: int, hi: int) -> Seq<Reach>
    decreases hi - lo,
{
    if hi <= lo {
        Seq::empty()
    } else {
        s[hi - 1].ungrounded + merged_reaches(s, lo, hi - 1)
    }
}

/// The writers that may be upstream of a read at `t`, found by a backward walk.
#[derive(Debug)]
pub struct PossibleUpstreams {
    /// The time of the entry where the walk stopped.
    pub entry_time: i64,
    pub grounded: Option<NodeId>,
    /// The ungrounded writers met on the way, latest entry first.
    pub ungrounded: Vec<Reach>,
}

/// What a read at some time depends on.
#[derive(Debug)]
pub enum Upstream {
    /// A single grounded writer.
    Writer(NodeId),
    /// A choice among ungrounded writers and a grounded fallback, to be made once
    /// their times are known.
    Resolver {
        eval_time: i64,
        grounded: Option<(i64, NodeId)>,
        candidates: Vec<NodeId>,
    },
}

/// The count of entries before a time is at most the number of entries.
pub proof fn lemma_count_before(s: Seq<EntryView>, t: i64)
    ensures
        0 <= count_before(s, t) <= s.len(),
    decreases s.len(),
{
    if s.len() > 0 && s.last().time >= t {
        lemma_count_before(s.drop_last(), t);
    }
}

/// Where the walk stops, it stops at an entry that stops it, and no later one
/// before `k` does.
pub proof fn lemma_stop_index(s: Seq<EntryView>, t: i64, k: int)
    requires
        0 <= k <= s.len(),
    ensures
        -1 <= stop_index(s, t, k) < k,
        stop_index(s, t, k) >= 0 ==> stops_walk(s[stop_index(s, t, k)], t),
        forall|m: int| stop_index(s, t, k) < m < k && 0 <= m ==> !stops_walk(#[trigger] s[m], t),
    decreases k,
{
    if k > 0 && !stops_walk(s[k - 1], t) {
        lemma_stop_index(s, t, k - 1);
    }
}

/// Merging entries `lo .. hi` is merging `lo + 1 .. hi`, then entry `lo`.
pub proof fn lemma_merged_low(s: Seq<EntryView>, lo: int, hi: int)
    requires
        0 <= lo < hi <= s.len(),
    ensures
        merged_reaches(s, lo, hi) == merged_reaches(s, lo + 1, hi) + s[lo].ungrounded,
    decreases hi - lo,
{
    if hi == lo + 1 {
        assert(merged_reaches(s, lo + 1, hi) == Seq::<Reach>::empty());
        assert(merged_reaches(s, lo, lo) == Seq::<Reach>::empty());
        assert(merged_reaches(s, lo, hi) == s[lo].ungrounded + Seq::<Reach>::empty());
        assert(s[lo].ungrounded + Seq::<Reach>::empty() == s[lo].ungrounded);
        assert(Seq::<Reach>::empty() + s[lo].ungrounded == s[lo].ungrounded);
    } else {
        lemma_merged_low(s, lo, hi - 1);
        assert(merged_reaches(s, lo, hi) == s[hi - 1].ungrounded + merged_reaches(s, lo, hi - 1));
        assert(merged_reaches(s, lo + 1, hi) == s[hi - 1].ungrounded + merged_reaches(s, lo + 1, hi - 1));
        assert(s[hi - 1].ungrounded + (merged_reaches(s, lo + 1, hi - 1) + s[lo].ungrounded)
            == (s[hi - 1].ungrounded + merged_reaches(s, lo + 1, hi - 1)) + s[lo].ungrounded);
    }
}

/// The reaches of `u` after `t`.
pub fn copy_reaches_after(u: &Vec<Reach>, t: i64) -> (r: Vec<Reach>)
    requires
        reaches_sorted(u@),
    ensures
        r@ == reaches_after(u@, t),
        reaches_sorted(r@),
        forall|m: int| 0 <= m < r@.len() ==> r@[m].0 > t,
{
    let mut r: Vec<Reach> = Vec::new();
    let mut i: usize = 0;
    while i < u.len()
        invariant
            i <= u.len(),
            reaches_sorted(u@),
            r@ == reaches_after(u@.take(i as int), t),
            reaches_sorted(r@),
            forall|m: int| 0 <= m < r@.len() ==> r@[m].0 > t,
            forall|m: int, j: int| 0 <= m < r@.len() && i <= j < u@.len() ==> r@[m].0 < u@[j].0,
        decreases u.len() - i,
    {
        assert(u@.take(i + 1).drop_last() == u@.take(i as int));
        if u[i].0 > t {
            r.push(u[i]);
        }
        i = i + 1;
    }
    assert(u@.take(u.len() as int) == u@);
    r
}

/// `u` with `w` recorded under `max`.
pub fn put_reach(u: &Vec<Reach>, max: i64, w: NodeId) -> (r: Vec<Reach>)
    requires
        reaches_sorted(u@),
    ensures
        r@ == reach_put(u@, max, w),
        reaches_sorted(r@),
{
    let mut lower: Vec<Reach> = Vec::new();
    let mut i: usize = 0;
    while i < u.len()
        invariant
            i <= u.len(),
            reaches_sorted(u@),
            lower@ == reaches_before(u@.take(i as int), max),
            reaches_sorted(lower@),
            forall|m: int| 0 <= m < lower@.len() ==> lower@[m].0 < max,
            forall|m: int, j: int| 0 <= m < lower@.len() && i <= j < u@.len() ==> lower@[m].0 < u@[j].0,
        decreases u.len() - i,
    {
        assert(u@.take(i + 1).drop_last() == u@.take(i as int));
        if u[i].0 < max {
            lower.push(u[i]);
        }
        i = i + 1;
    }
    assert(u@.take(u.len() as int) == u@);
    lower.push((max, w));
    let mut upper = copy_reaches_after(u, max);
    let ghost l = lower@;
    let ghost h = upper@;
    lower.append(&mut upper);
    assert(lower@ == l + h);
    lower
}

/// `u` with nothing recorded under `max`.
pub fn erase_reach(u: &Vec<Reach>, max: i64) -> (r: Vec<Reach>)
    requires
        reaches_sorted(u@),
    ensures
        r@ == reach_erase(u@, max),
        reaches_sorted(r@),
{
    let mut lower: Vec<Reach> = Vec::new();
    let mut i: usize = 0;
    while i < u.len()
        invariant
            i <= u.len(),
            reaches_sorted(u@),
            lower@ == reaches_before(u@.take(i as int), max),
            reaches_sorted(lower@),
            forall|m: int| 0 <= m < lower@.len() ==> lower@[m].0 < max,
            forall|m: int, j: int| 0 <= m < lower@.len() && i <= j < u@.len() ==> lower@[m].0 < u@[j].0,
        decreases u.len() - i,
    {
        assert(u@.take(i + 1).drop_last() == u@.take(i as int));
        if u[i].0 < max {
            lower.push(u[i]);
        }
        i = i + 1;
    }
    assert(u@.take(u.len() as int) == u@);
    let mut upper = copy_reaches_after(u, max);
    let ghost l = lower@;
    let ghost h = upper@;
    lower.append(&mut upper);
    assert(lower@ == l + h);
    lower
}

/// Copies a list of reaches.
pub fn copy_reaches(u: &Vec<Reach>) -> (r: Vec<Reach>)
    ensures
        r@ == u@,
{
    let mut r: Vec<Reach> = Vec::new();
    let mut i: usize = 0;
    while i < u.len()
        invariant
            i <= u.len(),
            r@ == u@.take(i as int),
        decreases u.len() - i,
    {
        r.push(u[i]);
        i = i + 1;
        assert(r@ == u@.take(i as int));
    }
    assert(u@.take(u.len() as int) == u@);
    r
}

impl PossibleUpstreams {
    /// The grounded writer where no ungrounded one was met, else a resolver over
    /// all of them.
    pub fn into_upstream(self, eval_time: i64) -> (r: Upstream)
        requires
            self.ungrounded@.len() == 0 ==> self.grounded.is_some(),
        ensures
            self.ungrounded@.len() == 0 ==> r == Upstream::Writer(self.grounded.unwrap()),
            self.ungrounded@.len() > 0 ==> match r {
                Upstream::Resolver { eval_time: e, grounded, candidates } => {
                    &&& e == eval_time
                    &&& grounded == match self.grounded {
                        Some(g) => Some((self.entry_time, g)),
                        None => None::<(i64, NodeId)>,
                    }
                    &&& candidates@ == self.ungrounded@.map_values(|x: Reach| x.1)
                },
                _ => false,
            },
    {
        if self.ungrounded.len() == 0 {
            Upstream::Writer(self.grounded.unwrap())
        } else {
            let grounded = match self.grounded {
                Some(g) => Some((self.entry_time, g)),
                None => None,
            };
            let mut candidates: Vec<NodeId> = Vec::new();
            let mut i: usize = 0;
            while i < self.ungrounded.len()
                invariant
                    i <= self.ungrounded@.len(),
                    candidates@ == self.ungrounded@.take(i as int).map_values(|x: Reach| x.1),
                decreases self.ungrounded@.len() - i,
            {
                candidates.push(self.ungrounded[i].1);
                i = i + 1;
                assert(candidates@ =~= self.ungrounded@.take(i as int).map_values(|x: Reach| x.1));
            }
            assert(self.ungrounded@.take(i as int) == self.ungrounded@);
            Upstream::Resolver { eval_time, grounded, candidates }
        }
    }

    /// Every writer gathered: the ungrounded ones, then the grounded one.
    pub fn into_upstream_vec(self) -> (r: Vec<NodeId>)
        ensures
            r@ == self.ungrounded@.map_values(|x: Reach| x.1) + match self.grounded {
                Some(g) => seq![g],
                None => Seq::<NodeId>::empty(),
            },
    {
        let mut r: Vec<NodeId> = Vec::new();
        let mut i: usize = 0;
        while i < self.ungrounded.len()
            invariant
                i <= self.ungrounded@.len(),
                r@ == self.ungrounded@.take(i as int).map_values(|x: Reach| x.1),
            decreases self.ungrounded@.len() - i,
        {
            r.push(self.ungrounded[i].1);
            i = i + 1;
            assert(r@ =~= self.ungrounded@.take(i as int).map_values(|x: Reach| x.1));
        }
        assert(self.ungrounded@.take(i as int) == self.ungrounded@);
        if let Some(g) = self.grounded {
            r.push(g);
        } else {
            assert(r@ + Seq::<NodeId>::empty() == r@);
        }
        r
    }
}

/// A per-resource index of writers over time.
#[derive(Debug)]
pub struct Timeline {
    entries: Vec<TimelineEntry>,
}

impl Timeline {
    pub closed spec fn entries(&self) -> Seq<EntryView> {
        entry_views(self.entries@)
    }

    pub closed spec fn wf(&self) -> bool {
        entries_sorted(self.entries())
    }

    /// A timeline whose only writer is `initial` at `time`.
    pub fn init(time: i64, initial: NodeId) -> (r: Timeline)
        ensures
            r.wf(),
            r.entries().len() == 1,
            r.entries()[0].time == time,
            r.entries()[0].grounded == Some(initial),
            r.entries()[0].ungrounded.len() == 0,
    {
        let mut entries: Vec<TimelineEntry> = Vec::new();
        entries.push(TimelineEntry { time, grounded: Some(initial), ungrounded: Vec::new() });
        Timeline { entries }
    }

    /// Whether the walk for a read at `t` stops at entry `j`.
    fn stops_at(&self, j: usize, t: i64) -> (r: bool)
        requires
            self.wf(),
            j < self.entries().len(),
        ensures
            r == stops_walk(self.entries()[j as int], t),
    {
        let e = &self.entries[j];
        proof {
            assert(reaches_sorted(self.entries()[j as int].ungrounded));
        }
        if e.grounded.is_some() {
            true
        } else if e.ungrounded.len() > 0 && e.ungrounded[0].0 <= t {
            true
        } else {
            proof {
                if e.ungrounded@.len() > 0 {
                    assert forall|m: int| 0 <= m < e.ungrounded@.len() implies e.ungrounded@[m].0 > t by {
                        if m > 0 {
                            assert(e.ungrounded@[0].0 < e.ungrounded@[m].0);
                        }
                    }
                }
            }
            false
        }
    }

    /// Walks back from `t` (exclusive) until an entry holds a grounded writer or an
    /// ungrounded one certain to have happened by `t`, gathering the ungrounded
    /// writers met on the way. `None` where no entry lies before `t` that stops
    /// the walk.
    pub fn search_possible_upstreams(&self, t: i64) -> (r: Option<PossibleUpstreams>)
        requires
            self.wf(),
        ensures
            ({
                let s = self.entries();
                let k = count_before(s, t);
                let i = stop_index(s, t, k);
                &&& r.is_none() <==> i == -1
                &&& r.is_some() ==> {
                    &&& 0 <= i < k
                    &&& r.unwrap().entry_time < t
                    &&& r.unwrap().entry_time == s[i].time
                    &&& r.unwrap().grounded == s[i].grounded
                    &&& r.unwrap().ungrounded@ == merged_reaches(s, i, k)
                }
            }),
    {
        let ghost s = self.entries();
        let k = self.position(t);
        proof {
            lemma_stop_index(s, t, k as int);
        }
        let mut j: usize = k;
        let mut acc: Vec<Reach> = Vec::new();
        while j > 0
            invariant
                j <= k <= s.len(),
                s == self.entries(),
                entries_sorted(s),
                k == count_before(s, t),
                forall|m: int| 0 <= m < k ==> s[m].time < t,
                stop_index(s, t, k as int) == stop_index(s, t, j as int),
                acc@ == merged_reaches(s, j as int, k as int),
            decreases j,
        {
            let here = self.stops_at(j - 1, t);
            let more = copy_reaches(&self.entries[j - 1].ungrounded);
            proof {
                lemma_merged_low(s, j - 1, k as int);
            }
            let mut more = more;
            acc.append(&mut more);
            if here {
                return Some(
                    PossibleUpstreams {
                        entry_time: self.entries[j - 1].time,
                        grounded: self.entries[j - 1].grounded,
                        ungrounded: acc,
                    },
                );
            }
            j = j - 1;
        }
        None
    }

    /// What a read at `eval_time` depends on: the grounded writer where the walk
    /// met no ungrounded one, else a resolver over what it met.
    pub fn last_before(&self, eval_time: i64) -> (r: Option<Upstream>)
        requires
            self.wf(),
        ensures
            ({
                let s = self.entries();
                let k = count_before(s, eval_time);
                let i = stop_index(s, eval_time, k);
                let m = merged_reaches(s, i, k);
                &&& r.is_none() <==> i == -1
                &&& r.is_some() && m.len() == 0 ==> r.unwrap() == Upstream::Writer(s[i].grounded.unwrap())
                &&& r.is_some() && m.len() > 0 ==> match r.unwrap() {
                    Upstream::Resolver { eval_time: e, grounded, candidates } => {
                        &&& e == eval_time
                        &&& grounded == match s[i].grounded {
                            Some(g) => Some((s[i].time, g)),
                            None => None::<(i64, NodeId)>,
                        }
                        &&& candidates@ == m.map_values(|x: Reach| x.1)
                    },
                    _ => false,
                }
            }),
    {
        let ghost s = self.entries();
        let ghost k = count_before(s, eval_time);
        proof {
            lemma_count_before(s, eval_time);
            lemma_stop_index(s, eval_time, k);
            let i = stop_index(s, eval_time, k);
            if i >= 0 {
                lemma_merged_low(s, i, k);
            }
        }
        match self.search_possible_upstreams(eval_time) {
            None => None,
            Some(found) => Some(found.into_upstream(eval_time)),
        }
    }

    /// Records `w` as the grounded writer at `t`. Where no entry stood at `t`, the
    /// new one carries on the ungrounded writers of the entry before it whose window
    /// reaches past `t`. Returns the writers that a read at `t` depended on before,
    /// whose readers may now depend on `w` instead.
    pub fn insert_grounded(&mut self, t: i64, w: NodeId) -> (r: Vec<NodeId>)
        requires
            old(self).wf(),
        ensures
            final(self).wf(),
            r@ == upstream_writers(old(self).entries(), t),
            final(self).entries() == grounded_inserted(old(self).entries(), t, w),
    {
        let ghost s = self.entries();
        let previous = match self.search_possible_upstreams(t) {
            Some(found) => found.into_upstream_vec(),
            None => Vec::new(),
        };
        proof {
            lemma_count_before(s, t);
            lemma_stop_index(s, t, count_before(s, t));
        }
        let p = self.position(t);
        if p < self.entries.len() && self.entries[p].time == t {
            let ungrounded = copy_reaches(&self.entries[p].ungrounded);
            self.entries.set(p, TimelineEntry { time: t, grounded: Some(w), ungrounded });
            assert(self.entries() =~= s.update(p as int, EntryView { grounded: Some(w), ..s[p as int] }));
        } else {
            let ungrounded = if p > 0 {
                proof {
                    assert(reaches_sorted(s[p - 1].ungrounded));
                }
                copy_reaches_after(&self.entries[p - 1].ungrounded, t)
            } else {
                Vec::new()
            };
            self.entries.insert(p, TimelineEntry { time: t, grounded: Some(w), ungrounded });
            assert(self.entries() =~= s.insert(
                p as int,
                EntryView { time: t, grounded: Some(w), ungrounded: continuing(s, p as int, t) },
            ));
        }
        previous
    }

    /// Takes the grounded writer at `t` off the timeline, and the entry with it
    /// where no ungrounded writer remains there. Returns whether there was one.
    pub fn remove_grounded(&mut self, t: i64) -> (r: bool)
        requires
            old(self).wf(),
        ensures
            final(self).wf(),
            r == (has_entry_at(old(self).entries(), t)
                && old(self).entries()[count_before(old(self).entries(), t)].grounded.is_some()),
            final(self).entries() == grounded_removed(old(self).entries(), t),
    {
        let ghost s = self.entries();
        let p = self.position(t);
        if p < self.entries.len() && self.entries[p].time == t && self.entries[p].grounded.is_some() {
            if self.entries[p].ungrounded.len() == 0 {
                let _ = self.entries.remove(p);
                assert(self.entries() =~= s.remove(p as int));
            } else {
                let ungrounded = copy_reaches(&self.entries[p].ungrounded);
                self.entries.set(p, TimelineEntry { time: t, grounded: None, ungrounded });
                assert(self.entries() =~= s.update(p as int, EntryView { grounded: None, ..s[p as int] }));
            }
            true
        } else {
            false
        }
    }

    /// Records `w` as an ungrounded writer that happens somewhere in `min ..= max`:
    /// under `max` in every entry from `min` up to `max`, and in an entry of its own at
    /// `min` where none stood (carrying on the ungrounded writers of the entry
    /// before it that reach past `min`). Returns the writers whose readers may now
    /// depend on `w`: those a read at `min` depended on, then those named by the
    /// entries it spans.
    pub fn insert_ungrounded(&mut self, min: i64, max: i64, w: NodeId) -> (r: Vec<NodeId>)
        requires
            old(self).wf(),
            min < max,
        ensures
            final(self).wf(),
            r@ == upstream_writers(old(self).entries(), min) + writers_between(
                old(self).entries(),
                count_before(old(self).entries(), min),
                count_before(old(self).entries(), max),
            ),
            final(self).entries() == ungrounded_inserted(old(self).entries(), min, max, w),
    {
        let ghost s = self.entries();
        let mut touched = match self.search_possible_upstreams(min) {
            Some(found) => found.into_upstream_vec(),
            None => Vec::new(),
        };
        proof {
            lemma_count_before(s, min);
            lemma_stop_index(s, min, count_before(s, min));
        }
        let ghost before = touched@;
        let p = self.position(min);
        let q = self.position(max);
        let mut j: usize = p;
        assert(put_in_range(s, p as int, p as int, max, w) =~= s);
        while j < q
            invariant
                p <= j <= q <= s.len(),
                self.entries().len() == s.len(),
                self.entries() == put_in_range(s, p as int, j as int, max, w),
                self.wf(),
                touched@ == before + writers_between(s, p as int, j as int),
                forall|m: int| 0 <= m < p ==> s[m].time < min,
                forall|m: int| p <= m < s.len() ==> s[m].time >= min,
                forall|m: int| 0 <= m < q ==> s[m].time < max,
            decreases q - j,
        {
            let mut named = self.entries[j].writers();
            let ghost t0 = touched@;
            touched.append(&mut named);
            proof {
                assert(self.entries()[j as int] == s[j as int]);
                assert(reaches_sorted(s[j as int].ungrounded));
            }
            let ungrounded = put_reach(&self.entries[j].ungrounded, max, w);
            let time = self.entries[j].time;
            let grounded = self.entries[j].grounded;
            let ghost prev = self.entries();
            let ghost e = EntryView { time, grounded, ungrounded: ungrounded@ };
            self.entries.set(j, TimelineEntry { time, grounded, ungrounded });
            assert(self.entries() =~= prev.update(j as int, e));
            assert(prev.update(j as int, e) =~= put_in_range(s, p as int, j + 1, max, w));
            proof {
                assert forall|a: int| 0 <= a < self.entries().len() implies #[trigger] self.entries()[a].time
                    == prev[a].time && reaches_sorted(self.entries()[a].ungrounded) by {
                    if a != j {
                        assert(reaches_sorted(prev[a].ungrounded));
                    }
                }
            }
            j = j + 1;
            assert(touched@ =~= before + writers_between(s, p as int, j as int));
        }
        assert(p < s.len() ==> self.entries()[p as int].time == s[p as int].time);
        if !(p < self.entries.len() && self.entries[p].time == min) {
            let ungrounded = if p > 0 {
                proof {
                    assert(reaches_sorted(self.entries()[p - 1].ungrounded));
                    assert(self.entries()[p - 1] == s[p - 1]);
                }
                let carried = copy_reaches_after(&self.entries[p - 1].ungrounded, min);
                put_reach(&carried, max, w)
            } else {
                let carried: Vec<Reach> = Vec::new();
                put_reach(&carried, max, w)
            };
            let ghost spread = self.entries();
            let ghost new_reaches = ungrounded@;
            self.entries.insert(p, TimelineEntry { time: min, grounded: None, ungrounded });
            proof {
                let f = self.entries();
                assert(f =~= spread.insert(p as int, EntryView { time: min, grounded: None, ungrounded: new_reaches }));
                assert forall|a: int| 0 <= a < spread.len() implies #[trigger] spread[a].time == s[a].time
                    && reaches_sorted(spread[a].ungrounded) by {}
                assert forall|a: int| 0 <= a < f.len() implies reaches_sorted(#[trigger] f[a].ungrounded) by {
                    if a < p {
                        assert(f[a] == spread[a]);
                    } else if a > p {
                        assert(f[a] == spread[a - 1]);
                    }
                }
                assert forall|a: int, b: int| 0 <= a < b < f.len() implies f[a].time < f[b].time by {
                    if b < p {
                        assert(f[a] == spread[a] && f[b] == spread[b]);
                    } else if a > p {
                        assert(f[a] == spread[a - 1] && f[b] == spread[b - 1]);
                    } else if a == p {
                        assert(f[b] == spread[b - 1]);
                    } else if b == p {
                        assert(f[a] == spread[a]);
                    } else {
                        assert(f[a] == spread[a] && f[b] == spread[b - 1]);
                    }
                }
            }
            assert(self.entries() =~= spread.insert(
                p as int,
                EntryView {
                    time: min,
                    grounded: None,
                    ungrounded: reach_put(continuing(s, p as int, min), max, w),
                },
            ));
        }
        touched
    }

    /// Takes the ungrounded writer recorded under `max` off every entry from `min`
    /// up to `max`, and the entry at `min` with it where nothing remains there.
    /// Returns whether an entry stood at `min`; where none did, nothing changes.
    pub fn remove_ungrounded(&mut self, min: i64, max: i64) -> (r: bool)
        requires
            old(self).wf(),
        ensures
            final(self).wf(),
            r == has_entry_at(old(self).entries(), min),
            final(self).entries() == ungrounded_removed(old(self).entries(), min, max),
    {
        let ghost s = self.entries();
        proof {
            lemma_count_before(s, min);
        }
        let p = self.position(min);
        if !(p < self.entries.len() && self.entries[p].time == min) {
            return false;
        }
        let q = self.position(max);
        let mut j: usize = p;
        if q < p {
            j = q;
        }
        let ghost lo = j as int;
        assert(erase_in_range(s, lo, lo, max) =~= s);
        while j < q
            invariant
                lo <= j,
                j <= q <= s.len(),
                q < p ==> lo == q,
                q >= p ==> lo == p,
                self.entries().len() == s.len(),
                self.entries() == erase_in_range(s, lo, j as int, max),
                self.wf(),
            decreases q - j,
        {
            proof {
                assert(self.entries()[j as int] == s[j as int]);
                assert(reaches_sorted(s[j as int].ungrounded));
            }
            let ungrounded = erase_reach(&self.entries[j].ungrounded, max);
            let time = self.entries[j].time;
            let grounded = self.entries[j].grounded;
            let ghost prev = self.entries();
            let ghost e = EntryView { time, grounded, ungrounded: ungrounded@ };
            self.entries.set(j, TimelineEntry { time, grounded, ungrounded });
            assert(self.entries() =~= prev.update(j as int, e));
            assert(prev.update(j as int, e) =~= erase_in_range(s, lo, j + 1, max));
            proof {
                assert forall|a: int| 0 <= a < self.entries().len() implies #[trigger] self.entries()[a].time
                    == prev[a].time && reaches_sorted(self.entries()[a].ungrounded) by {
                    if a != j {
                        assert(reaches_sorted(prev[a].ungrounded));
                    }
                }
            }
            j = j + 1;
        }
        assert(erase_in_range(s, lo, q as int, max) =~= erase_in_range(s, p as int, q as int, max));
        if p < q && p < self.entries.len() && self.entries[p].time == min
            && self.entries[p].grounded.is_none() && self.entries[p].ungrounded.len() == 0 {
            let ghost cleared = self.entries();
            let _ = self.entries.remove(p);
            assert(self.entries() =~= cleared.remove(p as int));
        }
        true
    }

    /// The writers that a view over `lo .. hi` reads.
    pub fn range(&self, lo: i64, hi: i64) -> (r: Vec<MaybeGrounded>)
        requires
            self.wf(),
        ensures
            r@ == range_writers(self.entries(), lo, hi),
            forall|i: int, j: int| 0 <= i < j < r@.len() && r@[i] is Ungrounded && r@[j] is Ungrounded ==> r@[i] != r@[j],
    {
        let ghost s = self.entries();
        let a = self.position(lo);
        let b = if hi <= lo { a } else { self.position(hi) };
        proof {
            lemma_count_before(s, lo);
            lemma_stop_index(s, lo, a as int);
        }
        let mut result: Vec<MaybeGrounded> = Vec::new();
        let mut j: usize = a;
        assert(grounded_between(s, a as int, a as int) =~= Seq::<MaybeGrounded>::empty());
        while j < b
            invariant
                a <= j <= b <= s.len(),
                s == self.entries(),
                result@ == grounded_between(s, a as int, j as int),
            decreases b - j,
        {
            if let Some(g) = self.entries[j].grounded {
                result.push(MaybeGrounded::Grounded(self.entries[j].time, g));
            }
            j = j + 1;
            assert(result@ =~= grounded_between(s, a as int, j as int));
        }
        let cover = result.len() == 0 || match result[0] {
            MaybeGrounded::Grounded(t, _) => t > lo,
            _ => true,
        };
        let mut start = a;
        if cover {
            let mut k: usize = a;
            let mut stopped = false;
            while k > 0 && !stopped
                invariant
                    k <= a <= s.len(),
                    s == self.entries(),
                    entries_sorted(s),
                    stopped ==> k < a && stops_walk(s[k as int], lo) && stop_index(s, lo, a as int) == k,
                    !stopped ==> stop_index(s, lo, a as int) == stop_index(s, lo, k as int),
                decreases k + (if stopped { 0int } else { 1int }),
            {
                if self.stops_at(k - 1, lo) {
                    stopped = true;
                }
                k = k - 1;
            }
            if stopped {
                if let Some(g) = self.entries[k].grounded {
                    result.push(MaybeGrounded::Grounded(self.entries[k].time, g));
                }
            }
            start = k;
        }
        let mut ids: Vec<NodeId> = Vec::new();
        let mut i: usize = b;
        while i > start
            invariant
                start <= i <= b <= s.len(),
                s == self.entries(),
                ids@ == merged_reaches(s, i as int, b as int).map_values(|x: Reach| x.1),
            decreases i,
        {
            let mut m: usize = 0;
            let ghost base = ids@;
            proof {
                lemma_merged_low(s, i - 1, b as int);
            }
            while m < self.entries[i - 1].ungrounded.len()
                invariant
                    0 < i <= s.len(),
                    s == self.entries(),
                    m <= s[i - 1].ungrounded.len(),
                    ids@ == base + s[i - 1].ungrounded.take(m as int).map_values(|x: Reach| x.1),
                decreases s[i - 1].ungrounded.len() - m,
            {
                ids.push(self.entries[i - 1].ungrounded[m].1);
                m = m + 1;
                assert(ids@ =~= base + s[i - 1].ungrounded.take(m as int).map_values(|x: Reach| x.1));
            }
            assert(s[i - 1].ungrounded.take(m as int) == s[i - 1].ungrounded);
            i = i - 1;
            assert(ids@ =~= merged_reaches(s, i as int, b as int).map_values(|x: Reach| x.1));
        }
        let once = distinct(&ids);
        let ghost before = result@;
        let mut k: usize = 0;
        while k < once.len()
            invariant
                k <= once@.len(),
                result@ == before + once@.take(k as int).map_values(|n: NodeId| MaybeGrounded::Ungrounded(n)),
            decreases once@.len() - k,
        {
            result.push(MaybeGrounded::Ungrounded(once[k]));
            k = k + 1;
            assert(result@ =~= before + once@.take(k as int).map_values(|n: NodeId| MaybeGrounded::Ungrounded(n)));
        }
        assert(once@.take(k as int) == once@);
        proof {
            lemma_grounded_between_grounded(s, a as int, b as int);
            lemma_distinct_nodes_unique(ids@);
            let r = result@;
            let tail = before.len();
            assert forall|x: int, y: int| 0 <= x < y < r.len() && r[x] is Ungrounded && r[y] is Ungrounded implies r[x]
                != r[y] by {
                if x < tail {
                    assert(r[x] == before[x]);
                } else {
                    assert(r[x] == MaybeGrounded::Ungrounded(once@[x - tail]));
                    assert(r[y] == MaybeGrounded::Ungrounded(once@[y - tail]));
                }
            }
        }
        result
    }

    /// The number of entries strictly before `t`.
    fn position(&self, t: i64) -> (r: usize)
        requires
            self.wf(),
        ensures
            r == count_before(self.entries(), t),
            r <= self.entries().len(),
            forall|j: int| 0 <= j < r ==> self.entries()[j].time < t,
            forall|j: int| r <= j < self.entries().len() ==> self.entries()[j].time >= t,
    {
        let ghost s = self.entries();
        let mut k: usize = self.entries.len();
        assert(s.take(s.len() as int) == s);
        while k > 0 && self.entries[k - 1].time >= t
            invariant
                k <= s.len(),
                s == self.entries(),
                entries_sorted(s),
                count_before(s, t) == count_before(s.take(k as int), t),
                forall|j: int| k <= j < s.len() ==> s[j].time >= t,
            decreases k,
        {
            assert(s.take(k as int).drop_last() == s.take(k - 1));
            k = k - 1;
        }
        assert(s.take(s.len() as int) == s);
        proof {
            if k > 0 {
                assert(s.take(k as int).last() == s[k - 1]);
            } else {
                assert(s.take(0).len() == 0);
            }
        }
        k
    }
}

} // verus!
