use peregrine::activity::ActivityId;
use peregrine::exec::{ErrorAccumulator, ExecEnvironment, ShouldSpawn, STACK_LIMIT};
use peregrine::hashing::{initial_value_hash, structural_hash};
use peregrine::history::History;
use peregrine::operation::{ObservedErrorOutput, OpError, OperationStatus};
use peregrine::plan::InitialConditions;
use peregrine::time::{Duration, Time};
use peregrine::timeline::{MaybeGrounded, Timeline, Upstream};
use peregrine::ungrounded::{choose_upstream, MarkedValue, UngroundedUpstreamResolver};

#[test]
fn duration_units() {
    assert_eq!(Duration::zero().0, 0);
    assert_eq!(Duration::microseconds(7).0, 7);
    assert_eq!(Duration::milliseconds(3).0, 3_000);
    assert_eq!(Duration::seconds(-2).0, -2_000_000);
    assert_eq!(Duration::minutes(1).0, 60_000_000);
    assert_eq!(Duration::hours(2).0, 7_200_000_000);
    assert_eq!(Duration::days(1).0, 86_400_000_000);
    assert_eq!(Duration::seconds(1).checked_add(Duration::microseconds(5)).unwrap().0, 1_000_005);
    assert!(Duration(i64::MAX).checked_add(Duration(1)).is_none());
}

#[test]
fn time_arithmetic() {
    let t = Time::zero_todo().add(Duration::seconds(3));
    assert_eq!(t.0, 3_000_000);
    assert_eq!(t.sub(Duration::seconds(1)).0, 2_000_000);
    let mut u = t;
    u.add_assign(Duration::microseconds(10));
    u.sub_assign(Duration::microseconds(4));
    assert_eq!(u.0, 3_000_006);
    assert_eq!(u.since(t).0, 6);
}

#[test]
fn activity_id_keeps_its_number() {
    assert_eq!(ActivityId::new(17).0, 17);
}

#[test]
fn should_spawn_counts_to_the_limit() {
    assert_eq!(ShouldSpawn::Yes.increment(), ShouldSpawn::No(0));
    assert_eq!(ShouldSpawn::No(4).increment(), ShouldSpawn::No(5));
    assert_eq!(ShouldSpawn::No(STACK_LIMIT - 1).increment(), ShouldSpawn::No(STACK_LIMIT));
    assert_eq!(ShouldSpawn::No(STACK_LIMIT).increment(), ShouldSpawn::Yes);
}

#[test]
fn exec_environment_depth() {
    let e = ExecEnvironment::new().increment().increment();
    assert_eq!(e.stack_counter, 2);
    assert!(e.may_inline());
    assert_eq!(e.reset().stack_counter, 0);
    assert!(!ExecEnvironment { stack_counter: STACK_LIMIT as usize }.may_inline());
}

#[test]
fn error_accumulator_skips_the_marker() {
    let mut acc = ErrorAccumulator::new();
    assert!(acc.is_empty());
    acc.push(OpError::Observed);
    assert!(acc.is_empty());
    acc.push(OpError::Overflow { node: 3, time: 9 });
    acc.push(OpError::Observed);
    acc.push(OpError::OutOfWindow { node: 1 });
    assert!(!acc.is_empty());
    let taken = acc.take();
    assert_eq!(taken, vec![OpError::Overflow { node: 3, time: 9 }, OpError::OutOfWindow { node: 1 }]);
    assert!(acc.is_empty());
    acc.push(OpError::Overflow { node: 1, time: 1 });
    assert_eq!(acc.into_vec().len(), 1);
}

#[test]
fn operation_status_unwraps_done() {
    let done: OperationStatus<u32> = OperationStatus::Done(Ok(4));
    assert_eq!(done.unwrap_done(), Ok(4));
    let failed: OperationStatus<u32> = OperationStatus::Done(Err(ObservedErrorOutput));
    assert_eq!(failed.unwrap_done(), Err(ObservedErrorOutput));
}

#[test]
fn history_keeps_the_first_value() {
    let mut h = History::new();
    assert_eq!(h.get(1, 10), None);
    assert_eq!(h.insert(1, 10, 5), 5);
    assert_eq!(h.insert(1, 10, 6), 5);
    assert_eq!(h.get(1, 10), Some(5));
    assert_eq!(h.get(2, 10), None);
    assert_eq!(h.insert(2, 10, 7), 7);
    assert_eq!(h.get(2, 10), Some(7));
}

#[test]
fn history_survives_many_inserts() {
    let mut h = History::new();
    let hash = 0b10110100100101001010;
    h.insert(1, hash, 42);
    for _ in 0..2_000 {
        h.insert(1, rand::random(), 7);
    }
    assert_eq!(h.get(1, hash), Some(42));
}

#[test]
fn history_entries_round_trip() {
    let mut h = History::new();
    h.insert(0xa, 0, 5);
    h.insert(0xa, 1, 6);
    h.insert(0xb, 10, 100);
    h.insert(0xb, 11, 101);
    let entries = h.entries();
    assert_eq!(entries.len(), 4);
    let bytes = bincode::encode_to_vec(&entries, bincode::config::standard()).unwrap();
    let (decoded, _): (Vec<((u64, u64), u64)>, usize) =
        bincode::decode_from_slice(&bytes, bincode::config::standard()).unwrap();
    let back = History::from_entries(&decoded);
    assert_eq!(back.get(0xa, 0), Some(5));
    assert_eq!(back.get(0xa, 1), Some(6));
    assert_eq!(back.get(0xb, 10), Some(100));
    assert_eq!(back.get(0xb, 11), Some(101));
    assert_eq!(back.get(0xa, 100), None);
}

#[test]
fn structural_hash_depends_on_kind_and_order() {
    let h1 = structural_hash(1, &vec![2, 3]);
    assert_eq!(h1, structural_hash(1, &vec![2, 3]));
    assert_ne!(h1, structural_hash(1, &vec![3, 2]));
    assert_ne!(h1, structural_hash(2, &vec![2, 3]));
    assert_ne!(structural_hash(5, &vec![]), structural_hash(5, &vec![0]));
    assert_eq!(structural_hash(5, &vec![]), 5);
}

#[test]
fn initial_value_hash_depends_on_the_value() {
    let a = initial_value_hash(5);
    assert_eq!(a, initial_value_hash(5));
    assert_ne!(a, initial_value_hash(6));
    assert_ne!(a, 0);
}

#[test]
fn initial_conditions_replace_and_take() {
    let mut ic = InitialConditions::new().insert(1, 10).insert(2, 20).insert(1, 11);
    assert_eq!(ic.take(1), Some(11));
    assert_eq!(ic.take(1), None);
    assert_eq!(ic.take(2), Some(20));
    assert_eq!(ic.take(3), None);
}

fn grounded_times(tl: &Timeline, lo: i64, hi: i64) -> Vec<MaybeGrounded> {
    tl.range(lo, hi)
}

#[test]
fn timeline_last_before_is_strict() {
    let mut tl = Timeline::init(0, 100);
    tl.insert_grounded(10, 1);
    tl.insert_grounded(20, 2);
    assert!(matches!(tl.last_before(0), None));
    assert!(matches!(tl.last_before(10), Some(Upstream::Writer(100))));
    assert!(matches!(tl.last_before(11), Some(Upstream::Writer(1))));
    assert!(matches!(tl.last_before(25), Some(Upstream::Writer(2))));
}

#[test]
fn timeline_insert_returns_previous_upstreams() {
    let mut tl = Timeline::init(0, 100);
    assert_eq!(tl.insert_grounded(10, 1), vec![100]);
    assert_eq!(tl.insert_grounded(5, 2), vec![100]);
    assert_eq!(tl.insert_grounded(10, 3), vec![2]);
    assert!(matches!(tl.last_before(11), Some(Upstream::Writer(3))));
}

#[test]
fn timeline_remove_grounded() {
    let mut tl = Timeline::init(0, 100);
    tl.insert_grounded(10, 1);
    assert!(tl.remove_grounded(10));
    assert!(!tl.remove_grounded(10));
    assert!(!tl.remove_grounded(7));
    assert!(matches!(tl.last_before(11), Some(Upstream::Writer(100))));
}

#[test]
fn timeline_ungrounded_writer_needs_resolution() {
    let mut tl = Timeline::init(0, 100);
    tl.insert_grounded(10, 1);
    let touched = tl.insert_ungrounded(5, 15, 7);
    assert_eq!(touched, vec![100, 1]);
    match tl.last_before(12) {
        Some(Upstream::Resolver { eval_time, grounded, candidates }) => {
            assert_eq!(eval_time, 12);
            assert_eq!(grounded, Some((10, 1)));
            assert_eq!(candidates, vec![7]);
        }
        other => panic!("expected a resolver, got {:?}", other),
    }
    match tl.last_before(16) {
        Some(Upstream::Resolver { grounded, candidates, .. }) => {
            assert_eq!(grounded, Some((10, 1)));
            assert_eq!(candidates, vec![7]);
        }
        other => panic!("expected a resolver, got {:?}", other),
    }
    assert!(tl.remove_ungrounded(5, 15));
    assert!(!tl.remove_ungrounded(5, 15));
    assert!(matches!(tl.last_before(12), Some(Upstream::Writer(1))));
    assert!(matches!(tl.last_before(7), Some(Upstream::Writer(100))));
}

#[test]
fn timeline_range_covers_the_start() {
    let mut tl = Timeline::init(0, 100);
    tl.insert_grounded(10, 1);
    tl.insert_grounded(20, 2);
    let r = grounded_times(&tl, 12, 30);
    assert_eq!(r, vec![MaybeGrounded::Grounded(20, 2), MaybeGrounded::Grounded(10, 1)]);
    let r = grounded_times(&tl, 10, 20);
    assert_eq!(r, vec![MaybeGrounded::Grounded(10, 1)]);
    let r = grounded_times(&tl, 10, 10);
    assert_eq!(r, vec![MaybeGrounded::Grounded(0, 100)]);
    let r = grounded_times(&tl, 6, 8);
    assert_eq!(r, vec![MaybeGrounded::Grounded(0, 100)]);
}

#[test]
fn resolver_picks_the_latest_before_the_read() {
    let candidates = vec![11, 12, 13];
    let responses = vec![
        Ok(MarkedValue { marker: 0, value: 5 }),
        Ok(MarkedValue { marker: 2, value: 9 }),
        Ok(MarkedValue { marker: 1, value: 30 }),
    ];
    assert_eq!(choose_upstream(20, None, &candidates, &responses), Ok(Some((9, 13))));
    assert_eq!(choose_upstream(20, Some((15, 99)), &candidates, &responses), Ok(Some((15, 99))));
    assert_eq!(choose_upstream(20, Some((9, 99)), &candidates, &responses), Ok(Some((9, 13))));
    assert_eq!(choose_upstream(5, Some((1, 99)), &candidates, &responses), Ok(Some((1, 99))));
    assert_eq!(choose_upstream(5, None, &candidates, &responses), Ok(None));
    let failed = vec![Ok(MarkedValue { marker: 0, value: 5 }), Err(ObservedErrorOutput)];
    assert_eq!(choose_upstream(20, None, &candidates, &failed), Err(ObservedErrorOutput));
}

#[test]
fn resolver_decides_once_all_answer() {
    let mut r = UngroundedUpstreamResolver::new(20, Some((3, 50)), vec![11, 12]);
    assert_eq!(r.respond(Ok(MarkedValue { marker: 1, value: 8 })), None);
    assert_eq!(r.cached(), None);
    assert_eq!(r.respond(Ok(MarkedValue { marker: 0, value: 6 })), Some(Ok(Some((8, 12)))));
    assert_eq!(r.cached(), Some(Ok(Some((8, 12)))));
    r.clear_cache();
    assert_eq!(r.cached(), None);
}

#[test]
fn remove_ungrounded_reports_the_entry_at_min() {
    let mut tl = Timeline::init(0, 0);
    assert!(!tl.remove_ungrounded(3, 5));
    assert!(matches!(tl.last_before(1), Some(Upstream::Writer(0))));
    assert!(tl.remove_ungrounded(0, 5));
    assert!(matches!(tl.last_before(1), Some(Upstream::Writer(0))));
}

#[test]
fn range_lists_a_spanning_ungrounded_writer_once() {
    let mut tl = Timeline::init(0, 100);
    tl.insert_ungrounded(5, 30, 7);
    tl.insert_grounded(10, 1);
    tl.insert_grounded(20, 2);
    let r = grounded_times(&tl, 6, 25);
    assert_eq!(
        r,
        vec![
            MaybeGrounded::Grounded(10, 1),
            MaybeGrounded::Grounded(20, 2),
            MaybeGrounded::Grounded(0, 100),
            MaybeGrounded::Ungrounded(7),
        ]
    );
}
