use peregrine::activity::ActivityId;
use peregrine::body::Term;
use peregrine::operation::OpError;
use peregrine::plan::{Activity, InitialConditions, OpTime, Operation, OperationWrite, Plan, PlanError, Session};

const A: u64 = 0xa;
const B: u64 = 0xb;

const INC_A: u64 = 1;
const INC_B: u64 = 2;
const SET_B_TO_A: u64 = 3;
const SET_A_TO_B: u64 = 4;
const ADD_B_TO_A: u64 = 5;
const COUNTER: u64 = 6;

fn seconds(s: i64) -> i64 {
    s * 1_000_000
}

fn op(kind: u64, reads: Vec<u64>, writes: Vec<(u64, Vec<Term>)>) -> Activity {
    Activity {
        operations: vec![Operation {
            time: OpTime::At(0),
            kind,
            reads,
            writes: writes
                .into_iter()
                .map(|(resource, terms)| OperationWrite { resource, terms })
                .collect(),
        }],
    }
}

fn increment_a() -> Activity {
    op(INC_A, vec![A], vec![(A, vec![Term::Read(0), Term::Const(1)])])
}

fn increment_b() -> Activity {
    op(INC_B, vec![B], vec![(B, vec![Term::Read(0), Term::Const(1)])])
}

fn set_b_to_a() -> Activity {
    op(SET_B_TO_A, vec![A], vec![(B, vec![Term::Read(0)])])
}

fn set_a_to_b() -> Activity {
    op(SET_A_TO_B, vec![B], vec![(A, vec![Term::Read(0)])])
}

fn add_b_to_a() -> Activity {
    op(ADD_B_TO_A, vec![A, B], vec![(A, vec![Term::Read(0), Term::Read(1)])])
}

fn eval_counter() -> Activity {
    op(COUNTER, vec![A], vec![(A, vec![Term::Read(0)])])
}

fn init_plan(session: Session) -> Plan {
    let ic = InitialConditions::new().insert(A, 0).insert(B, 0);
    session.new_plan(seconds(-1), ic)
}

fn runs(plan: &Plan, id: ActivityId) -> u64 {
    plan.activity_runs(id).unwrap()
}

#[test]
fn basic_insertion() {
    let mut plan = init_plan(Session::new());
    plan.insert(seconds(0), &increment_a()).unwrap();
    plan.insert(seconds(1), &set_b_to_a()).unwrap();
    assert_eq!(1, plan.sample(A, seconds(1)).unwrap());
    assert_eq!(1, plan.sample(B, seconds(1)).unwrap());
}

#[test]
fn longer_chain() {
    let mut plan = init_plan(Session::new());
    for i in 0..100 {
        plan.insert(seconds(4 * i), &increment_a()).unwrap();
        plan.insert(seconds(4 * i + 1), &set_b_to_a()).unwrap();
        plan.insert(seconds(4 * i + 2), &increment_b()).unwrap();
        plan.insert(seconds(4 * i + 3), &set_a_to_b()).unwrap();
    }
    assert_eq!(5, plan.sample(A, seconds(8)).unwrap());
    assert_eq!(4, plan.sample(B, seconds(8)).unwrap());
    assert_eq!(200, plan.sample(A, seconds(400)).unwrap());
    assert_eq!(200, plan.sample(B, seconds(400)).unwrap());
}

#[test]
fn backward_insertion() {
    let mut plan = init_plan(Session::new());
    plan.insert(seconds(2), &increment_a()).unwrap();
    plan.insert(seconds(1), &set_a_to_b()).unwrap();
    plan.insert(seconds(0), &increment_b()).unwrap();
    assert_eq!(2, plan.sample(A, seconds(2)).unwrap());
}

#[test]
fn out_of_order_insertion() {
    let mut plan = init_plan(Session::new());
    plan.insert(seconds(1), &set_b_to_a()).unwrap();
    plan.insert(seconds(0), &increment_a()).unwrap();
    plan.insert(seconds(3), &set_a_to_b()).unwrap();
    plan.insert(seconds(2), &increment_b()).unwrap();
    assert_eq!(2, plan.sample(A, seconds(3)).unwrap());
}

#[test]
fn basic_removal() {
    let mut plan = init_plan(Session::new());
    plan.insert(seconds(0), &increment_a()).unwrap();
    plan.insert(seconds(1), &set_b_to_a()).unwrap();
    let id = plan.insert(seconds(2), &increment_b()).unwrap();
    plan.insert(seconds(3), &set_a_to_b()).unwrap();
    assert_eq!(2, plan.sample(A, seconds(3)).unwrap());
    plan.remove(id).unwrap();
    assert_eq!(1, plan.sample(A, seconds(3)).unwrap());
}

#[test]
fn cache_across_runs() {
    let mut plan = init_plan(Session::new());
    plan.insert(seconds(0), &increment_a()).unwrap();
    let node = plan.insert(seconds(1), &eval_counter()).unwrap();
    plan.insert(seconds(2), &set_b_to_a()).unwrap();
    plan.insert(seconds(3), &increment_a()).unwrap();

    assert_eq!(0, runs(&plan, node));

    assert_eq!(2, plan.sample(A, seconds(4)).unwrap());
    assert_eq!(1, runs(&plan, node));

    assert_eq!(1, plan.sample(B, seconds(4)).unwrap());
    assert_eq!(1, plan.sample(B, seconds(4)).unwrap());
    assert_eq!(1, plan.sample(B, seconds(4)).unwrap());
    assert_eq!(1, runs(&plan, node));
}

#[test]
fn cache_within_single_run() {
    let mut plan = init_plan(Session::new());
    plan.insert(seconds(0), &increment_a()).unwrap();
    let node = plan.insert(seconds(1), &eval_counter()).unwrap();
    plan.insert(seconds(2), &set_b_to_a()).unwrap();
    plan.insert(seconds(3), &increment_a()).unwrap();
    plan.insert(seconds(4), &add_b_to_a()).unwrap();

    assert_eq!(0, runs(&plan, node));
    assert_eq!(3, plan.sample(A, seconds(4)).unwrap());
    assert_eq!(1, runs(&plan, node));
}

#[test]
fn load_cache_from_history() {
    let mut plan = init_plan(Session::new());
    plan.insert(seconds(0), &increment_a()).unwrap();
    let node = plan.insert(seconds(1), &eval_counter()).unwrap();
    plan.insert(seconds(2), &set_b_to_a()).unwrap();

    assert_eq!(0, runs(&plan, node));
    assert_eq!(1, plan.sample(B, seconds(2)).unwrap());
    assert_eq!(1, runs(&plan, node));

    let history = plan.into_session().into_history();
    let mut plan = init_plan(Session::from_history(history));
    plan.insert(seconds(0), &increment_a()).unwrap();
    let node = plan.insert(seconds(1), &eval_counter()).unwrap();
    plan.insert(seconds(2), &increment_a()).unwrap();

    assert_eq!(0, runs(&plan, node));
    assert_eq!(2, plan.sample(A, seconds(2)).unwrap());
    assert_eq!(0, runs(&plan, node));
}

#[test]
fn load_cache_after_rollbacks_no_sim() {
    let mut plan = init_plan(Session::new());
    plan.insert(seconds(0), &increment_a()).unwrap();
    let node1 = plan.insert(seconds(1), &eval_counter()).unwrap();
    let id = plan.insert(seconds(2), &increment_a()).unwrap();
    let node2 = plan.insert(seconds(3), &eval_counter()).unwrap();
    plan.insert(seconds(4), &increment_a()).unwrap();

    assert_eq!(0, runs(&plan, node1));
    assert_eq!(0, runs(&plan, node2));
    assert_eq!(3, plan.sample(A, seconds(4)).unwrap());
    assert_eq!(1, runs(&plan, node1));
    assert_eq!(1, runs(&plan, node2));

    plan.remove(id).unwrap();
    plan.insert(seconds(2), &increment_a()).unwrap();

    assert_eq!(3, plan.sample(A, seconds(4)).unwrap());
    assert_eq!(1, runs(&plan, node1));
    assert_eq!(1, runs(&plan, node2));
}

#[test]
fn load_cache_after_rollbacks_sim_in_between() {
    let mut plan = init_plan(Session::new());
    plan.insert(seconds(0), &increment_a()).unwrap();
    let node1 = plan.insert(seconds(1), &eval_counter()).unwrap();
    let id = plan.insert(seconds(2), &increment_a()).unwrap();
    let node2 = plan.insert(seconds(3), &eval_counter()).unwrap();
    plan.insert(seconds(4), &increment_a()).unwrap();

    assert_eq!(0, runs(&plan, node1));
    assert_eq!(0, runs(&plan, node2));
    assert_eq!(3, plan.sample(A, seconds(4)).unwrap());
    assert_eq!(1, runs(&plan, node1));
    assert_eq!(1, runs(&plan, node2));

    plan.remove(id).unwrap();

    assert_eq!(2, plan.sample(A, seconds(4)).unwrap());

    plan.insert(seconds(2), &increment_a()).unwrap();

    assert_eq!(3, plan.sample(A, seconds(4)).unwrap());
    assert_eq!(1, runs(&plan, node1));
    assert_eq!(2, runs(&plan, node2));
}

#[test]
fn view_lists_each_write_in_range() {
    let mut plan = init_plan(Session::new());
    plan.insert(seconds(0), &increment_a()).unwrap();
    plan.insert(seconds(2), &increment_a()).unwrap();
    plan.insert(seconds(4), &increment_a()).unwrap();
    let v = plan.view(A, seconds(1), seconds(5)).unwrap();
    assert_eq!(v, vec![(seconds(2), 2), (seconds(4), 3), (seconds(0), 1)]);
    let w = plan.view(A, seconds(2), seconds(3)).unwrap();
    assert_eq!(w, vec![(seconds(2), 2)]);
}

#[test]
fn insert_before_initial_conditions_is_refused() {
    let mut plan = init_plan(Session::new());
    let r = plan.insert(seconds(-1), &increment_a());
    assert!(matches!(r, Err(PlanError::BeforeInitialConditions(t)) if t == seconds(-1)));
    let r = plan.insert(seconds(-5), &increment_a());
    assert!(matches!(r, Err(PlanError::BeforeInitialConditions(_))));
}

#[test]
fn unknown_resource_and_activity_are_refused() {
    let mut plan = init_plan(Session::new());
    let r = plan.insert(seconds(0), &op(9, vec![0xc], vec![(A, vec![Term::Read(0)])]));
    assert!(matches!(r, Err(PlanError::UnknownResource(0xc))));
    let r = plan.insert(seconds(0), &op(9, vec![A], vec![(0xd, vec![Term::Read(0)])]));
    assert!(matches!(r, Err(PlanError::UnknownResource(0xd))));
    assert!(matches!(plan.remove(ActivityId::new(42)), Err(PlanError::UnknownActivity(_))));
    assert!(matches!(plan.sample(0xc, seconds(0)), Err(PlanError::UnknownResource(0xc))));
    assert!(matches!(plan.view(0xc, seconds(0), seconds(1)), Err(PlanError::UnknownResource(0xc))));
}

#[test]
fn sample_before_any_writer_has_no_upstream() {
    let mut plan = init_plan(Session::new());
    assert!(matches!(plan.sample(A, seconds(-2)), Err(PlanError::NoUpstream)));
    assert_eq!(0, plan.sample(A, seconds(-1)).unwrap());
}

#[test]
fn removed_activity_cannot_be_removed_twice() {
    let mut plan = init_plan(Session::new());
    let id = plan.insert(seconds(0), &increment_a()).unwrap();
    assert!(plan.remove(id).is_ok());
    assert!(matches!(plan.remove(id), Err(PlanError::UnknownActivity(x)) if x == id));
}

#[test]
fn body_failure_is_reported_once() {
    let mut plan = init_plan(Session::new());
    plan.insert(seconds(0), &increment_a()).unwrap();
    let overflow = op(7, vec![A], vec![(A, vec![Term::Read(0), Term::Const(u64::MAX)])]);
    let failing = plan.insert(seconds(1), &overflow).unwrap();
    plan.insert(seconds(2), &set_b_to_a()).unwrap();
    plan.insert(seconds(3), &add_b_to_a()).unwrap();
    match plan.sample(A, seconds(3)) {
        Err(PlanError::Failed(errors)) => {
            assert_eq!(errors.len(), 1);
            match errors[0] {
                OpError::Overflow { node, time } => {
                    assert_eq!(time, seconds(1));
                    assert_eq!(plan.activity_of(node), Some(failing));
                }
                other => panic!("expected an overflow, got {:?}", other),
            }
        }
        other => panic!("expected one failure, got {:?}", other),
    }
    match plan.view(B, seconds(2), seconds(4)) {
        Err(PlanError::Failed(errors)) => assert_eq!(errors.len(), 1),
        other => panic!("expected one failure, got {:?}", other),
    }
    assert_eq!(1, plan.sample(A, seconds(0)).unwrap());
}

#[test]
fn unchanged_plan_runs_no_body_twice() {
    let mut plan = init_plan(Session::new());
    let ids: Vec<ActivityId> = vec![
        plan.insert(seconds(0), &increment_a()).unwrap(),
        plan.insert(seconds(1), &set_b_to_a()).unwrap(),
        plan.insert(seconds(2), &add_b_to_a()).unwrap(),
    ];
    assert_eq!(2, plan.sample(A, seconds(2)).unwrap());
    let total = |p: &Plan| ids.iter().map(|id| p.activity_runs(*id).unwrap()).sum::<u64>();
    assert_eq!(3, total(&plan));
    assert_eq!(2, plan.sample(A, seconds(2)).unwrap());
    assert_eq!(1, plan.sample(B, seconds(2)).unwrap());
    assert_eq!(3, total(&plan));
}

#[test]
fn insert_then_remove_leaves_runs_as_without_it() {
    let mut with_edit = init_plan(Session::new());
    let mut without = init_plan(Session::new());
    for p in [&mut with_edit, &mut without] {
        p.insert(seconds(0), &increment_a()).unwrap();
        p.insert(seconds(2), &increment_a()).unwrap();
    }
    let x = with_edit.insert(seconds(1), &add_b_to_a()).unwrap();
    with_edit.remove(x).unwrap();
    assert_eq!(with_edit.sample(A, seconds(2)).unwrap(), without.sample(A, seconds(2)).unwrap());
    assert_eq!(with_edit.activity_runs(ActivityId::new(0)), without.activity_runs(ActivityId::new(0)));
    assert_eq!(with_edit.activity_runs(ActivityId::new(1)), without.activity_runs(ActivityId::new(1)));
    assert_eq!(None, with_edit.activity_runs(x));
}

#[test]
fn insertion_order_does_not_change_values() {
    let mut forward = init_plan(Session::new());
    let mut backward = init_plan(Session::new());
    let acts = [(0, increment_a()), (1, set_b_to_a()), (2, increment_b()), (3, add_b_to_a())];
    for (t, a) in acts.iter() {
        forward.insert(seconds(*t), a).unwrap();
    }
    for (t, a) in acts.iter().rev() {
        backward.insert(seconds(*t), a).unwrap();
    }
    for t in 0..4 {
        assert_eq!(forward.sample(A, seconds(t)).unwrap(), backward.sample(A, seconds(t)).unwrap());
        assert_eq!(forward.sample(B, seconds(t)).unwrap(), backward.sample(B, seconds(t)).unwrap());
    }
    assert_eq!(3, forward.sample(A, seconds(3)).unwrap());
}

#[test]
fn identical_plans_in_two_sessions_agree() {
    let build = |session: Session| {
        let mut plan = init_plan(session);
        plan.insert(seconds(3), &add_b_to_a()).unwrap();
        plan.insert(seconds(0), &increment_a()).unwrap();
        plan.insert(seconds(2), &increment_b()).unwrap();
        plan.insert(seconds(1), &set_b_to_a()).unwrap();
        plan
    };
    let mut first = build(Session::new());
    let mut second = build(Session::new());
    assert_eq!(first.sample(A, seconds(3)).unwrap(), 3);
    assert_eq!(second.sample(B, seconds(2)).unwrap(), 2);
    assert_eq!(second.sample(A, seconds(3)).unwrap(), 3);
    let history = first.into_session().into_history();
    let mut third = build(Session::from_history(history));
    assert_eq!(third.sample(A, seconds(3)).unwrap(), 3);
    let ids_runs: u64 = (0..4).map(|i| third.activity_runs(ActivityId::new(i)).unwrap()).sum();
    assert_eq!(ids_runs, 0);
}

#[test]
fn shared_upstreams_are_evaluated_once_per_query() {
    let mut plan = init_plan(Session::new());
    let mut ids = vec![plan.insert(seconds(0), &increment_a()).unwrap()];
    for i in 1..=60 {
        ids.push(plan.insert(seconds(2 * i), &add_b_to_a()).unwrap());
        ids.push(plan.insert(seconds(2 * i + 1), &set_b_to_a()).unwrap());
    }
    assert_eq!(1u64 << 59, plan.sample(A, seconds(121)).unwrap());
    let total: u64 = ids.iter().map(|id| plan.activity_runs(*id).unwrap()).sum();
    // The last operation writes only `b`, which a query for `a` does not need.
    assert_eq!(total, 120);
}

const DELAY: u64 = 0xd;

fn delayed_add_ten(min: i64, max: i64) -> Activity {
    Activity {
        operations: vec![Operation {
            time: OpTime::Between { min, max, delay: DELAY },
            kind: 20,
            reads: vec![A],
            writes: vec![OperationWrite { resource: A, terms: vec![Term::Read(0), Term::Const(10)] }],
        }],
    }
}

fn init_plan_with_delay(session: Session, delay: u64) -> Plan {
    let ic = InitialConditions::new().insert(A, 0).insert(B, 0).insert(DELAY, delay);
    session.new_plan(seconds(-1), ic)
}

#[test]
fn ungrounded_writer_lands_where_its_delay_says() {
    let mut plan = init_plan_with_delay(Session::new(), seconds(2) as u64);
    plan.insert(seconds(0), &delayed_add_ten(seconds(1), seconds(5))).unwrap();
    // The write happens at 1 s + 2 s = 3 s.
    assert_eq!(0, plan.sample(A, seconds(2)).unwrap());
    assert_eq!(0, plan.sample(A, seconds(3) - 1).unwrap());
    assert_eq!(10, plan.sample(A, seconds(3)).unwrap());
    assert_eq!(10, plan.sample(A, seconds(6)).unwrap());
    plan.insert(seconds(4), &increment_a()).unwrap();
    assert_eq!(11, plan.sample(A, seconds(4)).unwrap());
    plan.insert(seconds(2), &set_a_to_b()).unwrap();
    assert_eq!(10, plan.sample(A, seconds(3)).unwrap());
    assert_eq!(0, plan.sample(A, seconds(2)).unwrap());
}

#[test]
fn ungrounded_writer_in_a_view() {
    let mut plan = init_plan_with_delay(Session::new(), seconds(1) as u64);
    plan.insert(seconds(0), &delayed_add_ten(seconds(1), seconds(5))).unwrap();
    let v = plan.view(A, seconds(0), seconds(6)).unwrap();
    assert_eq!(v, vec![(seconds(-1), 0), (seconds(2), 10)]);
}

#[test]
fn grounding_outside_its_window_fails_once() {
    let mut plan = init_plan_with_delay(Session::new(), seconds(10) as u64);
    let id = plan.insert(seconds(0), &delayed_add_ten(seconds(1), seconds(5))).unwrap();
    match plan.sample(A, seconds(7)) {
        Err(PlanError::Failed(errors)) => {
            assert_eq!(errors.len(), 1);
            match errors[0] {
                OpError::OutOfWindow { node } => assert_eq!(plan.activity_of(node), Some(id)),
                other => panic!("expected a window failure, got {:?}", other),
            }
        }
        other => panic!("expected a failure, got {:?}", other),
    }
    plan.remove(id).unwrap();
    assert_eq!(0, plan.sample(A, seconds(7)).unwrap());
}

#[test]
fn bad_windows_are_refused() {
    let mut plan = init_plan_with_delay(Session::new(), 0);
    assert!(matches!(plan.insert(seconds(0), &delayed_add_ten(seconds(3), seconds(3))), Err(PlanError::EmptyWindow)));
    let mut unknown = delayed_add_ten(seconds(1), seconds(2));
    unknown.operations[0].time = OpTime::Between { min: seconds(1), max: seconds(2), delay: 0x77 };
    assert!(matches!(plan.insert(seconds(0), &unknown), Err(PlanError::UnknownResource(0x77))));
    assert!(matches!(
        plan.insert(seconds(0), &delayed_add_ten(seconds(-2), seconds(2))),
        Err(PlanError::BeforeInitialConditions(_))
    ));
    assert!(matches!(plan.insert(i64::MAX, &delayed_add_ten(0, 1)), Err(PlanError::TimeOverflow)));
}

#[test]
fn spanning_ungrounded_writer_is_viewed_once() {
    let mut plan = init_plan_with_delay(Session::new(), seconds(3) as u64);
    plan.insert(seconds(0), &delayed_add_ten(seconds(1), seconds(5))).unwrap();
    plan.insert(seconds(2), &increment_a()).unwrap();
    let v = plan.view(A, seconds(0), seconds(6)).unwrap();
    assert_eq!(v, vec![(seconds(2), 1), (seconds(-1), 0), (seconds(4), 11)]);
}

#[test]
fn initial_values_reach_the_history() {
    let mut plan = init_plan(Session::new());
    assert_eq!(0, plan.sample(A, seconds(0)).unwrap());
    let history = plan.into_session().into_history();
    assert_eq!(history.entries().len(), 1);
    assert_eq!(history.get(A, peregrine::hashing::initial_value_hash(0)), Some(0));
}
