use task_sched::config::Config;
use task_sched::scheduler::{Event, EventData, Scheduler};
use task_sched::task::{Status, Task};

fn plain_task(uuid: &str, urgency_micro: i64, estimate: Option<i64>) -> Task {
    Task {
        uuid: uuid.to_string(),
        description: format!("task {uuid}"),
        urgency: urgency_micro,
        status: Status::Pending,
        entry: 0,
        wait: None,
        due: None,
        target: None,
        estimate,
        depends: Vec::new(),
        tags: Vec::new(),
    }
}

fn blocked(start: i64, end: i64) -> Event {
    Event {
        start,
        end,
        what: EventData::Blocked,
    }
}

fn kind_matches(a: &EventData, b: &EventData) -> bool {
    a.same_kind(b)
}

#[test]
fn merge_overlapping_same_kind() {
    let mut sched = Scheduler::with_horizon(0, 100, Config::new());
    sched.commitments.push(blocked(0, 10));
    sched.commitments.push(blocked(8, 20));
    sched.simplify();
    assert_eq!(sched.commitments.len(), 1);
    assert_eq!(sched.commitments[0].start, 0);
    assert_eq!(sched.commitments[0].end, 20);
    assert!(kind_matches(&sched.commitments[0].what, &EventData::Blocked));
}

#[test]
fn merge_leaves_gap_untouched() {
    let mut sched = Scheduler::with_horizon(0, 100, Config::new());
    sched.commitments.push(blocked(0, 5));
    sched.commitments.push(blocked(6, 10));
    sched.simplify();
    assert_eq!(sched.commitments.len(), 2);
    assert_eq!((sched.commitments[0].start, sched.commitments[0].end), (0, 5));
    assert_eq!((sched.commitments[1].start, sched.commitments[1].end), (6, 10));
}

#[test]
fn merge_never_mixes_kinds() {
    let mut sched = Scheduler::with_horizon(0, 100, Config::new());
    sched.commitments.push(blocked(0, 5));
    sched.commitments.push(Event {
        start: 5,
        end: 10,
        what: EventData::Task {
            uuid: "t".to_string(),
            name: "t".to_string(),
            is_meta: false,
        },
    });
    sched.simplify();
    assert_eq!(sched.commitments.len(), 2);
    assert!(kind_matches(&sched.commitments[0].what, &EventData::Blocked));
    assert!(matches!(sched.commitments[1].what, EventData::Task { .. }));
}

#[test]
fn merge_twice_changes_nothing() {
    let mut sched = Scheduler::with_horizon(0, 1000, Config::new());
    sched.commitments.push(blocked(0, 10));
    sched.commitments.push(blocked(5, 30));
    sched.commitments.push(blocked(30, 40));
    sched.commitments.push(blocked(50, 60));
    sched.simplify();
    let first: Vec<(i64, i64)> = sched.commitments.iter().map(|e| (e.start, e.end)).collect();
    sched.simplify();
    let second: Vec<(i64, i64)> = sched.commitments.iter().map(|e| (e.start, e.end)).collect();
    assert_eq!(first, vec![(0, 40), (50, 60)]);
    assert_eq!(first, second);
}

#[test]
fn block_inserts_in_start_order() {
    let mut sched = Scheduler::with_horizon(0, 100, Config::new());
    sched.block(40, 50);
    sched.block(10, 20);
    sched.block(40, 45);
    let spans: Vec<(i64, i64)> = sched.commitments.iter().map(|e| (e.start, e.end)).collect();
    assert_eq!(spans, vec![(10, 20), (40, 50), (40, 45)]);
}

#[test]
fn block_outside_horizon_is_a_no_op() {
    let mut sched = Scheduler::with_horizon(100, 200, Config::new());
    sched.block(0, 100);
    sched.block(200, 300);
    assert!(sched.commitments.is_empty());
}

#[test]
fn add_task_defaults_estimate_to_ten_minutes() {
    let mut sched = Scheduler::with_horizon(0, 100, Config::new());
    sched.add_task(plain_task("a", 0, None));
    assert_eq!(sched.tasks.len(), 1);
    assert_eq!(sched.tasks[0].remaining_time, 600);
    assert_eq!(sched.outstanding_tasks, vec!["a".to_string()]);
}

#[test]
fn add_task_replaces_same_uuid() {
    let mut sched = Scheduler::with_horizon(0, 100, Config::new());
    sched.add_task(plain_task("a", 0, Some(100)));
    sched.add_task(plain_task("a", 0, Some(900)));
    assert_eq!(sched.tasks.len(), 1);
    assert_eq!(sched.tasks[0].remaining_time, 900);
    assert_eq!(sched.outstanding_tasks.len(), 1);
}

#[test]
fn dependency_gating_defers_dependent_task() {
    let mut sched = Scheduler::with_horizon(0, 7200, Config::new());
    let mut a = plain_task("a", 50_000_000, Some(600));
    a.depends.push("b".to_string());
    sched.add_task(a);
    sched.add_task(plain_task("b", 0, Some(600)));
    // while b is outstanding, a is never the best task, however urgent
    assert_eq!(sched.best_task_at(0), Some(1));
    sched.schedule();
    // b runs first; once b has no remaining time, a becomes eligible
    match &sched.commitments[0].what {
        EventData::Task { uuid, .. } => assert_eq!(uuid, "b"),
        other => panic!("expected a task commitment, got {other:?}"),
    }
    match &sched.commitments[1].what {
        EventData::Task { uuid, is_meta, .. } => {
            assert_eq!(uuid, "a");
            assert!(*is_meta);
        }
        other => panic!("expected a task commitment, got {other:?}"),
    }
}

#[test]
fn meta_task_is_fully_consumed_by_one_placement() {
    let mut sched = Scheduler::with_horizon(0, 7200, Config::new());
    let mut meta = plain_task("m", 0, Some(3600));
    meta.depends.push("missing".to_string());
    sched.add_task(meta);
    sched.schedule();
    // the meta task got a ten-minute slot, not its whole estimate
    assert_eq!(sched.commitments[0].start, 0);
    assert_eq!(sched.commitments[0].end, 600);
    // and still left the loop with no remaining time
    assert_eq!(sched.tasks[0].remaining_time, 0);
    assert!(sched.outstanding_tasks.is_empty());
}

#[test]
fn ties_go_to_the_earliest_registered_task() {
    let mut sched = Scheduler::with_horizon(0, 7200, Config::new());
    sched.add_task(plain_task("first", 1_000_000, Some(600)));
    sched.add_task(plain_task("second", 1_000_000, Some(600)));
    assert_eq!(sched.best_task_at(0), Some(0));
}

#[test]
fn workday_scenario() {
    // one 8-hour workday (09:00 to 17:00 within a single day), no calendar
    // conflicts, one 20-minute task
    let mut sched = Scheduler::with_horizon(0, 86400, Config::new());
    sched.block(0, 32400);
    sched.block(61200, 86400);
    sched.add_task(plain_task("t", 5_000_000, Some(1200)));
    sched.schedule();
    let spans: Vec<(i64, i64)> = sched.commitments.iter().map(|e| (e.start, e.end)).collect();
    assert_eq!(spans, vec![(0, 32400), (32400, 33600), (61200, 86400)]);
    assert!(kind_matches(&sched.commitments[0].what, &EventData::Blocked));
    match &sched.commitments[1].what {
        EventData::Task { uuid, is_meta, .. } => {
            assert_eq!(uuid, "t");
            assert!(!is_meta);
        }
        other => panic!("expected a task commitment, got {other:?}"),
    }
    // the rest of the workday stays unscheduled, not re-labelled blocked
    assert!(kind_matches(&sched.commitments[2].what, &EventData::Blocked));
    assert_eq!(sched.tasks[0].remaining_time, 0);
}

#[test]
fn busy_time_carve_out_scenario() {
    // same workday, plus a busy half hour right at the start of work
    let mut sched = Scheduler::with_horizon(0, 86400, Config::new());
    sched.block(0, 32400);
    sched.block(61200, 86400);
    sched.block(32400, 34200);
    sched.add_task(plain_task("t", 5_000_000, Some(1200)));
    sched.schedule();
    let spans: Vec<(i64, i64)> = sched.commitments.iter().map(|e| (e.start, e.end)).collect();
    // the blocked region extends through the carve-out, and the first task
    // placement begins right after it
    assert_eq!(spans, vec![(0, 34200), (34200, 35400), (61200, 86400)]);
    match &sched.commitments[1].what {
        EventData::Task { uuid, .. } => assert_eq!(uuid, "t"),
        other => panic!("expected a task commitment, got {other:?}"),
    }
}

#[test]
fn short_gaps_become_breaks() {
    let mut sched = Scheduler::with_horizon(0, 10000, Config::new());
    sched.block(0, 1000);
    sched.block(1200, 10000);
    sched.add_task(plain_task("t", 0, Some(9000)));
    sched.schedule();
    let spans: Vec<(i64, i64)> = sched.commitments.iter().map(|e| (e.start, e.end)).collect();
    assert_eq!(spans, vec![(0, 1000), (1000, 1200), (1200, 10000)]);
    assert!(kind_matches(&sched.commitments[1].what, &EventData::Break));
    // the 200-second break consumed no task time
    assert_eq!(sched.tasks[0].remaining_time, 9000);
}

#[test]
fn task_splits_across_gaps() {
    let mut sched = Scheduler::with_horizon(0, 10000, Config::new());
    sched.block(1000, 2000);
    sched.add_task(plain_task("t", 0, Some(1500)));
    sched.schedule();
    let spans: Vec<(i64, i64)> = sched.commitments.iter().map(|e| (e.start, e.end)).collect();
    assert_eq!(spans, vec![(0, 1000), (1000, 2000), (2000, 2500)]);
    assert_eq!(sched.tasks[0].remaining_time, 0);
}

#[test]
fn human_time_formats() {
    assert_eq!(task_sched::scheduler::human_time(0), "0m");
    assert_eq!(task_sched::scheduler::human_time(1200), "20m");
    assert_eq!(task_sched::scheduler::human_time(3540), "59m");
    assert_eq!(task_sched::scheduler::human_time(3600), "1h");
    assert_eq!(task_sched::scheduler::human_time(5400), "1h30m");
    assert_eq!(task_sched::scheduler::human_time(7260), "2h1m");
    assert_eq!(task_sched::scheduler::human_time(-300), "-5m");
}

#[test]
fn render_lines() {
    let b = Event {
        start: 0,
        end: 300,
        what: EventData::Break,
    };
    assert_eq!(b.render_line("9:00 am"), "---------- 9:00 am (5m break) ----------\n");
    let blocked_ev = Event {
        start: 0,
        end: 3600,
        what: EventData::Blocked,
    };
    assert_eq!(
        blocked_ev.render_line("9:00 am"),
        "\n========== 9:00 am (1h block) ==========\n"
    );
    let t = Event {
        start: 0,
        end: 300,
        what: EventData::Task {
            uuid: "u".to_string(),
            name: "write the report".to_string(),
            is_meta: false,
        },
    };
    assert_eq!(t.render_line("Jan 5, 9:00 am"), "Jan 5, 9:00 am (5m)  - write the report");
    let m = Event {
        start: 0,
        end: 1200,
        what: EventData::Task {
            uuid: "u".to_string(),
            name: "plan the launch".to_string(),
            is_meta: true,
        },
    };
    assert_eq!(m.render_line("Jan 5, 9:00 am"), "Jan 5, 9:00 am (20m) - META - plan the launch");
}

#[test]
fn local_horizon_seeds_sorted_blocked_time() {
    // three days from the epoch, in whatever time zone the machine has:
    // the seeded timeline must be non-empty, sorted by start, and all
    // blocked time
    let sched = Scheduler::new(
        0,
        3 * 86400,
        vec![0, 1, 2, 3, 4],
        (9, 0),
        (17, 30),
        Config::new(),
    )
    .expect("the local calendar should resolve an epoch-based horizon");
    assert!(!sched.commitments.is_empty());
    for pair in sched.commitments.windows(2) {
        assert!(pair[0].start <= pair[1].start);
    }
    for ev in &sched.commitments {
        assert!(kind_matches(&ev.what, &EventData::Blocked));
    }
    assert!(sched.tasks.is_empty());
}

#[test]
fn calendar_client_keeps_its_token() {
    let client = task_sched::caldotcom::CalDotCom::new("example-token".to_string());
    assert_eq!(client.token(), "example-token");
}

#[test]
fn event_duration() {
    let ev = blocked(100, 700);
    assert_eq!(ev.duration(), 600);
}
