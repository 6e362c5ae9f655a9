use task_sched::config::Config;
use task_sched::task::{Status, Task};

fn bare_task() -> Task {
    Task {
        uuid: "u".to_string(),
        description: "d".to_string(),
        urgency: 0,
        status: Status::Pending,
        entry: 0,
        wait: None,
        due: None,
        target: None,
        estimate: None,
        depends: Vec::new(),
        tags: Vec::new(),
    }
}

/// Only the due component contributes: base zero, age weight zero.
fn due_only_config() -> Config {
    Config {
        urgency_due_coefficient: 1_000_000,
        urgency_age_coefficient: 0,
        urgency_age_max: 365_000_000,
    }
}

/// Only the age component contributes: base zero, due weight zero.
fn age_only_config(age_max_micro_days: i64) -> Config {
    Config {
        urgency_due_coefficient: 0,
        urgency_age_coefficient: 1_000_000,
        urgency_age_max: age_max_micro_days,
    }
}

#[test]
fn due_component_saturates_at_seven_days_overdue() {
    let mut t = bare_task();
    t.due = Some(0);
    // seven days after the due date: component 1.0
    assert_eq!(t.urgency_at(7 * 86400, &due_only_config()), 1_000_000);
    // far past due stays 1.0
    assert_eq!(t.urgency_at(100 * 86400, &due_only_config()), 1_000_000);
}

#[test]
fn due_component_floors_at_fourteen_days_early() {
    let mut t = bare_task();
    t.due = Some(0);
    assert_eq!(t.urgency_at(-14 * 86400, &due_only_config()), 200_000);
    assert_eq!(t.urgency_at(-100 * 86400, &due_only_config()), 200_000);
}

#[test]
fn due_component_ramps_linearly() {
    let mut t = bare_task();
    t.due = Some(0);
    // three and a half days early: 0.2 + 10.5 * 0.8 / 21 = 0.6
    let three_and_a_half_days = 3 * 86400 + 43200;
    assert_eq!(t.urgency_at(-three_and_a_half_days, &due_only_config()), 600_000);
}

#[test]
fn due_component_uses_soonest_of_due_and_target() {
    let mut t = bare_task();
    t.due = Some(100 * 86400);
    t.target = Some(7 * 86400);
    // measured against the earlier target date, we are exactly due: the
    // ramp is at 0.2 + 14 * 0.8 / 21
    assert_eq!(t.urgency_at(7 * 86400, &due_only_config()), 733_333);
}

#[test]
fn age_component_ramps_to_the_configured_window() {
    let t = bare_task();
    let cfg = age_only_config(100_000_000);
    // half the window: 0.5
    assert_eq!(t.urgency_at(50 * 86400, &cfg), 500_000);
    // beyond the window: 1.0
    assert_eq!(t.urgency_at(150 * 86400, &cfg), 1_000_000);
}

#[test]
fn age_component_with_zero_window_is_one() {
    let t = bare_task();
    let cfg = age_only_config(0);
    assert_eq!(t.urgency_at(50 * 86400, &cfg), 1_000_000);
    assert_eq!(t.urgency_at(0, &cfg), 1_000_000);
}

#[test]
fn urgency_combines_base_and_weighted_components() {
    let mut t = bare_task();
    t.urgency = 5_000_000;
    t.due = Some(0);
    let cfg = Config {
        urgency_due_coefficient: 2_000_000,
        urgency_age_coefficient: 1_000_000,
        urgency_age_max: 100 * 1_000_000,
    };
    // at 50 days past a day-zero due date and entry: due component 1.0
    // weighted by 2.0, age component 0.5 weighted by 1.0, plus base 5.0
    assert_eq!(t.urgency_at(50 * 86400, &cfg), 5_000_000 + 2_000_000 + 500_000);
}

#[test]
fn availability_follows_the_wait_date() {
    let mut t = bare_task();
    assert!(t.available_at(0));
    t.wait = Some(100);
    assert!(!t.available_at(99));
    assert!(t.available_at(100));
    assert!(t.available_at(101));
}
