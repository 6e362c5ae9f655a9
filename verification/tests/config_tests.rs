use task_sched::config::{Config, ConfigParseError};

#[test]
fn parse_empty_string() {
    assert_eq!(Config::parse("").unwrap(), Config::default())
}

#[test]
fn parse_urgency_age_coefficient() {
    let config = Config::parse("urgency.age.coefficient=2.5").unwrap();

    assert_eq!(config.urgency_age_coefficient, 2_500_000);
}

#[test]
fn parse_urgency_max_age() {
    let config = Config::parse("urgency.age.max=123.4").unwrap();

    assert_eq!(config.urgency_age_max, 123_400_000);
}

#[test]
fn parse_urgency_due_coefficient() {
    let config = Config::parse("urgency.due.coefficient=2.5").unwrap();

    assert_eq!(config.urgency_due_coefficient, 2_500_000);
}

#[test]
fn parse_defaults() {
    let config = Config::new();
    assert_eq!(config.urgency_due_coefficient, 1_000_000);
    assert_eq!(config.urgency_age_coefficient, 1_000_000);
    assert_eq!(config.urgency_age_max, 365_000_000);
}

#[test]
fn parse_ignores_unknown_keys_and_blank_lines() {
    let config = Config::parse("something.else=99\n\nno equals here\nurgency.age.max=2").unwrap();
    assert_eq!(config.urgency_age_max, 2_000_000);
    assert_eq!(config.urgency_due_coefficient, 1_000_000);
}

#[test]
fn parse_multiple_keys() {
    let config = Config::parse(
        "urgency.age.coefficient=0.5\nurgency.due.coefficient=3\nurgency.age.max=10.25",
    )
    .unwrap();
    assert_eq!(config.urgency_age_coefficient, 500_000);
    assert_eq!(config.urgency_due_coefficient, 3_000_000);
    assert_eq!(config.urgency_age_max, 10_250_000);
}

#[test]
fn parse_negative_value() {
    let config = Config::parse("urgency.due.coefficient=-2.5").unwrap();
    assert_eq!(config.urgency_due_coefficient, -2_500_000);
}

#[test]
fn parse_bad_age_coefficient() {
    assert_eq!(
        Config::parse("urgency.age.coefficient=abc"),
        Err(ConfigParseError::AgeCoefficient)
    );
}

#[test]
fn parse_bad_age_max() {
    assert_eq!(Config::parse("urgency.age.max="), Err(ConfigParseError::AgeMax));
}

#[test]
fn parse_bad_due_coefficient() {
    assert_eq!(
        Config::parse("urgency.due.coefficient=1.2.3"),
        Err(ConfigParseError::DueCoefficient)
    );
}

#[test]
fn parse_decimal_values() {
    assert_eq!(task_sched::config::parse_decimal("0"), Some(0));
    assert_eq!(task_sched::config::parse_decimal("1"), Some(1_000_000));
    assert_eq!(task_sched::config::parse_decimal("0.6"), Some(600_000));
    assert_eq!(task_sched::config::parse_decimal("-0.000001"), Some(-1));
    assert_eq!(task_sched::config::parse_decimal("+2.5"), Some(2_500_000));
    assert_eq!(task_sched::config::parse_decimal("12.345678"), Some(12_345_678));
    // fractional digits beyond the sixth are rounded toward zero
    assert_eq!(task_sched::config::parse_decimal("1.2345678"), Some(1_234_567));
    // leading-dot and trailing-dot forms
    assert_eq!(task_sched::config::parse_decimal(".5"), Some(500_000));
    assert_eq!(task_sched::config::parse_decimal("1."), Some(1_000_000));
    // exponents
    assert_eq!(task_sched::config::parse_decimal("1e3"), Some(1_000_000_000));
    assert_eq!(task_sched::config::parse_decimal("2.5E2"), Some(250_000_000));
    assert_eq!(task_sched::config::parse_decimal("1e-3"), Some(1_000));
    assert_eq!(task_sched::config::parse_decimal("-1.5e1"), Some(-15_000_000));
    assert_eq!(task_sched::config::parse_decimal("4e-99"), Some(0));
    // malformed
    assert_eq!(task_sched::config::parse_decimal(""), None);
    assert_eq!(task_sched::config::parse_decimal("."), None);
    assert_eq!(task_sched::config::parse_decimal("1e"), None);
    assert_eq!(task_sched::config::parse_decimal("1.2.3"), None);
    assert_eq!(task_sched::config::parse_decimal("abc"), None);
    // unrepresentable in micro-units
    assert_eq!(task_sched::config::parse_decimal("inf"), None);
    assert_eq!(task_sched::config::parse_decimal("1e15"), None);
}

#[test]
fn parse_exponent_value() {
    let config = Config::parse("urgency.age.max=1e3").unwrap();
    assert_eq!(config.urgency_age_max, 1_000_000_000);
}
