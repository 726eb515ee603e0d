use cfd_status::{Case, CaseError, ElapsedPerStep};

fn fresh(name: &str, duration: usize) -> Case {
    Case::new(name.to_string(), duration, "solve.out".to_string())
}

#[test]
fn running_average_is_arithmetic_mean() {
    let mut avg = ElapsedPerStep::new();
    avg.update(36000);
    avg.update(9000);
    avg.update(3000);
    assert_eq!(avg.total_millis(), 48000);
    assert_eq!(avg.sample_count(), 3);
    // mean 16000 ms = 16.00 s
    assert_eq!(avg.value_centi(), 1600);
}

#[test]
fn running_average_ignores_order() {
    let mut a = ElapsedPerStep::new();
    let mut b = ElapsedPerStep::new();
    for s in [500, 1500, 2500] {
        a.update(s);
    }
    for s in [2500, 500, 1500] {
        b.update(s);
    }
    assert_eq!(a.total_millis(), b.total_millis());
    assert_eq!(a.sample_count(), b.sample_count());
    assert_eq!(a.value_centi(), b.value_centi());
}

#[test]
fn empty_average_reports_zero() {
    let avg = ElapsedPerStep::new();
    assert_eq!(avg.value_centi(), 0);
    assert_eq!(avg.total_millis(), 0);
    assert_eq!(avg.sample_count(), 0);
}

#[test]
fn first_observation_sets_state_but_not_average() {
    let mut case = fresh("caseA", 900);
    let r = case.update(b"TimeStep 50: Time 1.0e+00\n");
    assert!(r.is_ok());
    assert_eq!(case.step, Some(50));
    assert_eq!(case.time_centi, 100);
    assert_eq!(case.elapsed_per_step.sample_count(), 0);
    assert_eq!(case.elapsed_per_step.total_millis(), 0);
}

#[test]
fn advancing_step_folds_one_sample() {
    let mut case = fresh("caseA", 900);
    case.update(b"TimeStep 10: Time 1.0e+00\n").unwrap();
    case.update(b"TimeStep 10: Time 1.0e+00\nTimeStep 15: Time 2.0e+00\n").unwrap();
    // delta 5 over a 180 s interval: one sample of 36.0 s per step.
    assert_eq!(case.step, Some(15));
    assert_eq!(case.elapsed_per_step.sample_count(), 1);
    assert_eq!(case.elapsed_per_step.total_millis(), 36000);
    assert_eq!(case.elapsed_per_step.value_centi(), 3600);
}

#[test]
fn unchanged_step_leaves_average_alone() {
    let mut case = fresh("caseA", 900);
    case.update(b"TimeStep 10: Time 1.0e+00\nTimeStep 15: Time 2.0e+00\n").unwrap();
    case.update(b"TimeStep 10: Time 1.0e+00\nTimeStep 15: Time 2.0e+00\n").unwrap();
    let r = case.update(b"TimeStep 15: Time 2.5e+00\n");
    assert!(r.is_ok());
    assert_eq!(case.step, Some(15));
    assert_eq!(case.time_centi, 250);
    assert_eq!(case.elapsed_per_step.sample_count(), 0);
}

#[test]
fn decreasing_step_is_an_error_and_leaves_case_unchanged() {
    let mut case = fresh("caseA", 900);
    case.update(b"TimeStep 70: Time 2.0e+00\n").unwrap();
    let before_step = case.step;
    let before_time = case.time_centi;
    let r = case.update(b"TimeStep 50: Time 3.0e+00\n");
    assert_eq!(r, Err(CaseError::ParseInt));
    assert_eq!(case.step, before_step);
    assert_eq!(case.time_centi, before_time);
    assert_eq!(case.elapsed_per_step.sample_count(), 0);
}

#[test]
fn failed_update_leaves_case_unchanged() {
    let mut case = fresh("caseA", 900);
    case.update(b"TimeStep 50: Time 1.0e+00\n").unwrap();
    let r = case.update(b"nothing to see\n");
    assert_eq!(r, Err(CaseError::Regex));
    assert_eq!(case.step, Some(50));
    assert_eq!(case.time_centi, 100);
}

#[test]
fn eta_from_mean_and_remaining_steps() {
    // duration 10 units at 20 Hz is 200 steps; at step 100 with a mean of
    // 2.0 s per step, 100 steps remain: 200 s.
    let mut case = fresh("caseA", 10);
    case.update(b"TimeStep 10: Time 1.0e+00\n").unwrap();
    case.update(b"TimeStep 100: Time 2.0e+00\n").unwrap();
    assert_eq!(case.elapsed_per_step.total_millis(), 2000);
    assert_eq!(case.eta_secs(), 200);
}

#[test]
fn eta_rounds_half_up() {
    // One sample of 1.5 s per step (delta 120 over 180 s) and one step
    // remaining: the true estimate is 1.5 s, which rounds to 2.
    let mut case = fresh("caseA", 10);
    case.update(b"TimeStep 79: Time 1.0e+00\n").unwrap();
    case.update(b"TimeStep 199: Time 2.0e+00\n").unwrap();
    assert_eq!(case.elapsed_per_step.total_millis(), 1500);
    assert_eq!(case.elapsed_per_step.sample_count(), 1);
    assert_eq!(case.eta_secs(), 2);
}

#[test]
fn eta_is_zero_before_any_delta() {
    let mut case = fresh("caseA", 10);
    case.update(b"TimeStep 100: Time 2.0e+00\n").unwrap();
    assert_eq!(case.eta_secs(), 0);
}

#[test]
fn log_file_joins_root_name_and_log() {
    let case = Case::new("zen30az045_OS2".to_string(), 1200, "solve-672_14.out".to_string());
    assert_eq!(case.log_file(), "/shared/zen30az045_OS2/solve-672_14.out");
}

#[test]
fn error_messages_match_their_variants() {
    assert_eq!(CaseError::Command.message(), "failed to call shell");
    assert_eq!(CaseError::UTF8.message(), "failed to convert to UTF8");
    assert_eq!(CaseError::ParseFloat.message(), "failed to parse String");
    assert_eq!(CaseError::ParseInt.message(), "failed to parse String");
    assert_eq!(CaseError::Regex.message(), "No TimeStep/Time match found");
    assert_eq!(CaseError::Grep.message(), "grep TimeStep failed");
}

#[test]
fn end_to_end_two_polls_produce_expected_row() {
    // Two poll cycles 180 s apart see steps 50 then 70: delta 20, so the
    // mean is 180/20 = 9.00 s per step, and 900*20 - 70 = 17930 steps
    // remain: 161370 s to go.
    let mut case = fresh("caseA", 900);
    case.update(b"TimeStep   50: Time   1.0000e+00\n").unwrap();
    case.update(
        b"TimeStep   50: Time   1.0000e+00\nTimeStep   70: Time   2.5000e+00\n",
    )
    .unwrap();
    assert_eq!(case.eta_secs(), 161370);
    let row = case.status_line_with("2031-02-03 04:05");
    let expected = format!(
        "{:<20}{:>8}{:>10}{:>8}{:>20}",
        "caseA", "70", "2.50", "9.00", "2031-02-03 04:05"
    );
    assert_eq!(row, expected);
}

#[test]
fn status_line_carries_a_timestamp() {
    let mut case = fresh("caseA", 900);
    case.update(b"TimeStep 50: Time 1.0e+00\nTimeStep 70: Time 2.5e+00\n").unwrap();
    let row = case.status_line();
    // 20 + 8 + 10 + 8 + 20 fixed-width columns.
    assert_eq!(row.len(), 66);
    let eta_field = &row[46..];
    // The field ends with a rendered local timestamp `YYYY-MM-DD HH:MM`.
    let ts = eta_field.trim_start();
    assert_eq!(ts.len(), 16);
    assert_eq!(&ts[4..5], "-");
    assert_eq!(&ts[7..8], "-");
    assert_eq!(&ts[10..11], " ");
    assert_eq!(&ts[13..14], ":");
    assert!(ts[0..4].chars().all(|c| c.is_ascii_digit()));
}
