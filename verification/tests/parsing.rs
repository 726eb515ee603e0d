use cfd_status::{parse_observation, extract_last_observation, CaseError, Observation};

#[test]
fn parses_step_and_time() {
    let r = parse_observation(b"TimeStep   42: Time   1.2345e+02");
    assert_eq!(r, Ok(Observation { step: 42, time_centi: 12345 }));
}

#[test]
fn missing_keyword_is_pattern_mismatch() {
    let r = parse_observation(b"no step lines yet");
    assert_eq!(r, Err(CaseError::Regex));
}

#[test]
fn malformed_number_is_parse_error() {
    let r = parse_observation(b"TimeStep   42: Time   12.xe+02");
    assert_eq!(r, Err(CaseError::ParseFloat));
}

#[test]
fn tolerates_wide_and_tab_whitespace() {
    let r = parse_observation(b"TimeStep \t  7: Time \t 3.00e+00");
    assert_eq!(r, Ok(Observation { step: 7, time_centi: 300 }));
}

#[test]
fn single_space_pattern_matches() {
    let r = parse_observation(b"TimeStep 1: Time 5.5e+00");
    assert_eq!(r, Ok(Observation { step: 1, time_centi: 550 }));
}

#[test]
fn missing_blank_after_keyword_is_pattern_mismatch() {
    let r = parse_observation(b"TimeStep42: Time 1.0e+00");
    assert_eq!(r, Err(CaseError::Regex));
}

#[test]
fn missing_exponent_is_parse_error() {
    // The digits start the time field, so the pattern matches, but the
    // number itself lacks its exponent.
    let r = parse_observation(b"TimeStep 3: Time 1.25");
    assert_eq!(r, Err(CaseError::ParseFloat));
}

#[test]
fn negative_exponent_scales_down() {
    // 125.0e-2 = 1.25, so 125 hundredths.
    let r = parse_observation(b"TimeStep 3: Time 125.0e-2");
    assert_eq!(r, Ok(Observation { step: 3, time_centi: 125 }));
}

#[test]
fn explicit_plus_sign_accepted() {
    let r = parse_observation(b"TimeStep 3: Time 1.5e+1");
    assert_eq!(r, Ok(Observation { step: 3, time_centi: 1500 }));
}

#[test]
fn exponent_without_sign_accepted() {
    let r = parse_observation(b"TimeStep 3: Time 1.5e1");
    assert_eq!(r, Ok(Observation { step: 3, time_centi: 1500 }));
}

#[test]
fn rounding_is_half_up_at_third_decimal() {
    // 1.2345 rounds down to 1.23; 1.2350 rounds up to 1.24.
    let down = parse_observation(b"TimeStep 9: Time 1.2345e+00");
    assert_eq!(down, Ok(Observation { step: 9, time_centi: 123 }));
    let up = parse_observation(b"TimeStep 9: Time 1.2350e+00");
    assert_eq!(up, Ok(Observation { step: 9, time_centi: 124 }));
}

#[test]
fn tiny_value_rounds_to_zero() {
    let r = parse_observation(b"TimeStep 9: Time 4.0e-999");
    assert_eq!(r, Ok(Observation { step: 9, time_centi: 0 }));
}

#[test]
fn step_overflow_is_parse_error() {
    let r = parse_observation(b"TimeStep 99999999999999999999: Time 1.0e+00");
    assert_eq!(r, Err(CaseError::ParseInt));
}

#[test]
fn time_overflow_is_parse_error() {
    let r = parse_observation(b"TimeStep 9: Time 1.0e+300");
    assert_eq!(r, Err(CaseError::ParseFloat));
}

#[test]
fn takes_last_matching_line() {
    let log = b"TimeStep 1: Time 1.0e+00\nnoise\nTimeStep 2: Time 2.0e+00\ntrailing noise\n";
    let r = extract_last_observation(log);
    assert_eq!(r, Ok(Observation { step: 2, time_centi: 200 }));
}

#[test]
fn last_keyword_line_wins_even_if_malformed() {
    // The filter picks the last TimeStep line; only that line is parsed.
    let log = b"TimeStep 1: Time 1.0e+00\nTimeStep oops\n";
    let r = extract_last_observation(log);
    assert_eq!(r, Err(CaseError::Regex));
}

#[test]
fn empty_log_is_pattern_mismatch() {
    assert_eq!(extract_last_observation(b""), Err(CaseError::Regex));
}

#[test]
fn pattern_may_start_mid_line() {
    let r = extract_last_observation(b"prefix text TimeStep 11: Time 9.9e+00 suffix");
    assert_eq!(r, Ok(Observation { step: 11, time_centi: 990 }));
}
