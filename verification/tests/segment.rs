use ici_core::segment::{find_unrested_reversal_rows, State};

fn states(labels: &[&str]) -> Vec<State> {
    labels
        .iter()
        .map(|s| match *s {
            "R" => State::Rest,
            "charge" | "A" => State::Charge,
            "discharge" | "B" => State::Discharge,
            other => panic!("unknown state label {other}"),
        })
        .collect()
}

#[test]
fn unrested_reversal_at_very_first_sample() {
    let state = states(&["charge", "discharge", "R", "R"]);
    let remove = find_unrested_reversal_rows(&state);
    assert_eq!(remove, vec![true, false, false, false]);
}

#[test]
fn unrested_reversal_at_very_last_sample() {
    let state = states(&["R", "R", "charge", "discharge"]);
    let remove = find_unrested_reversal_rows(&state);
    assert_eq!(remove, vec![false, false, true, false]);
}

#[test]
fn unrested_reversal_no_reversal_present() {
    let state = states(&["R", "charge", "charge", "R", "discharge"]);
    let remove = find_unrested_reversal_rows(&state);
    assert_eq!(remove, vec![false, false, false, false, false]);
}

#[test]
fn unrested_reversal_multi_sample_run_before_reversal() {
    let state = states(&["R", "charge", "charge", "charge", "discharge", "R"]);
    let remove = find_unrested_reversal_rows(&state);
    assert_eq!(remove, vec![false, true, true, true, false, false]);
}

#[test]
fn state_labels() {
    assert_eq!(State::Rest.as_str(), "R");
    assert_eq!(State::Charge.as_str(), "charge");
    assert_eq!(State::Discharge.as_str(), "discharge");
}

#[test]
fn unrested_reversal_marks_both_runs_of_a_double_reversal() {
    let state = states(&["A", "A", "B", "B", "A", "R"]);
    let remove = find_unrested_reversal_rows(&state);
    assert_eq!(remove, vec![true, true, true, true, false, false]);
}

#[test]
fn unrested_reversal_short_inputs() {
    assert_eq!(find_unrested_reversal_rows(&[]), Vec::<bool>::new());
    assert_eq!(find_unrested_reversal_rows(&[State::Charge]), vec![false]);
}
