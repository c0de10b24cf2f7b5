use ici_core::segment::{plan_segments, reanchor_rows, AnchorPoint, QAnchorConfig, SegmentLog, State};

struct Segmented {
    row_index: Vec<usize>,
    group_id: Vec<u32>,
    cyc_n: Vec<f64>,
    state: Vec<State>,
    rest: Vec<u32>,
    step_t: Vec<f64>,
    charge: Vec<f64>,
}

fn classify(current: f64, threshold: f64) -> State {
    if current.abs() <= threshold {
        State::Rest
    } else if current > 0.0 {
        State::Charge
    } else {
        State::Discharge
    }
}

fn segment(
    group_id: &[u32],
    t: &[f64],
    cyc_n: &[f64],
    current: &[f64],
    charge: &[f64],
    threshold: f64,
    drop_unrested_reversals: bool,
) -> (Segmented, SegmentLog) {
    let n = t.len();
    let state: Vec<State> = current.iter().map(|&i| classify(i, threshold)).collect();
    let cyc_key: Vec<u64> = cyc_n.iter().map(|c| c.to_bits()).collect();
    let (plan, log) = plan_segments(group_id, &state, &cyc_key, drop_unrested_reversals);
    let mut out = Segmented {
        row_index: Vec::new(),
        group_id: Vec::new(),
        cyc_n: Vec::new(),
        state: Vec::new(),
        rest: Vec::new(),
        step_t: Vec::new(),
        charge: Vec::new(),
    };
    for row in 0..n {
        if plan.keep[row] {
            out.row_index.push(row);
            out.group_id.push(group_id[row]);
            out.cyc_n.push(cyc_n[row]);
            out.state.push(state[row]);
            out.rest.push(plan.rest[row]);
            out.step_t.push(t[row] - t[plan.step_anchor[row]]);
            out.charge.push(charge[row] - charge[plan.charge_anchor[row]]);
        }
    }
    (out, log)
}

fn reanchor_charge(seg: &Segmented, config: &QAnchorConfig) -> Vec<f64> {
    let cyc_key: Vec<u64> = seg.cyc_n.iter().map(|c| c.to_bits()).collect();
    reanchor_rows(&seg.group_id, &cyc_key, &seg.state, config)
        .iter()
        .enumerate()
        .map(|(row, r)| match r {
            None => seg.charge[row],
            Some(last) => seg.charge[row] - seg.charge[*last],
        })
        .collect()
}

fn run(current: &[f64], drop: bool) -> (Segmented, SegmentLog) {
    let n = current.len();
    let t: Vec<f64> = (0..n).map(|i| i as f64).collect();
    segment(&vec![0u32; n], &t, &vec![1.0; n], current, &vec![0.0; n], 0.0, drop)
}

#[test]
fn rest_indexing_matches_worked_example() {
    let (seg, log) = run(&[0.0, 0.0, 1.0, 1.0, 0.0, 0.0, 1.0, 1.0, 0.0, 0.0], false);
    assert_eq!(log.leading_rest_rows_dropped, 2);
    assert_eq!(seg.row_index, vec![2, 3, 4, 5, 6, 7, 8, 9]);
    assert_eq!(seg.rest, vec![2, 2, 2, 2, 3, 3, 3, 3]);
}

#[test]
fn rest_indexing_group_starting_active() {
    let (seg, log) = run(&[1.0, 1.0, 0.0, 0.0, -1.0, -1.0, 0.0], false);
    assert_eq!(seg.rest, vec![1, 1, 1, 1, 2, 2, 2]);
    assert_eq!(log.leading_rest_rows_dropped, 0);
}

#[test]
fn leading_rest_with_no_preceding_active_run_is_excluded_and_flagged() {
    let (seg, log) = run(&[0.0, 1.0, 1.0, 0.0, 0.0], true);
    assert_eq!(log.leading_rest_rows_dropped, 1);
    assert_eq!(seg.row_index, vec![1, 2, 3, 4]);
    assert_eq!(seg.rest, vec![2, 2, 2, 2]);
}

#[test]
fn group_that_is_entirely_leading_rest_is_dropped_cleanly() {
    let (seg, log) = run(&[0.0, 0.0, 0.0], true);
    assert_eq!(log.leading_rest_rows_dropped, 3);
    assert!(seg.row_index.is_empty());
}

#[test]
fn rest_indexing_group_ending_active_is_dropped_by_incomplete_step() {
    let (seg, log) = run(&[1.0, 1.0, 0.0, 0.0, 1.0, 1.0], true);
    assert_eq!(log.incomplete_final_rows_dropped, 2);
    assert_eq!(seg.row_index, vec![0, 1, 2, 3]);
}

fn q_anchoring_fixture() -> Segmented {
    let current = [1.0, 0.0, 0.0, 1.0, 1.0, 1.0, 0.0, 0.0, -1.0, -1.0, -1.0, 0.0, 0.0];
    let n = current.len();
    let t: Vec<f64> = (0..n).map(|i| i as f64).collect();
    let cyc_n = vec![0.0, 1.0, 1.0, 1.0, 1.0, 1.0, 1.0, 1.0, 1.0, 1.0, 1.0, 1.0, 1.0];
    let charge = vec![0.0, 0.0, 0.0, 1.0, 2.0, 3.0, 3.0, 3.0, 2.0, 1.0, 0.0, 0.0, 0.0];
    segment(&vec![0u32; n], &t, &cyc_n, &current, &charge, 0.0, false).0
}

#[test]
fn reanchor_charge_start_start_is_a_no_op() {
    let seg = q_anchoring_fixture();
    let reanchored = reanchor_charge(&seg, &QAnchorConfig { charge: AnchorPoint::Start, discharge: AnchorPoint::Start });
    assert_eq!(reanchored, seg.charge);
}

#[test]
fn reanchor_charge_end_end_zeroes_last_value_of_every_run() {
    let seg = q_anchoring_fixture();
    assert_eq!(&seg.charge[3..6], &[0.0, 1.0, 2.0]);
    assert_eq!(&seg.charge[8..11], &[0.0, -1.0, -2.0]);
    let reanchored = reanchor_charge(&seg, &QAnchorConfig { charge: AnchorPoint::End, discharge: AnchorPoint::End });
    assert_eq!(&reanchored[3..6], &[-2.0, -1.0, 0.0]);
    assert_eq!(&reanchored[8..11], &[2.0, 1.0, 0.0]);
    for &row in &[1usize, 2, 6, 7, 11, 12] {
        assert_eq!(reanchored[row], seg.charge[row], "rest row {row}");
    }
}

#[test]
fn reanchor_charge_mixed_config_only_changes_the_configured_state() {
    let seg = q_anchoring_fixture();
    let reanchored = reanchor_charge(&seg, &QAnchorConfig { charge: AnchorPoint::End, discharge: AnchorPoint::Start });
    assert_eq!(&reanchored[3..6], &[-2.0, -1.0, 0.0]);
    assert_eq!(&reanchored[8..11], &seg.charge[8..11]);
}

#[test]
fn step_time_restarts_with_each_rest_and_state() {
    let (seg, _) = run(&[1.0, 1.0, 0.0, 0.0, 1.0, 1.0, 0.0], false);
    assert_eq!(seg.step_t, vec![0.0, 1.0, 0.0, 1.0, 0.0, 1.0, 0.0]);
}
