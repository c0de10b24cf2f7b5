use ici_core::grouping::{end_anchor_rows, interruption_rows, key_classes, rest_rows};
use ici_core::segment::{plan_segments, reanchor_rows, AnchorPoint, QAnchorConfig, State};

fn states(labels: &str) -> Vec<State> {
    labels
        .chars()
        .map(|c| match c {
            'R' => State::Rest,
            'A' => State::Charge,
            'B' => State::Discharge,
            other => panic!("unknown state label {other}"),
        })
        .collect()
}

fn kept_rows(keep: &[bool]) -> Vec<usize> {
    (0..keep.len()).filter(|&i| keep[i]).collect()
}

#[test]
fn plan_rest_indexing_matches_worked_example() {
    let st = states("RRAARRAARR");
    let n = st.len();
    let (plan, log) = plan_segments(&vec![0u32; n], &st, &vec![1u64; n], false);
    assert_eq!(plan.rest, vec![1, 1, 2, 2, 2, 2, 3, 3, 3, 3]);
    assert_eq!(log.leading_rest_rows_dropped, 2);
    assert_eq!(kept_rows(&plan.keep), vec![2, 3, 4, 5, 6, 7, 8, 9]);
}

#[test]
fn plan_group_starting_active() {
    let st = states("AARRBBR");
    let n = st.len();
    let (plan, log) = plan_segments(&vec![0u32; n], &st, &vec![1u64; n], false);
    assert_eq!(plan.rest, vec![1, 1, 1, 1, 2, 2, 2]);
    assert_eq!(log.leading_rest_rows_dropped, 0);
    assert_eq!(kept_rows(&plan.keep), vec![0, 1, 2, 3, 4, 5, 6]);
}

#[test]
fn plan_single_leading_rest_sample_is_dropped() {
    let st = states("RAARR");
    let n = st.len();
    let (plan, log) = plan_segments(&vec![0u32; n], &st, &vec![1u64; n], true);
    assert_eq!(log.leading_rest_rows_dropped, 1);
    assert_eq!(kept_rows(&plan.keep), vec![1, 2, 3, 4]);
    assert_eq!(plan.rest[1..].to_vec(), vec![2, 2, 2, 2]);
}

#[test]
fn plan_group_of_only_rest_is_dropped() {
    let st = states("RRR");
    let (plan, log) = plan_segments(&[0, 0, 0], &st, &[1, 1, 1], true);
    assert_eq!(log.leading_rest_rows_dropped, 3);
    assert!(kept_rows(&plan.keep).is_empty());
}

#[test]
fn plan_group_ending_active_drops_incomplete_step() {
    let st = states("AARRAA");
    let n = st.len();
    let (plan, log) = plan_segments(&vec![0u32; n], &st, &vec![1u64; n], true);
    assert_eq!(log.incomplete_final_rows_dropped, 2);
    assert_eq!(kept_rows(&plan.keep), vec![0, 1, 2, 3]);
}

#[test]
fn plan_drops_unrested_reversals_when_asked() {
    let st = states("RAABRRAR");
    let n = st.len();
    let (plan, log) = plan_segments(&vec![0u32; n], &st, &vec![1u64; n], true);
    assert_eq!(log.reversal_rows_dropped, 2);
    assert!(!plan.keep[1] && !plan.keep[2]);
    let (plan2, log2) = plan_segments(&vec![0u32; n], &st, &vec![1u64; n], false);
    assert_eq!(log2.reversal_rows_dropped, 0);
    assert!(plan2.keep[1] && plan2.keep[2]);
}

#[test]
fn plan_groups_are_indexed_separately() {
    // Two interleaved groups: each starts its own rest count.
    let gid = [0u32, 1, 0, 1, 0, 1, 0, 1];
    let st = states("ARARRARA");
    let (plan, _log) = plan_segments(&gid, &st, &[1; 8], false);
    // group 0 rows 0,2,4,6: A A R R -> 1 1 1 1
    // group 1 rows 1,3,5,7: R R A A -> 1 1 2 2
    assert_eq!(plan.rest, vec![1, 1, 1, 1, 1, 2, 1, 2]);
}

#[test]
fn plan_anchor_rows_are_first_rows_of_their_keys() {
    let st = states("AARRAARR");
    let cyc = [1u64, 1, 1, 1, 2, 2, 2, 2];
    let (plan, _log) = plan_segments(&[0; 8], &st, &cyc, false);
    // step time: first row with the same rest id and state
    assert_eq!(plan.step_anchor, vec![0, 0, 2, 2, 4, 4, 6, 6]);
    // charge: first row with the same cycle key and state
    assert_eq!(plan.charge_anchor, vec![0, 0, 2, 2, 4, 4, 6, 6]);
}

#[test]
fn key_classes_group_by_key_in_first_appearance_order() {
    let keys = [5u128, 3, 5, 9, 3, 5];
    let member = [true, true, true, true, false, true];
    let (classes, class) = key_classes(&keys, &member);
    assert_eq!(classes, vec![vec![0, 2, 5], vec![1], vec![3]]);
    assert_eq!(class[0], 0);
    assert_eq!(class[5], 0);
    assert_eq!(class[3], 2);
}

#[test]
fn end_anchor_rows_are_last_rows_of_their_keys() {
    let gid = [0u32, 0, 0, 0, 1, 1];
    let cyc = [1u64, 1, 1, 2, 1, 1];
    let st = states("AARAAA");
    let last = end_anchor_rows(&gid, &cyc, &st);
    assert_eq!(last, vec![1, 1, 2, 3, 5, 5]);
}

#[test]
fn reanchor_rows_follow_the_configured_anchors() {
    let gid = [0u32; 6];
    let cyc = [1u64; 6];
    let st = states("AARBBR");
    let cfg = QAnchorConfig { charge: AnchorPoint::End, discharge: AnchorPoint::Start };
    let refs = reanchor_rows(&gid, &cyc, &st, &cfg);
    assert_eq!(refs, vec![Some(1), Some(1), None, None, None, None]);
    assert_eq!(cfg.anchor_for(State::Rest), AnchorPoint::Start);
    assert_eq!(cfg.anchor_for(State::Charge), AnchorPoint::End);
}

#[test]
fn interruption_rows_split_active_rows_by_key() {
    let gid = [0u32, 0, 0, 0, 0, 0, 1, 1];
    let cyc = [1u64, 1, 1, 1, 1, 1, 1, 1];
    let st = states("AARBBRAR");
    let rest = [1u32, 1, 1, 2, 2, 2, 1, 1];
    let classes = interruption_rows(&gid, &cyc, &st, &rest);
    assert_eq!(classes, vec![vec![0, 1], vec![3, 4], vec![6]]);
}

#[test]
fn rest_rows_split_rest_rows_by_group_and_id() {
    let gid = [0u32, 0, 0, 0, 1, 1];
    let st = states("RARRRR");
    let rest = [1u32, 2, 2, 2, 1, 1];
    let classes = rest_rows(&gid, &st, &rest);
    assert_eq!(classes, vec![vec![0], vec![2, 3], vec![4, 5]]);
}

#[test]
fn reanchor_rows_start_start_keeps_every_charge_and_end_end_refers_to_run_ends() {
    let gid = [0u32, 0, 0, 0, 0, 0, 1, 1];
    let cyc = [1u64, 1, 1, 1, 1, 1, 1, 1];
    let st = states("AARBBRAA");
    let start = QAnchorConfig { charge: AnchorPoint::Start, discharge: AnchorPoint::Start };
    assert_eq!(reanchor_rows(&gid, &cyc, &st, &start), vec![None; 8]);
    let end = QAnchorConfig { charge: AnchorPoint::End, discharge: AnchorPoint::End };
    let refs = reanchor_rows(&gid, &cyc, &st, &end);
    assert_eq!(refs, vec![Some(1), Some(1), None, Some(4), Some(4), None, Some(7), Some(7)]);
}

#[test]
fn plan_drop_counts_add_up_to_the_rows_not_kept() {
    let gid = [0u32, 0, 0, 0, 0, 0, 0, 0, 0, 1, 1, 1];
    let st = states("RRAABRRAARAA");
    let n = st.len();
    let (plan, log) = plan_segments(&gid, &st, &vec![1u64; n], true);
    assert_eq!(log.leading_rest_rows_dropped, 3);
    assert_eq!(log.reversal_rows_dropped, 2);
    assert_eq!(log.incomplete_final_rows_dropped, 4);
    let kept = kept_rows(&plan.keep).len();
    assert_eq!(kept, 3);
    assert_eq!(
        log.leading_rest_rows_dropped + log.reversal_rows_dropped + log.incomplete_final_rows_dropped,
        n - kept
    );
}
