use goombay_rs::gotoh::Gotoh;
use goombay_rs::needleman_wunsch::NeedlemanWunsch;
use goombay_rs::scoring::{ConfigurationError, ExtendedGapScoring, Scoring};

fn strip_gaps(s: &str) -> String {
    s.chars().filter(|c| *c != '-').collect()
}

fn split_pair(line: &str) -> (String, String) {
    let mut parts = line.splitn(2, '\n');
    let q = parts.next().unwrap().to_string();
    let s = parts.next().unwrap().to_string();
    (q, s)
}

fn assert_round_trip(line: &str, query: &str, subject: &str) {
    let (qa, sa) = split_pair(line);
    assert_eq!(qa.chars().count(), sa.chars().count());
    assert_eq!(strip_gaps(&qa), query);
    assert_eq!(strip_gaps(&sa), subject);
}

fn simple_scores() -> Scoring {
    Scoring { identity: 1, mismatch: 1, gap: 1, transpose: None, extended_gap: None }
}

#[test]
fn nw_simple_scenario_score_matrix() {
    let nw = NeedlemanWunsch::set_scores(&simple_scores());
    let model = nw.calculate_matrix("attain", "atin");
    let expected: [[i32; 5]; 7] = [
        [0, -1, -2, -3, -4],
        [-1, 1, 0, -1, -2],
        [-2, 0, 2, 1, 0],
        [-3, -1, 1, 1, 0],
        [-4, -2, 0, 0, 0],
        [-5, -3, -1, 1, 0],
        [-6, -4, -2, 0, 2],
    ];
    let d = model.data.score_matrix();
    for i in 0..7 {
        for j in 0..5 {
            assert_eq!(d[i][j], expected[i][j]);
        }
    }
    assert_eq!(model.similarity(), 2);
    assert_eq!(model.distance(), 4);
}

#[test]
fn nw_simple_scenario_pointer_matrix() {
    let nw = NeedlemanWunsch::set_scores(&simple_scores());
    let model = nw.calculate_matrix("attain", "atin");
    let expected: [[i32; 5]; 7] = [
        [0, 4, 4, 4, 4],
        [3, 2, 4, 4, 4],
        [3, 3, 2, 4, 4],
        [3, 3, 5, 2, 6],
        [3, 5, 3, 5, 2],
        [3, 3, 3, 2, 4],
        [3, 3, 3, 3, 2],
    ];
    let p = model.data.pointer_matrix();
    for i in 0..7 {
        for j in 0..5 {
            assert_eq!(p[i][j], expected[i][j]);
        }
    }
}

#[test]
fn nw_pointer_values_valid() {
    let nw = NeedlemanWunsch::set_scores(&simple_scores());
    let model = nw.calculate_matrix("attain", "atin");
    let p = model.data.pointer_matrix();
    for i in 0..7 {
        for j in 0..5 {
            let v = p[i][j];
            assert!(v == 0 || v == 2 || v == 3 || v == 4 || v == 5 || v == 6 || v == 7 || v == 9);
            if v == 0 {
                assert_eq!((i, j), (0, 0));
            }
        }
    }
}

#[test]
fn nw_simple_scenario_alignments() {
    let nw = NeedlemanWunsch::set_scores(&simple_scores());
    let model = nw.calculate_matrix("attain", "atin");
    let all = model.all_alignments(true).align();
    assert_eq!(all.len(), 2);
    assert!(all.iter().any(|a| a == "attain\nat--in"));
    assert!(all.iter().any(|a| a == "attain\na-t-in"));
    for line in &all {
        assert_round_trip(line, "attain", "atin");
    }
    let one = model.align();
    assert_eq!(one.len(), 1);
    assert_eq!(one[0], "attain\na-t-in");
}

#[test]
fn nw_align_is_idempotent() {
    let model = NeedlemanWunsch::compute("attain", "atin").all_alignments(true);
    let first = model.align();
    let second = model.align();
    assert_eq!(first, second);
    assert_eq!(model.similarity(), model.similarity());
    assert_eq!(model.distance(), model.distance());
}

#[test]
fn nw_similarity_is_symmetric() {
    let nw = NeedlemanWunsch::set_scores(&simple_scores());
    let forward = nw.calculate_matrix("attain", "atin");
    let backward = nw.calculate_matrix("atin", "attain");
    assert_eq!(forward.similarity(), backward.similarity());
    let g = Gotoh::default();
    let forward = g.calculate_matrix("AGTACG", "ACG");
    let backward = g.calculate_matrix("ACG", "AGTACG");
    assert_eq!(forward.similarity(), backward.similarity());
}

#[test]
fn boundary_empty_inputs() {
    let model = NeedlemanWunsch::compute("", "");
    assert_eq!(model.similarity(), 1);
    assert_eq!(model.distance(), 0);
    let model = NeedlemanWunsch::compute("abc", "");
    assert_eq!(model.distance(), 3);
    let custom = Scoring { identity: 1, mismatch: 3, gap: 1, transpose: None, extended_gap: None };
    let model = NeedlemanWunsch::set_scores(&custom).calculate_matrix("abc", "");
    assert_eq!(model.distance(), 9);
}

#[test]
fn gotoh_affine_scenario_score_matrix() {
    let model = Gotoh::compute("AGTACG", "ACG");
    let expected: [[i32; 4]; 7] = [
        [0, -4, -5, -6],
        [-4, 2, -1, -1],
        [-5, -1, 1, 1],
        [-6, -1, -2, 0],
        [-7, 2, -2, -3],
        [-8, -1, 4, -3],
        [-9, -1, -2, 6],
    ];
    let d = model.data.score_matrix();
    for i in 0..7 {
        for j in 0..4 {
            assert_eq!(d[i][j], expected[i][j]);
        }
    }
    assert_eq!(model.similarity(), 6);
    assert_eq!(model.distance(), 6);
}

#[test]
fn gotoh_affine_scenario_pointer_matrices() {
    let model = Gotoh::compute("AGTACG", "ACG");
    let expected_d: [[i32; 4]; 7] = [
        [0, 4, 4, 4],
        [3, 2, 5, 5],
        [3, 6, 2, 2],
        [3, 6, 6, 2],
        [3, 2, 6, 6],
        [3, 6, 2, 4],
        [3, 6, 3, 2],
    ];
    let expected_p: [[i32; 4]; 7] = [
        [0, 3, 3, 3],
        [0, 2, 3, 3],
        [0, 3, 2, 2],
        [0, 3, 3, 2],
        [0, 2, 3, 3],
        [0, 3, 2, 3],
        [0, 3, 3, 3],
    ];
    let expected_q: [[i32; 4]; 7] = [
        [0, 0, 0, 0],
        [4, 2, 4, 4],
        [4, 4, 2, 4],
        [4, 4, 4, 4],
        [4, 2, 4, 4],
        [4, 4, 2, 4],
        [4, 4, 4, 4],
    ];
    let dp = &model.data.pointer_matrix[0];
    let pp = &model.data.pointer_matrix[1];
    let qp = &model.data.pointer_matrix[2];
    for i in 0..7 {
        for j in 0..4 {
            assert_eq!(dp[i][j], expected_d[i][j]);
            assert_eq!(pp[i][j], expected_p[i][j]);
            assert_eq!(qp[i][j], expected_q[i][j]);
        }
    }
}

#[test]
fn gotoh_affine_scenario_alignment() {
    let model = Gotoh::compute("AGTACG", "ACG");
    let one = model.align();
    assert_eq!(one.len(), 1);
    assert_eq!(one[0], "AGTACG\n---ACG");
    assert_round_trip(&one[0], "AGTACG", "ACG");
}

#[test]
fn gotoh_custom_scores() {
    let scores = ExtendedGapScoring { identity: 2, mismatch: 1, gap: 3, extended_gap: 1 };
    let custom = Gotoh::set_scores(&scores).calculate_matrix("AGTACG", "ACG");
    let default = Gotoh::compute("AGTACG", "ACG");
    assert_eq!(custom.similarity(), default.similarity());
    assert_eq!(custom.distance(), default.distance());
}

#[test]
fn tie_scenario_returns_multiple_distinct_alignments() {
    let nw = NeedlemanWunsch::set_scores(&simple_scores());
    let model = nw.calculate_matrix("aa", "a").all_alignments(true);
    let all = model.align();
    assert!(all.len() > 1);
    for line in &all {
        assert_round_trip(line, "aa", "a");
    }
    assert!(all[0] != all[1]);
}

#[test]
fn all_alignments_copy_keeps_matrices() {
    let model = NeedlemanWunsch::compute("attain", "atin");
    let copy = model.all_alignments(true);
    assert!(!model.all_alignments);
    assert!(copy.all_alignments);
    let d0 = model.data.score_matrix();
    let d1 = copy.data.score_matrix();
    for i in 0..7 {
        for j in 0..5 {
            assert_eq!(d0[i][j], d1[i][j]);
        }
    }
    assert_eq!(copy.identity, model.identity);
    assert_eq!(copy.mismatch, model.mismatch);
}

#[test]
fn configuration_error_when_extended_gap_missing() {
    let scores = simple_scores();
    let r = ExtendedGapScoring::from_scoring(&scores);
    assert!(matches!(r, Err(ConfigurationError::MissingExtendedGap)));
    let mut with_eg = scores;
    with_eg.extended_gap = Some(1);
    let r = ExtendedGapScoring::from_scoring(&with_eg);
    assert!(r.is_ok());
    let e = r.ok().unwrap();
    assert_eq!(e.identity, 1);
    assert_eq!(e.mismatch, 1);
    assert_eq!(e.gap, 1);
    assert_eq!(e.extended_gap, 1);
}

#[test]
fn identical_sequences_align_without_gaps() {
    let model = NeedlemanWunsch::compute("atin", "atin");
    assert_eq!(model.similarity(), 4);
    assert_eq!(model.distance(), 0);
    let one = model.align();
    assert_eq!(one.len(), 1);
    assert_eq!(one[0], "atin\natin");
}
