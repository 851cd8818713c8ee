use rs_edlib::align::{transform_sequences, Alignment, AlignmentData};
use rs_edlib::cigar::EditOp;
use rs_edlib::config::AlignConfig;
use rs_edlib::equal::{EqualityDefinition, EqualityPair};
use rs_edlib::error::AlignError;
use rs_edlib::mode::AlignMode;
use rs_edlib::peq::build_peq_table;
use rs_edlib::task::AlignTask;

fn config(mode: AlignMode, task: AlignTask, k: Option<usize>) -> AlignConfig {
    AlignConfig { k, mode, task, added_equalities: vec![] }
}

/// Plain quadratic reference: the best score and the end positions for a mode.
fn reference(mode: AlignMode, q: &[u8], t: &[u8]) -> (usize, Vec<isize>) {
    let m = q.len();
    let n = t.len();
    // d[i][j]: query prefix of length i against target prefix of length j.
    let mut d = vec![vec![0usize; n + 1]; m + 1];
    for i in 0..=m {
        d[i][0] = i;
    }
    for j in 0..=n {
        d[0][j] = match mode {
            AlignMode::HW => 0,
            _ => j,
        };
    }
    for i in 1..=m {
        for j in 1..=n {
            let sub = d[i - 1][j - 1] + if q[i - 1] == t[j - 1] { 0 } else { 1 };
            d[i][j] = sub.min(d[i - 1][j] + 1).min(d[i][j - 1] + 1);
        }
    }
    match mode {
        AlignMode::NW => (d[m][n], vec![n as isize - 1]),
        _ => {
            let best = (0..=n).map(|j| d[m][j]).min().unwrap();
            let ends = (0..=n).filter(|&j| d[m][j] == best).map(|j| j as isize - 1).collect();
            (best, ends)
        }
    }
}

fn distance(mode: AlignMode, q: &str, t: &str) -> Option<usize> {
    Alignment::run(config(mode, AlignTask::Distance, None), q, t).unwrap().edit_distance
}

fn pseudo_random(seed: u64, len: usize, alphabet: &[u8]) -> String {
    let mut x = seed;
    let mut s = String::new();
    for _ in 0..len {
        x = x.wrapping_mul(6364136223846793005).wrapping_add(1442695040888963407);
        s.push(alphabet[((x >> 33) % alphabet.len() as u64) as usize] as char);
    }
    s
}

#[test]
fn test_usage() {
    let query: &str = "hello";
    let target: &str = "world!";
    let align_res = Alignment::run(AlignConfig::default(), query, target).unwrap();
    println!("edit_distance('{query}', '{target}') = {:?}", align_res.edit_distance)
}

#[test]
fn test_transform_sequences() {
    // Sequences "ACT" and "CGT": alphabet "ACTG"; renamed [0, 1, 2] and [1, 3, 2].
    const QUERY: &str = "ACT";
    const TARGET: &str = "CGT";
    const EXP_TRANSFORMED_QUERY: [usize; 3] = [0, 1, 2];
    const EXP_TRANSFORMED_TARGET: [usize; 3] = [1, 3, 2];
    const EXP_ALPHABET: &str = "ACTG";
    let (alphabet, transformed_query, transformed_target) = transform_sequences(QUERY, TARGET);
    assert_eq!(alphabet, EXP_ALPHABET.as_bytes());
    assert_eq!(transformed_query, EXP_TRANSFORMED_QUERY);
    assert_eq!(transformed_target, EXP_TRANSFORMED_TARGET);
}

#[test]
fn test_build_peq_table() {
    let query = str::repeat("AGGATACA", 10);
    let (alphabet, transformed_query, _) = transform_sequences(&query, &query);
    let eq_def = EqualityDefinition::from_bytes(&alphabet, &[]);
    let table = build_peq_table(alphabet.len(), &transformed_query, &eq_def);
    // Two blocks per symbol (80 query rows); rows past the query's end are wildcards.
    assert_eq!(
        table,
        [
            12225489209634957737,
            18446744073709529513,
            434041037028460038,
            18446744073709487622,
            1157442765409226768,
            18446744073709490192,
            4629771061636907072,
            18446744073709502528,
            18446744073709551615,
            18446744073709551615
        ]
    )
}

#[test]
fn global_act_cgt() {
    let a = Alignment::run(config(AlignMode::NW, AlignTask::Distance, None), "ACT", "CGT").unwrap();
    assert_eq!(a.edit_distance, Some(2));
    assert_eq!(a.end_locations, Some(vec![2]));
    assert_eq!(a.start_locations, None);
    assert_eq!(a.alphabet_length, 4);
}

#[test]
fn prefix_aact() {
    let a = Alignment::run(config(AlignMode::SHW, AlignTask::Distance, None), "AACT", "AACTGGC").unwrap();
    assert_eq!(a.edit_distance, Some(0));
    assert_eq!(a.end_locations, Some(vec![3]));
}

#[test]
fn infix_act_locations() {
    let a = Alignment::run(config(AlignMode::HW, AlignTask::Loc, None), "ACT", "CGACTGAC").unwrap();
    assert_eq!(a.edit_distance, Some(0));
    assert_eq!(a.end_locations, Some(vec![4]));
    assert_eq!(a.start_locations, Some(vec![2]));
}

#[test]
fn global_path_identity() {
    let a = Alignment::run(config(AlignMode::NW, AlignTask::Path, None), "ACGT", "ACGT").unwrap();
    assert_eq!(a.edit_distance, Some(0));
    assert_eq!(a.end_locations, Some(vec![3]));
    assert_eq!(a.start_locations, Some(vec![0]));
    assert_eq!(a.alignment, Some(vec![EditOp::Match; 4]));
}

#[test]
fn empty_query() {
    let g = Alignment::run(config(AlignMode::NW, AlignTask::Distance, None), "", "ABC").unwrap();
    assert_eq!(g.edit_distance, Some(3));
    assert_eq!(g.end_locations, Some(vec![2]));
    for mode in [AlignMode::SHW, AlignMode::HW] {
        let a = Alignment::run(config(mode, AlignTask::Distance, None), "", "ABC").unwrap();
        assert_eq!(a.edit_distance, Some(0));
        assert_eq!(a.end_locations, Some(vec![-1]));
    }
}

#[test]
fn empty_target_and_both_empty() {
    let g = Alignment::run(config(AlignMode::NW, AlignTask::Distance, None), "ABCD", "").unwrap();
    assert_eq!(g.edit_distance, Some(4));
    assert_eq!(g.end_locations, Some(vec![-1]));
    let p = Alignment::run(config(AlignMode::HW, AlignTask::Distance, None), "ABCD", "").unwrap();
    assert_eq!(p.edit_distance, Some(4));
    assert_eq!(p.end_locations, Some(vec![-1]));
    let b = Alignment::run(config(AlignMode::NW, AlignTask::Distance, None), "", "").unwrap();
    assert_eq!(b.edit_distance, Some(0));
    assert_eq!(b.end_locations, Some(vec![-1]));
    assert_eq!(b.alphabet_length, 0);
}

#[test]
fn long_repeat_against_itself() {
    let q = str::repeat("AGGATACA", 10);
    assert_eq!(distance(AlignMode::NW, &q, &q), Some(0));
}

#[test]
fn added_equality_pair() {
    let mut cfg = config(AlignMode::NW, AlignTask::Distance, None);
    cfg.added_equalities = vec![EqualityPair { first: 'A', second: 'T' }];
    let a = Alignment::run(cfg, "AT", "TA").unwrap();
    assert_eq!(a.edit_distance, Some(0));
}

#[test]
fn empty_input_respects_k() {
    let a = Alignment::run(config(AlignMode::NW, AlignTask::Distance, Some(0)), "", "ABC").unwrap();
    assert_eq!(a.edit_distance, None);
    assert_eq!(a.end_locations, None);
    let b = Alignment::run(config(AlignMode::NW, AlignTask::Distance, Some(3)), "", "ABC").unwrap();
    assert_eq!(b.edit_distance, Some(3));
}

#[test]
fn empty_input_locations_and_path() {
    let g = Alignment::run(config(AlignMode::NW, AlignTask::Path, None), "", "ABC").unwrap();
    assert_eq!(g.start_locations, Some(vec![0]));
    assert_eq!(g.alignment, Some(vec![EditOp::Delete; 3]));
    let h = Alignment::run(config(AlignMode::HW, AlignTask::Loc, None), "", "ABC").unwrap();
    assert_eq!(h.end_locations, Some(vec![-1]));
    assert_eq!(h.start_locations, Some(vec![0]));
    let t = Alignment::run(config(AlignMode::SHW, AlignTask::Path, None), "AB", "").unwrap();
    assert_eq!(t.edit_distance, Some(2));
    assert_eq!(t.alignment, Some(vec![EditOp::Insert; 2]));
}

#[test]
fn query_longer_than_target_infix() {
    let a = Alignment::run(config(AlignMode::HW, AlignTask::Loc, None), "ACGTACGT", "CGTA").unwrap();
    let (best, ends) = reference(AlignMode::HW, b"ACGTACGT", b"CGTA");
    assert_eq!(a.edit_distance, Some(best));
    assert_eq!(a.end_locations, Some(ends));
    assert_eq!(a.edit_distance, Some(4));
}

#[test]
fn query_of_exactly_one_word() {
    let q = pseudo_random(7, 64, b"ACGT");
    let t = pseudo_random(8, 90, b"ACGT");
    for mode in [AlignMode::NW, AlignMode::SHW, AlignMode::HW] {
        let a = Alignment::run(config(mode, AlignTask::Distance, None), &q, &t).unwrap();
        let (best, ends) = reference(mode, q.as_bytes(), t.as_bytes());
        assert_eq!(a.edit_distance, Some(best));
        assert_eq!(a.end_locations, Some(ends));
    }
}

#[test]
fn single_symbol_alphabet() {
    let a = Alignment::run(config(AlignMode::NW, AlignTask::Distance, None), "AAAA", "AA").unwrap();
    assert_eq!(a.edit_distance, Some(2));
    assert_eq!(a.alphabet_length, 1);
}

#[test]
fn modes_match_reference_on_varied_inputs() {
    let cases = [(1u64, 5usize, 9usize), (2, 30, 70), (3, 70, 65), (4, 130, 200), (5, 200, 150), (6, 3, 300)];
    for (seed, ql, tl) in cases {
        let q = pseudo_random(seed, ql, b"ACGT");
        let t = pseudo_random(seed + 100, tl, b"ACGT");
        for mode in [AlignMode::NW, AlignMode::SHW, AlignMode::HW] {
            let a = Alignment::run(config(mode, AlignTask::Distance, None), &q, &t).unwrap();
            let (best, ends) = reference(mode, q.as_bytes(), t.as_bytes());
            assert_eq!(a.edit_distance, Some(best), "mode {:?} seed {}", mode, seed);
            assert_eq!(a.end_locations, Some(ends), "mode {:?} seed {}", mode, seed);
        }
    }
}

#[test]
fn long_target_crosses_strong_reduction() {
    let q = pseudo_random(11, 100, b"ACGT");
    let mut t = pseudo_random(12, 3000, b"ACGT");
    t.replace_range(2500..2600, &q);
    for mode in [AlignMode::SHW, AlignMode::HW] {
        let a = Alignment::run(config(mode, AlignTask::Distance, None), &q, &t).unwrap();
        let (best, ends) = reference(mode, q.as_bytes(), t.as_bytes());
        assert_eq!(a.edit_distance, Some(best));
        assert_eq!(a.end_locations, Some(ends));
    }
    let near = pseudo_random(13, 2500, b"AC");
    let mut other = near.clone();
    other.replace_range(100..103, "GGG");
    let a = Alignment::run(config(AlignMode::NW, AlignTask::Distance, None), &near, &other).unwrap();
    assert_eq!(a.edit_distance, Some(reference(AlignMode::NW, near.as_bytes(), other.as_bytes()).0));
}

#[test]
fn identity_law() {
    let q = pseudo_random(21, 150, b"ACGT");
    let a = Alignment::run(config(AlignMode::NW, AlignTask::Path, None), &q, &q).unwrap();
    assert_eq!(a.edit_distance, Some(0));
    assert_eq!(a.end_locations, Some(vec![149]));
    assert_eq!(a.alignment, Some(vec![EditOp::Match; 150]));
}

#[test]
fn symmetry_law() {
    let q = pseudo_random(31, 80, b"ACGT");
    let t = pseudo_random(32, 95, b"ACGT");
    assert_eq!(distance(AlignMode::NW, &q, &t), distance(AlignMode::NW, &t, &q));
}

#[test]
fn triangle_law() {
    let q = pseudo_random(41, 40, b"ACGT");
    let u = pseudo_random(42, 50, b"ACGT");
    let t = pseudo_random(43, 45, b"ACGT");
    let qt = distance(AlignMode::NW, &q, &t).unwrap();
    let qu = distance(AlignMode::NW, &q, &u).unwrap();
    let ut = distance(AlignMode::NW, &u, &t).unwrap();
    assert!(qt <= qu + ut);
}

#[test]
fn fixed_k_agrees_with_dynamic_k() {
    let q = pseudo_random(51, 120, b"ACGT");
    let t = pseudo_random(52, 140, b"ACGT");
    for mode in [AlignMode::NW, AlignMode::SHW, AlignMode::HW] {
        let dynamic = Alignment::run(config(mode, AlignTask::Loc, None), &q, &t).unwrap();
        let d = dynamic.edit_distance.unwrap();
        for k0 in [d, d + 1, d + 50] {
            let fixed = Alignment::run(config(mode, AlignTask::Loc, Some(k0)), &q, &t).unwrap();
            assert_eq!(fixed.edit_distance, dynamic.edit_distance);
            assert_eq!(fixed.end_locations, dynamic.end_locations);
            assert_eq!(fixed.start_locations, dynamic.start_locations);
        }
        if d > 0 {
            let below = Alignment::run(config(mode, AlignTask::Loc, Some(d - 1)), &q, &t).unwrap();
            assert_eq!(below.edit_distance, None);
            assert_eq!(below.end_locations, None);
        }
    }
}

#[test]
fn alphabet_length_counts_distinct_bytes() {
    let a = Alignment::run(config(AlignMode::HW, AlignTask::Distance, None), "hello", "world!").unwrap();
    assert_eq!(a.alphabet_length, 8);
}

#[test]
fn path_is_a_valid_transcript() {
    let q = "ACGTTGCA";
    let t = "TTACGTAGCATT";
    let a = Alignment::run(config(AlignMode::HW, AlignTask::Path, None), q, t).unwrap();
    let d = a.edit_distance.unwrap();
    let ops = a.alignment.unwrap();
    let s = a.start_locations.unwrap()[0] as usize;
    let e = a.end_locations.unwrap()[0] as usize;
    let (qb, tb) = (q.as_bytes(), &t.as_bytes()[s..=e]);
    let (mut i, mut j, mut cost) = (0usize, 0usize, 0usize);
    for op in ops {
        match op {
            EditOp::Match => {
                assert_eq!(qb[i], tb[j]);
                i += 1;
                j += 1;
            }
            EditOp::Mismatch => {
                assert_ne!(qb[i], tb[j]);
                i += 1;
                j += 1;
                cost += 1;
            }
            EditOp::Insert => {
                i += 1;
                cost += 1;
            }
            EditOp::Delete => {
                j += 1;
                cost += 1;
            }
        }
    }
    assert_eq!((i, j), (qb.len(), tb.len()));
    assert_eq!(cost, d);
}

#[test]
fn start_locations_of_prefix_are_zero() {
    let a = Alignment::run(config(AlignMode::SHW, AlignTask::Loc, None), "ACGT", "ACGTTACGT").unwrap();
    assert_eq!(a.edit_distance, Some(0));
    assert_eq!(a.start_locations, Some(vec![0; a.end_locations.as_ref().unwrap().len()]));
}

#[test]
fn distance_within_given_k() {
    let a = Alignment::run(config(AlignMode::NW, AlignTask::Distance, Some(1)), "ACT", "CGT").unwrap();
    assert_eq!(a.edit_distance, None);
    assert_eq!(a.end_locations, None);
    let b = Alignment::run(config(AlignMode::NW, AlignTask::Distance, Some(2)), "ACT", "CGT").unwrap();
    assert_eq!(b.edit_distance, Some(2));
}

#[test]
fn too_long_sequence_is_not_representable() {
    let long = "A".repeat(rs_edlib::block::MAX_SEQUENCE_LEN + 1);
    let r = Alignment::run(AlignConfig::default(), &long, "A");
    assert_eq!(r.err(), Some(AlignError::NotRepresentable));
}

#[test]
fn empty_query_against_long_target() {
    let long = "A".repeat(rs_edlib::block::MAX_SEQUENCE_LEN + 1);
    let r = Alignment::run(AlignConfig::default(), "", &long).unwrap();
    assert_eq!(r.edit_distance, Some(rs_edlib::block::MAX_SEQUENCE_LEN + 1));
}

#[test]
fn prefix_lists_every_optimal_end() {
    let a = Alignment::run(config(AlignMode::SHW, AlignTask::Distance, None), "AC", "ACCC").unwrap();
    let (best, ends) = reference(AlignMode::SHW, b"AC", b"ACCC");
    assert_eq!(a.edit_distance, Some(best));
    assert_eq!(a.end_locations, Some(ends));
}

#[test]
fn table_and_stop_position_together_are_invalid() {
    let (alphabet, q, t) = transform_sequences("ACGT", "ACGA");
    let eq_def = EqualityDefinition::from_bytes(&alphabet, &[]);
    let peq = build_peq_table(alphabet.len(), &q, &eq_def);
    let mut a = Alignment::default();
    let mut position = None;
    let mut table = Some(AlignmentData::new(1, t.len()));
    let r = a.calc_edit_dst_nw(&peq, 60, 1, 4, &t, 10, &mut position, &mut table, Some(1));
    assert_eq!(r, Err(AlignError::InvalidConfiguration));
    let mut none = None;
    let ok = a.calc_edit_dst_nw(&peq, 60, 1, 4, &t, 10, &mut position, &mut none, None);
    assert_eq!(ok, Ok(()));
    assert_eq!(a.edit_distance, Some(1));
    assert_eq!(position, Some(3));
}

#[test]
fn alphabet_in_order_of_first_appearance() {
    let (alphabet, _, _) = transform_sequences("banana", "bandana");
    assert_eq!(alphabet, b"band".to_vec());
}
