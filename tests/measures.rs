use tsdistances_gpu::cost::{msm_cost_function, Dtw, Erp, Lcss, Msm, Twe};
use tsdistances_gpu::measures::{
    adtw, diamond_partitioning, dtw, erp, lcss, lcss_min_len, msm, single_distance, transpose, twe, wdtw, InputError,
};

fn one(s: &[i32]) -> Vec<Vec<i32>> {
    vec![s.to_vec()]
}

fn scalar(r: Result<Vec<Vec<u64>>, InputError>) -> u64 {
    let m = r.expect("accepted batch");
    assert_eq!(m.len(), 1);
    assert_eq!(m[0].len(), 1);
    m[0][0]
}

#[test]
fn dtw_of_identical_series_is_zero() {
    let a = [1, 2, 3, 4, 5];
    for w in [1u64, 2, 4, 32] {
        assert_eq!(scalar(dtw(&one(&a), &one(&a), w)), 0);
        assert_eq!(single_distance(&Dtw {}, &a.to_vec(), &a.to_vec(), w), Ok(0));
    }
}

#[test]
fn dtw_of_zeros_against_ones_is_four() {
    let a = [0, 0, 0, 0];
    let b = [1, 1, 1, 1];
    for w in [1u64, 4, 32] {
        assert_eq!(scalar(dtw(&one(&a), &one(&b), w)), 4);
        assert_eq!(single_distance(&Dtw {}, &a.to_vec(), &b.to_vec(), w), Ok(4));
    }
}

#[test]
fn erp_follows_its_recurrence() {
    // deleting the sample 2 against the gap value 0 costs |2 - 0|
    let a = [1, 2, 3];
    let b = [1, 3];
    assert_eq!(scalar(erp(&one(&a), &one(&b), 0, 1)), 2);
    assert_eq!(scalar(erp(&one(&a), &one(&b), 0, 4)), 2);
    assert_eq!(single_distance(&Erp { gap_penalty: 0 }, &a.to_vec(), &b.to_vec(), 4), Ok(2));
}

#[test]
fn lcss_of_identical_series_matches_every_sample() {
    let a = [1, 2, 3, 4, 5];
    // 1 - s / min(|a|, |b|) == 1 - 5 / 5 == 0
    assert_eq!(scalar(lcss(&one(&a), &one(&a), 0, 1)), 5);
    assert_eq!(scalar(lcss(&one(&a), &one(&a), 0, 5)), 5);
    assert_eq!(single_distance(&Lcss { epsilon: 0 }, &a.to_vec(), &a.to_vec(), 5), Ok(5));
}

#[test]
fn msm_scenarios() {
    assert_eq!(scalar(msm(&one(&[0, 1, 2]), &one(&[0, 1, 2]), 1)), 0);
    assert_eq!(scalar(msm(&one(&[0, 1, 2]), &one(&[0, 1, 2]), 4)), 0);
    // a single match move of cost |10 - 0|
    assert_eq!(scalar(msm(&one(&[0]), &one(&[10]), 1)), 10);
    assert_eq!(single_distance(&Msm {}, &vec![0], &vec![10], 4), Ok(10));
}

#[test]
fn wdtw_of_identical_series_is_zero() {
    let a = [1, 2, 3];
    assert_eq!(scalar(wdtw(&one(&a), &one(&a), &vec![1, 1, 1], 1)), 0);
    assert_eq!(scalar(wdtw(&one(&a), &one(&a), &vec![1, 1, 1], 2)), 0);
}

#[test]
fn longer_pairs_against_reference_values() {
    let a = [1, 5, 2, 8, 0, 0, 7];
    let b = [3, 1, 4, 1, 5];
    for w in [1u64, 2, 3] {
        assert_eq!(scalar(dtw(&one(&a), &one(&b), w)), 31);
    }
    assert_eq!(scalar(adtw(&one(&a), &one(&b), 3, 1)), 37);
    assert_eq!(scalar(adtw(&one(&a), &one(&b), 3, 2)), 37);
    assert_eq!(scalar(erp(&one(&a), &one(&b), 1, 2)), 15);
    assert_eq!(scalar(msm(&one(&a), &one(&b), 2)), 14);
    assert_eq!(scalar(lcss(&one(&a), &one(&b), 1, 1)), 3);
    assert_eq!(scalar(wdtw(&one(&a), &one(&b), &vec![1, 2, 3, 4, 5, 6, 7], 1)), 59);
    assert_eq!(scalar(wdtw(&one(&a), &one(&b), &vec![1, 2, 3, 4, 5, 6, 7], 2)), 59);
}

#[test]
fn twe_against_reference_values() {
    let a = [1, 5, 2, 8];
    let b = [3, 1, 4];
    assert_eq!(scalar(twe(&one(&a), &one(&b), 1, 2, 1)), 21);
    // padding to a multiple of 2 adds a zero to b, which changes the value
    assert_eq!(scalar(twe(&one(&a), &one(&b), 1, 2, 2)), 24);
    assert_eq!(single_distance(&Twe { stiffness: 1, penalty: 2 }, &a.to_vec(), &b.to_vec(), 2), Ok(24));
}

#[test]
fn batch_entries_equal_single_results() {
    let a = vec![vec![1, 5, 2, 8, 0], vec![0, 0, 0, 0, 1], vec![3, 3, 3, 3, 3]];
    let b = vec![vec![3, 1, 4], vec![9, 9, 9]];
    for w in [1u64, 2, 4] {
        let batch = dtw(&a, &b, w).unwrap();
        assert_eq!(batch.len(), 3);
        for i in 0..3 {
            assert_eq!(batch[i].len(), 2);
            for j in 0..2 {
                assert_eq!(Ok(batch[i][j]), single_distance(&Dtw {}, &a[i], &b[j], w));
            }
        }
        let batch = diamond_partitioning(&Msm {}, &a, &b, w).unwrap();
        for i in 0..3 {
            for j in 0..2 {
                assert_eq!(Ok(batch[i][j]), single_distance(&Msm {}, &a[i], &b[j], w));
            }
        }
    }
}

#[test]
fn measures_are_symmetric() {
    let a = [1, 5, 2, 8, 0, 0, 7];
    let b = [3, 1, 4, 1, 5, 9, 2];
    for w in [1u64, 2, 4] {
        assert_eq!(single_distance(&Dtw {}, &a.to_vec(), &b.to_vec(), w), single_distance(&Dtw {}, &b.to_vec(), &a.to_vec(), w));
        assert_eq!(
            single_distance(&Erp { gap_penalty: 2 }, &a.to_vec(), &b.to_vec(), w),
            single_distance(&Erp { gap_penalty: 2 }, &b.to_vec(), &a.to_vec(), w)
        );
        assert_eq!(single_distance(&Msm {}, &a.to_vec(), &b.to_vec(), w), single_distance(&Msm {}, &b.to_vec(), &a.to_vec(), w));
        assert_eq!(
            single_distance(&Twe { stiffness: 1, penalty: 3 }, &a.to_vec(), &b.to_vec(), w),
            single_distance(&Twe { stiffness: 1, penalty: 3 }, &b.to_vec(), &a.to_vec(), w)
        );
    }
}

#[test]
fn swapping_collections_transposes_the_result() {
    let a = vec![vec![1, 5, 2, 8, 0], vec![0, 0, 0, 0, 1]];
    let b = vec![vec![3, 1, 4], vec![9, 9, 9], vec![2, 7, 1]];
    let ab = erp(&a, &b, 1, 2).unwrap();
    let ba = erp(&b, &a, 1, 2).unwrap();
    for i in 0..2 {
        for j in 0..3 {
            assert_eq!(ab[i][j], ba[j][i]);
        }
    }
}

#[test]
fn identity_holds_for_every_measure() {
    let a = vec![4, -2, 7, 7, 0, 3];
    for w in [1u64, 4] {
        assert_eq!(single_distance(&Dtw {}, &a, &a, w), Ok(0));
        assert_eq!(single_distance(&Erp { gap_penalty: 5 }, &a, &a, w), Ok(0));
        assert_eq!(single_distance(&Msm {}, &a, &a, w), Ok(0));
        assert_eq!(single_distance(&Twe { stiffness: 2, penalty: 1 }, &a, &a, w), Ok(0));
        assert_eq!(scalar(adtw(&one(&a), &one(&a), 7, w)), 0);
        assert_eq!(scalar(wdtw(&one(&a), &one(&a), &vec![1, 2, 3, 4, 5, 6], w)), 0);
    }
    // all padded samples match themselves
    assert_eq!(single_distance(&Lcss { epsilon: 0 }, &a, &a, 4), Ok(8));
}

#[test]
fn zero_padding_within_the_warp_width_changes_nothing() {
    let a = vec![1, 5, 2];
    let b = vec![3, 1, 4, 1, 5];
    let a_padded = vec![1, 5, 2, 0];
    assert_eq!(single_distance(&Dtw {}, &a, &b, 4), single_distance(&Dtw {}, &a_padded, &b, 4));
    assert_eq!(single_distance(&Msm {}, &a, &b, 4), single_distance(&Msm {}, &a_padded, &b, 4));
}

#[test]
fn rejected_inputs() {
    let empty: Vec<Vec<i32>> = Vec::new();
    assert_eq!(dtw(&empty, &one(&[1]), 4), Err(InputError::EmptyInput));
    assert_eq!(dtw(&one(&[1]), &vec![Vec::new()], 4), Err(InputError::EmptyInput));
    assert_eq!(dtw(&vec![vec![1, 2], vec![1]], &one(&[1]), 4), Err(InputError::UnequalLengths));
    assert_eq!(msm(&one(&[1]), &vec![vec![1, 2], vec![1, 2, 3]], 4), Err(InputError::UnequalLengths));
    assert_eq!(wdtw(&one(&[1, 2, 3]), &one(&[1, 2]), &vec![1, 1], 4), Err(InputError::WeightsLength));
    assert_eq!(single_distance(&Dtw {}, &Vec::new(), &vec![1], 4), Err(InputError::EmptyInput));
}

#[test]
fn msm_split_merge_cost() {
    // x between y and z: only the base cost
    assert_eq!(msm_cost_function(5, 3, 8), 1);
    // x below both
    assert_eq!(msm_cost_function(0, 3, 8), 4);
    // x above both
    assert_eq!(msm_cost_function(10, 3, 8), 3);
    assert_eq!(msm_cost_function(0, 0, 10), 1);
    assert_eq!(msm_cost_function(10, 0, 0), 11);
}

#[test]
fn lcss_distance_is_zero_at_the_device_warp_width() {
    let a = [1, 2, 3, 4, 5];
    let s = scalar(lcss(&one(&a), &one(&a), 0, 32));
    let n = lcss_min_len(5, 5, 32);
    assert_eq!((s, n), (32, 32));
    // 1 - s / n
    assert_eq!(n - s, 0);
    let b = [9, 9, 9];
    let s = scalar(lcss(&one(&a), &one(&b), 0, 32));
    let n = lcss_min_len(5, 3, 32);
    assert!(s <= n);
    assert_eq!(s, 27);
    assert_eq!(lcss_min_len(5, 40, 32), 32);
    assert_eq!(lcss_min_len(5, 3, 4), 4);
}

#[test]
fn transposing_a_matrix() {
    let t = vec![vec![1u64, 2, 3], vec![4, 5, 6]];
    assert_eq!(transpose(&t, 2, 3), vec![vec![1, 4], vec![2, 5], vec![3, 6]]);
}
