use tsdistances_gpu::batching::{a_batch_ranges, dispatch_threads, is_oversized, max_a_batch, workgroup_count};
use tsdistances_gpu::engine::{extract_pair_cells, initial_diagonal};
use tsdistances_gpu::launch::pair_address;
use tsdistances_gpu::layout::{flatten_and_pad, next_multiple_of_n};
use tsdistances_gpu::params::{
    init_is_zero, kernel_constants, kernel_module, scalar_count, uses_weights, BatchInfo, KernelConstants, MeasureKind,
};
use tsdistances_gpu::ring::{diagonal_len, next_power_of_two, ring_slot, GpuMatrix};
use tsdistances_gpu::schedule::{schedule_rows, RowDispatch};

#[test]
fn rounding_up_to_the_warp_width() {
    assert_eq!(next_multiple_of_n(5, 4), 8);
    assert_eq!(next_multiple_of_n(8, 4), 8);
    assert_eq!(next_multiple_of_n(1, 32), 32);
    assert_eq!(next_multiple_of_n(0, 32), 0);
}

#[test]
fn packing_pads_each_series_with_zeros() {
    let a = vec![vec![1, 2, 3], vec![4, 5, 6]];
    assert_eq!(flatten_and_pad(&a, 4, 0), vec![1, 2, 3, 0, 4, 5, 6, 0]);
    assert_eq!(flatten_and_pad(&a, 3, 0), vec![1, 2, 3, 4, 5, 6]);
}

#[test]
fn ring_lengths_are_powers_of_two() {
    assert_eq!(next_power_of_two(0), 1);
    assert_eq!(next_power_of_two(1), 1);
    assert_eq!(next_power_of_two(5), 8);
    assert_eq!(next_power_of_two(64), 64);
    // 2 * next_pow2(max(32, 64) + 1)
    assert_eq!(diagonal_len(32, 64), 256);
    assert_eq!(diagonal_len(4, 4), 16);
}

#[test]
fn ring_slots_wrap_negative_lines() {
    assert_eq!(ring_slot(0, 15), 0);
    assert_eq!(ring_slot(3, 15), 3);
    assert_eq!(ring_slot(-1, 15), 15);
    assert_eq!(ring_slot(-5, 15), 11);
    assert_eq!(ring_slot(17, 15), 1);
}

#[test]
fn matrix_cells_go_through_the_ring() {
    let mut m = GpuMatrix::new(vec![0u64; 16], 8, 7);
    m.set_diagonal_cell(0, -1, 42);
    assert_eq!(m.get_diagonal_cell(3, -1), 42);
    assert_eq!(m.get_diagonal_cell(3, 7), 42);
    m.set_offset(0);
    assert_eq!(m.get_diagonal_cell(0, -1), 0);
    let cells = m.into_cells();
    assert_eq!(cells[15], 42);
}

#[test]
fn schedule_widens_crosses_and_contracts() {
    let rows = schedule_rows(8, 12, 4);
    let expected = vec![
        RowDispatch { row: 0, first_coord: -4, diamonds_count: 1, a_start: 0, b_start: 0 },
        RowDispatch { row: 1, first_coord: -8, diamonds_count: 2, a_start: 4, b_start: 0 },
        RowDispatch { row: 2, first_coord: -4, diamonds_count: 2, a_start: 4, b_start: 4 },
        RowDispatch { row: 3, first_coord: 0, diamonds_count: 1, a_start: 4, b_start: 8 },
    ];
    assert_eq!(rows, expected);
    assert_eq!(schedule_rows(4, 4, 4).len(), 1);
}

#[test]
fn pairs_are_addressed_row_major() {
    let p = pair_address(7, 3, 8, 12, 64);
    assert_eq!(p.a_index, 2);
    assert_eq!(p.b_index, 1);
    assert_eq!(p.a_offset, 16);
    assert_eq!(p.b_offset, 12);
    assert_eq!(p.diagonal_offset, 448);
}

#[test]
fn batches_of_rows_fit_the_buffer() {
    // 256 cells of 4 bytes per pair, 2 pairs per row of A: 2048 bytes a row
    assert_eq!(max_a_batch(10_000, 256, 2, 10), 4);
    assert_eq!(max_a_batch(1_000_000, 256, 2, 10), 10);
    assert_eq!(max_a_batch(100, 256, 2, 10), 1);
    assert!(is_oversized(100, 256, 2));
    assert!(!is_oversized(10_000, 256, 2));
    assert_eq!(a_batch_ranges(10, 4), vec![(0, 4), (4, 8), (8, 10)]);
    assert_eq!(a_batch_ranges(8, 4), vec![(0, 4), (4, 8)]);
    assert_eq!(a_batch_ranges(0, 4), vec![]);
}

#[test]
fn dispatch_sizes() {
    assert_eq!(dispatch_threads(6, 2, 32), 384);
    assert_eq!(workgroup_count(384, 256), 2);
    assert_eq!(workgroup_count(512, 256), 2);
    assert_eq!(workgroup_count(0, 256), 0);
}

#[test]
fn measure_kinds() {
    assert_eq!(kernel_module(MeasureKind::Dtw), "dtw_distance");
    assert_eq!(kernel_module(MeasureKind::Twe), "twe_distance");
    assert_eq!(scalar_count(MeasureKind::Twe), 2);
    assert_eq!(scalar_count(MeasureKind::Erp), 1);
    assert_eq!(scalar_count(MeasureKind::Msm), 0);
    assert!(uses_weights(MeasureKind::Wdtw));
    assert!(!uses_weights(MeasureKind::Dtw));
    assert!(init_is_zero(MeasureKind::Lcss));
    assert!(!init_is_zero(MeasureKind::Adtw));
}

#[test]
fn push_constants_are_little_endian_and_aligned() {
    let c = KernelConstants {
        first_coord: -2,
        row: 1,
        diamonds_count: 2,
        a_start: 3,
        b_start: 4,
        a_len: 5,
        b_len: 6,
        a_count: 7,
        b_count: 8,
        diagonal_stride: 9,
        max_subgroup_threads: 10,
        params: vec![0x0403_0201],
        padded_a_len: 0x0102,
        padded_b_len: 12,
    };
    let bytes = c.to_bytes();
    assert_eq!(bytes.len(), 112);
    assert_eq!(&bytes[0..8], &[0xfe, 0xff, 0xff, 0xff, 0xff, 0xff, 0xff, 0xff]);
    assert_eq!(&bytes[8..16], &[1, 0, 0, 0, 0, 0, 0, 0]);
    assert_eq!(&bytes[80..88], &[10, 0, 0, 0, 0, 0, 0, 0]);
    assert_eq!(&bytes[88..96], &[1, 2, 3, 4, 0, 0, 0, 0]);
    assert_eq!(&bytes[96..104], &[2, 1, 0, 0, 0, 0, 0, 0]);
    let none = KernelConstants { params: vec![], ..c };
    assert_eq!(none.to_bytes().len(), 104);
}

#[test]
fn batch_and_single_dispatch_constants() {
    let row = RowDispatch { row: 2, first_coord: -4, diamonds_count: 2, a_start: 4, b_start: 4 };
    let info = BatchInfo { padded_a_len: 8, padded_b_len: 12, a_count: 3, b_count: 2, diagonal_stride: 32 };
    let (c, threads) = kernel_constants(&row, 8, 12, 4, Some(info), vec![7]);
    assert_eq!(threads, 48);
    assert_eq!((c.a_count, c.b_count, c.diagonal_stride), (3, 2, 32));
    assert_eq!((c.padded_a_len, c.padded_b_len), (8, 12));
    assert_eq!((c.first_coord, c.row, c.diamonds_count, c.a_start, c.b_start), (-4, 2, 2, 4, 4));
    assert_eq!(c.params, vec![7]);
    let (c, threads) = kernel_constants(&row, 8, 12, 4, None, vec![]);
    assert_eq!(threads, 8);
    assert_eq!((c.a_count, c.b_count, c.diagonal_stride, c.padded_a_len), (1, 1, 8, 0));
}

#[test]
fn lines_of_a_pair_never_share_a_ring_slot() {
    for (pa, pb) in [(4u64, 4u64), (4, 12), (32, 64), (8, 8)] {
        let len = diagonal_len(pa, pb);
        let mut seen = vec![false; len as usize];
        for k in -(pa as i64)..=(pb as i64) {
            let s = ring_slot(k, len - 1) as usize;
            assert!(!seen[s], "line {} collides", k);
            seen[s] = true;
        }
    }
}

#[test]
fn ring_slots_of_far_negative_lines() {
    assert_eq!(ring_slot(-16, 15), 0);
    assert_eq!(ring_slot(-17, 15), 15);
    assert_eq!(ring_slot(-1000, 15), 8);
    assert_eq!(ring_slot(i64::MIN, 15), 0);
    assert_eq!(ring_slot(i64::MIN + 3, 7), 3);
    let mut m = GpuMatrix::new(vec![0u64; 8], 0, 7);
    m.set_diagonal_cell(0, -1001, 5);
    assert_eq!(m.get_diagonal_cell(0, 7), 5);
}

#[test]
fn fresh_diagonals_and_result_cells() {
    let d = initial_diagonal(2, 4, 0u64, 9);
    assert_eq!(d, vec![0, 9, 9, 9, 0, 9, 9, 9]);
    let cells: Vec<u64> = (0..24).collect();
    // 2 by 3 pairs, segments of 4 cells, slot 1
    assert_eq!(extract_pair_cells(&cells, 2, 3, 4, 1), vec![vec![1, 5, 9], vec![13, 17, 21]]);
}
