//! Dimension splits, matrix products, distances, norms and small utilities.
use rand::SeedableRng;
use rand_chacha::ChaCha8Rng;
use rand_distr::{Distribution, Uniform};
use superkmeans::centroids::{add_samples, add_up, average, compute_partial_norms_row_major, measure_shift, normalize_rows};
use superkmeans::common::{H_DIM_SIZE, PROPORTION_HORIZONTAL_DIM};
use superkmeans::distance::{l2_squared, l2_squared_range};
use superkmeans::gemm::{sgemm_ld, sgemm_row_major, sgemm_row_major_b_transposed};
use superkmeans::layout::get_dimension_split;
use superkmeans::utils::{arrange_blobs, ceil_to_multiple, choose_centers, is_power_of_two};
use superkmeans::{compute_l2_squared, compute_norms_row_major, find_nearest_neighbor_brute_force, make_blobs};
use superkmeans::{Single, TicToc};

fn singles(x: &[f32]) -> Vec<Single> {
    x.iter().map(|v| Single { bits: v.to_bits() }).collect()
}

fn floats(x: &[Single]) -> Vec<f32> {
    x.iter().map(|v| f32::from_bits(v.bits)).collect()
}

fn float(x: Single) -> f32 {
    f32::from_bits(x.bits)
}

#[test]
fn dimension_splits_for_all_sizes() {
    for d in 1..2100_usize {
        let proportion = if d <= 256 { 0.25 } else { f64::from_bits(PROPORTION_HORIZONTAL_DIM) };
        let mut horizontal = (d as f64 * proportion) as usize;
        if horizontal % H_DIM_SIZE > 0 {
            horizontal = (horizontal as f64 / H_DIM_SIZE as f64).round() as usize * H_DIM_SIZE;
        }
        if horizontal == d {
            horizontal = H_DIM_SIZE;
        }
        if d <= H_DIM_SIZE {
            horizontal = 0;
        }
        let split = get_dimension_split(d);
        assert_eq!(split.horizontal_d, horizontal, "d={d}");
        assert_eq!(split.horizontal_d + split.vertical_d, d);
    }
    assert_eq!(get_dimension_split(1024).horizontal_d, 768);
    assert_eq!(get_dimension_split(1024).vertical_d, 256);
    assert_eq!(get_dimension_split(128).horizontal_d, 64);
    assert_eq!(get_dimension_split(64).horizontal_d, 0);
}

#[test]
fn matrix_products_with_known_results() {
    let a = singles(&[1.0, 2.0, 3.0, 4.0, 5.0, 6.0]);
    let b = singles(&[7.0, 8.0, 9.0, 10.0, 11.0, 12.0]);
    let mut c = singles(&[0.0; 4]);
    sgemm_row_major(2, 3, 2, &a, &b, &mut c);
    assert_eq!(floats(&c), vec![58.0, 64.0, 139.0, 154.0]);
    sgemm_row_major_b_transposed(2, 3, 2, &a, &b, &mut c);
    assert_eq!(floats(&c), vec![50.0, 68.0, 122.0, 167.0]);
    // The transpose of a, and a table of results that is wider than the product.
    let mut wide = singles(&[-1.0; 15]);
    sgemm_ld(true, false, 3, 2, 3, &a, 3, &b, 3, &mut wide, 5);
    assert_eq!(
        floats(&wide),
        vec![47.0, 52.0, 57.0, -1.0, -1.0, 64.0, 71.0, 78.0, -1.0, -1.0, 81.0, 90.0, 99.0, -1.0, -1.0]
    );
}

#[test]
fn distances_add_up_lane_by_lane() {
    for n in [0_usize, 1, 7, 8, 9, 16, 23, 64, 100] {
        let a: Vec<f32> = (0..n).map(|i| (i as f32 * 0.37).sin() * 3.0).collect();
        let b: Vec<f32> = (0..n).map(|i| (i as f32 * 0.11).cos() - 0.5).collect();
        let mut lanes = [0.0_f32; 8];
        for i in 0..n - n % 8 {
            let x = a[i] - b[i];
            lanes[i % 8] += x * x;
        }
        let mut expected = 0.0_f32;
        for lane in lanes {
            expected += lane;
        }
        for i in n - n % 8..n {
            let x = a[i] - b[i];
            expected += x * x;
        }
        let (x, y) = (singles(&a), singles(&b));
        assert_eq!(l2_squared(&x, &y).bits, expected.to_bits());
        assert_eq!(l2_squared(&y, &x).bits, expected.to_bits());
        assert_eq!(float(l2_squared(&x, &x)), 0.0);
        assert_eq!(l2_squared_range(&x, &y, n).bits, expected.to_bits());
        let mut plain = 0.0_f32;
        for i in 0..n {
            let diff = a[i] - b[i];
            plain += diff * diff;
        }
        assert_eq!(compute_l2_squared(&x, &y).bits, plain.to_bits());
    }
    let x = singles(&[3.0, 4.0, 100.0]);
    let y = singles(&[0.0, 0.0, 0.0]);
    assert_eq!(float(l2_squared_range(&x, &y, 2)), 25.0);
}

#[test]
fn norms_of_full_short_and_missing_rows() {
    let data = singles(&[3.0, 4.0, 1.0, 2.0, 5.0]);
    assert_eq!(floats(&compute_norms_row_major(&data, 2, 2)), vec![25.0, 5.0]);
    assert_eq!(floats(&compute_norms_row_major(&data, 4, 2)), vec![25.0, 5.0, 25.0, 0.0]);
    assert_eq!(floats(&compute_partial_norms_row_major(&data, 2, 2, 1)), vec![9.0, 1.0]);
    assert_eq!(floats(&compute_partial_norms_row_major(&data, 2, 2, 9)), vec![25.0, 5.0]);
}

#[test]
fn samples_are_added_and_averaged() {
    let data = singles(&[1.0, 2.0, 3.0, 4.0, 5.0, 6.0]);
    let mut centroids = singles(&[0.0; 6]);
    let mut sizes = vec![0_u32; 3];
    add_samples(&mut centroids, &mut sizes, &data, &vec![2, 0, 2], 2, 3, 3);
    assert_eq!(floats(&centroids), vec![3.0, 4.0, 0.0, 0.0, 6.0, 8.0]);
    assert_eq!(sizes, vec![1, 0, 2]);
    average(&mut centroids, &sizes, 2);
    assert_eq!(floats(&centroids), vec![3.0, 4.0, 0.0, 0.0, 3.0, 4.0]);
    normalize_rows(&mut centroids, 2, 2);
    let inverse = 1.0_f32 / 5.0;
    assert_eq!(floats(&centroids), vec![3.0 * inverse, 4.0 * inverse, 0.0, 0.0, 3.0, 4.0]);
}

#[test]
fn totals_and_shifts() {
    assert_eq!(float(add_up(&singles(&[1.0, 2.5, -0.5]))), 3.0);
    assert_eq!(float(add_up(&vec![])), 0.0);
    let a = singles(&[1.0, 2.0, 3.0, 4.0]);
    let b = singles(&[0.0, 2.0, 3.0, 1.0]);
    assert_eq!(float(measure_shift(&a, &b, 2, 2)), 10.0);
    assert_eq!(float(measure_shift(&a, &b, 2, 1)), 1.0);
}

#[test]
fn multiples_and_powers() {
    assert_eq!(ceil_to_multiple(10, 4), 12);
    assert_eq!(ceil_to_multiple(12, 4), 12);
    assert_eq!(ceil_to_multiple(0, 4), 0);
    assert_eq!(ceil_to_multiple(10, 0), 10);
    for x in 0..1000_u32 {
        assert_eq!(is_power_of_two(x), x.is_power_of_two());
    }
    assert!(is_power_of_two(0x8000_0000));
    assert!(!is_power_of_two(0xffff_ffff));
}

#[test]
fn blobs_lie_around_their_centers() {
    let centers = singles(&[10.0, 0.0, 0.0, -20.0]);
    let noise = singles(&[0.5, 0.25, -0.5, 0.125, 1.0, -1.0]);
    let data = arrange_blobs(3, 2, 2, false, &centers, &[1, 0, 1], &noise);
    assert_eq!(floats(&data), vec![0.5, -19.75, 9.5, 0.125, 1.0, -21.0]);
    let unit = arrange_blobs(3, 2, 2, true, &centers, &[1, 0, 1], &noise);
    for i in 0..3 {
        let (x, y) = (float(data[2 * i]), float(data[2 * i + 1]));
        let mut sum = 0.0_f32;
        sum += x * x;
        sum += y * y;
        let inverse = 1.0 / sum.sqrt().max(f32::EPSILON);
        assert_eq!(float(unit[2 * i]), x * inverse);
        assert_eq!(float(unit[2 * i + 1]), y * inverse);
    }
}

#[test]
fn every_row_chooses_its_center_from_its_own_stream() {
    for random_state in [42_u64, u64::MAX - 1] {
        let choices = choose_centers(random_state, 20, 3);
        let centers = singles(&[0.0, 100.0, 200.0]);
        let noise = singles(&[0.5; 20]);
        let data = make_blobs(20, 1, 3, false, &centers, &noise, random_state);
        for i in 0..20_usize {
            let mut rng = ChaCha8Rng::seed_from_u64(random_state.wrapping_add(i as u64 + 1));
            let expected = Uniform::new(0_usize, 3).sample(&mut rng);
            assert_eq!(choices[i], expected);
            assert_eq!(float(data[i]), 100.0 * expected as f32 + 0.5);
        }
    }
}

#[test]
fn normalized_rows_have_length_one_but_for_rounding() {
    for d in [1_usize, 3, 64, 1000] {
        for scale in [1.0e-6_f32, 1.0, 1.0e15] {
            let centers: Vec<f32> = (0..2 * d).map(|i| ((i * 37 % 101) as f32 - 50.3) * scale).collect();
            let noise: Vec<f32> = (0..6 * d).map(|i| ((i * 53 % 89) as f32 * 0.01 - 0.4) * scale).collect();
            let (centers, noise) = (singles(&centers), singles(&noise));
            let plain = floats(&make_blobs(6, d, 2, false, &centers, &noise, 7));
            let data = floats(&make_blobs(6, d, 2, true, &centers, &noise, 7));
            assert_eq!(data.len(), plain.len());
            for i in 0..6 {
                let row = &data[i * d..(i + 1) * d];
                let squares: f64 = row.iter().map(|v| *v as f64 * *v as f64).sum();
                assert!((squares - 1.0).abs() <= (4 * d + 14) as f64 / 16777216.0);
                for j in 0..d {
                    assert_eq!(row[j] > 0.0, plain[i * d + j] > 0.0);
                }
            }
        }
    }
}

#[test]
fn a_blob_at_zero_stays_there() {
    let zero = singles(&[0.0, 0.0]);
    assert_eq!(floats(&make_blobs(1, 2, 1, true, &zero, &zero, 42)), vec![0.0, 0.0]);
}

#[test]
fn brute_force_takes_the_first_of_equals() {
    let x = singles(&[0.0, 5.0]);
    let y = singles(&[9.0, 4.0, 6.0, 0.0, 0.0]);
    let mut knn = vec![7_u32; 3];
    let mut distances = singles(&[7.0; 3]);
    find_nearest_neighbor_brute_force(&x, &y, 2, 5, 1, &mut knn, &mut distances);
    assert_eq!(knn, vec![3, 1, 7]);
    assert_eq!(floats(&distances), vec![0.0, 1.0, 7.0]);
    find_nearest_neighbor_brute_force(&x, &y, 1, 0, 1, &mut knn, &mut distances);
    assert_eq!(knn[0], 0);
    assert_eq!(float(distances[0]), f32::MAX);
}

#[test]
fn a_stopwatch_gathers_time() {
    let mut watch = TicToc::new();
    assert_eq!(f64::from_bits(watch.milliseconds().bits), 0.0);
    watch.gather(1_500_000);
    watch.gather(500_000);
    assert_eq!(f64::from_bits(watch.milliseconds().bits), 2.0);
    for nanos in [1_u128 << 100, (1 << 126) + 1, (1 << 127) - 1, 1 << 127, u128::MAX / 3 * 2 + 1, u128::MAX] {
        let mut long = TicToc::new();
        long.gather(nanos);
        assert_eq!(long.milliseconds().bits, (nanos as f64 / 1.0e6).to_bits());
    }
    watch.tic();
    let mut waste = 0_u64;
    for i in 0..100_000_u64 {
        waste = waste.wrapping_mul(31).wrapping_add(i);
    }
    assert!(waste != 1);
    watch.toc();
    assert!(f64::from_bits(watch.milliseconds().bits) >= 2.0);
    watch.reset();
    assert_eq!(f64::from_bits(watch.milliseconds().bits), 0.0);
    assert_eq!(f64::from_bits(TicToc::default().milliseconds().bits), 0.0);
}
