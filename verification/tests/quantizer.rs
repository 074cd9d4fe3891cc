use scalar_quantizer::error::ErrorKind;
use scalar_quantizer::fixed::{samples_from_bits, ONE};
use scalar_quantizer::params::{MAX_CODE, MID_CODE};
use scalar_quantizer::quantizer::ScalarQuantizer;

fn samples(values: &[f32]) -> Vec<i64> {
    let words: Vec<u32> = values.iter().map(|x| x.to_bits()).collect();
    samples_from_bits(&words)
}

fn min_max_reference(values: &[f32], num_vectors: usize, dim: usize) -> Vec<u8> {
    let mut codes = vec![0u8; values.len()];
    for i in 0..dim {
        let column: Vec<f64> = (0..num_vectors).map(|v| values[v * dim + i] as f64).collect();
        let min = column.iter().cloned().fold(f64::INFINITY, f64::min);
        let max = column.iter().cloned().fold(f64::NEG_INFINITY, f64::max);
        for v in 0..num_vectors {
            codes[v * dim + i] = if max > min {
                ((column[v] - min) / ((max - min) / 255.0)).round() as u8
            } else {
                128
            };
        }
    }
    codes
}

#[test]
fn new_rejects_quantile_outside_unit_interval() {
    assert_eq!(ScalarQuantizer::new(0, 100).err(), Some(ErrorKind::InvalidParameter));
    assert_eq!(ScalarQuantizer::new(101, 100).err(), Some(ErrorKind::InvalidParameter));
    assert_eq!(ScalarQuantizer::new(1, 0).err(), Some(ErrorKind::InvalidParameter));
    assert!(ScalarQuantizer::new(99, 100).is_ok());
    assert!(ScalarQuantizer::new(100, 100).is_ok());
}

#[test]
fn new_keeps_the_quantile() {
    let quantizer = ScalarQuantizer::new(99, 100).unwrap();
    assert_eq!(quantizer.quantile().numer(), 99);
    assert_eq!(quantizer.quantile().denom(), 100);
}

#[test]
fn error_kinds_have_messages() {
    assert_eq!(ErrorKind::InvalidParameter.message(), "quantile must lie in (0, 1]");
    assert_eq!(ErrorKind::ShapeMismatch.message(), "value count does not equal num_vectors * dim");
    assert_eq!(ErrorKind::InsufficientData.message(), "a dimension has no samples");
}

#[test]
fn four_samples_at_quantile_099() {
    let quantizer = ScalarQuantizer::new(99, 100).unwrap();
    let values = samples(&[1.0, 2.0, 3.0, 100.0]);
    let batch = quantizer.quantize(&values, 4, 1).unwrap();
    assert_eq!(batch.dim(), 1);
    assert_eq!(batch.num_vectors(), 4);
    assert_eq!(batch.params().len(), 1);
    assert_eq!(batch.params()[0].offset(), ONE);
    assert_eq!(batch.params()[0].span(), 99 * ONE as u64);
    // 255 * 1 / 99 = 2.58, 255 * 2 / 99 = 5.15
    assert_eq!(batch.codes(), &[0, 3, 5, 255]);
    for pair in batch.codes().windows(2) {
        assert!(pair[0] <= pair[1]);
    }
    assert_eq!(batch.codes()[3], MAX_CODE);
}

#[test]
fn mismatched_shape_is_rejected() {
    let quantizer = ScalarQuantizer::new(99, 100).unwrap();
    let values = [1i64, 2, 3, 4, 5, 6];
    for (num_vectors, dim) in [(2, 2), (3, 3), (6, 0), (0, 6), (0, 0), (7, 1), (1, 5), (4, 2)] {
        assert_eq!(
            quantizer.quantize(&values, num_vectors, dim).err(),
            Some(ErrorKind::ShapeMismatch),
            "{num_vectors} x {dim}"
        );
    }
    assert_eq!(quantizer.quantize(&[], 1, 1).err(), Some(ErrorKind::ShapeMismatch));
    assert!(quantizer.quantize(&values, 2, 3).is_ok());
    assert!(quantizer.quantize(&values, 3, 2).is_ok());
    assert!(quantizer.quantize(&values, 6, 1).is_ok());
    assert!(quantizer.quantize(&values, 1, 6).is_ok());
}

#[test]
fn shape_whose_product_overflows_is_a_mismatch() {
    let quantizer = ScalarQuantizer::new(1, 1).unwrap();
    assert_eq!(
        quantizer.quantize(&[], usize::MAX, 2).err(),
        Some(ErrorKind::ShapeMismatch)
    );
    assert_eq!(
        quantizer.quantize(&[0, 0], usize::MAX / 2 + 2, 2).err(),
        Some(ErrorKind::ShapeMismatch)
    );
}

#[test]
fn dimensions_without_vectors_are_insufficient_data() {
    let quantizer = ScalarQuantizer::new(99, 100).unwrap();
    assert_eq!(quantizer.quantize(&[], 0, 3).err(), Some(ErrorKind::InsufficientData));
    assert_eq!(quantizer.quantize(&[], 0, 1).err(), Some(ErrorKind::InsufficientData));
}

#[test]
fn batch_without_dimensions_is_empty() {
    let quantizer = ScalarQuantizer::new(99, 100).unwrap();
    let batch = quantizer.quantize(&[], 5, 0).unwrap();
    assert_eq!(batch.dim(), 0);
    assert_eq!(batch.num_vectors(), 5);
    assert!(batch.params().is_empty());
    assert!(batch.codes().is_empty());
    let none = quantizer.quantize(&[], 0, 0).unwrap();
    assert_eq!(none.dim(), 0);
    assert_eq!(none.num_vectors(), 0);
}

#[test]
fn each_dimension_has_its_own_parameters() {
    let quantizer = ScalarQuantizer::new(1, 1).unwrap();
    // Three vectors of two dimensions, row-major.
    let values = [0i64, 1000, 255, 3000, 51, 2000];
    let batch = quantizer.quantize(&values, 3, 2).unwrap();
    assert_eq!(batch.dim(), 2);
    assert_eq!(batch.num_vectors(), 3);
    assert_eq!(batch.params()[0].offset(), 0);
    assert_eq!(batch.params()[0].span(), 255);
    assert_eq!(batch.params()[1].offset(), 1000);
    assert_eq!(batch.params()[1].span(), 2000);
    assert_eq!(batch.codes(), &[0, 0, 255, 255, 51, 128]);
    assert_eq!(batch.code(0, 0), 0);
    assert_eq!(batch.code(1, 0), 255);
    assert_eq!(batch.code(2, 0), 51);
    assert_eq!(batch.code(0, 1), 0);
    assert_eq!(batch.code(1, 1), 255);
    assert_eq!(batch.code(2, 1), 128);
    assert_eq!(batch.dequantize(51, 0), 51);
    assert_eq!(batch.dequantize(128, 1), 2004);
    assert_eq!(batch.dequantize(0, 1), 1000);
    assert_eq!(batch.dequantize(255, 1), 3000);
}

#[test]
fn quantizing_twice_gives_the_same_batch() {
    let quantizer = ScalarQuantizer::new(9, 10).unwrap();
    let mut values: Vec<i64> = Vec::new();
    let mut x: i64 = 99;
    for _ in 0..(40 * 7) {
        x = (x * 1_103_515_245 + 12345) % 2_147_483_648;
        values.push(x - 1_000_000_000);
    }
    let first = quantizer.quantize(&values, 40, 7).unwrap();
    let second = quantizer.quantize(&values, 40, 7).unwrap();
    assert_eq!(first.codes(), second.codes());
    assert_eq!(first.params(), second.params());
    assert_eq!(first.num_vectors(), second.num_vectors());
    let again = ScalarQuantizer::new(9, 10).unwrap().quantize(&values, 40, 7).unwrap();
    assert_eq!(first.codes(), again.codes());
    assert_eq!(first.params(), again.params());
}

#[test]
fn constant_dimension_gets_zero_scale_and_midpoint_codes() {
    let quantizer = ScalarQuantizer::new(99, 100).unwrap();
    let values = samples(&[0.5, 1.0, 0.5, 2.0, 0.5, 3.0, 0.5, 4.0]);
    let batch = quantizer.quantize(&values, 4, 2).unwrap();
    assert!(batch.params()[0].is_constant());
    assert_eq!(batch.params()[0].span(), 0);
    assert_eq!(batch.params()[0].offset(), ONE / 2);
    assert!(!batch.params()[1].is_constant());
    for v in 0..4 {
        assert_eq!(batch.codes()[v * 2], MID_CODE);
        assert_eq!(batch.dequantize(batch.codes()[v * 2], 0), ONE / 2);
    }
    assert_eq!(batch.codes()[1], 0);
    assert_eq!(batch.codes()[3], 85);
    assert_eq!(batch.codes()[5], 170);
    assert_eq!(batch.codes()[7], 255);
}

#[test]
fn single_vector_makes_every_dimension_constant() {
    let quantizer = ScalarQuantizer::new(1, 2).unwrap();
    let batch = quantizer.quantize(&[7, -7, 0], 1, 3).unwrap();
    assert_eq!(batch.codes(), &[MID_CODE, MID_CODE, MID_CODE]);
    assert_eq!(batch.dequantize(MID_CODE, 0), 7);
    assert_eq!(batch.dequantize(MID_CODE, 1), -7);
    assert_eq!(batch.dequantize(MID_CODE, 2), 0);
}

#[test]
fn outliers_clamp_to_the_ends_of_the_code_range() {
    let quantizer = ScalarQuantizer::new(99, 100).unwrap();
    let mut values: Vec<i64> = (1..=198).collect();
    values.push(-1_000_000);
    values.push(1_000_000);
    let batch = quantizer.quantize(&values, 200, 1).unwrap();
    assert_eq!(batch.params()[0].offset(), 1);
    assert_eq!(batch.params()[0].span(), 197);
    assert_eq!(batch.codes()[198], 0);
    assert_eq!(batch.codes()[199], 255);
    assert_eq!(batch.codes()[0], 0);
    assert_eq!(batch.codes()[197], 255);
    // 255 * 99 / 197 = 128.15
    assert_eq!(batch.codes()[99], 128);
}

#[test]
fn full_quantile_is_min_max_scaling() {
    let quantizer = ScalarQuantizer::new(1, 1).unwrap();
    let values: [f32; 18] = [
        0.0, -4.0, 10.0, 0.25, 4.0, 10.5, 0.5, 0.0, 11.0, 1.0, 1.0, 12.0, 0.75, -1.0, 10.25, 0.125,
        3.0, 13.0,
    ];
    let batch = quantizer.quantize(&samples(&values), 6, 3).unwrap();
    assert_eq!(batch.params()[0].offset(), 0);
    assert_eq!(batch.params()[0].span(), ONE as u64);
    assert_eq!(batch.params()[1].offset(), -4 * ONE);
    assert_eq!(batch.params()[1].span(), 8 * ONE as u64);
    assert_eq!(batch.params()[2].offset(), 10 * ONE);
    assert_eq!(batch.params()[2].span(), 3 * ONE as u64);
    assert_eq!(batch.codes(), min_max_reference(&values, 6, 3).as_slice());
    assert_eq!(&batch.codes()[0..3], &[0, 0, 0]);
    assert_eq!(&batch.codes()[3..6], &[64, 255, 43]);
    assert_eq!(&batch.codes()[6..9], &[128, 128, 85]);
}

#[test]
fn values_inside_the_bounds_come_back_within_one_step() {
    let quantizer = ScalarQuantizer::new(9, 10).unwrap();
    let dim = 3;
    let num_vectors = 50;
    let mut values: Vec<i64> = Vec::new();
    let mut x: i64 = 4711;
    for _ in 0..(num_vectors * dim) {
        x = (x * 1_103_515_245 + 12345) % 2_147_483_648;
        values.push(x % 100_000 - 50_000);
    }
    let batch = quantizer.quantize(&values, num_vectors, dim).unwrap();
    let mut inside = 0;
    for (k, v) in values.iter().enumerate() {
        let p = batch.params()[k % dim];
        let low = p.offset() as i128;
        let high = low + p.span() as i128;
        let back = batch.dequantize(batch.codes()[k], k % dim) as i128;
        assert!(low <= back && back <= high);
        if low <= *v as i128 && *v as i128 <= high {
            inside += 1;
            assert!(255 * (back - *v as i128).abs() <= p.span() as i128);
        }
    }
    assert!(inside >= num_vectors * dim * 9 / 10);
    assert!(inside < num_vectors * dim);
}

#[test]
fn codes_follow_the_order_of_the_values_in_each_dimension() {
    let quantizer = ScalarQuantizer::new(8, 10).unwrap();
    let dim = 4;
    let num_vectors = 30;
    let mut values: Vec<i64> = Vec::new();
    let mut x: i64 = 2024;
    for _ in 0..(num_vectors * dim) {
        x = (x * 1_103_515_245 + 12345) % 2_147_483_648;
        values.push(x % 1000);
    }
    let batch = quantizer.quantize(&values, num_vectors, dim).unwrap();
    for i in 0..dim {
        for a in 0..num_vectors {
            for b in 0..num_vectors {
                if values[a * dim + i] < values[b * dim + i] {
                    assert!(batch.codes()[a * dim + i] <= batch.codes()[b * dim + i]);
                }
            }
        }
    }
}
