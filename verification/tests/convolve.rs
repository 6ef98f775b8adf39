use sepconv::mapper::stays_inside;
use sepconv::{Arithmetic, Buffer, Convolution, SeparableKernel};

fn floats() -> Arithmetic<
    f32,
    impl Fn(f32, f32) -> f32,
    impl Fn(f32, f32) -> f32,
    impl Fn(f32, f32) -> f32,
    impl Fn(f32, f32) -> f32,
    impl Fn(f32, f32) -> bool,
> {
    Arithmetic {
        zero: 0.0,
        one: 1.0,
        sum: |a: f32, b: f32| a + b,
        difference: |a: f32, b: f32| a - b,
        product: |a: f32, b: f32| a * b,
        quotient: |a: f32, b: f32| a / b,
        below: |a: f32, b: f32| a < b,
    }
}

fn integers() -> Arithmetic<
    i64,
    impl Fn(i64, i64) -> i64,
    impl Fn(i64, i64) -> i64,
    impl Fn(i64, i64) -> i64,
    impl Fn(i64, i64) -> i64,
    impl Fn(i64, i64) -> bool,
> {
    Arithmetic {
        zero: 0,
        one: 1,
        sum: |a: i64, b: i64| a.wrapping_add(b),
        difference: |a: i64, b: i64| a.wrapping_sub(b),
        product: |a: i64, b: i64| a.wrapping_mul(b),
        quotient: |a: i64, b: i64| a.checked_div(b).unwrap_or(0),
        below: |a: i64, b: i64| a < b,
    }
}

fn convolve_floats<const SIZE: usize>(
    width: u32,
    height: u32,
    channels: usize,
    samples: Vec<f32>,
    kernel: [f32; SIZE],
    stride: usize,
) -> Vec<f32> {
    let mut buffer = Buffer::new(width, height, channels, samples).unwrap();
    assert!(buffer.len() == 0 || stays_inside(stride, SIZE, width as usize));
    assert!(buffer.len() == 0 || stays_inside(stride, SIZE, height as usize));
    buffer.convolve(SeparableKernel::new(kernel), stride, &floats());
    buffer.into_samples()
}

fn convolve_integers<const SIZE: usize>(
    width: u32,
    height: u32,
    channels: usize,
    samples: Vec<i64>,
    kernel: [i64; SIZE],
    stride: usize,
) -> Vec<i64> {
    let mut buffer = Buffer::new(width, height, channels, samples).unwrap();
    assert!(buffer.len() == 0 || stays_inside(stride, SIZE, width as usize));
    assert!(buffer.len() == 0 || stays_inside(stride, SIZE, height as usize));
    buffer.convolve(SeparableKernel::new(kernel), stride, &integers());
    buffer.into_samples()
}

#[test]
fn unit_kernel_is_identity_at_any_stride() {
    let samples: Vec<f32> = (0..35).map(|i| (i as f32) * 0.37 - 3.0).collect();
    for stride in [1usize, 2, 3, 10, 1000] {
        assert_eq!(convolve_floats(7, 5, 1, samples.clone(), [1.0], stride), samples);
    }
    let colors: Vec<f32> = (0..36).map(|i| (i as f32) * 0.11).collect();
    assert_eq!(convolve_floats(3, 4, 3, colors.clone(), [1.0], 2), colors);
    assert_eq!(convolve_floats(1, 1, 1, vec![0.75], [1.0], 5), vec![0.75]);
}

#[test]
fn constant_buffer_is_preserved_by_normalized_kernel() {
    for (width, height) in [(3u32, 3u32), (4, 3), (5, 5), (8, 6)] {
        let samples = vec![0.5f32; (width * height) as usize];
        assert_eq!(
            convolve_floats(width, height, 1, samples.clone(), [0.25, 0.5, 0.25], 1),
            samples
        );
    }
    let colors = vec![0.5f32; 5 * 5 * 3];
    assert_eq!(convolve_floats(5, 5, 3, colors.clone(), [0.25, 0.5, 0.25], 2), colors);
}

#[test]
fn in_place_passes_give_known_values() {
    // Rows first: [1 2 3] becomes [5 10 16] and [4 5 6] becomes [14 25 37],
    // each cell adding its folded neighbours, the left one already updated.
    // Columns next: [5 14] becomes [33 61], [10 25] becomes [60 110] and
    // [16 37] becomes [90 164].
    assert_eq!(
        convolve_integers(3, 2, 1, vec![1, 2, 3, 4, 5, 6], [1, 1, 1], 1),
        vec![33, 60, 90, 61, 110, 164]
    );
    assert_eq!(
        convolve_integers(3, 3, 1, (1..=9).collect(), [1, 2, 3], 1),
        vec![132, 270, 420, 326, 649, 994, 556, 1094, 1664]
    );
}

#[test]
fn stride_spaces_the_taps() {
    assert_eq!(
        convolve_integers(5, 5, 1, (1..=25).collect(), [1, 0, 2], 2),
        vec![
            117, 120, 207, 210, 627, 132, 135, 232, 235, 702, 255, 260, 445, 450, 1345, 270, 275,
            470, 475, 1420, 795, 810, 1385, 1400, 4185
        ]
    );
}

#[test]
fn channels_are_filtered_independently() {
    assert_eq!(
        convolve_integers(
            3,
            2,
            2,
            vec![1, 10, 2, 20, 3, 30, 4, 40, 5, 50, 6, 60],
            [1, 1, 1],
            1
        ),
        vec![33, 330, 60, 600, 90, 900, 61, 610, 110, 1100, 164, 1640]
    );
    let first: Vec<i64> = (0..20).map(|i| i * i - 7).collect();
    let second: Vec<i64> = (0..20).map(|i| 3 - 2 * i).collect();
    let mut both = Vec::new();
    for i in 0..20 {
        both.push(first[i]);
        both.push(second[i]);
    }
    let filtered = convolve_integers(5, 4, 2, both, [2, -1, 3], 1);
    let filtered_first = convolve_integers(5, 4, 1, first, [2, -1, 3], 1);
    let filtered_second = convolve_integers(5, 4, 1, second, [2, -1, 3], 1);
    for i in 0..20 {
        assert_eq!(filtered[2 * i], filtered_first[i]);
        assert_eq!(filtered[2 * i + 1], filtered_second[i]);
    }
}

#[test]
fn empty_buffer_is_left_alone() {
    assert_eq!(convolve_floats(0, 0, 1, vec![], [0.25, 0.5, 0.25], 1), Vec::<f32>::new());
    assert_eq!(convolve_floats(0, 4, 1, vec![], [0.25, 0.5, 0.25], 1), Vec::<f32>::new());
    assert_eq!(convolve_floats(4, 0, 3, vec![], [0.25, 0.5, 0.25], 1), Vec::<f32>::new());
    assert_eq!(convolve_floats(4, 4, 0, vec![], [0.25, 0.5, 0.25], 1), Vec::<f32>::new());
}

#[test]
fn empty_kernel_clears_the_buffer() {
    assert_eq!(convolve_integers(2, 2, 1, vec![1, 2, 3, 4], [], 1), vec![0, 0, 0, 0]);
}

#[test]
fn even_kernel_leans_to_the_left() {
    // taps at offsets -1 and 0
    assert_eq!(
        convolve_integers(3, 2, 1, vec![1, 2, 3, 4, 5, 6], [1, 1], 1),
        {
            // rows: [1 2 3] -> [2+1, 3+2, 5+3] = [3 5 8]; [4 5 6] -> [9 14 20]
            // columns: [3 9] -> [9+3, 12+9] = [12 21]; [5 14] -> [19 33]; [8 20] -> [28 48]
            vec![12, 19, 28, 21, 33, 48]
        }
    );
}

#[test]
fn box_filter_spreads_a_single_peak() {
    let mut samples = vec![0.0f32; 25];
    samples[12] = 1.0;
    let third = 1.0f32 / 3.0;
    let filtered = convolve_floats(5, 5, 1, samples, [third, third, third], 1);
    let center = filtered[12];
    assert!(center < 1.0);
    assert!((center - 16.0 / 81.0).abs() < 1e-6);
    for neighbour in [6usize, 7, 8, 11, 13, 16, 17, 18] {
        assert!(filtered[neighbour] > 0.0);
        assert!(filtered[neighbour] < center);
    }
    assert!((filtered[6] - 1.0 / 9.0).abs() < 1e-6);
    assert!((filtered[7] - 4.0 / 27.0).abs() < 1e-6);
    assert!((filtered[11] - 4.0 / 27.0).abs() < 1e-6);
    assert!((filtered[13] - 16.0 / 243.0).abs() < 1e-6);
    let total: f32 = filtered.iter().sum();
    assert!((total - 6241.0 / 6561.0).abs() < 1e-5);
    assert!((total - 1.0).abs() < 0.05);
}

#[test]
fn accumulate_adds_the_weighted_sample() {
    assert_eq!(floats().accumulate(1.5, 2.0, 0.25), 2.0);
    assert_eq!(integers().accumulate(7, 3, -2), 1);
}

#[test]
fn taps_are_accumulated_in_tap_order() {
    // a sum that remembers the order in which its terms arrive
    let ordered = Arithmetic {
        zero: 0i64,
        one: 1i64,
        sum: |a: i64, b: i64| a * 10 + b,
        difference: |a: i64, b: i64| a - b,
        product: |a: i64, b: i64| a * b,
        quotient: |a: i64, _b: i64| a,
        below: |a: i64, b: i64| a < b,
    };
    // In the top row cell 0 reads the positions 1, 0, 1: the terms 2, 2, 6
    // arrive in that order and make 226. Cell 1 reads 0, already written,
    // then 1 and 2: 226, 4, 9 make 22649. Cell 2 reads 1, 2, 2: 22649, 6, 9
    // make 2264969. The bottom row is zero and stays zero.
    let mut buffer = Buffer::new(3, 2, 1, vec![1, 2, 3, 0, 0, 0]).unwrap();
    buffer.convolve(SeparableKernel::new([1, 2, 3]), 1, &ordered);
    let samples = buffer.into_samples();
    // Down a column the top cell reads the rows 1, 0, 1: the terms 0, 2v, 0
    // make 20v. The bottom cell reads 0, already written, then 1 and 1:
    // 20v, 0, 0 make 2000v.
    assert_eq!(samples[0], 2 * 226 * 10);
    assert_eq!(samples[1], 2 * 22649 * 10);
    assert_eq!(samples[2], 2 * 2264969 * 10);
    assert_eq!(samples[3], 2 * 226 * 1000);
    assert_eq!(samples, vec![4520, 452980, 45299380, 452000, 45298000, 4529938000]);
}

#[test]
fn try_convolve_refuses_taps_outside_the_buffer() {
    // three taps on a single row reach above and below it
    let samples = vec![1i64, 2, 3];
    let mut buffer = Buffer::new(3, 1, 1, samples.clone()).unwrap();
    assert!(!buffer.try_convolve(SeparableKernel::new([1, 1, 1]), 1, &integers()));
    assert_eq!(buffer.into_samples(), samples);
    // nine taps on four columns
    let samples: Vec<i64> = (0..16).collect();
    let mut buffer = Buffer::new(4, 4, 1, samples.clone()).unwrap();
    assert!(!buffer.try_convolve(SeparableKernel::new([1; 9]), 1, &integers()));
    assert_eq!(buffer.into_samples(), samples);
    // three taps at stride 3 on three columns
    let samples: Vec<i64> = (0..9).collect();
    let mut buffer = Buffer::new(3, 3, 1, samples.clone()).unwrap();
    assert!(!buffer.try_convolve(SeparableKernel::new([1, 1, 1]), 3, &integers()));
    assert_eq!(buffer.into_samples(), samples);
}

#[test]
fn try_convolve_convolves_where_taps_fit() {
    let mut buffer = Buffer::new(3, 2, 1, vec![1i64, 2, 3, 4, 5, 6]).unwrap();
    assert!(buffer.try_convolve(SeparableKernel::new([1, 1, 1]), 1, &integers()));
    assert_eq!(buffer.into_samples(), vec![33, 60, 90, 61, 110, 164]);
    // a kernel longer than the buffer is wide, whose taps still fit
    let mut buffer = Buffer::new(2, 2, 1, vec![1i64, 2, 3, 4]).unwrap();
    assert!(buffer.try_convolve(SeparableKernel::new([1, 1, 1]), 1, &integers()));
    // rows: [1 2] -> [2+1+2, 5+2+2] = [5 9]; [3 4] -> [4+3+4, 11+4+4] = [11 19]
    // columns: [5 11] -> [11+5+11, 27+11+11] = [27 49]; [9 19] -> [47 85]
    assert_eq!(buffer.into_samples(), vec![27, 47, 49, 85]);
    // nothing to read in an empty buffer
    let mut empty = Buffer::new(0, 3, 1, Vec::<i64>::new()).unwrap();
    assert!(empty.try_convolve(SeparableKernel::new([1; 9]), 5, &integers()));
}
