use sepconv::{Arithmetic, Buffer, Rescale, RescaleRange};

fn floats() -> Arithmetic<
    f32,
    impl Fn(f32, f32) -> f32,
    impl Fn(f32, f32) -> f32,
    impl Fn(f32, f32) -> f32,
    impl Fn(f32, f32) -> f32,
    impl Fn(f32, f32) -> bool,
> {
    anchored(0.0, 1.0)
}

/// Floating-point arithmetic that takes `zero` and `one` for its anchors.
fn anchored(
    zero: f32,
    one: f32,
) -> Arithmetic<
    f32,
    impl Fn(f32, f32) -> f32,
    impl Fn(f32, f32) -> f32,
    impl Fn(f32, f32) -> f32,
    impl Fn(f32, f32) -> f32,
    impl Fn(f32, f32) -> bool,
> {
    Arithmetic {
        zero,
        one,
        sum: |a: f32, b: f32| a + b,
        difference: |a: f32, b: f32| a - b,
        product: |a: f32, b: f32| a * b,
        quotient: |a: f32, b: f32| a / b,
        below: |a: f32, b: f32| a < b,
    }
}

fn rescale_value(min: f32, max: f32, value: f32, range: RescaleRange<f32>) -> f32 {
    Buffer::<f32>::rescale_value(min, max, value, range, &floats())
}

fn rescaled(channels: usize, samples: Vec<f32>, range: RescaleRange<f32>) -> Vec<f32> {
    let pixels = if channels == 0 { 0 } else { samples.len() / channels };
    let mut buffer = Buffer::new(pixels as u32, 1, channels, samples).unwrap();
    buffer.rescale(range, &floats());
    buffer.into_samples()
}

fn rescaled_by_channel(channels: usize, samples: Vec<f32>, range: RescaleRange<f32>) -> Vec<f32> {
    let pixels = if channels == 0 { 0 } else { samples.len() / channels };
    let mut buffer = Buffer::new(pixels as u32, 1, channels, samples).unwrap();
    buffer.channel_wise_rescale(range, &floats());
    buffer.into_samples()
}

#[test]
fn range_ends() {
    assert_eq!(RescaleRange::Custom(-2.0f32, 5.0).min(0.0), -2.0);
    assert_eq!(RescaleRange::Custom(-2.0f32, 5.0).max(1.0), 5.0);
    assert_eq!(RescaleRange::<f32>::Max.min(0.0), 0.0);
    assert_eq!(RescaleRange::<f32>::Max.max(1.0), 1.0);
    assert_eq!(RescaleRange::<i32>::Max.min(7), 7);
    assert_eq!(RescaleRange::<i32>::Max.max(9), 9);
}

#[test]
fn observed_range_is_widened_to_zero_and_one() {
    let narrow = Buffer::new(3, 1, 1, vec![0.25f32, 0.5, 0.75]).unwrap();
    assert_eq!(narrow.min(&floats()), 0.0);
    assert_eq!(narrow.max(&floats()), 1.0);
    let wide = Buffer::new(2, 2, 1, vec![0.5f32, -3.0, 4.0, 0.0]).unwrap();
    assert_eq!(wide.min(&floats()), -3.0);
    assert_eq!(wide.max(&floats()), 4.0);
    let high = Buffer::new(2, 1, 1, vec![2.0f32, 3.0]).unwrap();
    assert_eq!(high.min(&floats()), 0.0);
    assert_eq!(high.max(&floats()), 3.0);
    let empty = Buffer::new(0, 0, 1, Vec::<f32>::new()).unwrap();
    assert_eq!(empty.min(&floats()), 0.0);
    assert_eq!(empty.max(&floats()), 1.0);
}

#[test]
fn observed_range_pools_all_channels() {
    let buffer = Buffer::new(2, 1, 3, vec![0.5f32, 7.0, 0.1, -2.0, 0.5, 0.9]).unwrap();
    assert_eq!(buffer.min(&floats()), -2.0);
    assert_eq!(buffer.max(&floats()), 7.0);
}

#[test]
fn rescale_maps_observed_range_onto_target() {
    assert_eq!(rescaled(1, vec![0.0, 0.5, 2.0], RescaleRange::Max), vec![0.0, 0.25, 1.0]);
    assert_eq!(
        rescaled(1, vec![0.0, 0.5, 2.0], RescaleRange::Custom(10.0, 20.0)),
        vec![10.0, 12.5, 20.0]
    );
    assert_eq!(
        rescaled(1, vec![-1.0, 0.0, 3.0], RescaleRange::Max),
        vec![0.0, 0.25, 1.0]
    );
    // all channels share the range from -2 to 6
    assert_eq!(
        rescaled(2, vec![-2.0, 6.0, 2.0, 0.0], RescaleRange::Custom(0.0, 8.0)),
        vec![0.0, 8.0, 4.0, 2.0]
    );
}

#[test]
fn rescale_of_normalized_buffer_changes_nothing() {
    let samples = vec![0.0f32, 0.125, 0.3, 0.5, 0.9, 1.0, 0.33, 0.77];
    assert_eq!(rescaled(1, samples.clone(), RescaleRange::Max), samples);
    assert_eq!(rescaled(2, samples.clone(), RescaleRange::Max), samples);
    assert_eq!(rescaled_by_channel(2, samples.clone(), RescaleRange::Max), samples);
}

#[test]
fn rescale_there_and_back_returns_the_samples() {
    let samples = vec![0.0f32, 0.1, 0.25, 0.6, 0.99, 1.0];
    let (a, b) = (2.0f32, 5.0f32);
    // from [0, 1] onto [a, b]: the result lies in [a, b], and its observed
    // range, widened to hold zero and one, is [0, b]
    let there = rescaled(1, samples.clone(), RescaleRange::Custom(a, b));
    for (value, sample) in there.iter().zip(samples.iter()) {
        assert!((value - (a + sample * (b - a))).abs() < 1e-5);
    }
    // the inverse map sends 0 to -a / (b - a) and b to 1
    let back = rescaled(1, there, RescaleRange::Custom(-a / (b - a), 1.0));
    for (value, sample) in back.iter().zip(samples.iter()) {
        assert!((value - sample).abs() < 1e-5);
    }
}

#[test]
fn rescale_there_and_back_is_exact_where_the_arithmetic_is() {
    // the observed range of the samples runs from 0 to 4; every quotient
    // below is exact
    let samples = vec![2.0f32, 3.0, 4.0, 0.5, 1.0];
    let mut buffer = Buffer::new(5, 1, 1, samples.clone()).unwrap();
    let (low, high) = (buffer.min(&floats()), buffer.max(&floats()));
    assert_eq!((low, high), (0.0, 4.0));
    buffer.rescale(RescaleRange::Max, &floats());
    assert_eq!(buffer.samples(), &vec![0.5, 0.75, 1.0, 0.125, 0.25]);
    buffer.rescale(RescaleRange::Custom(low, high), &floats());
    assert_eq!(buffer.into_samples(), samples);
}

#[test]
fn channel_wise_rescale_of_single_channel_is_rescale() {
    let samples = vec![0.3f32, -1.5, 4.0, 0.0, 2.25, 1.0, -0.75];
    for range in [RescaleRange::Max, RescaleRange::Custom(-1.0, 1.0), RescaleRange::Custom(3.0, 9.0)] {
        assert_eq!(
            rescaled_by_channel(1, samples.clone(), range),
            rescaled(1, samples.clone(), range)
        );
    }
}

#[test]
fn channel_wise_rescale_uses_each_channels_own_range() {
    // first channel ranges over [0, 2], second over [-1, 1], third over [0, 4]
    let samples = vec![2.0f32, -1.0, 4.0, 1.0, 0.0, 2.0, 0.0, 1.0, 1.0];
    assert_eq!(
        rescaled_by_channel(3, samples.clone(), RescaleRange::Max),
        vec![1.0, 0.0, 1.0, 0.5, 0.5, 0.5, 0.0, 1.0, 0.25]
    );
    // as a whole the range is [-1, 4]
    assert_eq!(
        rescaled(3, samples, RescaleRange::Custom(0.0, 10.0)),
        vec![6.0, 0.0, 10.0, 4.0, 2.0, 6.0, 2.0, 4.0, 4.0]
    );
}

#[test]
fn rescale_of_empty_buffer_changes_nothing() {
    assert_eq!(rescaled(1, vec![], RescaleRange::Max), Vec::<f32>::new());
    assert_eq!(rescaled_by_channel(1, vec![], RescaleRange::Max), Vec::<f32>::new());
    assert_eq!(rescaled_by_channel(0, vec![], RescaleRange::Max), Vec::<f32>::new());
}

#[test]
fn observed_range_without_width_maps_to_lower_end() {
    // both anchors at 3, and no sample elsewhere: the range runs from 3 to 3
    let mut flat = Buffer::new(2, 2, 1, vec![3.0f32; 4]).unwrap();
    flat.rescale(RescaleRange::Custom(-1.0, 1.0), &anchored(3.0, 3.0));
    assert_eq!(flat.into_samples(), vec![-1.0; 4]);

    let mut flat = Buffer::new(2, 1, 2, vec![3.0f32; 4]).unwrap();
    flat.channel_wise_rescale(RescaleRange::Max, &anchored(3.0, 3.0));
    // the lower end of the full range is the first anchor
    assert_eq!(flat.into_samples(), vec![3.0; 4]);

    // an anchor that is not a number is below nothing and above nothing
    let mut odd = Buffer::new(3, 1, 1, vec![f32::NAN; 3]).unwrap();
    odd.rescale(RescaleRange::Custom(7.0, 9.0), &anchored(f32::NAN, f32::NAN));
    assert_eq!(odd.into_samples(), vec![7.0; 3]);

    // one channel with width, one without
    let mut mixed = Buffer::new(2, 1, 2, vec![2.0f32, 2.0, 4.0, 2.0]).unwrap();
    mixed.channel_wise_rescale(RescaleRange::Custom(0.0, 10.0), &anchored(2.0, 2.0));
    assert_eq!(mixed.into_samples(), vec![0.0, 0.0, 10.0, 0.0]);
}

#[test]
fn rescale_value_is_the_affine_map() {
    assert_eq!(rescale_value(0.0, 2.0, 0.5, RescaleRange::Max), 0.25);
    assert_eq!(rescale_value(0.0, 2.0, 0.5, RescaleRange::Custom(10.0, 20.0)), 12.5);
    assert_eq!(rescale_value(-1.0, 3.0, 3.0, RescaleRange::Custom(-5.0, 5.0)), 5.0);
    assert_eq!(rescale_value(-1.0, 3.0, -1.0, RescaleRange::Custom(-5.0, 5.0)), -5.0);
    // outside the observed range the map goes on
    assert_eq!(rescale_value(0.0, 1.0, 2.0, RescaleRange::Custom(0.0, 10.0)), 20.0);
    // a range that runs downwards is a range
    assert_eq!(rescale_value(4.0, 0.0, 1.0, RescaleRange::Max), 0.75);
    // exact integers: 10 + (7 - 2) * (30 - 10) / (12 - 2)
    let integers = Arithmetic {
        zero: 0i32,
        one: 1i32,
        sum: |a: i32, b: i32| a + b,
        difference: |a: i32, b: i32| a - b,
        product: |a: i32, b: i32| a * b,
        quotient: |a: i32, b: i32| a / b,
        below: |a: i32, b: i32| a < b,
    };
    assert_eq!(Buffer::<i32>::rescale_value(2, 12, 7, RescaleRange::Custom(10, 30), &integers), 20);
    // the product comes before the quotient: (3 * 3) / 4, not 3 * (3 / 4)
    assert_eq!(Buffer::<i32>::rescale_value(0, 4, 3, RescaleRange::Custom(0, 3), &integers), 2);
}

#[test]
fn rescale_value_of_range_without_width_is_lower_end() {
    assert_eq!(rescale_value(3.0, 3.0, 3.0, RescaleRange::Custom(-1.0, 1.0)), -1.0);
    assert_eq!(rescale_value(3.0, 3.0, 100.0, RescaleRange::Custom(-1.0, 1.0)), -1.0);
    assert_eq!(rescale_value(0.0, 0.0, 5.0, RescaleRange::Max), 0.0);
    assert_eq!(rescale_value(f32::NAN, 1.0, 5.0, RescaleRange::Custom(2.0, 4.0)), 2.0);
}

#[test]
fn range_with_width_is_always_mapped() {
    let flat = vec![0.5f32; 4];
    assert_eq!(rescaled(1, flat.clone(), RescaleRange::Max), flat);
    assert_eq!(
        rescaled(1, flat, RescaleRange::Custom(2.0, 4.0)),
        vec![3.0; 4]
    );
}

#[test]
fn rescale_follows_the_callers_order() {
    // with the order reversed the observed range runs from the highest
    // sample, widened to hold the first anchor, to the lowest
    let reversed = Arithmetic {
        zero: 0i32,
        one: 1i32,
        sum: |a: i32, b: i32| a + b,
        difference: |a: i32, b: i32| a - b,
        product: |a: i32, b: i32| a * b,
        quotient: |a: i32, b: i32| a / b,
        below: |a: i32, b: i32| a > b,
    };
    let buffer = Buffer::new(3, 1, 1, vec![5i32, -2, 9]).unwrap();
    assert_eq!(buffer.min(&reversed), 9);
    assert_eq!(buffer.max(&reversed), -2);
}
