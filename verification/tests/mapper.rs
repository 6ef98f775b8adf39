use sepconv::mapper::stays_inside;
use sepconv::{Buffer, Convolution};

fn index(stride: usize, kernel_size: usize, tap_offset: isize, coordinate: usize, extent: usize) -> u32 {
    Buffer::<f32>::compute_pixel_index(stride, kernel_size, tap_offset, coordinate, extent)
}

/// The folded position as the definition gives it, without any reduction.
fn folded(stride: i128, kernel_size: i128, tap_offset: i128, coordinate: i128, extent: i128) -> i128 {
    let half = kernel_size / 2;
    let raw = coordinate + tap_offset * stride;
    if raw < 0 {
        -raw
    } else if raw > extent - half {
        extent - (raw - extent + half)
    } else {
        raw
    }
}

#[test]
fn position_below_zero_is_mirrored() {
    assert_eq!(index(1, 3, -1, 0, 10), 1);
    assert_eq!(index(1, 5, -2, 0, 10), 2);
    assert_eq!(index(1, 5, -2, 1, 10), 1);
    assert_eq!(index(3, 3, -1, 1, 10), 2);
}

#[test]
fn position_beyond_far_limit_is_folded_back() {
    // raw 10 exceeds the limit 10 - 1 by 1, so it is folded back from 10 by 1
    assert_eq!(index(1, 3, 1, 9, 10), 9);
    // raw 10 and 11 exceed the limit 10 - 2 by 2 and 3
    assert_eq!(index(1, 5, 1, 9, 10), 8);
    assert_eq!(index(1, 5, 2, 9, 10), 7);
    // raw 9 already exceeds the limit 8
    assert_eq!(index(1, 5, 1, 8, 10), 9);
}

#[test]
fn position_inside_is_kept() {
    for coordinate in 1..9usize {
        assert_eq!(index(1, 3, 0, coordinate, 10), coordinate as u32);
        assert_eq!(index(1, 3, -1, coordinate, 10), coordinate as u32 - 1);
    }
    assert_eq!(index(1, 3, 1, 7, 10), 8);
    assert_eq!(index(1, 3, 1, 8, 10), 9);
}

#[test]
fn center_tap_of_unit_kernel_reads_its_own_coordinate() {
    for stride in [0usize, 1, 2, 7, 1000] {
        for extent in 1..6usize {
            for coordinate in 0..extent {
                assert_eq!(index(stride, 1, 0, coordinate, extent), coordinate as u32);
            }
        }
    }
}

#[test]
fn unrepresentable_position_is_reduced() {
    // raw 5 exceeds the limit 2 - 4 by 7; folding back from 2 gives -5
    assert_eq!(folded(1, 9, 4, 1, 2), -5);
    assert_eq!(index(1, 9, 4, 1, 2), 4_294_967_291);
    // mirrored position 2^32 + 3
    assert_eq!(index(1, 3, -4_294_967_299, 0, 10), 3);
    assert_eq!(index(usize::MAX, usize::MAX, isize::MIN, usize::MAX, usize::MAX), {
        let value = folded(
            usize::MAX as i128,
            usize::MAX as i128,
            isize::MIN as i128,
            usize::MAX as i128,
            usize::MAX as i128,
        );
        value.rem_euclid(1i128 << 32) as u32
    });
}

#[test]
fn mapper_agrees_with_definition_on_small_inputs() {
    for stride in 0..4usize {
        for kernel_size in 0..7usize {
            for extent in 0..7usize {
                for coordinate in 0..7usize {
                    for tap in -4..5isize {
                        let expected = folded(
                            stride as i128,
                            kernel_size as i128,
                            tap as i128,
                            coordinate as i128,
                            extent as i128,
                        )
                        .rem_euclid(1i128 << 32);
                        assert_eq!(
                            index(stride, kernel_size, tap, coordinate, extent) as i128,
                            expected
                        );
                    }
                }
            }
        }
    }
}

#[test]
fn stays_inside_on_known_cases() {
    assert!(stays_inside(1, 3, 3));
    assert!(stays_inside(1, 3, 2));
    assert!(!stays_inside(1, 3, 1));
    assert!(stays_inside(2, 3, 3));
    assert!(!stays_inside(3, 3, 3));
    assert!(stays_inside(1, 1, 1));
    assert!(stays_inside(1_000_000, 1, 1));
    assert!(stays_inside(1, 0, 5));
    assert!(stays_inside(1, 9, 0));
    assert!(stays_inside(1, 5, 5));
    assert!(!stays_inside(1, 9, 4));
    assert!(!stays_inside(usize::MAX, usize::MAX, usize::MAX));
}

#[test]
fn stays_inside_agrees_with_exhaustive_search() {
    for stride in 0..5usize {
        for kernel_size in 0..8usize {
            for extent in 0..9usize {
                let mut inside = true;
                for coordinate in 0..extent {
                    for tap in 0..kernel_size {
                        let offset = tap as i128 - (kernel_size / 2) as i128;
                        let position = folded(
                            stride as i128,
                            kernel_size as i128,
                            offset,
                            coordinate as i128,
                            extent as i128,
                        );
                        if position < 0 || position >= extent as i128 {
                            inside = false;
                        }
                    }
                }
                assert_eq!(stays_inside(stride, kernel_size, extent), inside);
            }
        }
    }
}
