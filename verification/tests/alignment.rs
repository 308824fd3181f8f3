use unpac::utils::needed_to_align;
use unpac::utils::needed_to_align_with_excess;
use unpac::utils::pad_to_nearest;
use unpac::utils::pad_to_nearest_with_excess;
use unpac::utils::to_fixed_length;

#[test]
fn needed_to_align_reaches_the_next_multiple() {
    assert_eq!(needed_to_align(3, 16), 13);
    assert_eq!(needed_to_align(16, 16), 0);
    assert_eq!(needed_to_align(0, 16), 0);
    assert_eq!(needed_to_align(17, 16), 15);
    for size in 0usize..100 {
        for step in 1usize..20 {
            let needed = needed_to_align(size, step);
            assert!(needed < step);
            assert_eq!((needed + size) % step, 0);
        }
    }
}

#[test]
fn needed_to_align_with_excess_is_never_zero() {
    assert_eq!(needed_to_align_with_excess(20, 16), 12);
    assert_eq!(needed_to_align_with_excess(16, 16), 16);
    assert_eq!(needed_to_align_with_excess(0, 4), 4);
    for size in 0usize..100 {
        for step in 1usize..20 {
            let needed = needed_to_align_with_excess(size, step);
            assert!(1 <= needed && needed <= step);
        }
    }
}

#[test]
fn pad_to_nearest_gives_zero_on_a_multiple() {
    assert_eq!(pad_to_nearest(16, 16), 0);
    assert_eq!(pad_to_nearest(32, 16), 0);
    assert_eq!(pad_to_nearest(0, 16), 0);
    assert_eq!(pad_to_nearest(20, 16), 32);
    assert_eq!(pad_to_nearest(1, 16), 16);
}

#[test]
fn pad_to_nearest_with_excess_is_always_greater() {
    assert_eq!(pad_to_nearest_with_excess(8, 4), 12);
    assert_eq!(pad_to_nearest_with_excess(5, 4), 8);
    assert_eq!(pad_to_nearest_with_excess(0, 4), 4);
    for size in 0usize..100 {
        for step in 1usize..20 {
            assert!(pad_to_nearest_with_excess(size, step) > size);
        }
    }
}

#[test]
fn to_fixed_length_pads_with_zero_bytes() {
    assert_eq!(to_fixed_length("abc", 5), vec![0x61, 0x62, 0x63, 0, 0]);
    assert_eq!(to_fixed_length("", 2), vec![0, 0]);
    assert_eq!(to_fixed_length("abc", 3), vec![0x61, 0x62, 0x63]);
}

#[test]
fn to_fixed_length_cuts_a_long_string() {
    assert_eq!(to_fixed_length("abcdef", 4), vec![0x61, 0x62, 0x63, 0x64]);
    assert_eq!(to_fixed_length("abc", 0), Vec::<u8>::new());
}
