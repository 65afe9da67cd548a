use wall_cli::processing::{
    blend, cross_fade, generate_intermediate_wallpapers, split_frames, DecodedImage,
    TransitionError,
};

#[test]
fn blend_endpoints_are_exact() {
    assert_eq!(blend(10, 20, 0, 2), 10);
    assert_eq!(blend(10, 20, 1, 2), 20);
    assert_eq!(blend(0, 255, 0, 5), 0);
    assert_eq!(blend(0, 255, 4, 5), 255);
}

#[test]
fn blend_rounds_to_nearest() {
    // Halfway between 0 and 255 at the middle of three frames: 127.5 rounds up.
    assert_eq!(blend(0, 255, 1, 3), 128);
    // (10 * 1 + 20 * 1 + 1) / 2 == 15 (exact midpoint).
    assert_eq!(blend(10, 20, 1, 3), 15);
    // (0 * 1 + 1 * 1 + 1) / 2 == 1: one half rounds up.
    assert_eq!(blend(0, 1, 1, 3), 1);
}

#[test]
fn blend_identical_samples_is_identity() {
    for i in 0..7u16 {
        assert_eq!(blend(93, 93, i, 7), 93);
    }
}

#[test]
fn cross_fade_layout_and_values() {
    let first = vec![1u8, 2u8];
    let second = vec![3u8, 4u8];
    let buf = cross_fade(&first, &second, 3);
    assert_eq!(buf, vec![1, 2, 2, 3, 3, 4]);
}

#[test]
fn cross_fade_identical_images_is_a_no_op() {
    let src = vec![7u8, 0u8, 255u8, 31u8, 32u8, 33u8];
    let buf = cross_fade(&src, &src, 4);
    assert_eq!(buf.len(), 4 * src.len());
    for f in 0..4 {
        assert_eq!(&buf[f * src.len()..(f + 1) * src.len()], &src[..]);
    }
}

#[test]
fn two_iterations_reproduce_both_sources() {
    let first = vec![10u8, 20u8, 30u8, 40u8, 50u8, 60u8];
    let second = vec![60u8, 50u8, 40u8, 30u8, 20u8, 10u8];
    let buf = cross_fade(&first, &second, 2);
    assert_eq!(&buf[0..6], &first[..]);
    assert_eq!(&buf[6..12], &second[..]);
}

#[test]
fn one_iteration_holds_the_first_image() {
    let first = vec![1u8, 2, 3];
    let second = vec![4u8, 5, 6];
    assert_eq!(cross_fade(&first, &second, 1), first);
}

#[test]
fn zero_iterations_yield_an_empty_buffer() {
    let first = vec![1u8, 2, 3];
    let second = vec![4u8, 5, 6];
    assert!(cross_fade(&first, &second, 0).is_empty());
}

#[test]
fn generation_is_deterministic() {
    let first = vec![9u8, 120u8, 7u8];
    let second = vec![200u8, 0u8, 77u8];
    let once = cross_fade(&first, &second, 5);
    let again = cross_fade(&first, &second, 5);
    assert_eq!(once, again);
}

#[test]
fn generate_checks_the_first_image_resolution() {
    let first = DecodedImage { pixels: vec![0u8; 12], width: 2, height: 2 };
    let second = DecodedImage { pixels: vec![0u8; 6], width: 2, height: 1 };
    let r = generate_intermediate_wallpapers(&first, &second, 2, (2, 1));
    assert_eq!(r, Err(TransitionError::FirstResolutionMismatch));
}

#[test]
fn generate_checks_the_second_image_resolution() {
    let first = DecodedImage { pixels: vec![0u8; 6], width: 2, height: 1 };
    let second = DecodedImage { pixels: vec![0u8; 12], width: 2, height: 2 };
    let r = generate_intermediate_wallpapers(&first, &second, 2, (2, 1));
    assert_eq!(r, Err(TransitionError::SecondResolutionMismatch));
}

#[test]
fn generate_returns_the_flat_buffer_and_frame_length() {
    let first = DecodedImage { pixels: vec![1u8, 2, 3, 4, 5, 6], width: 2, height: 1 };
    let second = DecodedImage { pixels: vec![6u8, 5, 4, 3, 2, 1], width: 2, height: 1 };
    let (buf, img_len) = generate_intermediate_wallpapers(&first, &second, 2, (2, 1)).unwrap();
    assert_eq!(img_len, 6);
    assert_eq!(buf.len(), 12);
    assert_eq!(&buf[0..6], &[1, 2, 3, 4, 5, 6]);
    assert_eq!(&buf[6..12], &[6, 5, 4, 3, 2, 1]);
}

#[test]
fn split_frames_cuts_the_buffer_in_order() {
    let buf = vec![1u8, 2, 3, 4, 5, 6];
    let frames = split_frames(&buf, 2);
    assert_eq!(frames, vec![vec![1u8, 2], vec![3u8, 4], vec![5u8, 6]]);
    let whole = split_frames(&buf, 6);
    assert_eq!(whole, vec![vec![1u8, 2, 3, 4, 5, 6]]);
}
