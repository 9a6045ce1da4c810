use image_processor::blur::{blur_box, blur_box_with, process_image, BoxBlurParams};
use image_processor::mirror::{mirror_horizontal, mirror_vertical};

#[test]
fn two_pixel_row() {
    let mut buf = vec![0, 10, 200, 255, 190, 20, 0, 255];
    blur_box(&mut buf, 2, 1);
    assert_eq!(buf, vec![95, 15, 100, 255, 95, 15, 100, 255]);
}

#[test]
fn step_edge_is_smoothed() {
    let w = 24;
    let mut buf = Vec::new();
    for x in 0..w {
        buf.extend_from_slice(&[if x < 12 { 0 } else { 250 }, (x * 10) as u8, 7, 255]);
    }
    blur_box(&mut buf, w, 1);
    let red: Vec<u8> = (0..w).map(|x| buf[x * 4]).collect();
    let green: Vec<u8> = (0..w).map(|x| buf[x * 4 + 1]).collect();
    assert_eq!(
        red,
        vec![37, 41, 46, 52, 59, 66, 74, 82, 91, 100, 110, 120, 130, 140, 150, 159, 168, 176, 184, 191, 198, 204, 209, 213]
    );
    assert_eq!(
        green,
        vec![53, 56, 60, 64, 68, 73, 79, 85, 91, 98, 104, 111, 119, 126, 132, 139, 145, 151, 157, 162, 166, 170, 174, 177]
    );
    for x in 0..w {
        assert_eq!(buf[x * 4 + 2], 7);
        assert_eq!(buf[x * 4 + 3], 255);
    }
}

#[test]
fn uniform_image_unchanged() {
    let mut buf = Vec::new();
    for _ in 0..(5 * 7) {
        buf.extend_from_slice(&[12, 34, 56, 78]);
    }
    let orig = buf.clone();
    blur_box(&mut buf, 5, 7);
    assert_eq!(buf, orig);
}

#[test]
fn empty_image() {
    let mut buf: Vec<u8> = Vec::new();
    blur_box(&mut buf, 0, 3);
    blur_box(&mut buf, 3, 0);
    assert!(buf.is_empty());
}

const DEFAULT: BoxBlurParams = BoxBlurParams { radius: 9, iterations: 3 };

#[test]
fn process_blurs_and_keeps_tail() {
    let mut buf = vec![0, 10, 200, 255, 190, 20, 0, 255, 1, 2];
    assert_eq!(process_image(2, 1, &mut buf, Some(DEFAULT)), 0);
    assert_eq!(buf, vec![95, 15, 100, 255, 95, 15, 100, 255, 1, 2]);
}

#[test]
fn process_small_radius_one_pass() {
    // three pixels in a row, radius 1: each byte becomes the rounded mean of
    // itself and its neighbours, the edges repeating
    let mut buf = vec![0, 0, 0, 0, 30, 3, 1, 9, 90, 6, 2, 18];
    assert_eq!(process_image(3, 1, &mut buf, Some(BoxBlurParams { radius: 1, iterations: 1 })), 0);
    assert_eq!(buf, vec![10, 1, 0, 3, 40, 3, 1, 9, 70, 5, 2, 15]);
}

#[test]
fn process_missing_blur_params() {
    let mut buf = vec![1, 2, 3, 4];
    assert_eq!(process_image(1, 1, &mut buf, None), 3);
    assert_eq!(buf, vec![1, 2, 3, 4]);
}

#[test]
fn blur_size_overflow() {
    let mut buf = vec![9, 9];
    assert_eq!(process_image(u32::MAX, u32::MAX, &mut buf, None), 1);
    assert_eq!(process_image(u32::MAX, u32::MAX, &mut buf, Some(DEFAULT)), 1);
    assert_eq!(buf, vec![9, 9]);
}

#[test]
fn radius_zero_and_no_passes_change_nothing() {
    let orig: Vec<u8> = (0..48).map(|i| (i * 37 % 256) as u8).collect();
    let mut a = orig.clone();
    blur_box_with(&mut a, 4, 3, 0, 5);
    assert_eq!(a, orig);
    let mut b = orig.clone();
    blur_box_with(&mut b, 4, 3, 4, 0);
    assert_eq!(b, orig);
}

#[test]
fn default_blur_is_radius_nine_three_passes() {
    let orig: Vec<u8> = (0..80).map(|i| (i * 53 % 256) as u8).collect();
    let mut a = orig.clone();
    blur_box(&mut a, 5, 4);
    let mut b = orig.clone();
    blur_box_with(&mut b, 5, 4, 9, 3);
    assert_eq!(a, b);
    assert_ne!(a, orig);
}

#[test]
fn blur_commutes_with_mirrors_and_keeps_channels_apart() {
    let orig: Vec<u8> = (0..96).map(|i| (i * 71 % 256) as u8).collect();
    let mut a = orig.clone();
    mirror_horizontal(&mut a, 6, 4);
    blur_box_with(&mut a, 6, 4, 2, 2);
    let mut b = orig.clone();
    blur_box_with(&mut b, 6, 4, 2, 2);
    mirror_horizontal(&mut b, 6, 4);
    assert_eq!(a, b);

    let mut a = orig.clone();
    mirror_vertical(&mut a, 6, 4);
    blur_box_with(&mut a, 6, 4, 1, 3);
    let mut b = orig.clone();
    blur_box_with(&mut b, 6, 4, 1, 3);
    mirror_vertical(&mut b, 6, 4);
    assert_eq!(a, b);

    // change every channel but red: red of the result stays the same
    let mut other = orig.clone();
    for i in 0..other.len() {
        if i % 4 != 0 {
            other[i] = other[i].wrapping_add(90);
        }
    }
    let mut x = orig.clone();
    let mut y = other;
    blur_box(&mut x, 6, 4);
    blur_box(&mut y, 6, 4);
    for p in 0..24 {
        assert_eq!(x[4 * p], y[4 * p]);
    }
}
