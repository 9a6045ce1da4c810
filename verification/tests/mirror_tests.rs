use image_processor::mirror::{mirror_horizontal, mirror_vertical, process_image, MirrorParams};

fn image(width: usize, height: usize) -> Vec<u8> {
    let mut v = Vec::new();
    for y in 0..height {
        for x in 0..width {
            v.extend_from_slice(&[x as u8, y as u8, (10 * y + x) as u8, 200]);
        }
    }
    v
}

#[test]
fn lib_it_works() {
    assert_eq!(4, 4);
}

#[test]
fn horizontal_reverses_each_row() {
    let mut buf = vec![1, 2, 3, 4, 5, 6, 7, 8, 9, 10, 11, 12, 13, 14, 15, 16, 17, 18, 19, 20, 21, 22, 23, 24];
    mirror_horizontal(&mut buf, 3, 2);
    assert_eq!(
        buf,
        vec![9, 10, 11, 12, 5, 6, 7, 8, 1, 2, 3, 4, 21, 22, 23, 24, 17, 18, 19, 20, 13, 14, 15, 16]
    );
}

#[test]
fn vertical_reverses_row_order() {
    let mut buf = vec![1, 2, 3, 4, 5, 6, 7, 8, 9, 10, 11, 12, 13, 14, 15, 16, 17, 18, 19, 20, 21, 22, 23, 24];
    mirror_vertical(&mut buf, 2, 3);
    assert_eq!(
        buf,
        vec![17, 18, 19, 20, 21, 22, 23, 24, 9, 10, 11, 12, 13, 14, 15, 16, 1, 2, 3, 4, 5, 6, 7, 8]
    );
}

#[test]
fn single_pixel_and_empty_images() {
    let mut one = vec![1, 2, 3, 4];
    mirror_horizontal(&mut one, 1, 1);
    mirror_vertical(&mut one, 1, 1);
    assert_eq!(one, vec![1, 2, 3, 4]);
    let mut empty: Vec<u8> = Vec::new();
    mirror_vertical(&mut empty, 0, 5);
    mirror_vertical(&mut empty, 5, 0);
    mirror_horizontal(&mut empty, 5, 0);
    assert!(empty.is_empty());
}

#[test]
fn horizontal_twice_is_identity() {
    let orig = image(5, 3);
    let mut buf = orig.clone();
    mirror_horizontal(&mut buf, 5, 3);
    assert_ne!(buf, orig);
    mirror_horizontal(&mut buf, 5, 3);
    assert_eq!(buf, orig);
}

#[test]
fn vertical_twice_is_identity() {
    let orig = image(4, 5);
    let mut buf = orig.clone();
    mirror_vertical(&mut buf, 4, 5);
    assert_ne!(buf, orig);
    mirror_vertical(&mut buf, 4, 5);
    assert_eq!(buf, orig);
}

#[test]
fn flips_commute() {
    let orig = image(3, 4);
    let mut a = orig.clone();
    mirror_horizontal(&mut a, 3, 4);
    mirror_vertical(&mut a, 3, 4);
    let mut b = orig.clone();
    mirror_vertical(&mut b, 3, 4);
    mirror_horizontal(&mut b, 3, 4);
    assert_eq!(a, b);
    // both flips turn the image by half a turn
    assert_eq!(&a[0..4], &orig[orig.len() - 4..]);
}

#[test]
fn process_both_flips() {
    let orig = image(3, 2);
    let mut buf = orig.clone();
    let code = process_image(3, 2, &mut buf, Some(MirrorParams { horizontal: true, vertical: true }));
    assert_eq!(code, 0);
    let mut expected = orig.clone();
    mirror_horizontal(&mut expected, 3, 2);
    mirror_vertical(&mut expected, 3, 2);
    assert_eq!(buf, expected);
}

#[test]
fn process_no_flip_leaves_image() {
    let orig = image(3, 2);
    let mut buf = orig.clone();
    let code = process_image(3, 2, &mut buf, Some(MirrorParams { horizontal: false, vertical: false }));
    assert_eq!(code, 0);
    assert_eq!(buf, orig);
}

#[test]
fn process_keeps_bytes_after_image() {
    let mut buf = image(2, 1);
    buf.extend_from_slice(&[7, 7, 7]);
    let code = process_image(2, 1, &mut buf, Some(MirrorParams { horizontal: true, vertical: false }));
    assert_eq!(code, 0);
    assert_eq!(buf, vec![1, 0, 1, 200, 0, 0, 0, 200, 7, 7, 7]);
}

#[test]
fn process_missing_params() {
    let orig = image(2, 2);
    let mut buf = orig.clone();
    assert_eq!(process_image(2, 2, &mut buf, None), 3);
    assert_eq!(buf, orig);
}

#[test]
fn mirror_size_overflow() {
    let mut buf = vec![1, 2, 3];
    assert_eq!(process_image(u32::MAX, u32::MAX, &mut buf, None), 1);
    assert_eq!(
        process_image(u32::MAX, u32::MAX, &mut buf, Some(MirrorParams { horizontal: true, vertical: true })),
        1
    );
    assert_eq!(buf, vec![1, 2, 3]);
}

#[test]
fn zero_width_horizontal_flip_succeeds() {
    let mut empty: Vec<u8> = Vec::new();
    mirror_horizontal(&mut empty, 0, 1);
    assert!(empty.is_empty());
    let mut buf = vec![5, 6];
    let code = process_image(0, 1, &mut buf, Some(MirrorParams { horizontal: true, vertical: false }));
    assert_eq!(code, 0);
    assert_eq!(buf, vec![5, 6]);
}
