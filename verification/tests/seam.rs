use seam_carving::CarveError;
use seam_carving::Direction;
use seam_carving::SeamCarver;
use seam_carving::find_shortest_path;
use seam_carving::remove_path_from_image;

#[test]
fn test_basic_remove_01() {
    let mut img: Vec<i32> = vec![0, 1, 2, 3, 4, 5, 6, 7, 8, 9, 10];
    let path = vec![2, 4, 7, 9];
    let no_channels = 1;
    let len = img.len();
    remove_path_from_image(&mut img, &path, no_channels, Direction::Row, len);
    let expected = vec![0, 1, 3, 5, 6, 8, 10];
    assert_eq!(expected.len(), img.len());
    assert_eq!(expected, img);
}

#[test]
fn test_basic_remove_02() {
    let mut img: Vec<i32> = vec![0, 1, 2, 3, 4, 5, 6, 7, 8, 9, 10];
    let path = vec![0, 2, 4, 7, 9, 10];
    let no_channels = 1;
    let len = img.len();
    remove_path_from_image(&mut img, &path, no_channels, Direction::Row, len);
    let expected = vec![1, 3, 5, 6, 8];
    assert_eq!(expected.len(), img.len());
    assert_eq!(expected, img);
}

#[test]
fn test_basic_remove_03() {
    let mut img: Vec<i32> = vec![
        0, 0, 1, 1, 2, 2, 3, 3, 4, 4, 5, 5, 6, 6, 7, 7, 8, 8, 9, 9, 10, 10,
    ];
    let path = vec![0, 2, 4, 7, 9, 10];
    let no_channels = 2;
    let len = img.len();
    remove_path_from_image(&mut img, &path, no_channels, Direction::Row, len);
    let expected = vec![1, 1, 3, 3, 5, 5, 6, 6, 8, 8];
    assert_eq!(expected.len(), img.len());
    assert_eq!(expected, img);
}

#[test]
fn test_remove_top_row() {
    let w = 5;
    let h = 4;
    let mut energy: Vec<u64> = vec![
        0, 0, 0, 0, 0,
        1, 1, 1, 1, 1,
        2, 2, 2, 2, 2,
        3, 3, 3, 3, 3,
    ];
    let path = find_shortest_path(&energy, w, h, Direction::Column);
    let expected_path = vec![0, 1, 2, 3, 4];
    assert_eq!(path, expected_path);
    remove_path_from_image(&mut energy, &path, 1, Direction::Column, w);
    let expected: Vec<u64> = vec![
        1, 1, 1, 1, 1,
        2, 2, 2, 2, 2,
        3, 3, 3, 3, 3,
    ];
    assert_eq!(expected, energy);
}

#[test]
fn test_remove_top_row_with_channels() {
    let w = 5;
    let h = 4;
    let energy: Vec<u64> = vec![
        0, 0, 0, 0, 0,
        1, 1, 1, 1, 1,
        2, 2, 2, 2, 2,
        3, 3, 3, 3, 3,
    ];
    let mut img: Vec<f32> = vec![
        0., 0., 0., 0., 0.,
        0., 0., 0., 0., 0.,
        0., 0., 0., 0., 0.,
        1., 1., 1., 1., 1.,
        1., 1., 1., 1., 1.,
        1., 1., 1., 1., 1.,
        2., 2., 2., 2., 2.,
        2., 2., 2., 2., 2.,
        2., 2., 2., 2., 2.,
        3., 3., 3., 3., 3.,
        3., 3., 3., 3., 3.,
        3., 3., 3., 3., 3.,
    ];
    let path = find_shortest_path(&energy, w, h, Direction::Column);
    let expected_path = vec![0, 1, 2, 3, 4];
    assert_eq!(path, expected_path);
    remove_path_from_image(&mut img, &path, 3, Direction::Column, w);
    let expected: Vec<f32> = vec![
        1., 1., 1., 1., 1.,
        1., 1., 1., 1., 1.,
        1., 1., 1., 1., 1.,
        2., 2., 2., 2., 2.,
        2., 2., 2., 2., 2.,
        2., 2., 2., 2., 2.,
        3., 3., 3., 3., 3.,
        3., 3., 3., 3., 3.,
        3., 3., 3., 3., 3.,
    ];
    assert_eq!(expected, img);
}

#[test]
fn test_carver_round_trip_size() {
    // 4x3 RGB image shrunk to 2x2: output has exactly the requested shape.
    let mut buf: Vec<u8> = Vec::new();
    for i in 0..4 * 3 * 3 {
        buf.push((i * 7 % 251) as u8);
    }
    let carver = SeamCarver::new(buf, 4, 3, 3, 2, 2).unwrap();
    let (out, w, h, ch) = carver.apply();
    assert_eq!(w, 2);
    assert_eq!(h, 2);
    assert_eq!(ch, 3);
    assert_eq!(out.len(), 2 * 2 * 3);
}

#[test]
fn test_carver_gray_zero_image() {
    // An all-zero grayscale image keeps its values through carving.
    let buf: Vec<u8> = vec![0; 9];
    let carver = SeamCarver::new(buf, 3, 3, 1, 2, 3).unwrap();
    let (out, w, h, ch) = carver.apply();
    assert_eq!((w, h, ch), (2, 3, 1));
    assert_eq!(out, vec![0; 6]);
}

#[test]
fn test_carver_rejects_enlargement() {
    let r = SeamCarver::new(vec![0; 4], 2, 2, 1, 3, 2);
    assert_eq!(r.unwrap_err(), CarveError::InvalidTargetSize);
    let r = SeamCarver::new(vec![0; 4], 2, 2, 1, 2, 3);
    assert_eq!(r.unwrap_err(), CarveError::InvalidTargetSize);
}

#[test]
fn test_carver_rejects_channel_layout() {
    let r = SeamCarver::new(vec![0; 8], 2, 2, 2, 2, 2);
    assert_eq!(r.unwrap_err(), CarveError::UnsupportedChannelLayout);
}
