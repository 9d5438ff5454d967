use seam_carving::Kernel;
use seam_carving::Sobel;
use seam_carving::to_grayscale;

#[test]
fn test_sobel_zero_image_is_zero() {
    // Zero intensity everywhere gives zero energy everywhere, border
    // included.
    let img: Vec<u8> = vec![0; 4 * 4];
    let out = Sobel::new().kernel(Kernel::X3).apply(&img, 4, 4);
    assert_eq!(out, vec![0; 16]);
    let out = Sobel::new().kernel(Kernel::X5).apply(&img, 4, 4);
    assert_eq!(out, vec![0; 16]);
}

#[test]
fn test_sobel_flat_image_interior_zero() {
    // Constant nonzero intensity: interior pixels have zero energy; a corner
    // pixel keeps a clamped, non-cancelling window. For intensity 7 the
    // corner gradients are both 3 * 7 = 21, so the energy is
    // isqrt(21^2 + 21^2) = isqrt(882) = 29.
    let img: Vec<u8> = vec![7; 5 * 5];
    let out = Sobel::new().kernel(Kernel::X3).apply(&img, 5, 5);
    for y in 1..4 {
        for x in 1..4 {
            assert_eq!(out[y * 5 + x], 0);
        }
    }
    assert_eq!(out[0], 29);
}

#[test]
fn test_sobel_single_bright_pixel() {
    // A single bright pixel in the middle of a 3x3 zero image: the center's
    // own weight is zero on both kernels, so its energy is zero; at the
    // corner the pixel is covered by weight 1 on both kernels, so the energy
    // is isqrt(2 * 255^2) = 360.
    let mut img: Vec<u8> = vec![0; 9];
    img[4] = 255;
    let out = Sobel::new().kernel(Kernel::X3).apply(&img, 3, 3);
    assert_eq!(out[4], 0);
    assert_eq!(out[0], 360);
}

#[test]
fn test_grayscale_luma_weights() {
    // (2126 R + 7152 G + 722 B) / 10000, rounded down.
    let buf: Vec<u8> = vec![255, 0, 0, 0, 255, 0, 0, 0, 255, 10, 20, 30];
    let gray = to_grayscale(&buf, 4, 1, 3);
    assert_eq!(gray, vec![54, 182, 18, 18]);
}

#[test]
fn test_grayscale_single_channel_copy() {
    let buf: Vec<u8> = vec![5, 9, 200, 17];
    let gray = to_grayscale(&buf, 2, 2, 1);
    assert_eq!(gray, buf);
}
