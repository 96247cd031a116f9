use horizoncast::capture::convert::bgra_to_nv12;
use horizoncast::capture::frame::CapturedFrame;
use horizoncast::capture::frame::Nv12Planes;
use horizoncast::capture::screen::ScreenCapture;
use horizoncast::pipeline::time::Duration;

/// Build a `width`x`height` BGRA buffer (tightly packed) filled with one color.
fn solid_bgra(width: u32, height: u32, r: u8, g: u8, b: u8) -> Vec<u8> {
    let mut v = Vec::with_capacity((width * height * 4) as usize);
    for _ in 0..(width * height) {
        v.extend_from_slice(&[b, g, r, 255]);
    }
    v
}

#[test]
fn plane_sizes_are_correct() {
    let src = solid_bgra(4, 4, 10, 20, 30);
    let nv12 = bgra_to_nv12(&src, 4, 4, 16);
    assert_eq!(nv12.y.len(), 16); // 4*4
    assert_eq!(nv12.uv.len(), 8); // 4*2
    assert_eq!(nv12.y_stride, 4);
    assert_eq!(nv12.uv_stride, 4);
}

#[test]
fn pure_black_and_white_map_to_limited_range() {
    // Limited-range Y: black -> 16, white -> 235.
    let black = solid_bgra(2, 2, 0, 0, 0);
    let white = solid_bgra(2, 2, 255, 255, 255);
    assert_eq!(bgra_to_nv12(&black, 2, 2, 8).y[0], 16);
    assert_eq!(bgra_to_nv12(&white, 2, 2, 8).y[0], 235);
}

#[test]
fn grey_is_neutral_chroma() {
    // A neutral grey should give U and V near 128 (no color).
    let grey = solid_bgra(2, 2, 128, 128, 128);
    let nv12 = bgra_to_nv12(&grey, 2, 2, 8);
    assert!((nv12.uv[0] as i32 - 128).abs() <= 1, "U near 128");
    assert!((nv12.uv[1] as i32 - 128).abs() <= 1, "V near 128");
}

#[test]
fn red_pushes_v_high() {
    // Saturated red -> large positive V (Cr), U (Cb) below neutral.
    let red = solid_bgra(2, 2, 255, 0, 0);
    let nv12 = bgra_to_nv12(&red, 2, 2, 8);
    assert!(
        nv12.uv[1] > 200,
        "V should be high for red, got {}",
        nv12.uv[1]
    );
    assert!(nv12.uv[0] < 128, "U should dip for red, got {}", nv12.uv[0]);
}

#[test]
fn primary_colors_have_their_exact_values() {
    let planes = |r: u8, g: u8, b: u8| {
        let p = bgra_to_nv12(&solid_bgra(2, 2, r, g, b), 2, 2, 8);
        (p.y[3], p.uv[0], p.uv[1])
    };
    assert_eq!(planes(255, 0, 0), (82, 90, 240));
    assert_eq!(planes(0, 255, 0), (144, 54, 34));
    assert_eq!(planes(0, 0, 255), (41, 240, 110));
}

#[test]
fn odd_dimensions_round_down_to_even() {
    // 3x3 rounds to 2x2: Y = 4, UV = 2.
    let src = solid_bgra(3, 3, 50, 60, 70);
    let nv12 = bgra_to_nv12(&src, 3, 3, 12);
    assert_eq!(nv12.y.len(), 4);
    assert_eq!(nv12.uv.len(), 2);
}

#[test]
fn one_pixel_has_no_planes() {
    let nv12 = bgra_to_nv12(&[1, 2, 3, 4], 1, 1, 4);
    assert!(nv12.y.is_empty() && nv12.uv.is_empty());
    assert_eq!(nv12.y_stride, 0);
}

#[test]
fn honors_row_stride_padding() {
    // 2x2 image stored with a padded stride of 12 bytes/row (8 pixels + 4 pad).
    let mut src = Vec::new();
    for _ in 0..2 {
        src.extend_from_slice(&[0, 0, 255, 255, 0, 0, 255, 255]); // two red pixels
        src.extend_from_slice(&[0xAA, 0xBB, 0xCC, 0xDD]); // padding (must be ignored)
    }
    let nv12 = bgra_to_nv12(&src, 2, 2, 12);
    // All pixels red -> Y the same everywhere, padding ignored.
    assert!(nv12.y.iter().all(|&y| y == nv12.y[0]));
    assert!(nv12.uv[1] > 200, "V high for red despite padding");
}

#[test]
fn luma_stands_in_row_major_order() {
    // Eight greys, one for each pixel of a 4x2 image.
    let mut src = Vec::new();
    for v in 0..8u8 {
        src.extend_from_slice(&[v * 30, v * 30, v * 30, 0]);
    }
    let nv12 = bgra_to_nv12(&src, 4, 2, 16);
    let expected: Vec<u8> = (0..8u32)
        .map(|v| (((220 * v * 30 + 128) >> 8) + 16) as u8)
        .collect();
    assert_eq!(nv12.y, expected);
    assert_eq!(nv12.uv, vec![128; 4]);
}

#[test]
fn captured_frame_holds_planes() {
    let f = CapturedFrame {
        width: 2,
        height: 2,
        pts: Duration::from_millis(16),
        planes: Nv12Planes {
            y: vec![0; 4],
            y_stride: 2,
            uv: vec![128; 2],
            uv_stride: 2,
        },
    };
    assert_eq!(f.width, 2);
    assert_eq!(f.planes.y.len(), 4);
    assert_eq!(f.planes.uv_stride, 2);
}

#[test]
fn backend_frames_are_converted() {
    let t = Duration::from_millis(40);
    let f = CapturedFrame::from_nv12(4, -2, vec![1, 2], -8, vec![3], 16, t);
    assert_eq!((f.width, f.height), (4, 0));
    assert_eq!((f.planes.y_stride, f.planes.uv_stride), (0, 16));
    assert_eq!(f.planes.y, vec![1, 2]);
    assert_eq!(f.planes.uv, vec![3]);
    assert_eq!(f.pts, t);

    let f = CapturedFrame::from_bgra(3, 2, &solid_bgra(3, 2, 255, 255, 255), t);
    assert_eq!((f.width, f.height), (2, 2));
    assert_eq!(f.planes.y, vec![235; 4]);
    assert_eq!(f.planes.uv, vec![128; 2]);
}

#[test]
fn start_is_unsupported_on_this_platform() {
    assert!(
        ScreenCapture::start(30).is_err(),
        "platforms without a capture backend report it unsupported (for now)"
    );
}

#[test]
fn unsupported_capture_says_so() {
    let text = match ScreenCapture::start(60) {
        Ok(_) => String::new(),
        Err(e) => e.text(),
    };
    assert_eq!(
        text,
        "not supported: screen capture is implemented on macOS and Windows (so far)"
    );
}
