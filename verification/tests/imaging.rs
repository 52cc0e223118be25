use aurora::imaging::{decode, decode_thumb, encode_icon_png, fit_rgba, IconError, THUMB_MAX};
use aurora::wallpaper::{animation_size, builtin_bytes, frame_delay, is_gif, open, target_edge_for, thumbnail, AnimationError, Opening, DEFAULT_DELAY_MS};

fn png(width: u32, height: u32) -> Vec<u8> {
    let mut pixels = Vec::new();
    for i in 0..(width * height) {
        pixels.extend_from_slice(&[(i % 256) as u8, 10, 20, 255]);
    }
    let img = image::RgbaImage::from_raw(width, height, pixels).unwrap();
    let mut out = std::io::Cursor::new(Vec::new());
    img.write_to(&mut out, image::ImageFormat::Png).unwrap();
    out.into_inner()
}

fn gif(width: u16, height: u16) -> Vec<u8> {
    let mut bytes = b"GIF89a".to_vec();
    bytes.extend_from_slice(&width.to_le_bytes());
    bytes.extend_from_slice(&height.to_le_bytes());
    bytes.extend_from_slice(&[0x00, 0x00, 0x00]);
    bytes.extend_from_slice(&[0x2c, 0, 0, 0, 0, 1, 0, 1, 0, 0x00]);
    bytes.extend_from_slice(&[0x02, 0x02, 0x44, 0x01, 0x00]);
    bytes.push(0x3b);
    bytes
}

#[test]
fn images_decode_to_their_pixels() {
    let bytes = png(3, 2);
    let (pixels, w, h) = decode(&bytes).unwrap();
    assert_eq!((w, h), (3, 2));
    assert_eq!(pixels.len(), 24);
    assert_eq!(&pixels[4..8], &[1, 10, 20, 255]);
    assert!(decode(b"not an image").is_none());
}

#[test]
fn images_fit_their_box() {
    let bytes = png(8, 4);
    let (_, w, h) = fit_rgba(&bytes, 4, 4).unwrap();
    assert_eq!((w, h), (4, 2));
    let (_, w, h) = fit_rgba(&bytes, 16, 16).unwrap();
    assert_eq!((w, h), (8, 4));
    assert!(decode_thumb(&[]).is_none());
    assert_eq!(decode_thumb(&bytes).map(|x| (x.1, x.2)), Some((8, 4)));
    assert!(THUMB_MAX >= 8);
}

#[test]
fn icons_are_written_as_png() {
    let out = encode_icon_png(&png(2, 2)).unwrap();
    assert_eq!(&out[..8], &[0x89, b'P', b'N', b'G', 0x0d, 0x0a, 0x1a, 0x0a]);
    assert_eq!(decode(&out).map(|x| (x.1, x.2)), Some((2, 2)));
    assert_eq!(encode_icon_png(b"junk"), Err(IconError::NotAnImage));
}

#[test]
fn wallpapers_open_as_animation_or_still() {
    assert!(is_gif(b"GIF87a...."));
    assert!(is_gif(b"GIF89a"));
    assert!(!is_gif(b"GIF88a"));
    assert!(!is_gif(b"GIF"));
    let animated = gif(4, 3);
    assert_eq!(animation_size(&animated), Ok((4, 3)));
    match open(animated.clone()) {
        Opening::Animate { width, height, bytes } => {
            assert_eq!((width, height), (4, 3));
            assert_eq!(bytes, animated);
        }
        Opening::Still { .. } => panic!("a readable GIF is animated"),
    }
    assert_eq!(animation_size(&gif(0, 3)), Err(AnimationError::EmptyCanvas));
    assert!(matches!(open(gif(0, 3)), Opening::Still { .. }));
    assert_eq!(animation_size(b"GIF89a"), Err(AnimationError::Unreadable));
    let still = png(2, 2);
    assert!(matches!(open(still.clone()), Opening::Still { bytes } if bytes == still));
}

#[test]
fn frame_delays_and_thumbnails() {
    assert_eq!(frame_delay(50, 1), 50);
    assert_eq!(frame_delay(10, 1), DEFAULT_DELAY_MS);
    assert_eq!(frame_delay(100, 0), DEFAULT_DELAY_MS);
    assert_eq!(frame_delay(120, 2), 60);
    let t = thumbnail(&png(10, 5), 4).unwrap();
    assert_eq!((t.width, t.height), (4, 2));
    assert_eq!(t.pixels.len(), 32);
    assert!(thumbnail(b"nope", 4).is_none());
    let table = vec![("night".to_string(), vec![1u8]), ("day".to_string(), vec![2u8])];
    assert_eq!(builtin_bytes(&table, "day"), Some(&vec![2u8]));
    assert_eq!(builtin_bytes(&table, "dusk"), None);
}

#[test]
fn wallpapers_decode_to_the_display_edge() {
    assert_eq!(target_edge_for(Some((2560, 1440))), 2560);
    assert_eq!(target_edge_for(Some((800, 1000))), 1280);
    assert_eq!(target_edge_for(Some((7680, 4320))), 3840);
    assert_eq!(target_edge_for(None), 1920);
}
