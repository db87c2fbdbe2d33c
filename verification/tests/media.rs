use base64::Engine;
use image::{AnimationDecoder, ImageEncoder};
use kovi_plugin_transfer::forward::SegmentInfo;
use kovi_plugin_transfer::media::{
    redraw_gif_frames, DecodedGif, RawFrame,
    extract_media_url, inline_media_file, is_gif, media_kind, modify_edge_pixels,
    process_gif_image, randomize_edges, nudge_border, nudged_png, redraw_still_image, replacement_file, transform_image,
    MediaKind, RgbaImageData,
};

fn seg(kind: Option<&str>, url: Option<&str>, file: Option<&str>) -> SegmentInfo {
    SegmentInfo {
        kind: kind.map(String::from),
        id: None,
        url: url.map(String::from),
        file: file.map(String::from),
    }
}

fn pattern(w: u32, h: u32) -> Vec<u8> {
    (0..(4 * w * h)).map(|i| (i * 37 % 251) as u8).collect()
}

fn png_of(w: u32, h: u32, px: &[u8]) -> Vec<u8> {
    let mut buf = Vec::new();
    image::codecs::png::PngEncoder::new(&mut buf)
        .write_image(px, w, h, image::ExtendedColorType::Rgba8)
        .unwrap();
    buf
}

fn check_border(w: u32, h: u32, old: &[u8], new: &[u8]) {
    assert_eq!(old.len(), new.len());
    for y in 0..h {
        for x in 0..w {
            for c in 0..4 {
                let i = ((y * w + x) * 4 + c) as usize;
                let edge = y == 0 || y == h - 1 || x == 0 || x == w - 1;
                if edge && c < 3 {
                    assert!(new[i].wrapping_sub(old[i]) < 20, "pixel ({x},{y}) channel {c}");
                } else {
                    assert_eq!(new[i], old[i], "pixel ({x},{y}) channel {c}");
                }
            }
        }
    }
}

fn walk(w: u32, h: u32) -> Vec<(u32, u32)> {
    let mut slots = Vec::new();
    for x in 0..w {
        slots.push((x, 0));
        if h > 1 {
            slots.push((x, h - 1));
        }
    }
    for y in 1..h.saturating_sub(1) {
        slots.push((0, y));
        if w > 1 {
            slots.push((w - 1, y));
        }
    }
    slots
}

#[test]
fn only_border_colours_change() {
    for (w, h) in [(5u32, 4u32), (1, 1), (1, 6), (6, 1), (2, 2), (3, 3), (0, 0), (0, 2)] {
        let old = pattern(w, h);
        let mut new = old.clone();
        let draws = randomize_edges(&mut new, w, h);
        check_border(w, h, &old, &new);
        let slots = walk(w, h);
        assert_eq!(draws.len(), 3 * slots.len());
        assert!(draws.iter().all(|&d| d < 20));
        for (k, &(x, y)) in slots.iter().enumerate() {
            for c in 0..3 {
                let i = ((y * w + x) * 4 + c) as usize;
                assert_eq!(new[i], old[i].wrapping_add(draws[3 * k + c as usize]));
            }
        }
    }
}

#[test]
fn border_walk_applies_each_draw_to_its_pixel() {
    let mut px = vec![0u8; 36];
    let draws: Vec<u8> = (1..=24).collect();
    nudge_border(&mut px, 3, 3, &draws);
    assert_eq!(
        px,
        vec![
            1, 2, 3, 0, 7, 8, 9, 0, 13, 14, 15, 0, //
            19, 20, 21, 0, 0, 0, 0, 0, 22, 23, 24, 0, //
            4, 5, 6, 0, 10, 11, 12, 0, 16, 17, 18, 0,
        ]
    );
    let mut one = vec![250u8, 250, 250, 250];
    nudge_border(&mut one, 1, 1, &[10, 5, 6]);
    assert_eq!(one, vec![4, 255, 0, 250]);
    let mut col = vec![0u8; 12];
    nudge_border(&mut col, 1, 3, &[1, 1, 1, 2, 2, 2, 3, 3, 3]);
    assert_eq!(col, vec![1, 1, 1, 0, 3, 3, 3, 0, 2, 2, 2, 0]);
}

#[test]
fn nudged_png_holds_the_nudged_pixels() {
    let img = RgbaImageData { width: 3, height: 3, pixels: vec![100u8; 36] };
    let draws: Vec<u8> = (0..24).map(|i| (i % 20) as u8).collect();
    let out = nudged_png(&img, &draws);
    let mut expected = img.pixels.clone();
    nudge_border(&mut expected, 3, 3, &draws);
    assert_ne!(expected, img.pixels);
    let back = image::load_from_memory(&out).unwrap().to_rgba8();
    assert_eq!(back.dimensions(), (3, 3));
    assert_eq!(back.as_raw(), &expected);
}

#[test]
fn still_image_is_redrawn_as_png() {
    let (w, h) = (6u32, 5u32);
    let px = pattern(w, h);
    let png = png_of(w, h, &px);
    let out = redraw_still_image(&png).unwrap();
    assert_ne!(out, png.clone().into_iter().rev().collect::<Vec<u8>>());
    let back = image::load_from_memory(&out).unwrap().to_rgba8();
    assert_eq!(back.dimensions(), (w, h));
    check_border(w, h, &px, back.as_raw());
    let out2 = transform_image("image/png", &png).unwrap();
    let back2 = image::load_from_memory(&out2).unwrap().to_rgba8();
    check_border(w, h, &px, back2.as_raw());
}

#[test]
fn modify_edge_pixels_gives_png() {
    let img = RgbaImageData { width: 3, height: 2, pixels: pattern(3, 2) };
    let out = modify_edge_pixels(&img);
    assert_eq!(&out[..8], &[137, 80, 78, 71, 13, 10, 26, 10]);
    let back = image::load_from_memory(&out).unwrap().to_rgba8();
    check_border(3, 2, &img.pixels, back.as_raw());
}

#[test]
fn undecodable_bytes_give_nothing() {
    assert!(redraw_still_image(b"not an image").is_none());
    assert!(transform_image("text/plain", b"not an image").is_none());
    assert!(process_gif_image(b"GIF89a broken").is_none());
    assert!(transform_image("image/gif", b"garbage").is_none());
}

fn gif_of(w: u32, h: u32, frames: &[Vec<u8>]) -> Vec<u8> {
    let mut buf = Vec::new();
    {
        let mut enc = image::codecs::gif::GifEncoder::new(&mut buf);
        let fs = frames.iter().map(|p| {
            image::Frame::from_parts(
                image::RgbaImage::from_raw(w, h, p.clone()).unwrap(),
                0,
                0,
                image::Delay::from_numer_denom_ms(100, 1),
            )
        });
        enc.encode_frames(fs).unwrap();
    }
    buf
}

#[test]
fn gif_frames_are_redrawn() {
    let (w, h) = (4u32, 3u32);
    let f1: Vec<u8> = (0..w * h).flat_map(|_| [200u8, 10, 10, 255]).collect();
    let f2: Vec<u8> = (0..w * h).flat_map(|_| [10u8, 200, 10, 255]).collect();
    let gif = gif_of(w, h, &[f1, f2]);
    assert!(is_gif("application/octet-stream", &gif));
    let out = transform_image("image/gif", &gif).unwrap();
    assert_eq!(&out[..3], b"GIF");
    let decoder = image::codecs::gif::GifDecoder::new(std::io::Cursor::new(&out)).unwrap();
    let frames = decoder.into_frames().collect_frames().unwrap();
    assert_eq!(frames.len(), 2);
    assert_eq!(frames[0].buffer().dimensions(), (w, h));
    assert_eq!(frames[0].delay().numer_denom_ms(), (100, 1));
}

#[test]
fn gif_detection() {
    assert!(is_gif("image/gif", b""));
    assert!(is_gif("", b"GIF89a"));
    assert!(!is_gif("image/png", b"\x89PNG"));
    assert!(!is_gif("", b"GI"));
}

#[test]
fn media_urls() {
    let s = seg(Some("image"), Some("https://a/b.png"), Some("http://c"));
    assert_eq!(extract_media_url(&s).as_deref(), Some("https://a/b.png"));
    let s = seg(Some("image"), Some(""), Some("http://c"));
    assert_eq!(extract_media_url(&s).as_deref(), Some("http://c"));
    let s = seg(Some("image"), Some("file:///x"), Some("abc.png"));
    assert_eq!(extract_media_url(&s), None);
    let s = seg(Some("image"), None, None);
    assert_eq!(extract_media_url(&s), None);
}

#[test]
fn media_kinds() {
    assert_eq!(media_kind(&seg(Some("image"), None, None)), Some(MediaKind::Image));
    assert_eq!(media_kind(&seg(Some("video"), None, None)), Some(MediaKind::Video));
    assert_eq!(media_kind(&seg(Some("text"), None, None)), None);
    assert_eq!(media_kind(&seg(None, None, None)), None);
}

#[test]
fn inline_files_are_standard_base64() {
    for data in [&b""[..], b"f", b"fo", b"foo", b"foob", b"fooba", b"foobar", &[0u8, 255, 128, 7]] {
        let expected = format!("base64://{}", base64::engine::general_purpose::STANDARD.encode(data));
        assert_eq!(inline_media_file(data), expected);
    }
    assert_eq!(inline_media_file(b"foobar"), "base64://Zm9vYmFy");
}

#[test]
fn replacement_files() {
    let s = seg(Some("image"), Some("https://cdn/x"), None);
    assert_eq!(replacement_file(&Some(vec![1, 2, 3]), &s).as_deref(), Some("base64://AQID"));
    assert_eq!(replacement_file(&None, &s).as_deref(), Some("https://cdn/x"));
    let s = seg(Some("image"), Some(""), None);
    assert_eq!(replacement_file(&None, &s), None);
    let s = seg(Some("image"), None, Some("https://cdn/x"));
    assert_eq!(replacement_file(&None, &s), None);
}

#[test]
fn offsets_are_applied_exactly() {
    let mut px = vec![250u8, 10, 0, 77, 5, 6];
    kovi_plugin_transfer::media::apply_offsets(&mut px, 1, &[3, 255, 19]);
    assert_eq!(px, vec![250, 13, 255, 96, 5, 6]);
    let mut px = vec![1u8, 2, 3, 4];
    kovi_plugin_transfer::media::apply_offsets(&mut px, 0, &[0, 0, 0]);
    assert_eq!(px, vec![1, 2, 3, 4]);
}

#[test]
fn given_gif_frames_are_redrawn() {
    let (w, h) = (3u32, 3u32);
    let g = DecodedGif {
        width: w,
        height: h,
        frames: vec![
            RawFrame { pixels: pattern(w, h), delay_numer: 70, delay_denom: 1 },
            RawFrame { pixels: pattern(w, h), delay_numer: 30, delay_denom: 1 },
        ],
    };
    let out = redraw_gif_frames(&g).unwrap();
    assert_eq!(out.len(), 2);
    for (f, raw) in out.iter().zip(g.frames.iter()) {
        assert_eq!((f.width, f.height), (w, h));
        assert_eq!((f.delay_numer, f.delay_denom), (raw.delay_numer, raw.delay_denom));
        check_border(w, h, &raw.pixels, &f.pixels);
    }
    let bad = DecodedGif {
        width: w,
        height: h,
        frames: vec![RawFrame { pixels: vec![0; 5], delay_numer: 1, delay_denom: 1 }],
    };
    assert!(redraw_gif_frames(&bad).is_none());
}

#[test]
fn jpeg_images_are_redrawn() {
    let (w, h) = (8u32, 8u32);
    let rgb: Vec<u8> = (0..w * h * 3).map(|i| (i % 200) as u8).collect();
    let mut jpg = Vec::new();
    image::codecs::jpeg::JpegEncoder::new(&mut jpg)
        .write_image(&rgb, w, h, image::ExtendedColorType::Rgb8)
        .unwrap();
    let out = transform_image("image/jpeg", &jpg).unwrap();
    let back = image::load_from_memory(&out).unwrap().to_rgba8();
    assert_eq!(back.dimensions(), (w, h));
}
