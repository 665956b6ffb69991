use doubao_clean::android::{
    basename, dedupe, import_finish, import_grow, import_name, mime_of, share_mime, with_png,
    MAX_SIZE,
};
use doubao_clean::fetch::{
    all_sources_failed, is_temp_of, merge_finish, meta_compatible, meta_path, milestone,
    plan_download, read_length, read_probe, retry_step, seed_progress, segment_begin,
    segment_finish, segment_path, segment_response, segments_outcome, split_segments, stem_of,
    stream_begin, stream_finish, stream_path, stream_response, stream_restart, PartMeta, RetryStep,
    Route, SegmentStep, StreamStep,
};
use doubao_clean::i18n::{load, tr};
use doubao_clean::menu::{
    build, forward, forwarded, Choice, GUIDE_URL, ID_CLEANUP, ID_EXPORT_LOG, ID_HELP_GUIDE,
    ID_HELP_ISSUE, ID_PICK, ID_START,
};
use doubao_clean::photo_meta::{bake_orientation_into, png_chunks, read_orientation, CarryMeta};

fn meta(url: &str, total: u64, etag: &str) -> PartMeta {
    PartMeta { url: url.to_string(), total, etag: etag.to_string() }
}

#[test]
fn temp_file_names_are_recognised() {
    for name in
        ["m.onnx.part", "m.onnx.part.json", "m.onnx.part0", "m.onnx.part11", "m.onnx.part.merge"]
    {
        assert!(is_temp_of(name, "m.onnx"), "{} 应算临时产物", name);
    }
    for name in ["m.onnx", "m.onnx.bak", "m.onnx.partx", "m.onnx.part.json2", "other.onnx.part0"] {
        assert!(!is_temp_of(name, "m.onnx"), "{} 不应算临时产物", name);
    }
}

#[test]
fn resume_requires_same_remote_file() {
    let base = meta("a", 100, "W/\"x\"");
    assert!(meta_compatible(&base, &meta("b", 100, "W/\"x\"")));
    assert!(!meta_compatible(&base, &meta("a", 101, "W/\"x\"")));
    assert!(!meta_compatible(&base, &meta("a", 100, "W/\"y\"")));
    assert!(!meta_compatible(&base, &meta("a", 0, "W/\"x\"")));
    assert!(meta_compatible(&base, &meta("a", 100, "")));
}

#[test]
fn stream_download_resumes_after_truncation() {
    let first = stream_begin(true, 200_000, 0);
    assert!(!first.resume);
    assert_eq!(
        stream_response(&first, 200, 200_000),
        StreamStep::Receive { append: false, expected: 200_000 }
    );
    let short = stream_finish(60_000, 200_000).err().unwrap();
    assert!(short.contains("不完整"), "应报下载不完整，实际: {}", short);
    let second = stream_begin(true, 200_000, 60_000);
    assert!(second.resume);
    assert_eq!(
        stream_response(&second, 206, 140_000),
        StreamStep::Receive { append: true, expected: 200_000 }
    );
    assert!(stream_finish(200_000, 200_000).is_ok());
}

#[test]
fn stale_parts_are_discarded_when_remote_changed() {
    let old = Some(meta("old", 200_000, "W/\"old\""));
    let plan = plan_download(&old, &meta("u", 200_000, "W/\"new\""), true, 1 << 30);
    assert!(plan.prune);
    assert_eq!(plan.route, Route::Stream);
    let plan = plan_download(&old, &meta("v", 200_000, ""), true, 1000);
    assert!(!plan.prune);
    assert_eq!(plan.route, Route::Parallel);
}

#[test]
fn a_server_that_ignores_the_range_starts_the_stream_again() {
    let state = stream_begin(true, 100, 40);
    assert_eq!(stream_response(&state, 200, 100), StreamStep::Restart);
    let again = stream_restart(&state);
    assert!(!again.resume);
    assert_eq!(
        stream_response(&again, 200, 100),
        StreamStep::Receive { append: false, expected: 100 }
    );
}

#[test]
fn parallel_download_merges_segments() {
    let total = 300_000u64;
    let parts = split_segments(total);
    assert_eq!(parts[0].0, 0);
    assert_eq!(parts.last().unwrap().1, total - 1);
    for pair in parts.windows(2) {
        assert_eq!(pair[0].1 + 1, pair[1].0);
    }
    assert_eq!(segment_begin(100, 199, 0), SegmentStep::Ask { from: 100 });
    assert_eq!(segment_begin(100, 199, 30), SegmentStep::Ask { from: 130 });
    assert_eq!(segment_begin(100, 199, 100), SegmentStep::Done);
    assert_eq!(seed_progress(&vec![10; parts.len()], total), 10 * parts.len() as u64);
    assert!(merge_finish(total, total).is_ok());
    assert!(segments_outcome(&[]).is_ok());
}

#[test]
fn truncated_response_never_becomes_final_file() {
    assert!(stream_finish(50_000, 120_000).is_err());
    assert!(segment_finish(0, 99, 50).is_err());
    assert!(segment_finish(0, 99, 100).is_ok());
    assert!(merge_finish(119_999, 120_000).is_err());
    assert!(segments_outcome(&["x".to_string()]).is_err());
    assert!(segment_response(206).is_ok());
    assert_eq!(
        segment_response(200).err().unwrap(),
        "服务器未返回 206 分段响应（status 200）"
    );
}

#[test]
fn downloads_give_up_after_three_tries_and_name_their_sources() {
    assert_eq!(retry_step(0, true), RetryStep::Done);
    assert_eq!(retry_step(1, false), RetryStep::Again);
    assert_eq!(retry_step(2, false), RetryStep::GiveUp);
    let text = all_sources_failed(
        &["u1".to_string(), "u2".to_string()],
        &["e1".to_string(), "e2".to_string()],
    );
    assert!(text.ends_with("u1: e1 | u2: e2"), "{text}");
    assert_eq!(milestone(50, 200), Some((25, 2)));
    assert_eq!(milestone(50, 0), None);
}

#[test]
fn answers_of_a_server_are_read() {
    assert_eq!(read_length(&Some("123".to_string())), 123);
    assert_eq!(read_length(&Some("x".to_string())), 0);
    assert_eq!(read_length(&None), 0);
    let probe = read_probe(
        &Some("99".to_string()),
        &Some("Bytes".to_string()),
        Some("W/\"t\"".to_string()),
    );
    assert_eq!((probe.total, probe.accept_ranges), (99, true));
    assert_eq!(probe.etag, "W/\"t\"");
    assert_eq!(meta_path("m.onnx"), "m.part.json");
    assert_eq!(stream_path("m.onnx"), "m.part");
    assert_eq!(segment_path("m.onnx", 11), "m.part11");
    assert_eq!(stem_of("m.onnx"), "m");
}

#[test]
fn forwarded_ids_are_distinct_and_cover_actions() {
    let all = forwarded();
    assert!(all.contains(&ID_PICK));
    assert!(all.contains(&ID_START));
    assert!(all.contains(&ID_EXPORT_LOG));
    assert!(all.contains(&ID_CLEANUP));
    assert!(!all.contains(&ID_HELP_GUIDE));
    assert!(!all.contains(&ID_HELP_ISSUE));
    let mut ids = all.to_vec();
    ids.sort_unstable();
    ids.dedup();
    assert_eq!(ids.len(), all.len(), "菜单 id 不可重复");
}

#[test]
fn accelerator_strings_use_known_modifiers() {
    const MODS: &[&str] = &[
        "CmdOrCtrl", "Cmd", "Command", "Ctrl", "Control", "Alt", "Option", "Shift", "Super",
    ];
    let menu = build("en");
    let mut seen: Vec<&str> = Vec::new();
    for entry in menu.file.iter().chain(menu.help.iter()) {
        if let Some(accel) = entry.accelerator {
            seen.push(accel);
        }
    }
    for accel in ["CmdOrCtrl+O", "CmdOrCtrl+Return"] {
        assert!(seen.contains(&accel), "{}", accel);
        let (mods, key) = accel.rsplit_once('+').expect("加速键需含 '+'");
        assert!(!key.is_empty(), "{} 缺少主键", accel);
        for m in mods.split('+') {
            assert!(MODS.contains(&m), "未知修饰符 {}（在 {}）", m, accel);
        }
    }
    for accel in seen {
        let (mods, _) = accel.rsplit_once('+').unwrap();
        assert!(mods.split('+').all(|m| MODS.contains(&m)));
    }
}

#[test]
fn menu_choices_are_forwarded_or_opened() {
    assert_eq!(forward(ID_PICK), Choice::Forward);
    assert_eq!(forward("something-else"), Choice::Ignore);
    assert_eq!(forward(ID_HELP_GUIDE), Choice::OpenGuide);
    assert_eq!(forward(ID_HELP_ISSUE), Choice::OpenIssues);
    assert!(GUIDE_URL.starts_with("https://"));
    assert_eq!(build("zh-CN").file_title, "文件");
    assert_eq!(build("de").file_title, "File");
}

#[test]
fn texts_follow_the_language() {
    assert_eq!(tr("ZH-cn", "甲", "a"), "甲");
    assert_eq!(tr("en", "甲", "a"), "a");
    assert_eq!(load(None), "zh");
    assert_eq!(load(Some("fr".to_string())), "fr");
}

#[test]
fn names_from_a_phone_are_made_safe() {
    assert_eq!(mime_of("A.PNG"), "image/png");
    assert_eq!(mime_of("a.jpeg"), "image/jpeg");
    assert_eq!(mime_of("a.bin"), "image/*");
    assert_eq!(basename("/a/b/c.png"), "c.png");
    assert_eq!(share_mime(&["a.png".to_string(), "b.png".to_string()]), "image/png");
    assert_eq!(share_mime(&["a.png".to_string(), "b.jpg".to_string()]), "image/*");
    let existing = vec!["a.png".to_string(), "a-1.png".to_string()];
    assert_eq!(dedupe("a.png", &existing), "a-2.png");
    assert_eq!(dedupe("b.png", &existing), "b.png");
    assert_eq!(import_name(&None, 7), "image-7.png");
    assert_eq!(import_name(&Some("  ".to_string()), 7), "image-7.png");
    assert_eq!(import_name(&Some("x.jpg".to_string()), 7), "x.jpg");
    assert_eq!(with_png("x.JPG".to_string(), "x.jpg"), "x.JPG.png");
    assert_eq!(import_grow(MAX_SIZE - 1, 1).unwrap(), MAX_SIZE);
    assert!(import_grow(MAX_SIZE, 1).is_err());
    assert!(import_finish(0).is_err() && import_finish(1).is_ok());
}

const EXIF_HEADER: &[u8] = b"Exif\0\0";
const ICC_HEADER: &[u8] = b"ICC_PROFILE\0";

fn jpeg_with_meta(w: u32, h: u32, exif_orientation: u16, icc: &[u8]) -> Vec<u8> {
    let img = image::RgbImage::from_pixel(w, h, image::Rgb([10, 20, 30]));
    let mut buf = Vec::new();
    img.write_with_encoder(image::codecs::jpeg::JpegEncoder::new_with_quality(&mut buf, 95))
        .unwrap();
    let mut tiff: Vec<u8> = Vec::new();
    tiff.extend_from_slice(&[0x49, 0x49, 42, 0]);
    tiff.extend_from_slice(&8u32.to_le_bytes());
    tiff.extend_from_slice(&1u16.to_le_bytes());
    tiff.extend_from_slice(&0x0112u16.to_le_bytes());
    tiff.extend_from_slice(&3u16.to_le_bytes());
    tiff.extend_from_slice(&1u32.to_le_bytes());
    tiff.extend_from_slice(&exif_orientation.to_le_bytes());
    tiff.extend_from_slice(&0u16.to_le_bytes());
    tiff.extend_from_slice(&0u32.to_le_bytes());

    let mut extra: Vec<u8> = Vec::new();
    let mut app1: Vec<u8> = vec![0xff, 0xe1];
    let payload_len = 2 + EXIF_HEADER.len() + tiff.len();
    app1.extend_from_slice(&(payload_len as u16).to_be_bytes());
    app1.extend_from_slice(EXIF_HEADER);
    app1.extend_from_slice(&tiff);
    extra.extend_from_slice(&app1);
    if !icc.is_empty() {
        let mut payload: Vec<u8> = Vec::new();
        payload.extend_from_slice(ICC_HEADER);
        payload.push(1);
        payload.push(1);
        payload.extend_from_slice(icc);
        let mut app2: Vec<u8> = vec![0xff, 0xe2];
        app2.extend_from_slice(&((payload.len() + 2) as u16).to_be_bytes());
        app2.extend_from_slice(&payload);
        extra.extend_from_slice(&app2);
    }
    let mut out = Vec::with_capacity(buf.len() + extra.len());
    out.extend_from_slice(&buf[..2]);
    out.extend_from_slice(&extra);
    out.extend_from_slice(&buf[2..]);
    out
}

#[test]
fn jpeg_meta_round_trip_keeps_exif_and_icc() {
    let icc = b"fake-icc-profile-bytes".to_vec();
    let src = jpeg_with_meta(8, 8, 6, &icc);
    assert_eq!(read_orientation(&src), Some(6));

    let meta = CarryMeta::read(&src);
    assert!(!meta.is_empty(), "应读出 EXIF 与 ICC");
    assert_eq!(meta.jpeg_icc.len(), 1, "ICC 分片应被完整取出");

    let mut cleared = CarryMeta::read(&src);
    cleared.clear_orientation();
    assert_eq!(cleared.orientation(), Some(1));
    assert_eq!(meta.orientation(), Some(6));
    let (before, after) = (meta.jpeg_exif.as_ref().unwrap(), cleared.jpeg_exif.as_ref().unwrap());
    assert_eq!(before.len(), after.len());
    assert_eq!(before[..10], after[..10]);

    let img = image::RgbImage::from_pixel(8, 8, image::Rgb([1, 2, 3]));
    let mut buf = Vec::new();
    img.write_with_encoder(image::codecs::jpeg::JpegEncoder::new_with_quality(&mut buf, 95))
        .unwrap();
    let merged = cleared.splice_jpeg(buf);
    assert!(merged.starts_with(&[0xff, 0xd8]));
    assert_eq!(read_orientation(&merged), Some(1));
    assert!(
        merged.windows(icc.len()).any(|w| w == icc.as_slice()),
        "ICC 数据必须原样保留"
    );
    let back = image::load_from_memory(&merged).unwrap();
    assert_eq!((back.width(), back.height()), (8, 8));
}

fn tag(name: &[u8; 4]) -> u32 {
    u32::from_be_bytes(*name)
}

#[test]
fn png_color_chunks_are_carried_over() {
    let mut src: Vec<u8> = Vec::new();
    {
        let mut enc = png::Encoder::new(&mut src, 4, 4);
        enc.set_color(png::ColorType::Rgb);
        enc.set_depth(png::BitDepth::Eight);
        enc.set_source_srgb(png::SrgbRenderingIntent::Perceptual);
        let mut writer = enc.write_header().unwrap();
        writer.write_image_data(&[0u8; 4 * 4 * 3]).unwrap();
    }
    let meta = CarryMeta::read(&src);
    assert!(!meta.is_empty(), "应取出 sRGB 等色彩块");
    let source_chunks = png_chunks(&src);
    assert!(source_chunks.iter().any(|c| c.kind == tag(b"sRGB")), "源文件应含 sRGB 块");

    let img = image::RgbImage::from_pixel(4, 4, image::Rgb([9, 9, 9]));
    let mut buf = Vec::new();
    img.write_with_encoder(image::codecs::png::PngEncoder::new(&mut buf)).unwrap();
    let merged = meta.splice_png(buf);
    let back = image::load_from_memory(&merged).unwrap();
    assert_eq!((back.width(), back.height()), (4, 4));
    let chunks = png_chunks(&merged);
    assert_eq!(chunks[0].kind, tag(b"IHDR"));
    assert_eq!(chunks[1].kind, tag(b"sRGB"), "色彩块必须紧跟 IHDR");
    assert!(chunks.iter().any(|c| c.kind == tag(b"IDAT")), "IDAT 应仍在末尾");
}

#[test]
fn bake_orientation_rotates_work_copy_only() {
    let src = jpeg_with_meta(8, 8, 6, &[]);
    let baked = bake_orientation_into(&src, &src).unwrap().expect("方向 6 应该被烤进去");
    assert_ne!(baked, src);
    assert_eq!(read_orientation(&src), Some(6));

    let mut plain = std::io::Cursor::new(Vec::new());
    image::RgbImage::from_pixel(4, 2, image::Rgb([1, 1, 1]))
        .write_to(&mut plain, image::ImageFormat::Png)
        .unwrap();
    let plain = plain.into_inner();
    assert!(bake_orientation_into(&plain, &plain).unwrap().is_none());
}

#[test]
fn a_turned_photo_changes_its_sides() {
    let src = jpeg_with_meta(16, 8, 6, &[]);
    let baked = bake_orientation_into(&src, &src).unwrap().unwrap();
    let img = image::load_from_memory(&baked).unwrap();
    assert_eq!((img.width(), img.height()), (8, 16));
    assert!(bake_orientation_into(&src, b"broken").is_err());
}
