use doubao_clean::boxes::{default_mask_box, fuse_boxes, resolve_box, MaskBox};
use doubao_clean::codec::{
    container_for, open_contained, open_mask, open_picture, save_mask, save_result, Container,
};
use doubao_clean::detect::detect_watermark_boxes;
use doubao_clean::double::Double;
use doubao_clean::masks::{count_risen, dilate_gray_rect, is_unmarked, join_masks, paint_boxes};
use doubao_clean::names::{
    image_format_for, is_supported_image, list_pictures, numeric_key, target_names, Format,
};
use doubao_clean::number::Number;
use doubao_clean::pipeline::{
    origin_of, Origin,
    cleanup, finalize_outputs, grow_mask, model_dir, model_path, output_dir, overwrite_review,
    prepare, read_boxes, repair_kind, report_verify, residual_retry, restore_backup, run,
    run_summary, stage_after, work_dirs, workdir, write_boxes, Action, Location, PipelineOptions,
    Repair, Stage,
};
use doubao_clean::raster::{Mask, Picture};
use doubao_clean::refine::{refine_box_mask, reflect101};
use doubao_clean::template::{load_template, template_stroke_mask, Template};
use doubao_clean::verify::{verify_paths, Reason, Verdict};

fn flat(w: u32, h: u32, c: [u8; 3]) -> Picture {
    let mut data = Vec::new();
    for _ in 0..w * h {
        data.extend_from_slice(&c);
    }
    Picture::new(w, h, data).unwrap()
}

fn copy(p: &Picture) -> Picture {
    Picture::new(p.width, p.height, p.data.clone()).unwrap()
}

fn put(p: &mut Picture, x: u32, y: u32, c: [u8; 3]) {
    let i = ((y * p.width + x) * 3) as usize;
    p.data[i..i + 3].copy_from_slice(&c);
}

fn empty_mask(w: u32, h: u32) -> Mask {
    Mask::new(w, h, vec![0; (w * h) as usize]).unwrap()
}

fn options(root: &str) -> PipelineOptions {
    PipelineOptions {
        root: root.to_string(),
        files: vec![],
        keep_work: false,
        mask_box: None,
        any_position: false,
        overwrite_original: true,
        use_profile: true,
        force: false,
        inverse: true,
        retry: true,
        refine: false,
        forced_profile: None,
        output_dir_override: None,
    }
}

fn parts(l: &Location) -> (String, Vec<String>) {
    (l.base.clone(), l.parts.clone())
}

fn at(base: &str, p: &[&str]) -> (String, Vec<String>) {
    (base.to_string(), p.iter().map(|s| s.to_string()).collect())
}

/// Strokes of seven slanted bars, as a template for a shorter side of 1600.
fn template(w: u32, h: u32) -> Template {
    barred(w, h, w / 7, 6)
}

/// Strokes of slanted bars, `wide` pixels of every `pitch`.
fn barred(w: u32, h: u32, pitch: u32, wide: u32) -> Template {
    let mut strokes = vec![0u8; (w * h) as usize];
    let mut alpha = vec![0u8; (w * h) as usize];
    for y in 4..h - 4 {
        for x in 0..w {
            if (x + y / 4) % pitch < wide {
                strokes[(y * w + x) as usize] = 255;
                alpha[(y * w + x) as usize] = 150;
            }
        }
    }
    Template {
        strokes: Mask::new(w, h, strokes).unwrap(),
        alpha: Mask::new(w, h, alpha).unwrap(),
        ref_short: Double::from_int(1600),
    }
}

/// A picture with the template's strokes blended into its bottom right corner.
fn stamped(w: u32, h: u32, t: &Template, ground: [u8; 3]) -> Picture {
    let mut img = flat(w, h, ground);
    let (tw, th) = (t.strokes.width, t.strokes.height);
    for y in 0..th {
        for x in 0..tw {
            if t.strokes.data[(y * tw + x) as usize] > 127 {
                let c: Vec<u8> =
                    ground.iter().map(|&v| (v as f64 * 0.4 + 255.0 * 0.6) as u8).collect();
                put(&mut img, w - tw + x, h - th + y, [c[0], c[1], c[2]]);
            }
        }
    }
    img
}

#[test]
fn default_mask_box_known_sizes() {
    assert_eq!(default_mask_box(2848, 1600), (2518, 1482, 2840, 1592));
    assert_eq!(default_mask_box(2278, 1280), (2003, 1188, 2271, 1272));
    assert_eq!(default_mask_box(2048, 2048), (1668, 1923, 2040, 2008));
    let (x1, y1, x2, y2) = default_mask_box(1024, 768);
    assert!(x1 < x2 && y1 < y2 && x2 <= 1024 - 8 && y2 <= 768 - 8);
}

#[test]
fn default_mask_box_scales_like_double_arithmetic() {
    for (w, h) in [(1024u32, 768u32), (1728, 2304), (4000, 3000), (5696, 3200), (333, 9999)] {
        let scale = (w as f64 / 2848.0).min(h as f64 / 1600.0);
        let bw = (330.0 * scale).max(220.0) as i64;
        let bh = (118.0 * scale).max(78.0) as i64;
        let want =
            ((w as i64 - bw).max(0), (h as i64 - bh).max(0), w as i64 - 8, h as i64 - 8);
        assert_eq!(default_mask_box(w, h), want);
    }
}

#[test]
fn resolve_box_negative_and_invalid() {
    let box_ =
        resolve_box(1000, 800, Some(MaskBox { x1: -110, y1: -60, x2: -10, y2: -10 })).unwrap();
    assert_eq!(box_, (890, 740, 990, 790));
    assert!(resolve_box(1000, 800, Some(MaskBox { x1: 50, y1: 50, x2: 40, y2: 60 })).is_err());
}

#[test]
fn template_stroke_mask_hits_real_style_watermark() {
    let t = barred(330, 110, 24, 8);
    let (w, h) = (1728u32, 2304u32);
    let scale = 1728.0 / 1600.0;
    let (tw, th) = ((330.0 * scale) as u32, (110.0 * scale) as u32);
    let mut img = flat(w, h, [100, 105, 110]);
    let (px, py) = (w - tw, h - th);
    for ty in 0..th {
        for tx in 0..tw {
            let sx = ((tx as f64 + 0.5) / scale) as u32;
            let sy = ((ty as f64 + 0.5) / scale) as u32;
            if t.strokes.data[(sy.min(109) * 330 + sx.min(329)) as usize] > 127 {
                let blend = |c: u8| -> u8 { (c as f64 * 0.4 + 255.0 * 0.6) as u8 };
                put(&mut img, px + tx, py + ty, [blend(100), blend(105), blend(110)]);
            }
        }
    }
    let hit = template_stroke_mask(&img, &t).unwrap().expect("template should match");
    let whites = hit.mask.data.iter().filter(|&&v| v > 0).count();
    assert!(whites > 10000, "mask should cover strokes ({whites}px)");
    assert!(whites < (tw * th) as usize, "stroke mask must be smaller than the full box");
    let mut far = (0i64, 0i64);
    for (i, &v) in hit.mask.data.iter().enumerate() {
        if v > 0 {
            far.0 = far.0.max(i as i64 % w as i64);
            far.1 = far.1.max(i as i64 / w as i64);
        }
    }
    assert!(far.0 >= w as i64 - 60 && far.1 >= h as i64 - 60, "mask should hug bottom-right");
    assert!((hit.px as i64 - px as i64).abs() <= 2 && (hit.py as i64 - py as i64).abs() <= 2);
}

#[test]
fn template_stroke_mask_misses_clean_image() {
    let img = flat(1600, 900, [240, 240, 233]);
    assert!(template_stroke_mask(&img, &template(210, 70)).unwrap().is_none());
}

#[test]
fn load_template_reads_pictures_and_refuses_what_cannot_be_scaled() {
    let t = template(70, 20);
    let strokes = save_mask(&t.strokes).unwrap();
    let alpha = save_mask(&t.alpha).unwrap();
    let back = load_template(&strokes, &alpha, Ok(Number::from_int(1600))).ok().unwrap();
    assert_eq!(back.strokes.data, t.strokes.data);
    assert_eq!(back.alpha.data, t.alpha.data);
    assert_eq!(back.ref_short, Double::from_int(1600));
    let bad = load_template(&strokes, &alpha, Ok(Number::from_int(0)));
    assert_eq!(bad.err().unwrap(), "invalid template");
    let bad = load_template(&strokes, &alpha, Err("no meta".to_string()));
    assert_eq!(bad.err().unwrap(), "no meta");
    assert!(load_template(b"no picture", &alpha, Ok(Number::from_int(1600))).is_err());
}

#[test]
fn verify_paths_flags_outside_changes() {
    let orig = flat(400, 300, [100, 110, 120]);
    let mut mask = empty_mask(400, 300);
    for y in 100..140 {
        for x in 100..160 {
            mask.data[y * 400 + x] = 255;
        }
    }
    let mut ok = copy(&orig);
    for y in 100..140 {
        for x in 100..160 {
            put(&mut ok, x, y, [10, 10, 10]);
        }
    }
    let t = template(210, 70);
    let rep = verify_paths(&orig, &ok, &mask, &t, Some(false)).unwrap();
    assert_eq!(rep.verdict, Verdict::Pass, "{:?}", rep.reasons);
    assert_eq!(rep.outside_changed, 0);
    assert_eq!(rep.mask_area, 40 * 60);

    let mut bad = copy(&orig);
    put(&mut bad, 10, 10, [200, 200, 200]);
    let rep = verify_paths(&orig, &bad, &mask, &t, Some(false)).unwrap();
    assert_eq!(rep.verdict, Verdict::Fail);
    assert_eq!(rep.outside_changed, 1);
    assert_eq!(rep.reasons, vec![Reason::OutsideChanged { count: 1, max: 100 }]);
}

#[test]
fn verify_warns_of_a_large_mask_and_fails_on_a_remaining_watermark() {
    let t = template(210, 70);
    let orig = flat(300, 200, [90, 90, 90]);
    let mut mask = empty_mask(300, 200);
    for v in mask.data.iter_mut().take(300 * 30) {
        *v = 255;
    }
    let rep = verify_paths(&orig, &orig, &mask, &t, Some(false)).unwrap();
    assert_eq!(rep.verdict, Verdict::Warn);
    assert!(matches!(rep.reasons[0], Reason::LargeMask { .. }));

    let marked = stamped(1600, 1600, &t, [60, 60, 60]);
    let mut mask = empty_mask(1600, 1600);
    mask.data[0] = 255;
    let rep = verify_paths(&marked, &marked, &mask, &t, Some(true)).unwrap();
    assert_eq!(rep.verdict, Verdict::Fail);
    assert!(rep.residual);
    assert!(matches!(rep.reasons[0], Reason::Residue { .. }));

    assert!(verify_paths(&orig, &marked, &mask, &t, None).is_none());
}

/// Bars in one row, every other of them half as high.
fn bars(img: &mut Picture, x0: u32, y0: u32, c: [u8; 3]) {
    for k in 0..8u32 {
        for y in (k % 2) * 20..40u32 {
            for x in 0..9u32 {
                put(img, x0 + k * 24 + x, y0 + y, c);
            }
        }
        for x in 0..20u32 {
            put(img, x0 + k * 24 + x, y0 + 18, c);
            put(img, x0 + k * 24 + x, y0 + 19, c);
        }
    }
}

#[test]
fn detection_finds_a_row_of_bright_strokes_and_nothing_on_a_plain_ground() {
    let mut img = flat(1600, 900, [70, 80, 90]);
    bars(&mut img, 1370, 820, [255, 255, 255]);
    let boxes = detect_watermark_boxes(&img);
    assert!(!boxes.is_empty(), "bars should be found");
    assert!(
        boxes.iter().any(|b| b.0 < 1560 && b.2 > 1370 && b.1 < 860 && b.3 > 820),
        "{boxes:?}"
    );
    assert!(detect_watermark_boxes(&flat(1600, 900, [240, 240, 233])).is_empty());
}

#[test]
fn output_dir_modes() {
    let root = "/pics";
    let o = options(root);
    assert_eq!(parts(&output_dir(&o)), at(root, &[]));
    let o = PipelineOptions { overwrite_original: false, ..o };
    assert_eq!(parts(&output_dir(&o)), at(root, &["watermark-cleaned"]));
    let o = PipelineOptions { output_dir_override: Some("/custom-out".to_string()), ..o };
    assert_eq!(parts(&output_dir(&o)), at("/custom-out", &[]));
    let o = PipelineOptions { overwrite_original: true, ..o };
    assert_eq!(parts(&output_dir(&o)), at(root, &[]));
}

#[test]
fn restore_backup_copies_originals_back() {
    assert_eq!(restore_backup(true, 1).unwrap(), (1, true));
    assert!(restore_backup(false, 0).is_err());
}

#[test]
fn target_names_sorted_and_filtered() {
    let listing: Vec<String> =
        ["2.png", "10.png", "1.png", "ignore.jpg", "3.PNG", "4.webp", "5.jpeg", "skip.gif"]
            .iter()
            .map(|s| s.to_string())
            .collect();
    let names = target_names("/pics", &listing, &[], &[]).unwrap();
    assert_eq!(
        names,
        vec!["1.png", "2.png", "3.PNG", "4.webp", "5.jpeg", "10.png", "ignore.jpg"]
    );
    let picked = target_names("/pics", &listing, &["3.PNG".to_string()], &[true]).unwrap();
    assert_eq!(picked, vec!["3.PNG"]);
    assert!(target_names("/pics", &listing, &["skip.gif".to_string()], &[true]).is_err());
}

#[test]
fn target_names_reports_what_is_missing() {
    let gone = target_names("/pics", &[], &["a.png".to_string()], &[false]).err().unwrap();
    assert!(gone.contains("a.png"), "{gone}");
    let none = target_names("/pics", &["x.txt".to_string()], &[], &[]).err().unwrap();
    assert!(none.contains("/pics"), "{none}");
}

#[test]
fn names_tell_pictures_formats_and_order() {
    assert!(is_supported_image("A.JPEG") && is_supported_image("b.webp"));
    assert!(!is_supported_image("png") && !is_supported_image("a.gif"));
    assert_eq!(image_format_for("x.JPG"), Format::Jpeg);
    assert_eq!(image_format_for("x.webp"), Format::WebP);
    assert_eq!(image_format_for("x.png"), Format::Png);
    assert!(numeric_key("9.png") < numeric_key("10.png"));
    assert!(numeric_key("10.png") < numeric_key("a.png"));
    let listing: Vec<String> = ["b.png", "10.png", "9.png"].iter().map(|s| s.to_string()).collect();
    assert_eq!(list_pictures(&listing), vec!["9.png", "10.png", "b.png"]);
}

#[test]
fn pipeline_file_flow_without_model() {
    let t = template(210, 70);
    let img = stamped(1024, 1600, &t, [240, 240, 233]);
    let o = options("/pics");
    let prepared = prepare(&o, &img, &t, None, &[]).unwrap();
    let mut fake = copy(&img);
    for i in 0..prepared.mask.data.len() {
        if prepared.mask.data[i] > 0 {
            fake.data[3 * i..3 * i + 3].copy_from_slice(&[240, 240, 233]);
        }
    }
    let rep = verify_paths(&img, &fake, &prepared.mask, &t, None).unwrap();
    assert_ne!(rep.verdict, Verdict::Fail, "{:?}", rep.reasons);
    assert_eq!(rep.outside_changed, 0);
    let names = vec!["b.png".to_string()];
    let written = finalize_outputs(&o, &names, &[Some(rep.verdict)]).unwrap();
    assert_eq!(parts(&written[0]), at("/pics", &["b.png"]));
    assert!(overwrite_review(&o, &names, &[Some(rep.verdict)]).is_ok());
    assert_eq!(cleanup(&names, &[true]), names);
}

#[test]
fn prepare_marks_a_given_box_and_refuses_an_invalid_one() {
    let t = template(210, 70);
    let img = flat(300, 200, [50, 50, 50]);
    let o = PipelineOptions {
        mask_box: Some(MaskBox { x1: 10, y1: 20, x2: 30, y2: 40 }),
        ..options("/pics")
    };
    let prepared = prepare(&o, &img, &t, None, &[]).unwrap();
    for y in 0..200usize {
        for x in 0..300usize {
            let inside = (10..30).contains(&x) && (20..40).contains(&y);
            assert_eq!(prepared.mask.data[y * 300 + x] > 0, inside);
        }
    }
    let o = PipelineOptions {
        mask_box: Some(MaskBox { x1: 30, y1: 20, x2: 10, y2: 40 }),
        ..options("/pics")
    };
    assert!(prepare(&o, &img, &t, None, &[]).is_err());
    let o = options("/pics");
    assert!(is_unmarked(&prepare(&o, &img, &t, None, &[]).unwrap().mask));
}

#[test]
fn a_failed_check_refuses_to_write_unless_forced() {
    let names = vec!["a.png".to_string(), "b.png".to_string()];
    let verdicts = [Some(Verdict::Pass), Some(Verdict::Fail)];
    let o = options("/pics");
    let message = finalize_outputs(&o, &names, &verdicts).err().unwrap();
    assert!(message.starts_with("verification FAILED for b.png"), "{message}");
    let o = PipelineOptions { force: true, ..o };
    assert_eq!(finalize_outputs(&o, &names, &verdicts).unwrap().len(), 2);
    assert!(report_verify(&verdicts));
    assert!(!report_verify(&[Some(Verdict::Warn), None]));
    assert_eq!(residual_retry(&names, &[false, true]), vec!["b.png"]);
}

#[test]
fn a_run_goes_through_its_stages_and_keeps_originals_when_they_were_replaced() {
    let o = options("/pics");
    let mut stage = Stage::Start;
    let mut seen = Vec::new();
    loop {
        let action = run(stage, &o, false);
        seen.push(action);
        match stage_after(action) {
            Some(next) => stage = next,
            None => break,
        }
    }
    assert_eq!(seen.first(), Some(&Action::Prepare));
    assert_eq!(seen.last(), Some(&Action::Stop));
    assert!(seen.contains(&Action::Retry) && seen.contains(&Action::Finalize));
    assert!(!seen.contains(&Action::Cleanup));
    assert_eq!(run(Stage::Start, &o, true), Action::Cancel);
}

#[test]
fn boxes_are_written_and_read_back() {
    let boxes = vec![(1, -2, 30, 40), (5, 6, 7, 8)];
    assert_eq!(write_boxes(&boxes), "1,-2,30,40\n5,6,7,8");
    assert_eq!(read_boxes(&write_boxes(&boxes)), boxes);
    assert_eq!(read_boxes("x\n1, 2 ,3,4\n\n1,2,3"), vec![(1, 2, 3, 4)]);
}

#[test]
fn a_mask_grows_for_a_second_try() {
    let mut mask = empty_mask(20, 10);
    mask.data[5 * 20 + 10] = 255;
    let grown = grow_mask(&mask, &None);
    assert_eq!(grown.added, 24);
    assert_eq!(grown.mask.data[3 * 20 + 8], 255);
    assert_eq!(grown.mask.data[2 * 20 + 10], 0);
    let grown = grow_mask(&mask, &Some("1,1,4,3".to_string()));
    assert_eq!(grown.boxes, Some(1));
    assert_eq!(grown.added, 6);
    assert_eq!(grown.mask.data[5 * 20 + 10], 0);
}

#[test]
fn repairs_are_told_apart() {
    let none = empty_mask(4, 4);
    let mut some = empty_mask(4, 4);
    some.data[3] = 1;
    assert_eq!(repair_kind(&none, true, true, true, true), Repair::PassThrough);
    assert_eq!(repair_kind(&some, true, true, false, true), Repair::UndoProfile);
    assert_eq!(repair_kind(&some, false, false, true, true), Repair::UndoStamp);
    assert_eq!(repair_kind(&some, false, true, true, false), Repair::Keep);
    assert_eq!(repair_kind(&some, false, false, false, true), Repair::Keep);
}

#[test]
fn masks_are_painted_joined_and_widened() {
    let a = paint_boxes(&[(1, 1, 3, 2)], 5, 4, 20);
    assert_eq!(a.data.iter().filter(|&&v| v == 255).count(), 2);
    let b = paint_boxes(&[(4, 3, 9, 9)], 5, 4, 20);
    assert_eq!(b.data.iter().filter(|&&v| v == 255).count(), 1);
    let j = join_masks(&a, &b);
    assert_eq!(count_risen(&j, &a), 1);
    let wide = dilate_gray_rect(&a, 3, 1);
    assert_eq!(wide.data.iter().filter(|&&v| v == 255).count(), 4);
}

#[test]
fn overlapping_boxes_become_one() {
    let fused = fuse_boxes(vec![(0, 0, 10, 10), (20, 20, 30, 30), (8, 8, 22, 22)]);
    assert_eq!(fused, vec![(0, 0, 30, 30)]);
    let apart = vec![(0, 0, 5, 5), (10, 0, 15, 5)];
    let mut kept = fuse_boxes(apart.clone());
    kept.sort_unstable();
    assert_eq!(kept, apart);
}

#[test]
fn a_box_is_narrowed_to_its_strokes() {
    let mut img = flat(400, 200, [80, 80, 80]);
    bars(&mut img, 100, 80, [230, 230, 230]);
    let m = refine_box_mask(&img, (90, 70, 300, 130)).expect("strokes should be found");
    let marked = m.data.iter().filter(|&&v| v > 0).count();
    assert!(marked > 1000 && marked < 210 * 60, "{marked}");
    assert!(m.data[(100 * 400 + 104) as usize] > 0);
    assert!(refine_box_mask(&flat(400, 200, [80, 80, 80]), (90, 70, 300, 130)).is_none());
}

#[test]
fn indices_mirror_at_the_edges() {
    let got: Vec<i64> = (-3..8).map(|i| reflect101(i, 5)).collect();
    assert_eq!(got, vec![3, 2, 1, 0, 1, 2, 3, 4, 3, 2, 1]);
    assert_eq!(reflect101(7, 1), 0);
}

#[test]
fn pictures_survive_lossless_files() {
    let mut img = flat(7, 5, [1, 2, 3]);
    put(&mut img, 3, 2, [200, 100, 50]);
    for format in [Format::Png, Format::WebP] {
        let bytes = save_result(&img, format).unwrap();
        let back = open_picture(&bytes, format).ok().unwrap();
        assert_eq!((back.width, back.height), (7, 5));
        assert_eq!(back.data, img.data);
    }
    let jpeg = save_result(&flat(16, 16, [90, 90, 90]), Format::Jpeg).unwrap();
    let back = open_picture(&jpeg, Format::Jpeg).ok().unwrap();
    assert!(back.data.iter().all(|&v| (v as i32 - 90).abs() <= 3));
    let mut mask = empty_mask(6, 4);
    mask.data[5] = 255;
    let back = open_mask(&save_mask(&mask).unwrap(), Format::Png).ok().unwrap();
    assert_eq!(back.data, mask.data);
    assert!(open_picture(b"nothing", Format::Png).is_err());
    assert!(open_mask(b"nothing", Format::Png).is_err());
}

#[test]
fn places_follow_what_is_set() {
    let none: Option<String> = None;
    let set = |s: &str| Some(s.to_string());
    assert_eq!(parts(&model_dir(&none, &none, "/proj")), at("/proj", &[".models"]));
    assert_eq!(parts(&model_dir(&none, &set("/data"), "/proj")), at("/data", &[]));
    assert_eq!(parts(&model_dir(&set("/env"), &set("/data"), "/proj")), at("/env", &[]));
    let dir = model_dir(&none, &none, "/proj");
    assert_eq!(parts(&model_path(&none, dir)), at("/proj", &[".models", "lama_fp32.onnx"]));
    assert_eq!(
        parts(&workdir(&none, &set("/cache"), "/tmp")),
        at("/cache", &["doubao-watermark-work"])
    );
    let (source, _, _, _) = work_dirs("/work");
    assert_eq!(source.base, "/work");
    let o = options("/pics");
    let summary = run_summary(&o, &["a.png".to_string()], "/work", "/kept");
    assert_eq!(summary.processed, 1);
    assert_eq!(parts(&summary.output_dir), at("/pics", &[]));
}

#[test]
fn files_are_read_by_their_extension() {
    assert_eq!(container_for("PNG"), Some(Container::Png));
    assert_eq!(container_for("Jpeg"), Some(Container::Jpeg));
    assert_eq!(container_for("webp"), Some(Container::WebP));
    assert_eq!(container_for("bmp"), Some(Container::Bmp));
    assert_eq!(container_for("TIF"), Some(Container::Tiff));
    assert_eq!(container_for("tiff"), Some(Container::Tiff));
    assert_eq!(container_for("gif"), None);
    assert_eq!(container_for(""), None);
    let img = image::RgbImage::from_fn(6, 4, |x, y| image::Rgb([x as u8, y as u8, 200]));
    for (format, kind) in
        [(image::ImageFormat::Bmp, Container::Bmp), (image::ImageFormat::Tiff, Container::Tiff)]
    {
        let mut out = std::io::Cursor::new(Vec::new());
        img.write_to(&mut out, format).unwrap();
        let bytes = out.into_inner();
        let back = open_contained(&bytes, kind).ok().unwrap();
        assert_eq!((back.width, back.height), (6, 4));
        assert_eq!(&back.data, img.as_raw());
        assert!(open_contained(&bytes, Container::Png).is_err());
    }
}

#[test]
fn photos_are_written_at_quality_92() {
    let mut img = flat(16, 16, [90, 90, 90]);
    put(&mut img, 3, 2, [200, 100, 50]);
    let raw = image::RgbImage::from_raw(16, 16, img.data.clone()).unwrap();
    let at = |quality: u8| {
        let mut out = Vec::new();
        raw.write_with_encoder(image::codecs::jpeg::JpegEncoder::new_with_quality(
            &mut out, quality,
        ))
        .unwrap();
        out
    };
    let bytes = save_result(&img, Format::Jpeg).unwrap();
    assert_eq!(bytes, at(92));
    assert_ne!(bytes, at(91));
}

#[test]
fn masks_without_colours_keep_their_tones_and_colours_become_grey() {
    let mut out = std::io::Cursor::new(Vec::new());
    image::GrayAlphaImage::from_fn(3, 2, |x, y| image::LumaA([(40 * x + y) as u8, 9]))
        .write_to(&mut out, image::ImageFormat::Png)
        .unwrap();
    let back = open_mask(&out.into_inner(), Format::Png).ok().unwrap();
    assert_eq!(back.data, vec![0, 40, 80, 1, 41, 81]);
    let mut img = flat(2, 1, [0, 0, 0]);
    put(&mut img, 1, 0, [255, 255, 255]);
    let bytes = save_result(&img, Format::Png).unwrap();
    let back = open_mask(&bytes, Format::Png).ok().unwrap();
    assert_eq!((back.width, back.height, back.data), (2, 1, vec![0, 255]));
}

#[test]
fn wide_pictures_are_taken() {
    let mut out = std::io::Cursor::new(Vec::new());
    image::GrayImage::from_pixel(100_000_000, 1, image::Luma([7]))
        .write_to(&mut out, image::ImageFormat::Png)
        .unwrap();
    let back = open_mask(&out.into_inner(), Format::Png).ok().unwrap();
    assert_eq!((back.width, back.height, back.data[99_999_999]), (100_000_000, 1, 7));
}

#[test]
fn the_first_original_is_kept() {
    assert_eq!(origin_of(false, false), Origin { copy: false, from_backup: false });
    assert_eq!(origin_of(false, true), Origin { copy: false, from_backup: false });
    assert_eq!(origin_of(true, false), Origin { copy: true, from_backup: true });
    assert_eq!(origin_of(true, true), Origin { copy: false, from_backup: true });
}

#[test]
fn the_default_box_lies_in_the_picture() {
    for (w, h) in [(9u32, 9u32), (9, 4000), (100, 60), (2848, 1600), (70_000, 12)] {
        let b = default_mask_box(w, h);
        assert!(0 <= b.0 && b.0 < b.2 && b.2 < w as i64, "{w}x{h}");
        assert!(0 <= b.1 && b.1 < b.3 && b.3 < h as i64, "{w}x{h}");
    }
}
