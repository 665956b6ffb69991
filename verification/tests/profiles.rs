use doubao_clean::boxes::default_mask_box;
use doubao_clean::batch::{learn_from_batch, refused_count, BatchResult};
use doubao_clean::discover::{
    ascending_positions, auto_discover, gather_frames, judge_frame, largest_group, Candidate, Choice, Demands,
    FrameVerdict,
};
use doubao_clean::fill::fill_inpaint;
use doubao_clean::blur::gauss_blur;
use doubao_clean::inverse::{
    choose_gain, gains, ghost_for, inverse_image, inverse_image_gated, may_undo, place_mark,
    stamp_params, texture_hf, undo_mark, InverseParams, Kernels, PlacedMark,
};
use doubao_clean::learning::{
    background_score, build_from_uniform, extract_from_pair, extract_from_solid, PairResult,
    Refusal, UniformResult,
};
use doubao_clean::correlate::{cosine_scan, downscale, normalize_unit};
use doubao_clean::locating::{
    accept, best_of, coarse_scales, coarse_size, consider, fine_scales, fine_scan, locate_ncc,
    locate_profile, match_image, search_of, search_planes, NccHit, Search,
};
use doubao_clean::number::Number;
use doubao_clean::outline::{clean_alpha, crop_to_alpha, detect_watermark_box};
use doubao_clean::placing::{
    locate_profile_dense, mask_for, match_specific, place_by_anchor, profile_self_check,
    scaled_layers,
};
use doubao_clean::planes::{box_mean, keep_large};
use doubao_clean::raster::{Mask, Picture};
use doubao_clean::scaling::resize_plane;
use doubao_clean::shift::{estimate_shift, translate};
use doubao_clean::watermark_profiles::{
    delete_profile, guess_corner_box, list_profiles, load_profile, profile_from_bytes,
    profile_summaries, resolve_box, save_profile, slug, Origin, Place, Profile, ProfileMeta,
};

fn n(v: f64) -> Number {
    Number::from_bits(v.to_bits())
}

fn f(v: Number) -> f64 {
    f64::from_bits(v.to_bits())
}

fn plane(v: &[f32]) -> Vec<Number> {
    v.iter().map(|&x| n(x as f64)).collect()
}

fn white() -> (Number, Number, Number) {
    (n(255.0), n(255.0), n(255.0))
}

fn picture(w: u32, h: u32, c: impl Fn(u32, u32) -> [u8; 3]) -> Picture {
    let mut data = Vec::new();
    for y in 0..h {
        for x in 0..w {
            data.extend_from_slice(&c(x, y));
        }
    }
    Picture::new(w, h, data).unwrap()
}

fn copy(p: &Picture) -> Picture {
    Picture::new(p.width, p.height, p.data.clone()).unwrap()
}

fn names(v: &[&str]) -> Vec<String> {
    v.iter().map(|s| s.to_string()).collect()
}

fn profile(id: &str, w: usize, h: usize, alpha: Vec<Number>, color: Vec<Number>) -> Profile {
    Profile {
        id: id.to_string(),
        label: id.to_string(),
        ref_short_side: n(100.0),
        source: "test".to_string(),
        created: String::new(),
        place: None,
        mask_dilate: None,
        aw: w,
        ah: h,
        alpha,
        color,
    }
}

#[test]
fn resize_keeps_constant() {
    let src = vec![n(7.0); 10 * 10];
    let out = resize_plane(&src, 10, 10, 1, 5, 5);
    assert_eq!(out.len(), 25);
    assert!(out.iter().all(|&v| (f(v) - 7.0).abs() < 1e-4));
}

#[test]
fn resize_is_bilinear_in_single_precision() {
    let src: Vec<f32> = (0..12).map(|i| i as f32 * 1.7 - 3.0).collect();
    let (sw, sh, dw, dh) = (4usize, 3usize, 7usize, 5usize);
    let out = resize_plane(&plane(&src), sw, sh, 1, dw, dh);
    let (sx, sy) = (sw as f32 / dw as f32, sh as f32 / dh as f32);
    for y in 0..dh {
        let fy = (y as f32 + 0.5) * sy - 0.5;
        let (y0, wy) = (fy.floor(), fy - fy.floor());
        let y0i = (y0.max(0.0) as usize).min(sh - 1);
        let y1i = (y0i + 1).min(sh - 1);
        for x in 0..dw {
            let fx = (x as f32 + 0.5) * sx - 0.5;
            let (x0, wx) = (fx.floor(), fx - fx.floor());
            let x0i = (x0.max(0.0) as usize).min(sw - 1);
            let x1i = (x0i + 1).min(sw - 1);
            let top = src[y0i * sw + x0i] * (1.0 - wx) + src[y0i * sw + x1i] * wx;
            let low = src[y1i * sw + x0i] * (1.0 - wx) + src[y1i * sw + x1i] * wx;
            let want = top * (1.0 - wy) + low * wy;
            assert_eq!(f(out[y * dw + x]), want as f64);
        }
    }
    assert_eq!(resize_plane(&[], 0, 3, 1, 2, 1).len(), 2);
}

#[test]
fn clean_alpha_drops_specks() {
    let (w, h) = (20usize, 20usize);
    let mut a = vec![0f32; w * h];
    a[5 * w + 5] = 0.9;
    for y in 8..12 {
        for x in 8..12 {
            a[y * w + x] = 0.9;
        }
    }
    let mut a = plane(&a);
    clean_alpha(&mut a, w, h, n(0.02f32 as f64), 8);
    assert_eq!(f(a[5 * w + 5]), 0.0);
    assert!(f(a[8 * w + 8]) > 0.5);
}

#[test]
fn parts_and_their_boxes() {
    let mut cells = vec![false; 30];
    cells[0] = true;
    cells[7] = true;
    cells[28] = true;
    let kept = keep_large(&cells, 6, 5, 2);
    assert_eq!(kept.iter().filter(|&&b| b).count(), 2);
    let mut alpha = vec![n(0.0); 100];
    alpha[3 * 10 + 4] = n(0.5);
    alpha[6 * 10 + 5] = n(0.25);
    let color = vec![n(9.0); 300];
    let m = crop_to_alpha(&alpha, &color, 10, 10).unwrap();
    assert_eq!((m.x0, m.y0, m.w, m.h), (2, 1, 6, 8));
    assert_eq!(f(m.alpha[2 * 6 + 2]), 0.5);
    assert!(crop_to_alpha(&vec![n(0.0); 100], &color, 10, 10).is_none());
}

#[test]
fn means_and_fills() {
    let src: Vec<u32> = (0..35).collect();
    let m = box_mean(&src, 7, 5, 1);
    assert_eq!(f(m[0]), ((0 + 1 + 7 + 8) as f64 / 4.0) as f32 as f64);
    assert_eq!(f(m[9]), 9.0);
    let mut values = vec![n(0.0); 27];
    for (i, v) in values.iter_mut().enumerate() {
        *v = n((i / 3) as f64);
    }
    let mut mask = vec![false; 9];
    mask[4] = true;
    let filled = fill_inpaint(&values, 3, 3, &mask);
    assert_eq!(f(filled[12]), (0 + 1 + 2 + 3 + 5 + 6 + 7 + 8) as f64 / 8.0);
    assert_eq!(f(filled[0]), 0.0);
    let lost = fill_inpaint(&values, 3, 3, &[true; 9]);
    assert_eq!(f(lost[12]), 4.0);
}

/// A pattern that differs everywhere.
fn texture(x: u32, y: u32) -> u8 {
    ((x * 37 + y * 91 + (x * y) % 53) % 200) as u8
}

#[test]
fn shifts_are_found_and_undone() {
    let a: Vec<u8> = (0..60 * 50).map(|i| texture(i % 60 + 5, i / 60 + 5)).collect();
    let b: Vec<u8> = (0..60 * 50).map(|i| texture(i % 60 + 5 - 2, i / 60 + 5 + 1)).collect();
    assert_eq!(estimate_shift(&a, &b, 60, 50), (2, -1));
    assert_eq!(estimate_shift(&a[..64], &b[..64], 8, 8), (0, 0));
    let p = picture(6, 4, |x, y| [x as u8, y as u8, 0]);
    let moved = translate(&p, 2, -1);
    assert_eq!(&moved.data[0..3], &[2, 0, 0]);
    let i = (3 * 6 + 5) * 3;
    assert_eq!(&moved.data[i..i + 3], &[5, 2, 0]);
}

fn blended_pair() -> (Picture, Picture) {
    let (bx0, by0, bx1, by1) = (60u32, 50u32, 110u32, 80u32);
    let shade = |ground: f32| {
        move |x: u32, y: u32| {
            let inside = x >= bx0 && x < bx1 && y >= by0 && y < by1 && (x + y) % 3 == 0;
            let v = if inside { 0.6 * 255.0 + 0.4 * ground } else { ground };
            [v as u8, v as u8, v as u8]
        }
    };
    (picture(120, 90, shade(1.0)), picture(120, 90, shade(254.0)))
}

#[test]
fn pair_roundtrip_recovers_background() {
    let (black, bright) = blended_pair();
    let given = Some((55i64, 45i64, 115i64, 85i64));
    let result = extract_from_pair(
        &black,
        &bright,
        given,
        Some(n(90.0)),
        "synthetic",
        4,
        n(6.0),
        ("black.png", "white.png"),
    );
    match result {
        PairResult::Learned { fit, profile, stroke_box } => {
            assert!(f(fit.residual_black) < 2.0);
            assert_eq!(profile.id, "synthetic");
            assert_eq!(profile.source, "pair: black.png + white.png");
            assert!(stroke_box.0 >= 55 && stroke_box.2 <= 115);
            let anchor = place_by_anchor(&profile, 120, 90).expect("anchor");
            assert_eq!((anchor.0, anchor.1), (stroke_box.0, stroke_box.1));
            let mask = mask_for(&profile, anchor.0, anchor.1, 120, 90, anchor.2).expect("mask");
            assert!(mask.data.iter().any(|&v| v == 255));
            assert!(mask_for(&profile, 100, 80, 120, 90, anchor.2).is_none());
            let mut seen = 0;
            for y in 0..profile.ah {
                for x in 0..profile.aw {
                    let a = f(profile.alpha[y * profile.aw + x]);
                    let (px, py) = (stroke_box.0 + x, stroke_box.1 + y);
                    if (60..110).contains(&px) && (50..80).contains(&py) && (px + py) % 3 == 0 {
                        assert!(a == 0.0 || (a - 0.6).abs() < 0.01, "{a}");
                        seen += (a > 0.0) as usize;
                    } else {
                        assert_eq!(a, 0.0);
                    }
                }
            }
            assert!(seen >= 480, "{seen}");
        }
        _ => panic!("pair profile must be learned"),
    }
}

#[test]
fn pairs_that_do_not_suit_are_refused() {
    let (black, bright) = blended_pair();
    let small = picture(10, 10, |_, _| [0, 0, 0]);
    let go = |a: &Picture, b: &Picture, given| {
        extract_from_pair(a, b, given, None, "x", 4, n(6.0), ("a", "b"))
    };
    assert!(matches!(
        go(&black, &small, None),
        PairResult::Refused { why: Refusal::SizesDiffer }
    ));
    assert!(matches!(
        go(&black, &bright, Some((1, 1, 4, 40))),
        PairResult::Refused { why: Refusal::InvalidBox }
    ));
    match go(&black, &black, Some((55, 45, 115, 85))) {
        PairResult::Refused { why: Refusal::BackgroundsTooClose { delta } } => {
            assert_eq!(f(delta), 0.0)
        }
        _ => panic!("grounds are the same"),
    }
    let (dark, light) =
        (picture(120, 90, |_, _| [1, 1, 1]), picture(120, 90, |_, _| [254, 254, 254]));
    assert!(matches!(
        go(&dark, &light, Some((55, 45, 115, 85))),
        PairResult::Refused { why: Refusal::TooLittleCoverage }
    ));
    let strict = extract_from_pair(
        &black,
        &bright,
        Some((55, 45, 115, 85)),
        None,
        "x",
        4,
        n(-1.0),
        ("a", "b"),
    );
    assert!(matches!(strict, PairResult::Unfit { .. }));
}

#[test]
fn a_mark_on_a_solid_ground_is_learned() {
    let (black, _) = blended_pair();
    let bg = (n(1.0), n(1.0), n(1.0));
    let p = extract_from_solid(
        &black,
        Some((55, 45, 115, 85)),
        bg,
        white(),
        None,
        "My Mark",
        4,
        "s.png",
    )
    .ok()
    .unwrap();
    assert_eq!(p.id, "my-mark");
    assert_eq!(f(p.ref_short_side), 1600.0);
    let top = p.alpha.iter().map(|&a| f(a)).fold(0.0, f64::max);
    assert!((top - 0.598).abs() < 0.01, "{top}");
    let err = |given, c| {
        extract_from_solid(&black, given, bg, c, None, "x", 4, "s").err().unwrap()
    };
    assert_eq!(err(Some((1, 1, 3, 50)), white()), "invalid box");
    assert_eq!(
        err(Some((55, 45, 115, 85)), (n(2.0), n(2.0), n(2.0))),
        "watermark color and background are too close"
    );
}

/// A row of bright bars on an even ground.
fn barred(w: u32, h: u32, ground: u8, x0: u32, y0: u32) -> Picture {
    picture(w, h, move |x, y| {
        let inside = x >= x0 && x < x0 + 60 && y >= y0 && y < y0 + 16 && (x - x0) % 10 < 4;
        let v = if inside { (0.4 * ground as f64 + 0.6 * 255.0) as u8 } else { ground };
        [v, v, v]
    })
}

#[test]
fn strokes_in_the_corner_are_boxed() {
    let p = barred(200, 200, 60, 130, 175);
    let b = detect_watermark_box(&p).expect("box");
    assert_eq!(b, (120, 165, 194, 200));
    assert!(detect_watermark_box(&picture(200, 200, |_, _| [60, 60, 60])).is_none());
}

#[test]
fn even_grounds_are_scored_and_learned_from() {
    let p = barred(200, 200, 60, 130, 175);
    let given = Some((120i64, 165i64, 194i64, 200i64));
    let s = background_score(&p, given, white()).expect("score");
    assert_eq!(f(s.bg_median.0), 60.0);
    assert_eq!(f(s.contrast), 195.0);
    assert!(f(s.coverage) > 0.1 && f(s.coverage) < 0.3);
    assert!(background_score(&p, Some((0, 0, 50, 50)), white()).is_none());
    let learn = |bg, max| {
        build_from_uniform(&p, given, white(), None, "bars", 4, bg, n(max), "p.png")
    };
    match learn(None, 12.0) {
        UniformResult::Learned { fit, profile, stroke_box } => {
            assert!(f(fit.residual) < 2.0);
            assert_eq!(profile.source, "auto: p.png");
            assert_eq!(stroke_box.0, 128);
        }
        _ => panic!("bars must be learned"),
    }
    assert!(matches!(learn(None, -1.0), UniformResult::Unfit { .. }));
    assert!(matches!(
        learn(Some((n(250.0), n(250.0), n(250.0))), 12.0),
        UniformResult::Refused { why: Refusal::ColorTooClose }
    ));
    let none = build_from_uniform(
        &p,
        Some((0, 0, 50, 50)),
        white(),
        None,
        "x",
        4,
        None,
        n(12.0),
        "p",
    );
    assert!(matches!(none, UniformResult::Refused { why: Refusal::NoStrokes }));
}

/// Smooth grounds of different brightness with the same bars over them.
fn batch() -> Vec<Picture> {
    (0..4u32)
        .map(|k| {
            picture(160, 120, move |x, y| {
                let ground = 30.0 + 35.0 * k as f64 + ((x + y * k) % 40) as f64 * 0.3;
                let inside = x >= 90 && x < 150 && y >= 90 && y < 110 && (x - 90) % 12 < 5;
                let v = if inside { 0.5 * ground + 0.5 * 255.0 } else { ground };
                [v as u8, v as u8, v as u8]
            })
        })
        .collect()
}

fn learn_batch(p: &[Picture], max: f64) -> BatchResult {
    learn_from_batch(
        p,
        Some((80, 80, 160, 120)),
        None,
        "Batch",
        8,
        n(max),
        n(2.0),
        n(0.15f32 as f64),
    )
}

#[test]
fn a_batch_teaches_its_common_mark() {
    let p = batch();
    match learn_batch(&p, 12.0) {
        BatchResult::Learned { fit, profile, stroke_box } => {
            assert_eq!(fit.samples, 4);
            assert!(f(fit.residual) < 6.0, "{}", f(fit.residual));
            assert_eq!(profile.source, "learn_from_batch: 4");
            assert!(stroke_box.0 >= 84 && stroke_box.2 <= 156, "{stroke_box:?}");
            let mid = profile.alpha.iter().map(|&a| f(a)).fold(0.0, f64::max);
            assert!(mid > 0.4, "{mid}");
        }
        BatchResult::Refused { .. } => panic!("batch must be learned"),
        BatchResult::Unfit { fit } => {
            panic!("unfit: {} {}", f(fit.residual), f(fit.coverage))
        }
    }
    assert!(matches!(learn_batch(&p, -1.0), BatchResult::Unfit { .. }));
    assert!(matches!(
        learn_batch(&p[..2], 12.0),
        BatchResult::Refused { why: Refusal::TooFewSamples { got: 2 } }
    ));
    assert!(refused_count(3).is_none());
    assert!(matches!(refused_count(2), Some(Refusal::TooFewSamples { got: 2 })));
    let mixed = vec![copy(&p[0]), copy(&p[1]), picture(10, 10, |_, _| [0, 0, 0])];
    assert!(matches!(learn_batch(&mixed, 12.0), BatchResult::Refused { why: Refusal::Unaligned }));
    let blank: Vec<Picture> = (0..3).map(|_| picture(160, 120, |_, _| [9, 9, 9])).collect();
    assert!(matches!(
        learn_batch(&blank, 12.0),
        BatchResult::Refused { why: Refusal::NoStructure }
    ));
}

#[test]
fn usable_pictures_are_told_ordered_and_tried() {
    let p = barred(200, 200, 60, 130, 175);
    let judged = judge_frame(&p, None, white(), n(0.01), n(60.0));
    let score = match judged {
        FrameVerdict::Eligible { score } => score,
        _ => panic!("bars are usable"),
    };
    assert!(matches!(
        judge_frame(&p, None, white(), n(0.9), n(60.0)),
        FrameVerdict::OutOfRange { .. }
    ));
    assert!(matches!(
        judge_frame(&p, None, white(), n(0.01), n(250.0)),
        FrameVerdict::Pale { .. }
    ));
    let blank = picture(200, 200, |_, _| [60, 60, 60]);
    assert!(matches!(
        judge_frame(&blank, None, white(), n(0.01), n(60.0)),
        FrameVerdict::NoStrokes
    ));
    let named = |name: &str, p: &Picture| (name.to_string(), copy(p));
    let frames = vec![named("a", &p), named("b", &blank), named("c", &p)];
    let (verdicts, kept) = gather_frames(frames, None, white(), n(0.01), n(60.0));
    assert!(matches!(verdicts[1], FrameVerdict::NoStrokes));
    let names: Vec<&str> = kept.iter().map(|k| k.name.as_str()).collect();
    assert_eq!((verdicts.len(), names), (3, vec!["a", "c"]));
    let order = ascending_positions(&[n(2.0), n(1.0), n(2.0), n(0.5)]);
    assert_eq!(order, vec![3, 1, 0, 2]);
    assert_eq!(largest_group(&[(1, 1), (2, 2), (1, 1), (2, 2)]), vec![1, 3]);
    assert_eq!(largest_group(&[(1, 1), (2, 2), (1, 1)]), vec![0, 2]);
    assert!(largest_group(&[]).is_empty());

    let demands = Demands {
        color: white(),
        ref_short_side: None,
        least: 4,
        max_resid: n(12.0),
        detail_least: n(2.0),
        core: n(0.15f32 as f64),
    };
    let one = vec![Candidate {
        picture: copy(&p),
        name: "p.png".to_string(),
        frame: score.frame,
        uniformity: score.uniformity,
    }];
    let found = auto_discover(&one, demands, "bars");
    assert_eq!(found.choice, Choice::Uniform);
    assert!(found.batch.is_none());
    assert_eq!(auto_discover(&[], demands, "bars").choice, Choice::NoFrame);
}

#[test]
fn corners_and_boxes() {
    for (w, h) in [(2848usize, 1600usize), (1000, 800), (100, 50), (5000, 4000)] {
        let scale = (w as f64 / 2848.0).min(h as f64 / 1600.0);
        let bw = (330.0 * scale).max(220.0) as usize;
        let bh = (118.0 * scale).max(78.0) as usize;
        let want = (w.saturating_sub(bw), h.saturating_sub(bh), w, h);
        assert_eq!(guess_corner_box(w, h), want);
        assert_eq!(resolve_box(None, w, h), want);
    }
    assert_eq!(resolve_box(Some((-10, 5, 20, -5)), 100, 50), (20, 5, 90, 45));
    assert_eq!(resolve_box(Some((-1000, 0, 1000, 9)), 100, 50), (0, 0, 100, 9));
}

#[test]
fn labels_become_identifiers() {
    assert_eq!(slug("  Hello World! "), "hello-world");
    assert_eq!(slug("--a_b\tc--"), "a_b-c");
    assert_eq!(slug("水印 1"), "水印-1");
    assert_eq!(slug("!!!"), "profile");
    assert_eq!(slug(" - - "), "profile");
    for label in ["A/B\\C..d", "--x--", "Profile 7_b", "~"] {
        let once = slug(label);
        assert!(once.chars().all(|c| matches!(c, 'a'..='z' | '0'..='9' | '-' | '_')));
        assert_eq!(slug(&once), once);
    }
}

fn meta() -> ProfileMeta {
    ProfileMeta {
        id: Some("m".to_string()),
        label: None,
        ref_short_side: None,
        source: None,
        created: None,
        place: None,
        mask_dilate: None,
    }
}

#[test]
fn profiles_are_saved_and_read_back() {
    let alpha = plane(&[0.0, 1.0, 0.5, 0.25]);
    let color = plane(&[0.0, 255.0, 300.0, -5.0, 7.9, 1.0, 2.0, 3.0, 4.0, 5.0, 6.0, 7.0]);
    let p = profile("m", 2, 2, alpha, color);
    let files = save_profile(&p, false, false).ok().unwrap();
    let back =
        profile_from_bytes("fallback", &files.alpha_png, &files.color_png, Ok(meta())).ok().unwrap();
    assert_eq!((back.aw, back.ah), (2, 2));
    assert_eq!(back.id, "m");
    assert_eq!(f(back.ref_short_side), 1600.0);
    let got: Vec<f64> = back.color.iter().map(|&v| f(v)).collect();
    assert_eq!(got[..6], [0.0, 255.0, 255.0, 0.0, 7.0, 1.0]);
    assert_eq!(f(back.alpha[2]), (127.0f32 / 255.0) as f64);
    assert_eq!(
        save_profile(&p, false, true).err().unwrap(),
        "profile already exists: m"
    );
    assert!(save_profile(&p, true, true).is_ok());
    let other = save_profile(
        &profile("o", 1, 1, plane(&[0.5]), plane(&[1.0, 2.0, 3.0])),
        true,
        false,
    )
    .ok()
    .unwrap();
    let mixed = profile_from_bytes("x", &files.alpha_png, &other.color_png, Ok(meta()));
    assert_eq!(mixed.err().unwrap(), "alpha/color size mismatch for profile x");
    let bad = profile_from_bytes("x", &files.alpha_png, &files.color_png, Err("json".to_string()));
    assert_eq!(bad.err().unwrap(), "json");
    assert!(profile_from_bytes("x", b"no", &files.color_png, Ok(meta())).is_err());
}

#[test]
fn profiles_are_found_listed_and_deleted() {
    let builtin = names(&["qwen", "other"]);
    assert_eq!(load_profile("x", true, &builtin).unwrap(), Origin::Directory);
    assert_eq!(load_profile("other", false, &builtin).unwrap(), Origin::Builtin { index: 1 });
    assert_eq!(load_profile("x", false, &builtin).err().unwrap(), "profile not found: x");
    let make = |id: &str| profile(id, 1, 1, plane(&[0.5]), plane(&[1.0, 2.0, 3.0]));
    let all = list_profiles(vec![make("a"), make("qwen")], vec![make("qwen"), make("z")]);
    let ids: Vec<&str> = all.iter().map(|p| p.id.as_str()).collect();
    assert_eq!(ids, vec!["a", "qwen", "z"]);
    let summaries = profile_summaries(&all, &builtin);
    assert_eq!(summaries.len(), 3);
    assert!(summaries[1].builtin && !summaries[0].builtin);
    assert_eq!((summaries[2].width, summaries[2].height), (1, 1));
    assert!(delete_profile("a", &builtin, true).is_ok());
    assert_eq!(
        delete_profile("qwen", &builtin, true).err().unwrap(),
        "builtin profile cannot be deleted: qwen"
    );
    for id in ["", "a/b", "a\\b", "..", "x..y"] {
        assert_eq!(
            delete_profile(id, &builtin, true).err().unwrap(),
            format!("invalid profile id: {id}")
        );
    }
    assert_eq!(delete_profile("a", &builtin, false).err().unwrap(), "profile not found: a");
}

/// A profile of slanted strokes, and a picture that carries it.
fn carried(w: u32, h: u32, px: u32, py: u32) -> (Profile, Picture) {
    let (aw, ah) = (40usize, 20usize);
    let on = |x: usize, y: usize| (x + y / 2) % 8 < 3 && x > 1 && x < 38;
    let mut alpha = vec![n(0.0); aw * ah];
    for y in 0..ah {
        for x in 0..aw {
            if on(x, y) {
                alpha[y * aw + x] = n(0.5);
            }
        }
    }
    let mut p = profile("c", aw, ah, alpha, vec![n(255.0); aw * ah * 3]);
    p.place = Some(Place {
        reference: Some(n(100.0)),
        right: Some(n((w - px - 40) as f64 / 100.0)),
        bottom: Some(n((h - py - 20) as f64 / 100.0)),
    });
    let img = picture(w, h, |x, y| {
        let inside = x >= px && x < px + 40 && y >= py && y < py + 20;
        let marked = inside && on((x - px) as usize, (y - py) as usize);
        let v = if marked { 152 } else { 50 };
        [v, v, v]
    });
    (p, img)
}

#[test]
fn a_mark_is_found_near_its_place() {
    let (p, img) = carried(150, 100, 90, 70);
    let hit = locate_profile_dense(&img, &p).expect("hit");
    assert_eq!((hit.px, hit.py), (90, 70));
    assert_eq!(f(hit.scale), 1.0);
    assert_eq!(f(Number::from_double(hit.score)), 102.0);
    assert!(match_specific(&img, &p).is_some());
    let blank = picture(150, 100, |_, _| [50, 50, 50]);
    assert!(match_specific(&blank, &p).is_none());
    let (hits, total, mean) = profile_self_check(&p, &[img, blank]);
    assert_eq!((hits, total), (1, 2));
    assert_eq!(f(mean), 102.0);
}

#[test]
fn anchors_and_layers_follow_the_scale() {
    let (p, _) = carried(150, 100, 90, 70);
    let (x, y, s) = place_by_anchor(&p, 300, 200).unwrap();
    assert_eq!((x, y, f(s)), (180, 140, 2.0));
    assert!(place_by_anchor(&p, 40, 40).is_none() || f(s) > 0.0);
    let (a, c, tw, th) = scaled_layers(&p, n(0.5));
    assert_eq!((tw, th), (20, 10));
    assert_eq!(a.len(), 200);
    assert_eq!(c.len(), 600);
    let none = profile("x", 1, 1, plane(&[0.5]), plane(&[1.0, 2.0, 3.0]));
    assert!(place_by_anchor(&none, 100, 100).is_none());
}

#[test]
fn a_mark_is_undone_where_it_was_blended_in() {
    let (p, img) = carried(150, 100, 90, 70);
    let ground = picture(150, 100, |_, _| [50, 50, 50]);
    let open = InverseParams { scale_tol: None, texture_min: None, ghost_max: None };
    let mark = place_mark(&img, &p, 90, 70, n(1.0), &open).ok().unwrap().unwrap();
    assert!(may_undo(&img, &ground, &mark, n(0.0), &open));
    let out = undo_mark(&img, &ground, &mark, n(1.0), None);
    for (a, b) in out.data.iter().zip(ground.data.iter()) {
        assert!((*a as i32 - *b as i32).abs() <= 1);
    }
    let mut mask = Mask::new(150, 100, vec![0; 15000]).unwrap();
    for i in 0..15000usize {
        mask.data[i] = if i / 150 < 80 { 255 } else { 0 };
    }
    let half = undo_mark(&img, &ground, &mark, n(1.0), Some(&mask));
    for i in 0..15000usize {
        if mask.data[i] == 0 {
            assert_eq!(half.data[3 * i..3 * i + 3], img.data[3 * i..3 * i + 3]);
        } else {
            assert!((half.data[3 * i] as i32 - 50).abs() <= 1);
        }
    }
    let wrong = picture(150, 100, |_, _| [220, 220, 220]);
    assert!(!may_undo(&img, &wrong, &mark, n(0.0), &open));
    assert_eq!(
        place_mark(&img, &p, 140, 70, n(1.0), &open).err().unwrap(),
        "profile outside image"
    );
    let strict = stamp_params();
    assert!(!may_undo(&img, &ground, &mark, n(8.0), &strict));
    assert!(may_undo(&img, &ground, &mark, n(9.0), &strict));
    let mut far = p;
    far.ref_short_side = n(200.0);
    assert!(place_mark(&img, &far, 90, 70, n(1.0), &strict).ok().unwrap().is_none());
}

#[test]
fn pixels_that_cannot_be_undone_take_the_restored_colour() {
    let mark = PlacedMark {
        alpha: plane(&[0.9, 0.9]),
        color: plane(&[255.0; 6]),
        tw: 2,
        th: 1,
        px: 0,
        py: 0,
    };
    let obs = picture(2, 1, |x, _| if x == 0 { [255, 255, 255] } else { [10, 10, 10] });
    let mat = picture(2, 1, |_, _| [77, 78, 79]);
    let out = undo_mark(&obs, &mat, &mark, n(1.0), None);
    assert_eq!(out.data, vec![77, 78, 79, 77, 78, 79]);
}

#[test]
fn gains_are_tried_and_limited() {
    let mut want = Vec::new();
    let mut k = 0.8f64;
    while k <= 1.25 + 1e-9 {
        want.push(k);
        k += 0.05;
    }
    let got: Vec<f64> = gains().into_iter().map(f).collect();
    assert_eq!(got, want);
    let open = InverseParams { scale_tol: None, texture_min: None, ghost_max: None };
    let g = |v: &[Option<f64>]| -> Vec<Option<Number>> { v.iter().map(|o| o.map(n)).collect() };
    assert_eq!(choose_gain(&g(&[Some(0.5), None, Some(0.3), Some(0.3)]), &open), Some(2));
    assert_eq!(choose_gain(&g(&[Some(0.7)]), &open), None);
    assert_eq!(choose_gain(&g(&[None]), &open), None);
    assert_eq!(choose_gain(&g(&[Some(0.3)]), &stamp_params()), None);
    assert_eq!(choose_gain(&g(&[Some(0.12)]), &stamp_params()), Some(0));
}

#[test]
fn the_search_runs_over_the_same_scales_as_double_steps() {
    let steps = |span: f64, step: f64, base: f64| {
        let mut out = Vec::new();
        let mut k = 1.0 - span;
        while k <= 1.0 + span + 1e-9 {
            out.push(base * k);
            k += step;
        }
        out
    };
    let got: Vec<f64> = coarse_scales(n(0.7)).into_iter().map(f).collect();
    assert_eq!(got, steps(0.35, 0.05, 0.7));
    let got: Vec<f64> = fine_scales(n(0.7), n(0.77)).into_iter().map(f).collect();
    assert_eq!(got, steps(0.05, 0.0125, 0.7 * (0.77 / 0.7)));
    let s = search_of(1000, 800, false).unwrap();
    assert_eq!(s, Search { x0: 500, y0: 576, rw: 500, rh: 224 });
    assert_eq!(search_of(1000, 800, true).unwrap().rh, 800);
    assert!(search_of(14, 800, false).is_none());
    assert_eq!(coarse_size(100, 40, n(1.0), &s), Some((25, 10)));
    assert_eq!(coarse_size(4, 40, n(1.0), &s), None);
    let scan = fine_scan(100, 40, n(1.0), &s, 880, 752).unwrap();
    assert_eq!((scan.x_lo, scan.x_hi, scan.y_lo, scan.y_hi), (376, 384, 172, 180));
    assert!(fine_scan(600, 40, n(1.0), &s, 880, 752).is_none());
}

#[test]
fn places_by_correlation_are_weighed() {
    let hit = |score: f64, px: usize, py: usize| NccHit { score: n(score), px, py, scale: n(1.0) };
    let (mark, size) = ((100usize, 40usize), (1000usize, 800usize));
    let first = consider(None, hit(0.6, 850, 700), mark, size, false);
    assert_eq!(first.unwrap().px, 850);
    let same = consider(first, hit(0.6, 860, 700), mark, size, false);
    assert_eq!(same.unwrap().px, 850);
    let better = consider(first, hit(0.7, 870, 700), mark, size, false);
    assert_eq!(better.unwrap().px, 870);
    let astray = consider(first, hit(0.9, 100, 100), mark, size, false);
    assert_eq!(astray.unwrap().px, 850);
    let anywhere = consider(first, hit(0.9, 100, 100), mark, size, true);
    assert_eq!(anywhere.unwrap().px, 100);
    assert!(accept(Some(hit(0.49, 1, 1))).is_none());
    assert!(accept(Some(hit(0.5, 1, 1))).is_some());
    assert_eq!(best_of(&[None, Some(hit(0.6, 0, 0)), Some(hit(0.8, 0, 0)), None]), Some(2));
    assert_eq!(best_of(&[None]), None);
}

#[test]
fn bright_and_dark_details_are_told_apart() {
    let p = picture(110, 110, |x, y| {
        let v = if (x, y) == (70, 70) {
            200
        } else if (x, y) == (40, 40) {
            20
        } else {
            100
        };
        [v, v, v]
    });
    let (bright, dark) = search_planes(&p);
    assert_eq!(bright[70 * 110 + 70], 100);
    assert_eq!(dark[40 * 110 + 40], 80);
    assert_eq!(bright.iter().filter(|&&v| v > 0).count(), 1);
    assert_eq!(dark.iter().filter(|&&v| v > 0).count(), 1);
}

fn weights(sigma: f64) -> Vec<Number> {
    let radius = (2.0 * sigma).ceil() as i64;
    let raw: Vec<f64> =
        (-radius..=radius).map(|i| (-((i * i) as f64) / (2.0 * sigma * sigma)).exp()).collect();
    let sum: f64 = raw.iter().sum();
    raw.into_iter().map(|k| n(k / sum)).collect()
}

fn kernels() -> Kernels {
    Kernels { texture: weights(2.0), residue: weights(2.5) }
}

#[test]
fn blurs_are_those_of_the_machine() {
    let (w, h) = (9usize, 7usize);
    let src: Vec<f32> = (0..w * h * 3).map(|i| ((i * 37) % 101) as f32 * 0.7).collect();
    let k: Vec<f64> = weights(2.0).into_iter().map(f).collect();
    let r = (k.len() / 2) as isize;
    let got = gauss_blur(&plane(&src), w, h, 3, &weights(2.0));
    let pass = |src: &[f32], along: bool| -> Vec<f32> {
        let mut out = vec![0f32; src.len()];
        for y in 0..h {
            for x in 0..w {
                for c in 0..3 {
                    let mut acc = 0f64;
                    for (i, kv) in k.iter().enumerate() {
                        let d = i as isize - r;
                        let (sx, sy) = if along {
                            (x, (y as isize + d).clamp(0, h as isize - 1) as usize)
                        } else {
                            ((x as isize + d).clamp(0, w as isize - 1) as usize, y)
                        };
                        acc += kv * src[(sy * w + sx) * 3 + c] as f64;
                    }
                    out[(y * w + x) * 3 + c] = acc as f32;
                }
            }
        }
        out
    };
    let want = pass(&pass(&src, false), true);
    let got: Vec<f32> = got.into_iter().map(|v| f(v) as f32).collect();
    assert_eq!(got, want);
}

#[test]
fn little_is_left_of_a_mark_that_was_undone_rightly() {
    let (p, img) = carried(150, 100, 90, 70);
    let ground = picture(150, 100, |_, _| [50, 50, 50]);
    let open = InverseParams { scale_tol: None, texture_min: None, ghost_max: None };
    let mark = place_mark(&img, &p, 90, 70, n(1.0), &open).ok().unwrap().unwrap();
    let right = ghost_for(&img, &mark, n(1.0), &weights(2.5)).unwrap();
    let wrong = ghost_for(&img, &mark, n(0.8), &weights(2.5)).unwrap();
    assert!(f(wrong) > 0.5, "{}", f(wrong));
    let _ = right;
    assert_eq!(f(texture_hf(&ground, &mark, &weights(2.0))) < 1e-3, true);
    assert!(f(texture_hf(&img, &mark, &weights(2.0))) > 1.0);
    let none = PlacedMark {
        alpha: plane(&[0.5]),
        color: plane(&[255.0; 3]),
        tw: 1,
        th: 1,
        px: 0,
        py: 0,
    };
    assert!(ghost_for(&img, &none, n(1.0), &weights(2.5)).is_none());
}

#[test]
fn marks_are_undone_through_all_limits() {
    let (mut p, _) = carried(150, 100, 90, 70);
    for i in 0..p.alpha.len() {
        if f(p.alpha[i]) > 0.0 {
            p.alpha[i] = n(0.35 + 0.05 * ((i * 7) % 5) as f64);
        }
    }
    let ground = picture(150, 100, |x, y| {
        let v = 40 + texture(x, y) / 4;
        [v, v, v]
    });
    let mut img = copy(&ground);
    for y in 0..20usize {
        for x in 0..40usize {
            let a = f(p.alpha[y * 40 + x]);
            for c in 0..3 {
                let i = ((70 + y) * 150 + 90 + x) * 3 + c;
                img.data[i] = (a * 255.0 + (1.0 - a) * ground.data[i] as f64).round() as u8;
            }
        }
    }
    let u = inverse_image(&img, &ground, &p, 90, 70, n(1.0), &kernels()).ok().unwrap();
    assert!(f(u.left) <= 0.6);
    let mean: f64 = u
        .picture
        .data
        .iter()
        .zip(&ground.data)
        .map(|(a, b)| (*a as f64 - *b as f64).abs())
        .sum::<f64>()
        / u.picture.data.len() as f64;
    assert!(mean < 3.0, "{mean}");
    let strict = InverseParams { scale_tol: None, texture_min: Some(n(200.0)), ghost_max: None };
    let flat =
        inverse_image_gated(&img, &ground, &p, 90, 70, n(1.0), &strict, None, &kernels());
    assert!(flat.ok().unwrap().is_none());
    let far = inverse_image(&img, &ground, &p, 140, 70, n(1.0), &kernels());
    assert_eq!(far.err().unwrap(), "profile outside image");
    let dark = picture(150, 100, |_, _| [0, 0, 0]);
    let gated = inverse_image(&img, &dark, &p, 90, 70, n(1.0), &kernels());
    assert_eq!(gated.err().unwrap(), "inverse skipped (gated)");
}

fn unit(v: &[f32]) -> Vec<f32> {
    let mean = v.iter().sum::<f32>() / v.len() as f32;
    let var = v.iter().map(|&x| (x - mean) * (x - mean)).sum::<f32>() / v.len() as f32;
    let std = var.sqrt().max(1e-6);
    v.iter().map(|&x| (x - mean) / std).collect()
}

fn wave(len: usize) -> Vec<f32> {
    (0..len).map(|i| ((i * i * 7 + i * 3) % 251) as f32 * 0.37 - 20.0).collect()
}

fn singles(v: &[Number]) -> Vec<f32> {
    v.iter().map(|&x| f(x) as f32).collect()
}

#[test]
fn planes_get_mean_zero_and_spread_one() {
    let v = wave(13 * 9);
    assert_eq!(singles(&normalize_unit(&plane(&v))), unit(&v));
    assert_eq!(singles(&normalize_unit(&plane(&[3.0; 5]))), vec![0.0; 5]);
    assert!(normalize_unit(&[]).is_empty());
}

#[test]
fn planes_shrink_to_a_quarter() {
    let v = wave(10 * 6);
    let (small, w, h) = downscale(&plane(&v), 10, 6);
    assert_eq!((w, h), (3, 2));
    let mut want = Vec::new();
    for y in 0..2usize {
        for x in 0..3usize {
            let (mut sum, mut count) = (0f64, 0f64);
            for yy in 4 * y..(4 * y + 4).min(6) {
                for xx in 4 * x..(4 * x + 4).min(10) {
                    sum += v[yy * 10 + xx] as f64;
                    count += 1.0;
                }
            }
            want.push((sum / count) as f32);
        }
    }
    assert_eq!(singles(&small), want);
    assert_eq!(downscale(&[], 0, 5).0.len(), 0);
}

#[test]
fn a_scan_finds_the_highest_cosine() {
    let (pw, ph, tw, th) = (17usize, 11usize, 5usize, 3usize);
    let v = wave(pw * ph);
    let cut: Vec<f32> = (0..tw * th).map(|i| v[(6 + i / tw) * pw + 9 + i % tw]).collect();
    let mark = unit(&cut);
    let mut want: Option<(f64, usize, usize)> = None;
    for py in 1..=ph - th {
        for px in 2..=pw - tw {
            let (mut dot, mut norm) = (0f64, 0f64);
            for i in 0..tw * th {
                let c = v[(py + i / tw) * pw + px + i % tw] as f64;
                dot += mark[i] as f64 * c;
                norm += c * c;
            }
            let score = dot / (((tw * th) as f64).sqrt() * norm.sqrt()).max(1e-9);
            if want.map_or(true, |b| score > b.0) {
                want = Some((score, px, py));
            }
        }
    }
    let last = (pw - tw, ph - th);
    let got = cosine_scan(&plane(&v), pw, ph, &plane(&mark), (tw, th), (2, 1), last).unwrap();
    let want = want.unwrap();
    assert_eq!((f(got.0).to_bits(), got.1, got.2), (want.0.to_bits(), want.1, want.2));
    assert!(cosine_scan(&plane(&v), pw, ph, &plane(&mark), (tw, th), (5, 1), (4, 2)).is_none());
    let wide = vec![n(1.0); pw];
    assert!(cosine_scan(&plane(&v), pw, ph, &wide, (pw, 1), (0, 0), (0, 0)).is_none());
}

#[test]
fn a_mark_is_found_by_correlation() {
    let (mut p, img) = carried(160, 160, 116, 136);
    p.ref_short_side = n(160.0);
    let hit = locate_ncc(&img, &p, false).expect("hit");
    assert_eq!((hit.px, hit.py), (116, 136));
    assert!((f(hit.scale) - 1.0).abs() < 0.02);
    assert!(f(hit.score) > 0.8 && f(hit.score) <= 1.0);
    let same = locate_profile(&img, &p, false).expect("hit");
    assert_eq!((same.px, same.py), (116, 136));
    let mut other = profile("o", 40, 20, vec![n(0.0); 800], vec![n(255.0); 2400]);
    other.ref_short_side = n(160.0);
    let (best, found) = match_image(&img, &[other, p]).expect("match");
    assert_eq!((best, found.px, found.py), (1, 116, 136));
    let (mut q, away) = carried(160, 160, 20, 30);
    q.ref_short_side = n(160.0);
    assert!(match_image(&away, &[q]).is_none());
    assert!(match_image(&away, &[]).is_none());
}

#[test]
fn both_corners_start_at_the_same_pixel() {
    for (w, h) in [(2848u32, 1600u32), (1024, 768), (90, 40), (6000, 4000)] {
        let g = guess_corner_box(w as usize, h as usize);
        let d = default_mask_box(w, h);
        assert_eq!((g.0 as i64, g.1 as i64), (d.0, d.1));
        assert!(w as usize - g.0 >= 220.min(w as usize) && h as usize - g.1 >= 78.min(h as usize));
    }
}
