use doubao_clean::cli::{
    command_of, default_label, frame_limits, halt_text, halted, has_key, is_image_path, last_box,
    last_value, learn_exit, learn_limits, min_samples, options_of, parse_box, read_arguments, run_profile_command, words_of, Command,
    Halt, Key,
};
use doubao_clean::boxes::MaskBox;
use doubao_clean::codec::fits_side;
use doubao_clean::components::label_components;
use doubao_clean::dbnet::{detect, detector_input, detector_planes, detector_size, read_map};
use doubao_clean::desktop::{
    can_shrink, cleanup_pipeline, dock_percent, env_status, failure_of, is_import_folder, learn_label,
    learn_watermark, read_image_base64, read_thumbnail_base64, report, run_pipeline, Attempt,
    RunFailure, RunRequest,
};
use doubao_clean::grid::dilate;
use doubao_clean::lama::{
    answer_bytes, apply_answer, crop_around, crop_box, frame_window, harden, mask_plane,
    plan_window, repair_regions, window_of, window_planes, BBox,
};
use doubao_clean::morph::{ellipse_opening, morph_max, morph_min, rect_opening, top_hat};
use doubao_clean::number::Number;
use doubao_clean::raster::{Mask, Picture};
use doubao_clean::review::{review, review_box, review_crop, review_part};
use doubao_clean::text::{join, parse_signed, parse_unsigned, split, trim};

fn args(v: &[&str]) -> Vec<String> {
    v.iter().map(|s| s.to_string()).collect()
}

fn flat(w: u32, h: u32, c: [u8; 3]) -> Picture {
    let mut data = Vec::new();
    for _ in 0..w * h {
        data.extend_from_slice(&c);
    }
    Picture::new(w, h, data).unwrap()
}

#[test]
fn options_and_words_are_told_apart() {
    let items = read_arguments(&args(&[
        "--root",
        "/pics",
        "run",
        "--mask-box=-120,-90,-10,-10",
        "a.png",
        "--in-place",
        "--label=x=y",
        "b.png",
        "--min-samples",
        "nine",
        "--min-samples=5",
    ]));
    assert!(halted(&items).is_none());
    assert_eq!(words_of(&items), vec!["run", "a.png", "b.png"]);
    assert_eq!(last_value(&items, Key::Root).unwrap(), "/pics");
    assert_eq!(last_value(&items, Key::Label).unwrap(), "x=y");
    assert_eq!(min_samples(&items), 5);
    let b = MaskBox { x1: -120, y1: -90, x2: -10, y2: -10 };
    assert_eq!(last_box(&items, Key::MaskBox), Some(b));
    assert!(has_key(&items, Key::Overwrite) && !has_key(&items, Key::Force));
    let o = options_of(&items, "/pics".to_string(), args(&["a.png"]));
    assert!(o.overwrite_original && o.retry && o.inverse && o.use_profile && !o.refine);
    assert_eq!(o.mask_box, Some(b));
    let spaced = read_arguments(&args(&["--label", "x=y"]));
    assert_eq!(last_value(&spaced, Key::Label).unwrap(), "x=y");
}

#[test]
fn command_lines_that_halt() {
    let halt = |v: &[&str]| halted(&read_arguments(&args(v)));
    assert_eq!(halt(&["--mask-box"]), Some(Halt::MaskBoxMissing));
    assert_eq!(halt(&["--box"]), Some(Halt::BoxMissing));
    assert_eq!(halt(&["--box", "1,2,3"]), Some(Halt::BoxInvalid));
    assert_eq!(halt(&["-h", "--box"]), Some(Halt::Help));
    assert_eq!(halt(&["--box=1,2,3,x", "--help"]), Some(Halt::BoxInvalid));
    assert_eq!(halt_text(Halt::MaskBoxMissing), "--mask-box needs a value");
    assert_eq!(halt_text(Halt::BoxInvalid), "box must be four integers: x1,y1,x2,y2");
}

#[test]
fn boxes_are_four_integers() {
    assert_eq!(
        parse_box(" 1, -2 ,+3,4").unwrap(),
        MaskBox { x1: 1, y1: -2, x2: 3, y2: 4 }
    );
    for bad in ["", "1,2,3", "1,2,3,4,5", "1,2,3,a", "1,,3,4"] {
        assert_eq!(parse_box(bad).err().unwrap(), "box must be four integers: x1,y1,x2,y2");
    }
}

#[test]
fn commands_ask_for_files() {
    assert_eq!(command_of("review-lama"), Command::ReviewLama);
    assert_eq!(command_of("list-profiles"), Command::Profiles);
    assert_eq!(command_of("nothing"), Command::Unknown);
    assert!(run_profile_command(Command::LearnPair, 2).is_ok());
    assert_eq!(
        run_profile_command(Command::LearnPair, 1).err().unwrap(),
        "learn-pair needs <black.png> <white.png> [--label X]"
    );
    assert_eq!(run_profile_command(Command::Match, 0).err().unwrap(), "match needs an image path");
    assert!(run_profile_command(Command::Profiles, 0).is_ok());
    assert_eq!(default_label(Command::LearnMine), "mined");
    assert_eq!(default_label(Command::LearnAuto), "learned");
    assert!(is_image_path(Some("TIFF")) && is_image_path(Some("jpg")));
    assert!(!is_image_path(Some("gif")) && !is_image_path(None));
}

fn png(w: u32, h: u32) -> Vec<u8> {
    let mut out = std::io::Cursor::new(Vec::new());
    image::RgbImage::from_pixel(w, h, image::Rgb([3, 4, 5]))
        .write_to(&mut out, image::ImageFormat::Png)
        .unwrap();
    out.into_inner()
}

fn decode(url: &str) -> Vec<u8> {
    let text = url.split("base64,").nth(1).unwrap();
    base64::Engine::decode(&base64::engine::general_purpose::STANDARD, text).unwrap()
}

#[test]
fn previews_show_the_file_or_a_reduced_picture() {
    let bytes = png(40, 20);
    let full = read_image_base64(&bytes, "png", None, "en").ok().unwrap();
    assert_eq!((full.width, full.height), (40, 20));
    assert!(full.data_url.starts_with("data:image/png;base64,iVBOR"));
    assert_eq!(decode(&full.data_url), bytes);
    let small = read_image_base64(&bytes, "png", Some(10), "en").ok().unwrap();
    assert_eq!((small.width, small.height), (40, 20));
    let shown = image::load_from_memory(&decode(&small.data_url)).unwrap();
    assert_eq!((shown.width(), shown.height()), (10, 5));
    let same = read_image_base64(&bytes, "png", Some(40), "en").ok().unwrap();
    assert_eq!(decode(&same.data_url), bytes);
    let wrong = read_image_base64(&bytes, "gif", None, "en").err().unwrap();
    assert_eq!(wrong, "Only png/jpg/webp images can be previewed");
    let broken = read_image_base64(b"broken", "png", None, "zh").err().unwrap();
    assert!(broken.starts_with("无法读取图片: "), "{broken}");
}

#[test]
fn thumbnails_fit_into_their_square() {
    let bytes = png(1000, 400);
    let side = |max| {
        let url = read_thumbnail_base64(&bytes, "a.png", max, "en").ok().unwrap();
        let img = image::load_from_memory(&decode(&url)).unwrap();
        (img.width(), img.height())
    };
    assert_eq!(side(None), (160, 64));
    assert_eq!(side(Some(1)), (32, 13));
    assert_eq!(side(Some(9999)), (512, 205));
    let broken = read_thumbnail_base64(b"x", "a.png", None, "en").err().unwrap();
    assert!(broken.starts_with("Failed to read image: "), "{broken}");
}

#[test]
fn the_window_is_told_how_a_run_goes() {
    assert_eq!(dock_percent(1, 3), Some(33));
    assert_eq!(dock_percent(5, 3), Some(100));
    assert_eq!(dock_percent(0, 0), None);
    assert_eq!(failure_of("\u{0}cancelled"), RunFailure::Cancelled);
    assert_eq!(failure_of("x: verification FAILED for a.png"), RunFailure::Refused);
    assert_eq!(failure_of("disk full"), RunFailure::Other);
    assert_eq!(report("zh", "失败: ", "failed: ", "e"), "失败: e");
    assert_eq!(env_status(true), "");
    assert!(env_status(false).contains("Download Model"));
    assert!(is_import_folder("import-1") && !is_import_folder("imports"));
}

#[test]
fn requests_become_options() {
    let request = |mask_box| RunRequest {
        root: "/r".to_string(),
        files: args(&["a.png"]),
        keep_work: true,
        overwrite_original: false,
        mask_box,
        any_position: None,
        refine: None,
        inverse: None,
        profile_id: Some("q".to_string()),
        output_dir: Some("/o".to_string()),
    };
    let o = run_pipeline(request(Some(vec![1, 2, 3, 4])));
    assert_eq!(o.mask_box, Some(MaskBox { x1: 1, y1: 2, x2: 3, y2: 4 }));
    assert!(o.refine && !o.inverse && !o.any_position && o.retry && o.keep_work);
    assert_eq!(o.forced_profile.as_deref(), Some("q"));
    assert!(run_pipeline(request(Some(vec![1, 2, 3]))).mask_box.is_none());
    assert_eq!(
        cleanup_pipeline(None, args(&["a"]), "en").err().unwrap(),
        "No processing record yet"
    );
    assert_eq!(
        cleanup_pipeline(Some("/r".to_string()), vec![], "zh").err().unwrap(),
        "没有可清理的记录"
    );
    assert!(cleanup_pipeline(Some("/r".to_string()), args(&["a"]), "en").is_ok());
}

#[test]
fn learned_marks_are_kept_if_they_are_found_again() {
    assert_eq!(learn_label(2, "  My mark ", "en").unwrap(), "My mark");
    assert_eq!(learn_label(2, "   ", "en").unwrap(), "learned");
    assert_eq!(
        learn_label(1, "x", "en").err().unwrap(),
        "Select at least 2 images with the same watermark"
    );
    let a = |hits, samples, mean: i64| Some(Attempt { hits, samples, mean: Number::from_int(mean) });
    assert_eq!(learn_watermark(&[a(2, 3, 20), a(3, 3, 30)]), Some(1));
    assert_eq!(learn_watermark(&[a(2, 3, 20), a(1, 3, 30)]), Some(0));
    assert_eq!(learn_watermark(&[None, a(0, 0, 5)]), None);
    assert_eq!(learn_watermark(&[a(4, 4, 20), a(4, 4, 20)]), Some(0));
}

#[test]
fn crop_box_margin_and_edge_compensation() {
    let bbox = |x1, y1, x2, y2| BBox { x1, y1, x2, y2 };
    assert_eq!(crop_box(&bbox(100, 100, 200, 200), 1000, 1000, 128), (0, 0, 356, 356));
    let (l, t, w, h) = crop_box(&bbox(800, 900, 990, 995), 1000, 1000, 128);
    assert_eq!((l + w as i64, t + h as i64), (1000, 1000));
    assert!(w >= (990 - 800) as u32 + 128 && h >= (995 - 900) as u32 + 128);
    assert_eq!(crop_box(&bbox(10, 10, 990, 990), 500, 400, 128), (0, 0, 500, 400));
}

fn masked(w: u32, h: u32, b: (u32, u32, u32, u32)) -> Mask {
    let mut data = vec![0u8; (w * h) as usize];
    for y in b.1..b.3 {
        for x in b.0..b.2 {
            data[(y * w + x) as usize] = 255;
        }
    }
    Mask::new(w, h, data).unwrap()
}

#[test]
fn repairs_change_only_marked_pixels() {
    let mut img = flat(300, 200, [10, 20, 30]);
    let before = img.data.clone();
    let mask = masked(300, 200, (100, 50, 140, 70));
    let regions = repair_regions(&img, &mask).unwrap();
    assert_eq!(regions.len(), 1);
    let win = plan_window(&img, &mask, &regions[0]).ok().unwrap();
    assert!(!apply_answer(&mut img, &mask, &win, &[7; 12]));
    assert_eq!(img.data, before);
    assert!(apply_answer(&mut img, &mask, &win, &vec![200; 3 * 512 * 512]));
    for i in 0..60_000usize {
        let want = if mask.data[i] > 0 { 200 } else { before[3 * i] };
        assert_eq!(img.data[3 * i], want);
    }
}

#[test]
fn large_windows_are_reduced_and_put_back() {
    let mut img = flat(1200, 700, [10, 20, 30]);
    let before = img.data.clone();
    let mask = masked(1200, 700, (100, 100, 1000, 600));
    let regions = repair_regions(&img, &mask).unwrap();
    let win = plan_window(&img, &mask, &regions[0]).ok().unwrap();
    assert!(win.sw > 512 && win.rw <= 512 && win.rh <= 512);
    assert_eq!(win.image.len(), 3 * 512 * 512);
    assert!(win.mask.iter().any(|&v| v > 0));
    assert!(apply_answer(&mut img, &mask, &win, &vec![200; 3 * 512 * 512]));
    let i = (300 * 1200 + 500) * 3usize;
    assert_eq!(img.data[i], 200);
    assert_eq!(img.data[..300], before[..300]);
}

#[test]
fn windows_that_cannot_be_planned() {
    let img = flat(30, 20, [1, 2, 3]);
    let other = masked(31, 20, (1, 1, 2, 2));
    assert_eq!(repair_regions(&img, &other).err().unwrap(), "image and mask size mismatch");
    let empty = masked(30, 20, (0, 0, 0, 0));
    assert_eq!(repair_regions(&img, &empty).err().unwrap(), "mask is empty");
    let (content, marks) = frame_window(&[9; 12], &[255; 4], 2, 2);
    assert_eq!((content.len(), marks.len()), (3 * 512 * 512, 512 * 512));
}

#[test]
fn text_maps_become_boxes() {
    assert_eq!(detector_size(1920, 1080), (960, 512));
    assert_eq!(detector_size(100, 20), (96, 32));
    let mut active = vec![false; 96 * 64];
    for y in 20..32 {
        for x in 10..70 {
            active[y * 96 + x] = true;
        }
    }
    let boxes = detect(&active, 96, 64, 192, 128);
    assert_eq!(boxes.len(), 1);
    assert!(boxes[0].0 <= 20 && boxes[0].2 >= 139 && boxes[0].1 <= 40 && boxes[0].3 >= 62);
    assert!(detect(&vec![false; 96 * 64], 96, 64, 192, 128).is_empty());
}

#[test]
fn cells_join_across_corners() {
    let cells: Vec<bool> = "x..x.x..x..x".chars().map(|c| c == 'x').collect();
    let found = label_components(&cells, 4, 3);
    assert_eq!(found.parts.len(), 3);
    assert_eq!(found.parts[0].area, 3);
    assert_eq!(found.labels[0], found.labels[5]);
    let grown = dilate(&cells, 4, 3, 1, 0);
    assert_eq!(grown.iter().filter(|&&b| b).count(), 11);
}

#[test]
fn openings_remove_small_bright_details() {
    let mut gray = vec![50u8; 40 * 40];
    gray[20 * 40 + 20] = 250;
    for y in 0..40 {
        for x in 0..40 {
            if x >= 35 {
                gray[y * 40 + x] = 60;
            }
        }
    }
    let low = rect_opening(&gray, 40, 40, 1, 1);
    assert_eq!(low[20 * 40 + 20], 50);
    assert_eq!(low[20 * 40 + 38], 60);
    let low = ellipse_opening(&gray, 40, 40, 2);
    assert!(low.iter().zip(gray.iter()).all(|(a, b)| a <= b));
    let hat = top_hat(&gray, 40, 40);
    assert_eq!(hat[20 * 40 + 20], 200);
}

#[test]
fn review_sheets_show_the_marked_corner() {
    let img = flat(1000, 800, [5, 6, 7]);
    let mask = Some(masked(1000, 800, (700, 600, 760, 640)));
    let b = review_box(&mask, 1000, 800);
    assert!(b.0 <= 700 && b.1 <= 600 && b.2 >= 760 && b.3 >= 640);
    let crop = review_crop(&img, &mask).unwrap();
    assert!(crop.width > 0 && crop.height > 0);
    let none = review(&args(&["a.png"]), &[crop], b"no font");
    assert_eq!(none.err().unwrap(), "unreadable font");
}

#[test]
fn texts_are_taken_apart_and_put_together() {
    let chars = |s: &str| s.chars().collect::<Vec<char>>();
    assert_eq!(parse_signed(&chars("-9223372036854775808")), Some(i64::MIN));
    assert_eq!(parse_signed(&chars("9223372036854775808")), None);
    assert_eq!(parse_signed(&chars("+5")), Some(5));
    assert_eq!(parse_signed(&chars("-")), None);
    assert_eq!(parse_unsigned(&chars("18446744073709551615")), Some(u64::MAX));
    assert_eq!(parse_unsigned(&chars("18446744073709551616")), None);
    assert_eq!(trim(&chars("\u{3000} a b\t")), chars("a b"));
    assert_eq!(split(&chars("a,,b"), ',').len(), 3);
    assert_eq!(join(&args(&["a", "b"]), ", "), "a, b");
}

fn number(v: f32) -> Number {
    Number::from_bits((v as f64).to_bits())
}

fn single(v: Number) -> f32 {
    f64::from_bits(v.to_bits()) as f32
}

#[test]
fn the_detector_sees_balanced_channels() {
    let content: Vec<u8> = (0..=255u8).flat_map(|v| [v, 255 - v, v / 2]).collect();
    let planes = detector_planes(&content);
    let mean = [0.485f32, 0.456, 0.406];
    let std = [0.229f32, 0.224, 0.225];
    for i in 0..256usize {
        for c in 0..3usize {
            let want = (content[3 * i + 2 - c] as f32 / 255.0 - mean[c]) / std[c];
            assert_eq!(single(planes[c * 256 + i]), want);
        }
    }
    let (shown, w, h) = detector_input(&flat(100, 20, [10, 20, 30]));
    assert_eq!((shown.len(), w, h), (3 * 96 * 32, 96, 32));
    assert_eq!(single(shown[0]), (30.0f32 / 255.0 - 0.485) / 0.229);
    assert_eq!(single(shown[2 * 96 * 32]), (10.0f32 / 255.0 - 0.406) / 0.225);
}

#[test]
fn maps_are_read_above_a_threshold() {
    let mut map = vec![number(0.3); 96 * 64];
    assert!(read_map(&map, 96, 64, 192, 128).unwrap().is_empty());
    for y in 20..32 {
        for x in 10..70 {
            map[y * 96 + x] = number(0.31);
        }
    }
    let boxes = read_map(&map, 96, 64, 192, 128).unwrap();
    assert_eq!(boxes, vec![(8, 28, 152, 76)]);
    assert_eq!(read_map(&map, 96, 63, 192, 128).unwrap_err(), "unexpected OCR output size 6144");
}

#[test]
fn the_model_sees_shares_and_answers_in_bytes() {
    let image = [0u8, 51, 255, 10, 20, 30];
    let got: Vec<f32> = window_planes(&image).into_iter().map(single).collect();
    let want: Vec<f32> = [0u8, 10, 51, 20, 255, 30].iter().map(|&v| v as f32 / 255.0).collect();
    assert_eq!(got, want);
    let marks: Vec<f32> = mask_plane(&[0, 1, 255]).into_iter().map(single).collect();
    assert_eq!(marks, vec![0.0, 1.0, 1.0]);
    let plane = 512 * 512;
    let mut data = vec![number(7.9); 3 * plane + 5];
    data[0] = number(-3.0);
    data[plane] = number(300.0);
    data[2 * plane] = number(f32::NAN);
    let bytes = answer_bytes(&data).unwrap();
    assert_eq!(bytes.len(), 3 * plane);
    assert_eq!(&bytes[..6], &[0, 255, 0, 7, 7, 7]);
    assert_eq!(answer_bytes(&data[..9]).unwrap_err(), "unexpected model output size 9");
}

#[test]
fn learning_commands_have_their_limits() {
    let (least, resid) = learn_limits(Command::LearnPair);
    assert_eq!((least, single(resid)), (24, 6.0));
    let (least, resid) = learn_limits(Command::LearnBatch);
    assert_eq!((least, single(resid)), (24, 12.0));
    let (coverage, contrast) = frame_limits();
    assert_eq!((single(coverage), single(contrast)), (0.01, 60.0));
    assert_eq!(learn_exit(true, true), 0);
    assert_eq!((learn_exit(true, false), learn_exit(false, false)), (1, 1));
}

#[test]
fn pictures_that_cannot_be_reduced_are_told() {
    assert!(can_shrink((4000, 3000), false, 1024));
    assert!(can_shrink((20_000, 20_000), false, 32));
    assert!(!can_shrink((20_000, 20_000), true, 32));
    assert!(!can_shrink((4200, 4200), false, 1));
    assert!(can_shrink((4000, 4000), false, 1));
    assert!(can_shrink((100_000_000, 1), false, 0x500_0000));
    assert!(can_shrink((10, 10), true, 512));
    assert!(!can_shrink((10, 10), true, 0x8000));
    let refused = read_image_base64(&png(4200, 4200), "png", Some(1), "en").err().unwrap();
    assert_eq!(refused, "Image too large to preview");
    assert!(read_image_base64(&png(400, 400), "png", Some(1), "en").is_ok());
}

#[test]
fn lowest_and_highest_tones_are_dual() {
    let (w, h) = (9usize, 7usize);
    let gray: Vec<u8> = (0..w * h).map(|i| (i * i * 13 % 251) as u8).collect();
    let inverted: Vec<u8> = gray.iter().map(|&v| 255 - v).collect();
    let se: Vec<bool> = (0..25).map(|i| i % 3 != 1).collect();
    let low = morph_min(&gray, w, h, &se, 2);
    let high = morph_max(&inverted, w, h, &se, 2);
    assert!(low.iter().zip(&high).all(|(&a, &b)| b == 255 - a));
    assert_ne!(low, gray);
}

#[test]
fn top_hats_do_not_depend_on_the_background() {
    let gray: Vec<u8> = (0..1600usize).map(|i| (i * i * 7 % 101) as u8).collect();
    let lifted: Vec<u8> = gray.iter().map(|&v| v + 90).collect();
    let hat = top_hat(&gray, 40, 40);
    assert_eq!(hat, top_hat(&lifted, 40, 40));
    assert!(hat.iter().zip(&gray).all(|(&a, &b)| a <= b));
    assert!(hat.iter().any(|&v| v > 0));
    assert!(top_hat(&[77; 1600], 40, 40).iter().all(|&v| v == 0));
}

#[test]
fn crops_are_cut_and_framed() {
    let mut img = flat(900, 300, [0, 0, 0]);
    img.data[3 * (100 * 900 + 450)] = 99;
    let mut mask = Mask::new(900, 300, vec![0; 900 * 300]).unwrap();
    for x in 200..700 {
        mask.data[100 * 900 + x] = 255;
    }
    let bbox = repair_regions(&img, &mask).ok().unwrap()[0];
    let crop = crop_around(&img, &mask, &bbox).ok().unwrap();
    assert_eq!((crop.l, crop.t, crop.sw, crop.sh), (72, 0, 756, 256));
    assert_eq!((crop.rw, crop.rh), (512, 173));
    assert_eq!(crop.image[3 * (100 * 756 + 450 - 72)], 99);
    assert_eq!(crop.mask.iter().filter(|&&v| v > 0).count(), 500);
    let n = 512 * 173;
    let win = window_of(&crop, &vec![9; 3 * n], &harden(&vec![65; n]));
    assert_eq!((win.image[3 * (256 * 512 + 256)], win.mask[256 * 512 + 256]), (9, 255));
    assert_eq!(harden(&[64, 65]), vec![0, 255]);
    let black = flat(900, 300, [0, 0, 0]);
    let shown = plan_window(&black, &mask, &bbox).ok().unwrap();
    assert!(shown.image.iter().all(|&v| v == 0));
}

#[test]
fn very_long_pictures_are_brought_down_and_put_back() {
    let mut wide = flat(4_200_000, 1, [1, 2, 3]);
    let (planes, rw, rh) = detector_input(&wide);
    assert_eq!((planes.len(), rw, rh), (3 * 960 * 32, 960, 32));
    let mask = Mask::new(4_200_000, 1, vec![255; 4_200_000]).unwrap();
    let bbox = repair_regions(&wide, &mask).ok().unwrap()[0];
    let win = plan_window(&wide, &mask, &bbox).ok().unwrap();
    assert_eq!((win.sw, win.sh, win.rw, win.rh), (4_200_000, 1, 512, 1));
    assert!(apply_answer(&mut wide, &mask, &win, &vec![200; 3 * 512 * 512]));
    assert!(wide.data.iter().all(|&v| v == 200));
}

#[test]
fn sides_that_the_resampler_takes() {
    assert!(fits_side(0x40_0000, 0x40_0000));
    assert!(fits_side(u32::MAX, 0x10_0000) && fits_side(0x10_0000, u32::MAX));
    assert!(!fits_side(0x40_0001, 0x10_0001) && !fits_side(0x10_0001, 0x40_0001));
    let long = flat(4_200_000, 8, [1, 2, 3]);
    let mut mask = Mask::new(4_200_000, 8, vec![0; 8 * 4_200_000]).unwrap();
    let (first, last) = (0, 4_200_000 * 8 - 1);
    mask.data[first] = 255;
    mask.data[last] = 255;
    assert_eq!(review_crop(&long, &Some(mask)).err().unwrap(), "picture too large");
}

#[test]
fn review_parts_hold_the_shown_pixels() {
    let mut img = flat(400, 300, [5, 6, 7]);
    let last = img.data.len() - 3;
    img.data[last] = 88;
    let part = review_part(&img, &None);
    let b = review_box(&None, 400, 300);
    assert_eq!((part.width, part.height), (b.2 - b.0, b.3 - b.1));
    assert_eq!((part.nw, part.nh), (part.width / 2, part.height / 2));
    assert_eq!(part.data[part.data.len() - 3], 88);
    let small = review_crop(&flat(400, 300, [0, 0, 0]), &None).ok().unwrap();
    assert!(small.data.iter().all(|&v| v == 0));
}
