use mockups::structure::Category;
use mockups::thumbs::{make_thumbnail, thumbnail_jobs, thumbnail_size, Progress, ThumbnailError};

fn png(width: u32, height: u32) -> Vec<u8> {
    let img = image::RgbaImage::from_pixel(width, height, image::Rgba([10, 20, 30, 255]));
    let mut out = std::io::Cursor::new(Vec::new());
    image::DynamicImage::ImageRgba8(img).write_to(&mut out, image::ImageFormat::Png).unwrap();
    out.into_inner()
}

#[test]
fn thumbnail_is_half_width_and_proportional() {
    assert_eq!(thumbnail_size(100, 50), (50, 25));
    assert_eq!(thumbnail_size(640, 1136), (320, 568));
    assert_eq!(thumbnail_size(5, 3), (2, 1));
    assert_eq!(thumbnail_size(7, 5), (3, 2));
    assert_eq!(thumbnail_size(2, 1), (1, 1));
    assert_eq!(thumbnail_size(3, 3), (1, 1));
    assert_eq!(thumbnail_size(1, 10), (0, 0));
    assert_eq!(thumbnail_size(0, 10), (0, 0));
    assert_eq!(thumbnail_size(u32::MAX, u32::MAX), (u32::MAX / 2, u32::MAX / 2));
}

#[test]
fn thumbnail_height_within_rounding_of_exact_ratio() {
    for (w, h) in [(750u32, 1334u32), (1242, 2208), (1536, 2048), (333, 777), (9, 4)] {
        let (nw, nh) = thumbnail_size(w, h);
        assert_eq!(nw, w / 2);
        let exact = h as f64 * nw as f64 / w as f64;
        assert!((nh as f64 - exact).abs() <= 0.5 + 1e-9);
    }
}

#[test]
fn makes_png_thumbnail() {
    let t = match make_thumbnail(&png(10, 6)) {
        Ok(t) => t,
        Err(_) => panic!("no thumbnail was made"),
    };
    assert_eq!((t.source_width, t.source_height), (10, 6));
    assert_eq!((t.width, t.height), (5, 3));
    let back = image::load_from_memory_with_format(&t.png, image::ImageFormat::Png).unwrap();
    assert_eq!((back.width(), back.height()), (5, 3));
}

#[test]
fn empty_thumbnail_is_an_encoding_failure() {
    match make_thumbnail(&png(1, 1)) {
        Err(e) => assert_eq!(e, ThumbnailError::Encode),
        Ok(_) => panic!("an empty thumbnail was encoded"),
    }
}

#[test]
fn undecodable_source_is_reported() {
    match make_thumbnail(&b"not a png".to_vec()) {
        Err(e) => assert_eq!(e, ThumbnailError::Decode),
        Ok(_) => panic!("garbage decoded"),
    }
}

#[test]
fn jobs_follow_model_order() {
    let mut a = Category::new("iphone-portrait", "iPhone Portrait");
    a.add_section_image("s".to_string(), "XY-[s]-0.png", 0);
    a.add_section_image("t".to_string(), "XY-[t]-0.png", 0);
    a.add_section_image("s".to_string(), "XY-[s]-1.png", 1);
    let mut b = Category::new("ipad-portrait", "iPad Portrait");
    b.add_section_image("u".to_string(), "XY-[u]-4.png", 4);
    let jobs = thumbnail_jobs(&vec![a, b]);
    let got: Vec<(String, String)> = jobs.iter().map(|j| (j.category.clone(), j.file.clone())).collect();
    assert_eq!(
        got,
        vec![
            ("iphone-portrait".to_string(), "XY-[s]-0.png".to_string()),
            ("iphone-portrait".to_string(), "XY-[s]-1.png".to_string()),
            ("iphone-portrait".to_string(), "XY-[t]-0.png".to_string()),
            ("ipad-portrait".to_string(), "XY-[u]-4.png".to_string()),
        ]
    );
}

#[test]
fn run_completes_only_when_every_job_reported() {
    let mut p = Progress::new(3);
    assert!(!p.is_complete());
    p.record(2, true);
    p.record(0, true);
    assert!(!p.is_complete());
    p.record(1, true);
    assert!(p.is_complete());
    assert!(p.failures().is_empty());
}

#[test]
fn failed_job_is_reported_and_others_complete() {
    let mut p = Progress::new(3);
    p.record(0, true);
    p.record(1, false);
    assert!(!p.is_complete());
    p.record(2, true);
    assert!(p.is_complete());
    assert_eq!(p.failures(), vec![1]);
}

#[test]
fn empty_run_is_complete() {
    assert!(Progress::new(0).is_complete());
}
