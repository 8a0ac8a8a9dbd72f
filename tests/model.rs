use mockups::builder::{
    build_category, build_model, known_categories, skipped_files, BuildError, DirectoryScan,
};
use mockups::structure::{Category, Image, Section};

fn names(files: &[&str]) -> Vec<String> {
    files.iter().map(|f| f.to_string()).collect()
}

#[test]
fn image_links_are_percent_encoded() {
    let image = Image::new("iphone-portrait".to_string(), "XY-[section-a]-0.png", 0);
    assert_eq!(image.category, "iphone-portrait");
    assert_eq!(image.file, "XY-[section-a]-0.png");
    assert_eq!(image.file_url, "XY-%5Bsection-a%5D-0.png");
    assert_eq!(image.number, 0);
}

#[test]
fn percent_encoding_escapes_reserved_and_non_ascii() {
    let image = Image::new("c".to_string(), "a b#?%\u{e9}", 3);
    assert_eq!(image.file_url, "a%20b%23%3F%25%C3%A9");
}

#[test]
fn percent_encoding_keeps_unreserved_marks() {
    let image = Image::new("c".to_string(), "Ab9*-._~+/", 1);
    assert_eq!(image.file_url, "Ab9*-._%7E%2B%2F");
}

#[test]
fn new_section_is_empty() {
    let s = Section::new("a.html".to_string(), "A".to_string(), "a".to_string());
    assert_eq!(s.file, "a.html");
    assert_eq!(s.name, "A");
    assert_eq!(s.class, "a");
    assert!(s.images.is_empty());
}

#[test]
fn images_of_one_token_share_a_section() {
    let mut c = Category::new("ipad-portrait", "iPad Portrait");
    c.add_section_image("section-b".to_string(), "XY-[section-b]-0.png", 0);
    c.add_section_image("section-a".to_string(), "XY-[section-a]-3.png", 3);
    c.add_section_image("section-b".to_string(), "XY-[section-b]-1.png", 1);
    assert_eq!(c.sections.len(), 2);
    assert_eq!(c.sections[0].file, "section-b.html");
    assert_eq!(c.sections[0].name, "Section B");
    assert_eq!(c.sections[0].class, "section-b");
    assert_eq!(c.sections[0].images.len(), 2);
    assert_eq!(c.sections[0].images[1].file, "XY-[section-b]-1.png");
    assert_eq!(c.sections[0].images[1].category, "ipad-portrait");
    assert_eq!(c.sections[1].file, "section-a.html");
}

#[test]
fn end_to_end_single_category() {
    let c = match build_category(
        "iphone-portrait",
        "iPhone Portrait",
        &names(&["XY-[section-a]-1.png", "XY-[section-a]-0.png"]),
    ) {
        Ok(c) => c,
        Err(_) => panic!("the build failed"),
    };
    assert_eq!(c.file, "iphone-portrait");
    assert_eq!(c.name, "iPhone Portrait");
    assert_eq!(c.sections.len(), 1);
    assert_eq!(c.sections[0].file, "section-a.html");
    assert_eq!(c.sections[0].name, "Section A");
    let numbers: Vec<u8> = c.sections[0].images.iter().map(|i| i.number).collect();
    assert_eq!(numbers, vec![0, 1]);
}

#[test]
fn sections_sort_by_name_and_images_by_number() {
    let c = match build_category(
        "ipad-landscape",
        "iPad Landscape",
        &names(&[
            "XY-[zeta]-2.png",
            "icon.png",
            "XY-[alpha]-5.png",
            "AB-[zeta]-0.png",
            "XY-[alpha]-5b.png",
            "CD-[alpha]-5.png",
            "XY-[alpha]-1.png",
        ]),
    ) {
        Ok(c) => c,
        Err(_) => panic!("the build failed"),
    };
    let sections: Vec<&str> = c.sections.iter().map(|s| s.name.as_str()).collect();
    assert_eq!(sections, vec!["Alpha", "Zeta"]);
    let alpha: Vec<&str> = c.sections[0].images.iter().map(|i| i.file.as_str()).collect();
    assert_eq!(alpha, vec!["XY-[alpha]-1.png", "XY-[alpha]-5.png", "CD-[alpha]-5.png"]);
    let zeta: Vec<&str> = c.sections[1].images.iter().map(|i| i.file.as_str()).collect();
    assert_eq!(zeta, vec!["AB-[zeta]-0.png", "XY-[zeta]-2.png"]);
}

#[test]
fn equal_display_names_keep_discovery_order() {
    let c = match build_category("c", "C", &names(&["XY-[b]-0.png", "XY-[B]-0.png", "XY-[a]-0.png"])) {
        Ok(c) => c,
        Err(_) => panic!("the build failed"),
    };
    let classes: Vec<&str> = c.sections.iter().map(|s| s.class.as_str()).collect();
    assert_eq!(classes, vec!["a", "b", "B"]);
}

#[test]
fn number_out_of_range_fails_the_build() {
    let r = build_category("c", "C", &names(&["XY-[a]-0.png", "XY-[a]-256.png", "XY-[a]-999.png"]));
    match r {
        Err(BuildError::NumberOutOfRange(f)) => assert_eq!(f, "XY-[a]-256.png"),
        Ok(_) => panic!("a number above 255 was accepted"),
    }
}

#[test]
fn empty_directory_gives_empty_category() {
    match build_category("c", "C", &Vec::new()) {
        Ok(c) => assert!(c.sections.is_empty()),
        Err(_) => panic!("the build failed"),
    }
}

fn scan(file: &str, name: &str, files: Option<&[&str]>) -> DirectoryScan {
    DirectoryScan { file: file.to_string(), name: name.to_string(), files: files.map(names) }
}

#[test]
fn model_sorts_categories_and_reports_unreadable() {
    let scans = vec![
        scan("iphone-portrait", "iPhone Portrait", Some(&["XY-[a]-0.png"])),
        scan("ipad-portrait", "iPad Portrait", None),
        scan("iphone-landscape", "iPhone Landscape", Some(&["XY-[b]-0.png"])),
        scan("ipad-landscape", "iPad Landscape", Some(&[])),
    ];
    let m = match build_model(&scans) {
        Ok(m) => m,
        Err(_) => panic!("the build failed"),
    };
    let order: Vec<&str> = m.categories.iter().map(|c| c.name.as_str()).collect();
    assert_eq!(order, vec!["iPad Landscape", "iPhone Landscape", "iPhone Portrait"]);
    assert_eq!(m.unreadable, vec!["ipad-portrait".to_string()]);
}

#[test]
fn model_build_fails_on_number_out_of_range() {
    let scans = vec![scan("iphone-portrait", "iPhone Portrait", Some(&["XY-[a]-300.png"]))];
    match build_model(&scans) {
        Err(BuildError::NumberOutOfRange(f)) => assert_eq!(f, "XY-[a]-300.png"),
        Ok(_) => panic!("a number above 255 was accepted"),
    }
}

#[test]
fn building_twice_gives_the_same_model() {
    let scans = vec![
        scan("iphone-portrait", "iPhone Portrait", Some(&["XY-[a]-1.png", "XY-[b-c]-0.png", "XY-[a]-0.png"])),
        scan("ipad-landscape", "iPad Landscape", Some(&["XY-[a]-0.png"])),
    ];
    let shape = |m: &mockups::builder::Model| -> Vec<(String, Vec<(String, Vec<u8>)>)> {
        m.categories
            .iter()
            .map(|c| {
                (
                    c.file.clone(),
                    c.sections
                        .iter()
                        .map(|s| (s.file.clone(), s.images.iter().map(|i| i.number).collect()))
                        .collect(),
                )
            })
            .collect()
    };
    let first = match build_model(&scans) {
        Ok(m) => shape(&m),
        Err(_) => panic!("the build failed"),
    };
    let second = match build_model(&scans) {
        Ok(m) => shape(&m),
        Err(_) => panic!("the build failed"),
    };
    assert_eq!(first, second);
}

#[test]
fn four_known_categories() {
    let known = known_categories();
    assert_eq!(
        known,
        vec![
            ("iphone-portrait".to_string(), "iPhone Portrait".to_string()),
            ("iphone-landscape".to_string(), "iPhone Landscape".to_string()),
            ("ipad-portrait".to_string(), "iPad Portrait".to_string()),
            ("ipad-landscape".to_string(), "iPad Landscape".to_string()),
        ]
    );
}

#[test]
fn lists_files_off_the_convention() {
    let files = names(&["icon.png", "XY-[a]-0.png", "notes.txt", "XY-[a]-999.png", "xy-[a]-0.png"]);
    assert_eq!(
        skipped_files(&files),
        vec!["icon.png".to_string(), "notes.txt".to_string(), "xy-[a]-0.png".to_string()]
    );
}

#[test]
fn rebuilding_from_own_files_gives_the_same_category() {
    let first = match build_category(
        "iphone-landscape",
        "iPhone Landscape",
        &names(&["XY-[b]-2.png", "XY-[a]-1.png", "notes.txt", "AB-[b]-2.png", "XY-[b]-0.png", "XY-[a]-0.png"]),
    ) {
        Ok(c) => c,
        Err(_) => panic!("the build failed"),
    };
    let own: Vec<String> =
        first.sections.iter().flat_map(|s| s.images.iter().map(|i| i.file.clone())).collect();
    let second = match build_category("iphone-landscape", "iPhone Landscape", &own) {
        Ok(c) => c,
        Err(_) => panic!("the rebuild failed"),
    };
    let shape = |c: &Category| -> Vec<(String, String, Vec<(String, String, u8)>)> {
        c.sections
            .iter()
            .map(|s| {
                (
                    s.file.clone(),
                    s.name.clone(),
                    s.images.iter().map(|i| (i.file.clone(), i.file_url.clone(), i.number)).collect(),
                )
            })
            .collect()
    };
    assert_eq!(shape(&first), shape(&second));
    assert_eq!(
        own,
        vec!["XY-[a]-0.png", "XY-[a]-1.png", "XY-[b]-0.png", "XY-[b]-2.png", "AB-[b]-2.png"]
    );
}
