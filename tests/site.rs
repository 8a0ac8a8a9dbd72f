use mockups::site::{aside_categories, aside_sections, copy_assets, generate, PageKind};
use mockups::structure::Category;

fn model() -> Vec<Category> {
    let mut a = Category::new("iphone-portrait", "iPhone Portrait");
    a.add_section_image("section-a".to_string(), "XY-[section-a]-0.png", 0);
    a.add_section_image("section-b".to_string(), "XY-[section-b]-0.png", 0);
    let b = Category::new("ipad-portrait", "iPad Portrait");
    vec![a, b]
}

#[test]
fn plans_every_page() {
    let pages = generate(&model());
    let got: Vec<(Option<String>, String, PageKind)> =
        pages.iter().map(|p| (p.dir.clone(), p.file.clone(), p.kind)).collect();
    assert_eq!(
        got,
        vec![
            (None, "index.html".to_string(), PageKind::SiteIndex),
            (
                Some("iphone-portrait".to_string()),
                "index.html".to_string(),
                PageKind::CategoryIndex { category: 0 },
            ),
            (
                Some("iphone-portrait".to_string()),
                "section-a.html".to_string(),
                PageKind::SectionPage { category: 0, section: 0 },
            ),
            (
                Some("iphone-portrait".to_string()),
                "section-b.html".to_string(),
                PageKind::SectionPage { category: 0, section: 1 },
            ),
            (
                Some("ipad-portrait".to_string()),
                "index.html".to_string(),
                PageKind::CategoryIndex { category: 1 },
            ),
        ]
    );
}

#[test]
fn empty_model_has_front_page_only() {
    let pages = generate(&Vec::new());
    assert_eq!(pages.len(), 1);
    assert_eq!(pages[0].kind, PageKind::SiteIndex);
}

#[test]
fn lists_static_assets() {
    let got: Vec<(String, String)> = copy_assets().into_iter().map(|a| (a.dir, a.file)).collect();
    assert_eq!(
        got,
        vec![
            ("css".to_string(), "styles.css".to_string()),
            ("img".to_string(), "logo.png".to_string()),
            ("img".to_string(), "icon.png".to_string()),
        ]
    );
}

#[test]
fn marks_selected_category() {
    let items = aside_categories(&model(), Some("iPad Portrait".to_string()));
    let got: Vec<(String, bool)> = items.iter().map(|i| (i.file.clone(), i.selected)).collect();
    assert_eq!(got, vec![("iphone-portrait".to_string(), false), ("ipad-portrait".to_string(), true)]);
    assert!(items[0].class.is_none());
    let none = aside_categories(&model(), None);
    assert!(none.iter().all(|i| !i.selected));
}

#[test]
fn marks_selected_section() {
    let m = model();
    let items = aside_sections(&m[0].sections, Some("Section B".to_string()));
    let got: Vec<(String, Option<String>, bool)> =
        items.iter().map(|i| (i.name.clone(), i.class.clone(), i.selected)).collect();
    assert_eq!(
        got,
        vec![
            ("Section A".to_string(), Some("section-a".to_string()), false),
            ("Section B".to_string(), Some("section-b".to_string()), true),
        ]
    );
}
