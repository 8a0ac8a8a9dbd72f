//! The pages and assets of the static site, planned from the model; the
//! rendering and writing of each is left to the caller.

use vstd::prelude::*;
use crate::sorting::views;
use crate::structure::{Category, CategoryView, Section, SectionView};

verus! {

/// What a page shows.
#[derive(PartialEq, Eq, Structural, Clone, Copy, Debug)]
pub enum PageKind {
    /// The site's front page.
    SiteIndex,
    /// The overview of the category at this position of the model.
    CategoryIndex { category: usize },
    /// A section page, by position of category and of section.
    SectionPage { category: usize, section: usize },
}

/// A page of the site: `file` in the directory `dir` of the site root (the
/// root itself where `dir` is `None`).
pub struct SitePage {
    pub dir: Option<String>,
    pub file: String,
    pub kind: PageKind,
}

pub struct SitePageView {
    pub dir: Option<Seq<char>>,
    pub file: Seq<char>,
    pub kind: PageKind,
}

impl View for SitePage {
    type V = SitePageView;

    open spec fn view(&self) -> SitePageView {
        SitePageView {
            dir: match self.dir {
                Some(d) => Some(d@),
                None => None,
            },
            file: self.file@,
            kind: self.kind,
        }
    }
}

pub open spec fn index_file() -> Seq<char> {
    "index.html"@
}

/// The overview page of category `c`, at position `i`, and then a page for
/// each of its sections, all in the category's directory.
pub open spec fn category_pages(c: CategoryView, i: int) -> Seq<SitePageView> {
    seq![SitePageView { dir: Some(c.file), file: index_file(), kind: PageKind::CategoryIndex { category: i as usize } }]
        + c.sections.map(
        |j: int, s: SectionView|
            SitePageView {
                dir: Some(c.file),
                file: s.file,
                kind: PageKind::SectionPage { category: i as usize, section: j as usize },
            },
    )
}

/// The pages of the site: the front page, then for each category its
/// overview and its section pages.
pub open spec fn site_pages(cs: Seq<CategoryView>) -> Seq<SitePageView>
    decreases cs.len(),
{
    if cs.len() == 0 {
        seq![SitePageView { dir: None, file: index_file(), kind: PageKind::SiteIndex }]
    } else {
        site_pages(cs.drop_last()) + category_pages(cs.last(), cs.len() - 1)
    }
}

/// The pages to render for the model `categories`.
pub fn generate(categories: &Vec<Category>) -> (r: Vec<SitePage>)
    ensures
        views(r@) == site_pages(views(categories@)),
{
    let ghost cs = views(categories@);
    let mut pages: Vec<SitePage> = Vec::new();
    pages.push(SitePage { dir: None, file: "index.html".to_owned(), kind: PageKind::SiteIndex });
    assert(views(pages@) =~= site_pages(cs.take(0)));
    let mut ci: usize = 0;
    while ci < categories.len()
        invariant
            cs == views(categories@),
            ci <= categories.len(),
            views(pages@) == site_pages(cs.take(ci as int)),
        decreases categories.len() - ci,
    {
        let c = &categories[ci];
        assert(cs[ci as int] == c@);
        let ghost done = views(pages@);
        let ghost prev = pages@;
        pages.push(
            SitePage {
                dir: Some(c.file.clone()),
                file: "index.html".to_owned(),
                kind: PageKind::CategoryIndex { category: ci },
            },
        );
        let ghost head = category_pages(c@, ci as int).take(1);
        assert(views(pages@) =~= done + head);
        let mut si: usize = 0;
        while si < c.sections.len()
            invariant
                cs == views(categories@),
                c@ == cs[ci as int],
                ci < categories.len(),
                si <= c.sections.len(),
                views(pages@) == done + category_pages(c@, ci as int).take(1 + si),
            decreases c.sections.len() - si,
        {
            let s = &c.sections[si];
            assert(c@.sections[si as int] == s@);
            let ghost prev = pages@;
            pages.push(
                SitePage {
                    dir: Some(c.file.clone()),
                    file: s.file.clone(),
                    kind: PageKind::SectionPage { category: ci, section: si },
                },
            );
            assert(views(pages@) =~= views(prev).push(category_pages(c@, ci as int)[1 + si]));
            assert(category_pages(c@, ci as int).take(1 + si + 1) =~= category_pages(
                c@,
                ci as int,
            ).take(1 + si).push(category_pages(c@, ci as int)[1 + si]));
            si = si + 1;
        }
        assert(category_pages(c@, ci as int).take(1 + si) =~= category_pages(c@, ci as int));
        assert(cs.take(ci + 1).drop_last() =~= cs.take(ci as int));
        ci = ci + 1;
    }
    assert(cs.take(ci as int) =~= cs);
    pages
}

/// A static file of the site: `file` in the directory `dir` of the site
/// root.
pub struct Asset {
    pub dir: String,
    pub file: String,
}

impl View for Asset {
    type V = (Seq<char>, Seq<char>);

    open spec fn view(&self) -> (Seq<char>, Seq<char>) {
        (self.dir@, self.file@)
    }
}

/// The static files that every site carries: its stylesheet, logo and icon.
pub fn copy_assets() -> (r: Vec<Asset>)
    ensures
        views(r@) == seq![
            ("css"@, "styles.css"@),
            ("img"@, "logo.png"@),
            ("img"@, "icon.png"@),
        ],
{
    let mut r: Vec<Asset> = Vec::new();
    r.push(Asset { dir: "css".to_owned(), file: "styles.css".to_owned() });
    r.push(Asset { dir: "img".to_owned(), file: "logo.png".to_owned() });
    r.push(Asset { dir: "img".to_owned(), file: "icon.png".to_owned() });
    assert(views(r@) =~= seq![("css"@, "styles.css"@), ("img"@, "logo.png"@), ("img"@, "icon.png"@)]);
    r
}

/// An entry of a navigation list.
pub struct NavItem {
    pub file: String,
    pub name: String,
    /// The section token, for section entries.
    pub class: Option<String>,
    /// Whether the entry is the one shown.
    pub selected: bool,
}

pub struct NavItemView {
    pub file: Seq<char>,
    pub name: Seq<char>,
    pub class: Option<Seq<char>>,
    pub selected: bool,
}

impl View for NavItem {
    type V = NavItemView;

    open spec fn view(&self) -> NavItemView {
        NavItemView {
            file: self.file@,
            name: self.name@,
            class: match self.class {
                Some(c) => Some(c@),
                None => None,
            },
            selected: self.selected,
        }
    }
}

/// The name that marks the selected entry: the empty name where none is
/// given.
pub open spec fn selected_name(selected: Option<Seq<char>>) -> Seq<char> {
    match selected {
        Some(s) => s,
        None => Seq::empty(),
    }
}

fn name_of(selected: Option<String>) -> (r: String)
    ensures
        r@ == selected_name(
            match selected {
                Some(s) => Some(s@),
                None => None,
            },
        ),
{
    match selected {
        Some(s) => s,
        None => String::new(),
    }
}

/// The navigation list of the categories; an entry is selected where its
/// display name is `selected`.
pub fn aside_categories(categories: &Vec<Category>, selected: Option<String>) -> (r: Vec<NavItem>)
    ensures
        views(r@) == views(categories@).map_values(
            |c: CategoryView|
                NavItemView {
                    file: c.file,
                    name: c.name,
                    class: None,
                    selected: c.name == selected_name(
                        match selected {
                            Some(s) => Some(s@),
                            None => None,
                        },
                    ),
                },
        ),
{
    let sel = name_of(selected);
    let mut r: Vec<NavItem> = Vec::new();
    let mut i: usize = 0;
    while i < categories.len()
        invariant
            i <= categories.len(),
            r@.len() == i,
            forall|k: int|
                0 <= k < i ==> #[trigger] r@[k]@ == (NavItemView {
                    file: categories@[k].file@,
                    name: categories@[k].name@,
                    class: None,
                    selected: categories@[k].name@ == sel@,
                }),
        decreases categories.len() - i,
    {
        let c = &categories[i];
        r.push(
            NavItem {
                file: c.file.clone(),
                name: c.name.clone(),
                class: None,
                selected: sel == c.name,
            },
        );
        i = i + 1;
    }
    assert(views(r@) =~= views(categories@).map_values(
        |c: CategoryView|
            NavItemView { file: c.file, name: c.name, class: None, selected: c.name == sel@ },
    ));
    r
}

/// The navigation list of the sections of a category; an entry is selected
/// where its display name is `selected`.
pub fn aside_sections(sections: &Vec<Section>, selected: Option<String>) -> (r: Vec<NavItem>)
    ensures
        views(r@) == views(sections@).map_values(
            |s: SectionView|
                NavItemView {
                    file: s.file,
                    name: s.name,
                    class: Some(s.class),
                    selected: s.name == selected_name(
                        match selected {
                            Some(n) => Some(n@),
                            None => None,
                        },
                    ),
                },
        ),
{
    let sel = name_of(selected);
    let mut r: Vec<NavItem> = Vec::new();
    let mut i: usize = 0;
    while i < sections.len()
        invariant
            i <= sections.len(),
            r@.len() == i,
            forall|k: int|
                0 <= k < i ==> #[trigger] r@[k]@ == (NavItemView {
                    file: sections@[k].file@,
                    name: sections@[k].name@,
                    class: Some(sections@[k].class@),
                    selected: sections@[k].name@ == sel@,
                }),
        decreases sections.len() - i,
    {
        let s = &sections[i];
        r.push(
            NavItem {
                file: s.file.clone(),
                name: s.name.clone(),
                class: Some(s.class.clone()),
                selected: sel == s.name,
            },
        );
        i = i + 1;
    }
    assert(views(r@) =~= views(sections@).map_values(
        |s: SectionView|
            NavItemView { file: s.file, name: s.name, class: Some(s.class), selected: s.name == sel@ },
    ));
    r
}

} // verus!
