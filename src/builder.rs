//! Building the model from the names of the files found in each category
//! directory.

use vstd::prelude::*;
use crate::filename::{
    digits_value, image_name_parts, is_image_name, lemma_parts_unique, match_image_name,
    parse_order_number,
};
use crate::sorting::{stable_sort, stable_sorted, views, SortKey};
use crate::structure::{Category, CategoryView, Image, Section, SectionView, with_image};

verus! {

/// Why a scan failed as a whole.
pub enum BuildError {
    /// The file follows the naming convention, but its ordering number is
    /// above 255.
    NumberOutOfRange(String),
}

/// What was found for one known category whose directory exists.
pub struct DirectoryScan {
    /// The category's slug, its directory name.
    pub file: String,
    /// The category's display name.
    pub name: String,
    /// The names of the files found under the directory, in the order of
    /// the walk; `None` where the directory could not be listed.
    pub files: Option<Vec<String>>,
}

/// The categories built, and the slugs of those that could not be listed.
pub struct Model {
    pub categories: Vec<Category>,
    pub unreadable: Vec<String>,
}

pub struct DirectoryScanView {
    pub file: Seq<char>,
    pub name: Seq<char>,
    pub files: Option<Seq<Seq<char>>>,
}

pub struct ModelView {
    pub categories: Seq<CategoryView>,
    pub unreadable: Seq<Seq<char>>,
}

impl View for DirectoryScan {
    type V = DirectoryScanView;

    open spec fn view(&self) -> DirectoryScanView {
        DirectoryScanView {
            file: self.file@,
            name: self.name@,
            files: match self.files {
                Some(f) => Some(views(f@)),
                None => None,
            },
        }
    }
}

impl View for Model {
    type V = ModelView;

    open spec fn view(&self) -> ModelView {
        ModelView { categories: views(self.categories@), unreadable: views(self.unreadable@) }
    }
}

/// `c` after the file `f` was seen: an image added where `f` follows the
/// naming convention, unchanged where it does not, and `Err(f)` where its
/// ordering number is too large.
pub open spec fn scan_file(c: CategoryView, f: Seq<char>) -> Result<CategoryView, Seq<char>> {
    if is_image_name(f) {
        let (token, digits) = choose|token: Seq<char>, digits: Seq<char>|
            image_name_parts(f, token, digits);
        if digits_value(digits) <= 255 {
            Ok(with_image(c, token, f, digits_value(digits) as u8))
        } else {
            Err(f)
        }
    } else {
        Ok(c)
    }
}

/// `c` after the files `files` were seen in order; the first file whose
/// number is too large ends the scan.
pub open spec fn scan_files(c: CategoryView, files: Seq<Seq<char>>) -> Result<CategoryView, Seq<char>>
    decreases files.len(),
{
    if files.len() == 0 {
        Ok(c)
    } else {
        match scan_files(c, files.drop_last()) {
            Ok(c1) => scan_file(c1, files.last()),
            Err(f) => Err(f),
        }
    }
}

/// A section with its images in stable order of number.
pub open spec fn sorted_section(s: SectionView) -> SectionView {
    SectionView { images: stable_sorted::<Image>(s.images), ..s }
}

/// A category with its sections in stable order of display name, and the
/// images of each in stable order of number.
pub open spec fn sorted_category(c: CategoryView) -> CategoryView {
    CategoryView {
        sections: stable_sorted::<Section>(c.sections).map_values(|s: SectionView| sorted_section(s)),
        ..c
    }
}

/// The category of slug `file` and display name `name` built from the files
/// found in its directory; `Err` names the first file whose number is too
/// large.
pub open spec fn category_model(file: Seq<char>, name: Seq<char>, files: Seq<Seq<char>>) -> Result<
    CategoryView,
    Seq<char>,
> {
    match scan_files(CategoryView { file, name, sections: Seq::empty() }, files) {
        Ok(c) => Ok(sorted_category(c)),
        Err(f) => Err(f),
    }
}

/// The categories built from `scans` in order, and the slugs of those that
/// could not be listed; `Err` names the first file whose number is too
/// large.
pub open spec fn collect_categories(scans: Seq<DirectoryScanView>) -> Result<
    (Seq<CategoryView>, Seq<Seq<char>>),
    Seq<char>,
>
    decreases scans.len(),
{
    if scans.len() == 0 {
        Ok((Seq::empty(), Seq::empty()))
    } else {
        match collect_categories(scans.drop_last()) {
            Err(f) => Err(f),
            Ok((cs, unreadable)) => {
                let s = scans.last();
                match s.files {
                    None => Ok((cs, unreadable.push(s.file))),
                    Some(files) => match category_model(s.file, s.name, files) {
                        Ok(c) => Ok((cs.push(c), unreadable)),
                        Err(f) => Err(f),
                    },
                }
            },
        }
    }
}

/// The model built from `scans`: the categories in stable order of display
/// name.
pub open spec fn model_of(scans: Seq<DirectoryScanView>) -> Result<ModelView, Seq<char>> {
    match collect_categories(scans) {
        Ok((cs, unreadable)) => Ok(ModelView { categories: stable_sorted::<Category>(cs), unreadable }),
        Err(f) => Err(f),
    }
}

/// Sorts the sections of `c` by display name, then the images of each by
/// number; both sorts are stable.
fn sort_category(c: Category) -> (r: Category)
    ensures
        r@ == sorted_category(c@),
{
    let Category { file, name, sections } = c;
    let mut rest = stable_sort(sections);
    let ghost by_name = views(rest@);
    let mut out: Vec<Section> = Vec::new();
    let ghost mut i: int = 0;
    while rest.len() > 0
        invariant
            0 <= i <= by_name.len(),
            views(rest@) == by_name.skip(i),
            views(out@) == by_name.take(i).map_values(|s: SectionView| sorted_section(s)),
        decreases rest.len(),
    {
        assert(views(rest@).len() == rest@.len());
        assert(views(rest@)[0] == rest@[0]@);
        assert(by_name.skip(i)[0] == by_name[i]);
        let ghost before_remove = rest@;
        let s = rest.remove(0);
        let Section { file, name, class, images } = s;
        let sorted = Section { file, name, class, images: stable_sort(images) };
        proof {
            assert(s == before_remove[0]);
            assert(sorted@ == sorted_section(by_name[i]));
            assert(views(rest@).len() == by_name.skip(i + 1).len());
            assert forall|k: int| 0 <= k < views(rest@).len() implies views(rest@)[k]
                == by_name.skip(i + 1)[k] by {
                assert(rest@[k] == before_remove[k + 1]);
                assert(views(before_remove)[k + 1] == before_remove[k + 1]@);
            }
            assert(views(rest@) =~= by_name.skip(i + 1));
        }
        let ghost before_push = out@;
        out.push(sorted);
        proof {
            assert(views(out@) =~= views(before_push).push(sorted@));
            assert(by_name.take(i + 1).map_values(|s: SectionView| sorted_section(s))
                =~= by_name.take(i).map_values(|s: SectionView| sorted_section(s)).push(
                sorted_section(by_name[i]),
            ));
            i = i + 1;
        }
    }
    assert(by_name.take(i) =~= by_name);
    Category { file, name, sections: out }
}

/// Builds the category of slug `file` and display name `name` from the
/// names of the files found in its directory. Names that do not follow the
/// image naming convention are skipped.
pub fn build_category(file: &str, name: &str, files: &Vec<String>) -> (r: Result<Category, BuildError>)
    ensures
        match r {
            Ok(c) => category_model(file@, name@, views(files@)) == Ok::<CategoryView, Seq<char>>(c@),
            Err(BuildError::NumberOutOfRange(f)) => category_model(file@, name@, views(files@))
                == Err::<CategoryView, Seq<char>>(f@),
        },
{
    let ghost fs = views(files@);
    let ghost start = CategoryView { file: file@, name: name@, sections: Seq::empty() };
    let mut c = Category::new(file, name);
    let mut i: usize = 0;
    assert(fs.take(0) =~= Seq::<Seq<char>>::empty());
    while i < files.len()
        invariant
            fs == views(files@),
            start == (CategoryView { file: file@, name: name@, sections: Seq::empty() }),
            i <= files.len(),
            scan_files(start, fs.take(i as int)) == Ok::<CategoryView, Seq<char>>(c@),
        decreases files.len() - i,
    {
        let f = &files[i];
        assert(fs[i as int] == f@);
        assert(fs.take(i + 1).drop_last() =~= fs.take(i as int));
        match match_image_name(f.as_str()) {
            None => {},
            Some((token, digits)) => {
                proof {
                    assert(is_image_name(f@));
                    let (t, d) = choose|t: Seq<char>, d: Seq<char>| image_name_parts(f@, t, d);
                    lemma_parts_unique(f@, t, d, token@, digits@);
                }
                match parse_order_number(digits.as_str()) {
                    None => {
                        let bad = f.clone();
                        proof {
                            assert(scan_files(start, fs.take(i + 1)) == Err::<CategoryView, Seq<char>>(f@));
                            lemma_scan_files_stops(start, fs, i as int + 1);
                        }
                        return Err(BuildError::NumberOutOfRange(bad));
                    },
                    Some(n) => {
                        c.add_section_image(token, f.as_str(), n);
                    },
                }
            },
        }
        i = i + 1;
    }
    assert(fs.take(files.len() as int) =~= fs);
    Ok(sort_category(c))
}

/// Once a file ends the scan, later files change nothing.
proof fn lemma_scan_files_stops(c: CategoryView, files: Seq<Seq<char>>, i: int)
    requires
        0 <= i <= files.len(),
        scan_files(c, files.take(i)) is Err,
    ensures
        scan_files(c, files) == scan_files(c, files.take(i)),
    decreases files.len() - i,
{
    if i < files.len() {
        assert(files.take(i + 1).drop_last() =~= files.take(i));
        lemma_scan_files_stops(c, files, i + 1);
    } else {
        assert(files.take(i) =~= files);
    }
}

/// Builds the model from the scans of the category directories that exist.
/// A directory that could not be listed is left out and its slug reported;
/// a file whose ordering number is too large fails the whole build.
pub fn build_model(scans: &Vec<DirectoryScan>) -> (r: Result<Model, BuildError>)
    ensures
        match r {
            Ok(m) => model_of(views(scans@)) == Ok::<ModelView, Seq<char>>(m@),
            Err(BuildError::NumberOutOfRange(f)) => model_of(views(scans@)) == Err::<
                ModelView,
                Seq<char>,
            >(f@),
        },
{
    let ghost ss = views(scans@);
    let mut categories: Vec<Category> = Vec::new();
    let mut unreadable: Vec<String> = Vec::new();
    let mut i: usize = 0;
    assert(ss.take(0) =~= Seq::<DirectoryScanView>::empty());
    assert(views(categories@) =~= Seq::<CategoryView>::empty());
    assert(views(unreadable@) =~= Seq::<Seq<char>>::empty());
    while i < scans.len()
        invariant
            ss == views(scans@),
            i <= scans.len(),
            collect_categories(ss.take(i as int)) == Ok::<
                (Seq<CategoryView>, Seq<Seq<char>>),
                Seq<char>,
            >((views(categories@), views(unreadable@))),
        decreases scans.len() - i,
    {
        let s = &scans[i];
        assert(ss[i as int] == s@);
        assert(ss.take(i + 1).drop_last() =~= ss.take(i as int));
        match &s.files {
            None => {
                let ghost before = unreadable@;
                unreadable.push(s.file.clone());
                assert(views(unreadable@) =~= views(before).push(s.file@));
            },
            Some(files) => {
                match build_category(s.file.as_str(), s.name.as_str(), files) {
                    Ok(c) => {
                        let ghost before = categories@;
                        categories.push(c);
                        assert(views(categories@) =~= views(before).push(c@));
                    },
                    Err(e) => {
                        proof {
                            lemma_collect_stops(ss, i as int + 1);
                        }
                        return Err(e);
                    },
                }
            },
        }
        i = i + 1;
    }
    assert(ss.take(scans.len() as int) =~= ss);
    Ok(Model { categories: stable_sort(categories), unreadable })
}

proof fn lemma_collect_stops(scans: Seq<DirectoryScanView>, i: int)
    requires
        0 <= i <= scans.len(),
        collect_categories(scans.take(i)) is Err,
    ensures
        collect_categories(scans) == collect_categories(scans.take(i)),
    decreases scans.len() - i,
{
    if i < scans.len() {
        assert(scans.take(i + 1).drop_last() =~= scans.take(i));
        lemma_collect_stops(scans, i + 1);
    } else {
        assert(scans.take(i) =~= scans);
    }
}

/// The known categories, as pairs of slug and display name.
pub open spec fn known_category_table() -> Seq<(Seq<char>, Seq<char>)> {
    seq![
        ("iphone-portrait"@, "iPhone Portrait"@),
        ("iphone-landscape"@, "iPhone Landscape"@),
        ("ipad-portrait"@, "iPad Portrait"@),
        ("ipad-landscape"@, "iPad Landscape"@),
    ]
}

/// The fixed set of categories that a project may hold, each a directory
/// under the project root: pairs of slug and display name.
pub fn known_categories() -> (r: Vec<(String, String)>)
    ensures
        r@.map_values(|p: (String, String)| (p.0@, p.1@)) == known_category_table(),
{
    let mut r: Vec<(String, String)> = Vec::new();
    r.push(("iphone-portrait".to_owned(), "iPhone Portrait".to_owned()));
    r.push(("iphone-landscape".to_owned(), "iPhone Landscape".to_owned()));
    r.push(("ipad-portrait".to_owned(), "iPad Portrait".to_owned()));
    r.push(("ipad-landscape".to_owned(), "iPad Landscape".to_owned()));
    assert(r@.map_values(|p: (String, String)| (p.0@, p.1@)) =~= known_category_table());
    r
}

/// The names among `files` that do not follow the image naming convention,
/// in order.
pub open spec fn skipped(files: Seq<Seq<char>>) -> Seq<Seq<char>>
    decreases files.len(),
{
    if files.len() == 0 {
        Seq::empty()
    } else if is_image_name(files.last()) {
        skipped(files.drop_last())
    } else {
        skipped(files.drop_last()).push(files.last())
    }
}

/// The names among `files` that the builder passes over because they do
/// not follow the image naming convention, in order, for the caller to log.
pub fn skipped_files(files: &Vec<String>) -> (r: Vec<String>)
    ensures
        views(r@) == skipped(views(files@)),
{
    let ghost fs = views(files@);
    let mut r: Vec<String> = Vec::new();
    let mut i: usize = 0;
    assert(views(r@) =~= skipped(fs.take(0)));
    while i < files.len()
        invariant
            fs == views(files@),
            i <= files.len(),
            views(r@) == skipped(fs.take(i as int)),
        decreases files.len() - i,
    {
        let f = &files[i];
        assert(fs[i as int] == f@);
        assert(fs.take(i + 1).drop_last() =~= fs.take(i as int));
        if match_image_name(f.as_str()).is_none() {
            let ghost before = r@;
            r.push(f.clone());
            assert(views(r@) =~= views(before).push(f@));
        }
        i = i + 1;
    }
    assert(fs.take(i as int) =~= fs);
    r
}

} // verus!
