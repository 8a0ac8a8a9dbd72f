//! The model: categories hold sections, sections hold images.

use vstd::prelude::*;
use crate::encoding::{url_encode, url_encoded};
use crate::sorting::{SortKey, views};
use crate::text::{display_name, format_name, lex_lt, name_lt};

verus! {

/// One screenshot file, e.g. `XY-[dashboard]-1.png`.
pub struct Image {
    /// The slug of the owning category.
    pub category: String,
    /// The file name on disk.
    pub file: String,
    /// `file`, percent-encoded for links.
    pub file_url: String,
    /// The ordering number written in the file name.
    pub number: u8,
}

/// A group of images within a category, e.g. `Dashboard`.
pub struct Section {
    /// The page of the section: its token followed by `.html`.
    pub file: String,
    /// The display name derived from the token.
    pub name: String,
    /// The raw hyphenated token.
    pub class: String,
    pub images: Vec<Image>,
}

/// A device and orientation, e.g. `iPhone Portrait`.
pub struct Category {
    /// The directory name, also used in links.
    pub file: String,
    /// The display name.
    pub name: String,
    pub sections: Vec<Section>,
}

pub struct ImageView {
    pub category: Seq<char>,
    pub file: Seq<char>,
    pub file_url: Seq<char>,
    pub number: u8,
}

pub struct SectionView {
    pub file: Seq<char>,
    pub name: Seq<char>,
    pub class: Seq<char>,
    pub images: Seq<ImageView>,
}

pub struct CategoryView {
    pub file: Seq<char>,
    pub name: Seq<char>,
    pub sections: Seq<SectionView>,
}

impl View for Image {
    type V = ImageView;

    open spec fn view(&self) -> ImageView {
        ImageView {
            category: self.category@,
            file: self.file@,
            file_url: self.file_url@,
            number: self.number,
        }
    }
}

impl View for Section {
    type V = SectionView;

    open spec fn view(&self) -> SectionView {
        SectionView {
            file: self.file@,
            name: self.name@,
            class: self.class@,
            images: views(self.images@),
        }
    }
}

impl View for Category {
    type V = CategoryView;

    open spec fn view(&self) -> CategoryView {
        CategoryView { file: self.file@, name: self.name@, sections: views(self.sections@) }
    }
}

impl SortKey for Image {
    open spec fn spec_before(a: ImageView, b: ImageView) -> bool {
        a.number < b.number
    }

    fn before(&self, other: &Image) -> (r: bool) {
        self.number < other.number
    }
}

impl SortKey for Section {
    open spec fn spec_before(a: SectionView, b: SectionView) -> bool {
        lex_lt(a.name, b.name)
    }

    fn before(&self, other: &Section) -> (r: bool) {
        name_lt(self.name.as_str(), other.name.as_str())
    }
}

impl SortKey for Category {
    open spec fn spec_before(a: CategoryView, b: CategoryView) -> bool {
        lex_lt(a.name, b.name)
    }

    fn before(&self, other: &Category) -> (r: bool) {
        name_lt(self.name.as_str(), other.name.as_str())
    }
}

/// The page of the section of `token`: `token` followed by `.html`.
pub open spec fn section_file_of(token: Seq<char>) -> Seq<char> {
    token + seq!['.', 'h', 't', 'm', 'l']
}

/// The image of file `file` with ordering number `number` in category
/// `category`.
pub open spec fn image_model(category: Seq<char>, file: Seq<char>, number: u8) -> ImageView {
    ImageView { category, file, file_url: url_encoded(file), number }
}

/// A section of `token` that holds the single image `image`.
pub open spec fn section_model(token: Seq<char>, image: ImageView) -> SectionView {
    SectionView {
        file: section_file_of(token),
        name: display_name(token),
        class: token,
        images: seq![image],
    }
}

/// The position of the first section whose page is `file`.
pub open spec fn section_index(sections: Seq<SectionView>, file: Seq<char>) -> Option<int>
    decreases sections.len(),
{
    if sections.len() == 0 {
        None
    } else {
        match section_index(sections.drop_last(), file) {
            Some(i) => Some(i),
            None => if sections.last().file == file {
                Some(sections.len() - 1)
            } else {
                None
            },
        }
    }
}

/// `c` with the image of `file` added to the section of `token`, which is
/// created at the end where `c` has none.
pub open spec fn with_image(c: CategoryView, token: Seq<char>, file: Seq<char>, number: u8) -> CategoryView {
    let image = image_model(c.file, file, number);
    match section_index(c.sections, section_file_of(token)) {
        Some(i) => CategoryView {
            sections: c.sections.update(
                i,
                SectionView { images: c.sections[i].images.push(image), ..c.sections[i] },
            ),
            ..c
        },
        None => CategoryView { sections: c.sections.push(section_model(token, image)), ..c },
    }
}

pub(crate) proof fn lemma_section_index_found(s: Seq<SectionView>, file: Seq<char>, i: int)
    requires
        0 <= i < s.len(),
        s[i].file == file,
        section_index(s.take(i), file) is None,
    ensures
        section_index(s, file) == Some(i),
    decreases s.len(),
{
    if i < s.len() - 1 {
        assert(s.drop_last().take(i) =~= s.take(i));
        lemma_section_index_found(s.drop_last(), file, i);
    } else {
        assert(s.drop_last() =~= s.take(i));
    }
}

pub(crate) proof fn lemma_section_index_absent(s: Seq<SectionView>, file: Seq<char>)
    requires
        forall|k: int| 0 <= k < s.len() ==> (#[trigger] s[k]).file != file,
    ensures
        section_index(s, file) is None,
    decreases s.len(),
{
    if s.len() > 0 {
        lemma_section_index_absent(s.drop_last(), file);
    }
}

impl Image {
    pub fn new(category: String, file: &str, number: u8) -> (r: Image)
        ensures
            r@ == image_model(category@, file@, number),
    {
        Image { category, file: file.to_owned(), file_url: url_encode(file), number }
    }
}

impl Section {
    pub fn new(file: String, name: String, class: String) -> (r: Section)
        ensures
            r@ == (SectionView { file: file@, name: name@, class: class@, images: Seq::empty() }),
    {
        let r = Section { file, name, class, images: Vec::new() };
        assert(views(r.images@) =~= Seq::<ImageView>::empty());
        r
    }
}

impl Category {
    pub fn new(file: &str, name: &str) -> (r: Category)
        ensures
            r@ == (CategoryView { file: file@, name: name@, sections: Seq::empty() }),
    {
        let r = Category { file: file.to_owned(), name: name.to_owned(), sections: Vec::new() };
        assert(views(r.sections@) =~= Seq::<SectionView>::empty());
        r
    }

    /// The display name of a section token: split at hyphens, each part
    /// capitalised, joined by spaces (`new-post` becomes `New Post`).
    pub fn name_from_file(&self, file: String) -> (r: String)
        ensures
            r@ == display_name(file@),
    {
        format_name(file.as_str())
    }

    /// Adds the image `filename` to the section of `section_file` (a token),
    /// creating that section where the category has none yet.
    pub fn add_section_image(&mut self, section_file: String, filename: &str, number: u8)
        ensures
            final(self)@ == with_image(old(self)@, section_file@, filename@, number),
    {
        let mut page = section_file.clone();
        page.append(".html");
        proof {
            reveal_strlit(".html");
            assert(page@ =~= section_file_of(section_file@));
        }
        let ghost sv = self@.sections;
        let mut i: usize = 0;
        while i < self.sections.len()
            invariant
                self@ == old(self)@,
                sv == self@.sections,
                page@ == section_file_of(section_file@),
                i <= self.sections.len(),
                forall|k: int| 0 <= k < i ==> (#[trigger] sv[k]).file != page@,
            decreases self.sections.len() - i,
        {
            assert(sv[i as int] == self.sections@[i as int]@);
            if self.sections[i].file == page {
                proof {
                    lemma_section_index_absent(sv.take(i as int), page@);
                    lemma_section_index_found(sv, page@, i as int);
                }
                let image = Image::new(self.file.clone(), filename, number);
                let ghost old_images = self.sections@[i as int].images@;
                self.sections[i].images.push(image);
                proof {
                    assert(views(self.sections@[i as int].images@) =~= views(old_images).push(
                        image@,
                    ));
                    assert(views(self.sections@) =~= with_image(
                        old(self)@,
                        section_file@,
                        filename@,
                        number,
                    ).sections);
                }
                return;
            }
            i = i + 1;
        }
        proof {
            lemma_section_index_absent(sv, page@);
        }
        let name = self.name_from_file(section_file.clone());
        let mut section = Section::new(page, name, section_file);
        section.images.push(Image::new(self.file.clone(), filename, number));
        assert(views(section.images@) =~= seq![section.images@[0]@]);
        self.sections.push(section);
        assert(views(self.sections@) =~= with_image(
            old(self)@,
            section_file@,
            filename@,
            number,
        ).sections);
    }
}

} // verus!
