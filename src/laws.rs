//! Properties of the model builder that hold for every input.

use vstd::prelude::*;
use crate::builder::{
    category_model, collect_categories, model_of, scan_file, sorted_category, sorted_section,
    DirectoryScanView,
};
use crate::filename::{digits_value, image_name_parts, lemma_parts_unique};
use crate::sorting::{
    is_sorted, is_strict_order, lemma_stable_sorted_is_sorted, lemma_stable_sorted_multiset,
    stable_sorted, SortKey,
};
use crate::structure::{
    lemma_section_index_absent, lemma_section_index_found,
    image_model, section_file_of, section_index, with_image, Category, CategoryView, Image,
    Section, SectionView,
};
use crate::text::{
    display_name, is_ascii_lower, is_ascii_upper, lemma_lex_lt_irreflexive,
    lemma_lex_lt_transitive,
};

verus! {

/// The sections of `c` are in order of display name, and the images of each
/// section in order of number.
pub open spec fn category_in_order(c: CategoryView) -> bool {
    &&& is_sorted::<Section>(c.sections)
    &&& forall|j: int| 0 <= j < c.sections.len() ==> is_sorted::<Image>(#[trigger] c.sections[j].images)
}

proof fn lemma_section_order_strict()
    ensures
        is_strict_order::<Section>(),
{
    assert forall|a: SectionView| !Section::spec_before(a, a) by {
        lemma_lex_lt_irreflexive(a.name);
    }
    assert forall|a: SectionView, b: SectionView, c: SectionView|
        #[trigger] Section::spec_before(a, b) && #[trigger] Section::spec_before(b, c) implies Section::spec_before(a, c) by {
        lemma_lex_lt_transitive(a.name, b.name, c.name);
    }
}

proof fn lemma_category_order_strict()
    ensures
        is_strict_order::<Category>(),
{
    assert forall|a: CategoryView| !Category::spec_before(a, a) by {
        lemma_lex_lt_irreflexive(a.name);
    }
    assert forall|a: CategoryView, b: CategoryView, c: CategoryView|
        #[trigger] Category::spec_before(a, b) && #[trigger] Category::spec_before(b, c) implies Category::spec_before(a, c) by {
        lemma_lex_lt_transitive(a.name, b.name, c.name);
    }
}

/// Every element of a sorted sequence comes from the input.
proof fn lemma_stable_sorted_contains<T: SortKey>(s: Seq<T::V>, i: int)
    requires
        0 <= i < stable_sorted::<T>(s).len(),
    ensures
        s.contains(stable_sorted::<T>(s)[i]),
{
    broadcast use vstd::seq_lib::group_to_multiset_ensures;
    lemma_stable_sorted_multiset::<T>(s);
    let x = stable_sorted::<T>(s)[i];
    assert(stable_sorted::<T>(s).contains(x));
    assert(stable_sorted::<T>(s).to_multiset().count(x) > 0);
    assert(s.to_multiset().count(x) > 0);
}

/// A category as the builder leaves it is in order.
pub proof fn lemma_sorted_category_in_order(c: CategoryView)
    ensures
        category_in_order(sorted_category(c)),
{
    lemma_section_order_strict();
    lemma_stable_sorted_is_sorted::<Section>(c.sections);
    let by_name = stable_sorted::<Section>(c.sections);
    let r = sorted_category(c);
    assert(r.sections.len() == by_name.len());
    assert forall|i: int, j: int| 0 <= i < j < r.sections.len() implies !Section::spec_before(
        #[trigger] r.sections[j],
        #[trigger] r.sections[i],
    ) by {
        assert(!Section::spec_before(by_name[j], by_name[i]));
    }
    assert forall|j: int| 0 <= j < r.sections.len() implies is_sorted::<Image>(
        #[trigger] r.sections[j].images,
    ) by {
        lemma_stable_sorted_is_sorted::<Image>(by_name[j].images);
    }
}

proof fn lemma_collected_in_order(scans: Seq<DirectoryScanView>)
    requires
        collect_categories(scans) is Ok,
    ensures
        forall|k: int| 0 <= k < collect_categories(scans)->Ok_0.0.len() ==> category_in_order(
            #[trigger] collect_categories(scans)->Ok_0.0[k],
        ),
    decreases scans.len(),
{
    if scans.len() > 0 {
        lemma_collected_in_order(scans.drop_last());
        let s = scans.last();
        if let Some(files) = s.files {
            if let Ok(c) = category_model(s.file, s.name, files) {
                let cs = collect_categories(scans.drop_last())->Ok_0.0;
                assert(category_in_order(c)) by {
                    let scanned = crate::builder::scan_files(
                        CategoryView { file: s.file, name: s.name, sections: Seq::empty() },
                        files,
                    )->Ok_0;
                    lemma_sorted_category_in_order(scanned);
                }
                assert forall|k: int| 0 <= k < cs.push(c).len() implies category_in_order(
                    #[trigger] cs.push(c)[k],
                ) by {
                    if k < cs.len() {
                        assert(cs.push(c)[k] == cs[k]);
                    }
                }
            }
        }
    }
}

/// In a built model the categories are in order of display name, the
/// sections of each category in order of display name, and the images of
/// each section in order of number.
pub proof fn lemma_model_in_order(scans: Seq<DirectoryScanView>)
    requires
        model_of(scans) is Ok,
    ensures
        is_sorted::<Category>(model_of(scans)->Ok_0.categories),
        forall|k: int| 0 <= k < model_of(scans)->Ok_0.categories.len() ==> category_in_order(
            #[trigger] model_of(scans)->Ok_0.categories[k],
        ),
{
    let cs = collect_categories(scans)->Ok_0.0;
    lemma_category_order_strict();
    lemma_stable_sorted_is_sorted::<Category>(cs);
    lemma_collected_in_order(scans);
    let sorted = stable_sorted::<Category>(cs);
    assert forall|k: int| 0 <= k < sorted.len() implies category_in_order(#[trigger] sorted[k]) by {
        lemma_stable_sorted_contains::<Category>(cs, k);
    }
}

/// Ordering a built category a second time changes nothing: sections and
/// images keep the order that the first build gave them.
pub proof fn lemma_sorted_category_idempotent(c: CategoryView)
    ensures
        sorted_category(sorted_category(c)) == sorted_category(c),
{
    let r = sorted_category(c);
    lemma_sorted_category_in_order(c);
    crate::sorting::lemma_stable_sorted_of_sorted::<Section>(r.sections);
    assert forall|j: int| 0 <= j < r.sections.len() implies sorted_section(#[trigger] r.sections[j])
        == r.sections[j] by {
        crate::sorting::lemma_stable_sorted_of_sorted::<Image>(r.sections[j].images);
    }
    assert(r.sections.map_values(|s: SectionView| sorted_section(s)) =~= r.sections);
}

/// `s` is the section with page `file` and its last image is `image`.
pub open spec fn joins(s: SectionView, file: Seq<char>, image: crate::structure::ImageView) -> bool {
    s.file == file && s.images.len() > 0 && s.images.last() == image
}

proof fn lemma_section_index_valid(s: Seq<SectionView>, file: Seq<char>)
    ensures
        section_index(s, file) matches Some(i) ==> 0 <= i < s.len() && s[i].file == file,
    decreases s.len(),
{
    if s.len() > 0 {
        lemma_section_index_valid(s.drop_last(), file);
    }
}

/// An image whose name follows the convention, with token `token`, goes
/// into the section whose page is `token` followed by `.html`, and is the
/// last image there.
pub proof fn lemma_image_joins_token_section(
    c: CategoryView,
    name: Seq<char>,
    token: Seq<char>,
    digits: Seq<char>,
)
    requires
        image_name_parts(name, token, digits),
        digits_value(digits) <= 255,
    ensures
        scan_file(c, name) is Ok,
        exists|i: int|
            0 <= i < scan_file(c, name)->Ok_0.sections.len() && joins(
                #[trigger] scan_file(c, name)->Ok_0.sections[i],
                section_file_of(token),
                image_model(c.file, name, digits_value(digits) as u8),
            ),
{
    assert(crate::filename::is_image_name(name));
    let (t, d) = choose|t: Seq<char>, d: Seq<char>| image_name_parts(name, t, d);
    lemma_parts_unique(name, t, d, token, digits);
    let n = digits_value(digits) as u8;
    let r = with_image(c, token, name, n);
    assert(scan_file(c, name) == Ok::<CategoryView, Seq<char>>(r));
    lemma_section_index_valid(c.sections, section_file_of(token));
    match section_index(c.sections, section_file_of(token)) {
        Some(i) => {
            assert(r.sections[i].file == section_file_of(token));
            assert(r.sections[i].images.last() == image_model(c.file, name, n));
            assert(joins(scan_file(c, name)->Ok_0.sections[i], section_file_of(token), image_model(c.file, name, n)));
        },
        None => {
            let i = c.sections.len() as int;
            assert(r.sections[i].file == section_file_of(token));
            assert(r.sections[i].images.last() == image_model(c.file, name, n));
            assert(joins(scan_file(c, name)->Ok_0.sections[i], section_file_of(token), image_model(c.file, name, n)));
        },
    }
}

/// The hyphen-separated segments of `t`, in order; an empty segment stands
/// between two adjacent hyphens, and the empty token has one empty segment.
pub open spec fn segments(t: Seq<char>) -> Seq<Seq<char>>
    decreases t.len(),
{
    if t.len() == 0 {
        seq![Seq::empty()]
    } else {
        let s = segments(t.drop_last());
        if t.last() == '-' {
            s.push(Seq::empty())
        } else {
            s.update(s.len() - 1, s.last().push(t.last()))
        }
    }
}

/// A segment as a word: its first character upper-cased, the rest kept;
/// an empty segment gives an empty word.
pub open spec fn capitalized_word(w: Seq<char>) -> Seq<char> {
    if w.len() == 0 {
        Seq::empty()
    } else {
        crate::text::capitalized(w[0]) + w.drop_first()
    }
}

/// `words` joined by single spaces.
pub open spec fn join_words(words: Seq<Seq<char>>) -> Seq<char>
    decreases words.len(),
{
    if words.len() == 0 {
        Seq::empty()
    } else if words.len() == 1 {
        words[0]
    } else {
        join_words(words.drop_last()) + seq![' '] + words.last()
    }
}

pub open spec fn words_of(t: Seq<char>) -> Seq<Seq<char>> {
    segments(t).map_values(|w: Seq<char>| capitalized_word(w))
}

proof fn lemma_segments_last(t: Seq<char>)
    ensures
        segments(t).len() >= 1,
        segments(t).last().len() == 0 <==> (t.len() == 0 || t.last() == '-'),
    decreases t.len(),
{
    if t.len() > 0 {
        lemma_segments_last(t.drop_last());
    }
}

/// The display name of any token is one word for each of its hyphen-separated
/// segments, joined by single spaces, each word the segment with its first
/// character upper-cased (an empty segment gives an empty word).
pub proof fn lemma_display_name_joins_words(t: Seq<char>)
    ensures
        display_name(t) == join_words(words_of(t)),
        words_of(t).len() == segments(t).len(),
    decreases t.len(),
{
    if t.len() > 0 {
        let p = t.drop_last();
        let c = t.last();
        lemma_display_name_joins_words(p);
        lemma_segments_last(p);
        let sp = segments(p);
        let wp = words_of(p);
        let n = sp.len() - 1;
        if c == '-' {
            assert(words_of(t) =~= wp.push(Seq::<char>::empty()));
            assert(words_of(t).drop_last() =~= wp);
            assert(join_words(words_of(t)) =~= join_words(wp) + seq![' ']);
        } else {
            let w = sp.last().push(c);
            let wt = words_of(t);
            assert(wt =~= wp.update(n, capitalized_word(w)));
            if sp.last().len() == 0 {
                assert(w =~= seq![c]);
                assert(capitalized_word(w) =~= crate::text::capitalized(c));
            } else {
                assert(capitalized_word(w) =~= capitalized_word(sp.last()) + seq![c]);
            }
            if n == 0 {
                assert(join_words(wt) == wt[0]);
                assert(join_words(wp) == wp[0]);
            } else {
                assert(wt.drop_last() =~= wp.drop_last());
                assert(join_words(wt) == join_words(wp.drop_last()) + seq![' '] + wt.last());
            }
            assert(display_name(t) == display_name(p) + crate::text::display_char(p, c));
            assert(display_name(t) =~= join_words(wt));
        }
    }
}

/// The character that stands at position `i` of the display name of an
/// ASCII token.
spec fn shown(t: Seq<char>, i: int) -> char {
    if t[i] == '-' {
        ' '
    } else if i == 0 || t[i - 1] == '-' {
        crate::text::capitalized(t[i])[0]
    } else {
        t[i]
    }
}

proof fn lemma_display_name_pointwise(t: Seq<char>)
    requires
        forall|i: int| 0 <= i < t.len() ==> (#[trigger] t[i] as u32) < 128,
    ensures
        display_name(t).len() == t.len(),
        forall|i: int| 0 <= i < t.len() ==> #[trigger] display_name(t)[i] == shown(t, i),
    decreases t.len(),
{
    if t.len() > 0 {
        let p = t.drop_last();
        assert forall|i: int| 0 <= i < p.len() implies (#[trigger] p[i] as u32) < 128 by {
            assert(p[i] == t[i]);
        }
        lemma_display_name_pointwise(p);
        let n = t.len() - 1;
        assert((t[n] as u32) < 128);
        let dc = crate::text::display_char(p, t[n]);
        assert(dc.len() == 1);
        assert(display_name(t) == display_name(p) + dc);
        assert forall|i: int| 0 <= i < t.len() implies #[trigger] display_name(t)[i] == shown(t, i) by {
            if i < n {
                assert(display_name(t)[i] == display_name(p)[i]);
                assert(shown(p, i) == shown(t, i));
            }
        }
    }
}

/// For an ASCII token without spaces, the display name has one character for each
/// character of the token and a space exactly where the token has a hyphen,
/// so as many words as the token has segments; the first character of each
/// segment becomes its capital where it is a lower-case letter and stays
/// otherwise (a capital stays a capital, a digit a digit), and every other
/// character is unchanged.
pub proof fn lemma_display_name_words(t: Seq<char>)
    requires
        forall|i: int| 0 <= i < t.len() ==> (#[trigger] t[i] as u32) < 128 && t[i] != ' ',
    ensures
        display_name(t).len() == t.len(),
        forall|i: int| 0 <= i < t.len() ==> (#[trigger] display_name(t)[i] == ' ' <==> t[i] == '-'),
        forall|i: int|
            0 <= i < t.len() && is_ascii_lower(t[i]) && (i == 0 || t[i - 1] == '-') ==> is_ascii_upper(
                #[trigger] display_name(t)[i],
            ) && display_name(t)[i] as u32 == t[i] as u32 - 32,
        forall|i: int|
            0 <= i < t.len() && t[i] != '-' && !(is_ascii_lower(t[i]) && (i == 0 || t[i - 1] == '-'))
                ==> #[trigger] display_name(t)[i] == t[i],
{
    lemma_display_name_pointwise(t);
}

/// The images of a category are grouped by token: no two sections share a
/// token, each section's page is its token followed by `.html`, and every
/// image in a section has a name whose token is the section's.
pub open spec fn grouped_by_token(c: CategoryView) -> bool {
    &&& forall|i: int, j: int|
        0 <= i < j < c.sections.len() ==> (#[trigger] c.sections[i]).class != (#[trigger] c.sections[j]).class
    &&& forall|i: int|
        0 <= i < c.sections.len() ==> (#[trigger] c.sections[i]).file == section_file_of(
            c.sections[i].class,
        )
    &&& forall|i: int, k: int|
        0 <= i < c.sections.len() && 0 <= k < c.sections[i].images.len() ==> has_token(
            #[trigger] c.sections[i].images[k],
            c.sections[i].class,
        )
}

/// The name of `image` follows the convention with token `token`.
pub open spec fn has_token(image: crate::structure::ImageView, token: Seq<char>) -> bool {
    exists|digits: Seq<char>| image_name_parts(image.file, token, digits)
}

proof fn lemma_section_file_injective(a: Seq<char>, b: Seq<char>)
    requires
        section_file_of(a) == section_file_of(b),
    ensures
        a == b,
{
    assert(a.len() == b.len()) by {
        assert(section_file_of(a).len() == a.len() + 5);
        assert(section_file_of(b).len() == b.len() + 5);
    }
    assert forall|k: int| 0 <= k < a.len() implies a[k] == b[k] by {
        assert(section_file_of(a)[k] == a[k]);
        assert(section_file_of(b)[k] == b[k]);
    }
    assert(a =~= b);
}

proof fn lemma_section_index_none(s: Seq<SectionView>, file: Seq<char>, k: int)
    requires
        section_index(s, file) is None,
        0 <= k < s.len(),
    ensures
        s[k].file != file,
    decreases s.len(),
{
    if k < s.len() - 1 {
        lemma_section_index_none(s.drop_last(), file, k);
    }
}

/// Sorting sections keeps their tokens distinct.
proof fn lemma_sorted_sections_distinct(s: Seq<SectionView>)
    requires
        forall|i: int, j: int| 0 <= i < j < s.len() ==> (#[trigger] s[i]).class != (#[trigger] s[j]).class,
    ensures
        forall|i: int, j: int|
            0 <= i < j < stable_sorted::<Section>(s).len() ==> (#[trigger] stable_sorted::<Section>(s)[i]).class
                != (#[trigger] stable_sorted::<Section>(s)[j]).class,
    decreases s.len(),
{
    if s.len() > 0 {
        let front = s.drop_last();
        assert forall|i: int, j: int| 0 <= i < j < front.len() implies (#[trigger] front[i]).class
            != (#[trigger] front[j]).class by {
            assert(front[i] == s[i] && front[j] == s[j]);
        }
        lemma_sorted_sections_distinct(front);
        let sf = stable_sorted::<Section>(front);
        let x = s.last();
        let p = crate::sorting::lemma_insert_sorted_is_insert::<Section>(sf, x);
        let r = stable_sorted::<Section>(s);
        assert(r == sf.insert(p, x));
        assert forall|k: int| 0 <= k < sf.len() implies (#[trigger] sf[k]).class != x.class by {
            lemma_stable_sorted_contains::<Section>(front, k);
            let q = choose|q: int| 0 <= q < front.len() && front[q] == sf[k];
            assert(s[q] == front[q]);
        }
        assert forall|i: int, j: int| 0 <= i < j < r.len() implies (#[trigger] r[i]).class
            != (#[trigger] r[j]).class by {
            if i < p && j < p {
                assert(r[i] == sf[i] && r[j] == sf[j]);
            } else if i < p && j == p {
                assert(r[i] == sf[i]);
            } else if i < p {
                assert(r[i] == sf[i] && r[j] == sf[j - 1]);
            } else if i == p {
                assert(r[j] == sf[j - 1]);
            } else {
                assert(r[i] == sf[i - 1] && r[j] == sf[j - 1]);
            }
        }
    }
}

/// A built category is grouped by token: every image whose name carries a
/// token lies in the one section of that token.
pub proof fn lemma_category_grouped(file: Seq<char>, name: Seq<char>, files: Seq<Seq<char>>)
    requires
        category_model(file, name, files) is Ok,
    ensures
        grouped_by_token(category_model(file, name, files)->Ok_0),
{
    lemma_category_well_built(file, name, files);
    let c = category_model(file, name, files)->Ok_0;
    assert forall|i: int, k: int|
        0 <= i < c.sections.len() && 0 <= k < c.sections[i].images.len() implies has_token(
        #[trigger] c.sections[i].images[k],
        c.sections[i].class,
    ) by {
        assert(built_image(c.file, c.sections[i].class, c.sections[i].images[k]));
    }
}

/// In a built category, two images whose names carry the same token lie in
/// the same section.
pub proof fn lemma_same_token_same_section(
    file: Seq<char>,
    name: Seq<char>,
    files: Seq<Seq<char>>,
    i: int,
    k: int,
    j: int,
    l: int,
    token: Seq<char>,
)
    requires
        category_model(file, name, files) is Ok,
        0 <= i < category_model(file, name, files)->Ok_0.sections.len(),
        0 <= j < category_model(file, name, files)->Ok_0.sections.len(),
        0 <= k < category_model(file, name, files)->Ok_0.sections[i].images.len(),
        0 <= l < category_model(file, name, files)->Ok_0.sections[j].images.len(),
        has_token(category_model(file, name, files)->Ok_0.sections[i].images[k], token),
        has_token(category_model(file, name, files)->Ok_0.sections[j].images[l], token),
    ensures
        i == j,
{
    let c = category_model(file, name, files)->Ok_0;
    lemma_category_grouped(file, name, files);
    let a = c.sections[i].images[k];
    let b = c.sections[j].images[l];
    assert(has_token(a, c.sections[i].class));
    assert(has_token(b, c.sections[j].class));
    let da = choose|d: Seq<char>| image_name_parts(a.file, token, d);
    let dai = choose|d: Seq<char>| image_name_parts(a.file, c.sections[i].class, d);
    lemma_parts_unique(a.file, token, da, c.sections[i].class, dai);
    let db = choose|d: Seq<char>| image_name_parts(b.file, token, d);
    let dbj = choose|d: Seq<char>| image_name_parts(b.file, c.sections[j].class, d);
    lemma_parts_unique(b.file, token, db, c.sections[j].class, dbj);
    if i < j {
        assert(c.sections[i].class != c.sections[j].class);
    } else if j < i {
        assert(c.sections[j].class != c.sections[i].class);
    }
}

/// `image` is the image that the builder makes, in category `category`,
/// of a file whose name carries token `token`.
pub open spec fn built_image(category: Seq<char>, token: Seq<char>, image: crate::structure::ImageView) -> bool {
    exists|digits: Seq<char>|
        image_name_parts(image.file, token, digits) && digits_value(digits) <= 255 && image
            == image_model(category, image.file, digits_value(digits) as u8)
}

/// `c` is a category as the builder makes it: sections of distinct tokens,
/// each with the page and display name of its token and at least one
/// image, every image built from a file name carrying that token.
pub open spec fn well_built(c: CategoryView) -> bool {
    &&& forall|i: int, j: int|
        0 <= i < j < c.sections.len() ==> (#[trigger] c.sections[i]).class != (#[trigger] c.sections[j]).class
    &&& forall|i: int|
        0 <= i < c.sections.len() ==> {
            let s = #[trigger] c.sections[i];
            &&& s.file == section_file_of(s.class)
            &&& s.name == display_name(s.class)
            &&& s.images.len() > 0
        }
    &&& forall|i: int, k: int|
        0 <= i < c.sections.len() && 0 <= k < c.sections[i].images.len() ==> built_image(
            c.file,
            c.sections[i].class,
            #[trigger] c.sections[i].images[k],
        )
}

proof fn lemma_scan_file_well_built(c: CategoryView, f: Seq<char>)
    requires
        well_built(c),
        scan_file(c, f) is Ok,
    ensures
        well_built(scan_file(c, f)->Ok_0),
{
    if crate::filename::is_image_name(f) {
        let (t, d) = choose|t: Seq<char>, d: Seq<char>| image_name_parts(f, t, d);
        let n = digits_value(d) as u8;
        let image = image_model(c.file, f, n);
        let r = with_image(c, t, f, n);
        assert(image_name_parts(image.file, t, d));
        assert(digits_value(d) <= 255);
        assert(built_image(c.file, t, image));
        lemma_section_index_valid(c.sections, section_file_of(t));
        match section_index(c.sections, section_file_of(t)) {
            Some(i) => {
                lemma_section_file_injective(c.sections[i].class, t);
                assert forall|a: int, k: int|
                    0 <= a < r.sections.len() && 0 <= k < r.sections[a].images.len() implies built_image(
                    r.file,
                    r.sections[a].class,
                    #[trigger] r.sections[a].images[k],
                ) by {
                    if a == i && k == r.sections[a].images.len() - 1 {
                    } else {
                        assert(r.sections[a].images[k] == c.sections[a].images[k]);
                    }
                }
                assert forall|a: int, b: int| 0 <= a < b < r.sections.len() implies (
                #[trigger] r.sections[a]).class != (#[trigger] r.sections[b]).class by {
                    assert(c.sections[a].class != c.sections[b].class);
                }
                assert forall|a: int| 0 <= a < r.sections.len() implies {
                    let s = #[trigger] r.sections[a];
                    &&& s.file == section_file_of(s.class)
                    &&& s.name == display_name(s.class)
                    &&& s.images.len() > 0
                } by {
                    assert(c.sections[a].images.len() > 0);
                }
            },
            None => {
                let last = c.sections.len() as int;
                assert forall|a: int, b: int| 0 <= a < b < r.sections.len() implies (
                #[trigger] r.sections[a]).class != (#[trigger] r.sections[b]).class by {
                    if b == last {
                        lemma_section_index_none(c.sections, section_file_of(t), a);
                    } else {
                        assert(c.sections[a].class != c.sections[b].class);
                    }
                }
                assert forall|a: int, k: int|
                    0 <= a < r.sections.len() && 0 <= k < r.sections[a].images.len() implies built_image(
                    r.file,
                    r.sections[a].class,
                    #[trigger] r.sections[a].images[k],
                ) by {
                    if a < last {
                        assert(r.sections[a] == c.sections[a]);
                    }
                }
                assert forall|a: int| 0 <= a < r.sections.len() implies {
                    let s = #[trigger] r.sections[a];
                    &&& s.file == section_file_of(s.class)
                    &&& s.name == display_name(s.class)
                    &&& s.images.len() > 0
                } by {
                    if a < last {
                        assert(r.sections[a] == c.sections[a]);
                    }
                }
            },
        }
    }
}

proof fn lemma_scan_files_well_built(c: CategoryView, files: Seq<Seq<char>>)
    requires
        well_built(c),
        crate::builder::scan_files(c, files) is Ok,
    ensures
        well_built(crate::builder::scan_files(c, files)->Ok_0),
    decreases files.len(),
{
    if files.len() > 0 {
        lemma_scan_files_well_built(c, files.drop_last());
        lemma_scan_file_well_built(crate::builder::scan_files(c, files.drop_last())->Ok_0, files.last());
    }
}

/// A built category is well built.
pub proof fn lemma_category_well_built(file: Seq<char>, name: Seq<char>, files: Seq<Seq<char>>)
    requires
        category_model(file, name, files) is Ok,
    ensures
        well_built(category_model(file, name, files)->Ok_0),
{
    broadcast use vstd::seq_lib::group_to_multiset_ensures;
    let start = CategoryView { file, name, sections: Seq::empty() };
    lemma_scan_files_well_built(start, files);
    let c = crate::builder::scan_files(start, files)->Ok_0;
    let by_name = stable_sorted::<Section>(c.sections);
    let r = sorted_category(c);
    lemma_sorted_sections_distinct(c.sections);
    assert forall|i: int| 0 <= i < r.sections.len() implies {
        let s = #[trigger] r.sections[i];
        &&& s.file == section_file_of(s.class)
        &&& s.name == display_name(s.class)
        &&& s.images.len() > 0
    } && forall|k: int|
        0 <= k < r.sections[i].images.len() ==> built_image(
            r.file,
            r.sections[i].class,
            #[trigger] r.sections[i].images[k],
        ) by {
        lemma_stable_sorted_contains::<Section>(c.sections, i);
        let q = choose|q: int| 0 <= q < c.sections.len() && c.sections[q] == by_name[i];
        assert(c.sections[q].images.len() > 0);
        lemma_stable_sorted_multiset::<Image>(by_name[i].images);
        assert(stable_sorted::<Image>(by_name[i].images).to_multiset().len() == by_name[i].images.to_multiset().len());
        assert forall|k: int| 0 <= k < r.sections[i].images.len() implies built_image(
            r.file,
            r.sections[i].class,
            #[trigger] r.sections[i].images[k],
        ) by {
            lemma_stable_sorted_contains::<Image>(by_name[i].images, k);
            let m = choose|m: int|
                0 <= m < by_name[i].images.len() && by_name[i].images[m] == r.sections[i].images[k];
            assert(built_image(c.file, c.sections[q].class, c.sections[q].images[m]));
        }
    }
    assert forall|i: int, j: int| 0 <= i < j < r.sections.len() implies (#[trigger] r.sections[i]).class
        != (#[trigger] r.sections[j]).class by {
        assert(by_name[i].class != by_name[j].class);
    }
}

/// The file names of `images`, in order.
pub open spec fn image_files(images: Seq<crate::structure::ImageView>) -> Seq<Seq<char>> {
    images.map_values(|i: crate::structure::ImageView| i.file)
}

/// The file names of the images of `sections`, section by section, in
/// model order.
pub open spec fn category_files(sections: Seq<SectionView>) -> Seq<Seq<char>>
    decreases sections.len(),
{
    if sections.len() == 0 {
        Seq::empty()
    } else {
        category_files(sections.drop_last()) + image_files(sections.last().images)
    }
}

spec fn with_sections(c: CategoryView, sections: Seq<SectionView>) -> CategoryView {
    CategoryView { sections, ..c }
}

proof fn lemma_scan_files_keeps_names(c: CategoryView, files: Seq<Seq<char>>)
    requires
        crate::builder::scan_files(c, files) is Ok,
    ensures
        crate::builder::scan_files(c, files)->Ok_0.file == c.file,
        crate::builder::scan_files(c, files)->Ok_0.name == c.name,
    decreases files.len(),
{
    if files.len() > 0 {
        lemma_scan_files_keeps_names(c, files.drop_last());
    }
}

proof fn lemma_scan_files_append(c: CategoryView, a: Seq<Seq<char>>, b: Seq<Seq<char>>)
    ensures
        crate::builder::scan_files(c, a + b) == match crate::builder::scan_files(c, a) {
            Ok(c1) => crate::builder::scan_files(c1, b),
            Err(f) => Err(f),
        },
    decreases b.len(),
{
    if b.len() == 0 {
        assert(a + b =~= a);
    } else {
        lemma_scan_files_append(c, a, b.drop_last());
        assert((a + b).drop_last() =~= a + b.drop_last());
        assert((a + b).last() == b.last());
    }
}

/// Scanning the first `k` images of section `i` after the sections before
/// it gives those sections and section `i` holding those images.
proof fn lemma_rebuild_images(c: CategoryView, i: int, k: int)
    requires
        well_built(c),
        0 <= i < c.sections.len(),
        1 <= k <= c.sections[i].images.len(),
    ensures
        crate::builder::scan_files(
            with_sections(c, c.sections.take(i)),
            image_files(c.sections[i].images.take(k)),
        ) == Ok::<CategoryView, Seq<char>>(with_sections(
            c,
            c.sections.take(i).push(SectionView { images: c.sections[i].images.take(k), ..c.sections[i] }),
        )),
    decreases k,
{
    let s = c.sections[i];
    let p = with_sections(c, c.sections.take(i));
    let img = s.images[k - 1];
    let f = img.file;
    let page = section_file_of(s.class);
    let n_before = image_files(s.images.take(k - 1));
    assert(image_files(s.images.take(k)) =~= n_before.push(f));
    let q = if k == 1 {
        p
    } else {
        with_sections(
            c,
            c.sections.take(i).push(SectionView { images: s.images.take(k - 1), ..s }),
        )
    };
    if k == 1 {
        assert(n_before =~= Seq::<Seq<char>>::empty());
    } else {
        lemma_rebuild_images(c, i, k - 1);
    }
    assert(crate::builder::scan_files(p, n_before.push(f)) == crate::builder::scan_file(q, f)) by {
        assert(n_before.push(f).drop_last() =~= n_before);
    }
    // The file carries the section's token and its number.
    assert(built_image(c.file, s.class, s.images[k - 1]));
    let d = choose|d: Seq<char>|
        image_name_parts(img.file, s.class, d) && digits_value(d) <= 255 && img == image_model(
            c.file,
            img.file,
            digits_value(d) as u8,
        );
    assert(crate::filename::is_image_name(f));
    let (t2, d2) = choose|t: Seq<char>, d: Seq<char>| image_name_parts(f, t, d);
    lemma_parts_unique(f, t2, d2, s.class, d);
    let n = digits_value(d) as u8;
    assert(crate::builder::scan_file(q, f) == Ok::<CategoryView, Seq<char>>(with_image(q, s.class, f, n)));
    // No section before `i` has this page.
    assert forall|a: int| 0 <= a < c.sections.take(i).len() implies (#[trigger] c.sections.take(i)[a]).file
        != page by {
        assert(c.sections.take(i)[a] == c.sections[a]);
        assert(c.sections[a].class != s.class);
        if c.sections[a].file == page {
            lemma_section_file_injective(c.sections[a].class, s.class);
        }
    }
    lemma_section_index_absent(c.sections.take(i), page);
    let target = with_sections(
        c,
        c.sections.take(i).push(SectionView { images: s.images.take(k), ..s }),
    );
    if k == 1 {
        assert(s.images.take(1) =~= seq![img]);
        assert(with_image(q, s.class, f, n) == target);
    } else {
        let qs = q.sections;
        assert(qs.take(i) =~= c.sections.take(i));
        assert(qs[i].file == page);
        lemma_section_index_found(qs, page, i);
        assert(s.images.take(k) =~= s.images.take(k - 1).push(img));
        assert(with_image(q, s.class, f, n).sections =~= target.sections);
    }
}

proof fn lemma_rebuild_prefix(c: CategoryView, i: int)
    requires
        well_built(c),
        0 <= i <= c.sections.len(),
    ensures
        crate::builder::scan_files(with_sections(c, Seq::empty()), category_files(c.sections.take(i)))
            == Ok::<CategoryView, Seq<char>>(with_sections(c, c.sections.take(i))),
    decreases i,
{
    if i == 0 {
        assert(c.sections.take(0) =~= Seq::<SectionView>::empty());
    } else {
        lemma_rebuild_prefix(c, i - 1);
        let s = c.sections[i - 1];
        assert(c.sections.take(i).drop_last() =~= c.sections.take(i - 1));
        lemma_scan_files_append(
            with_sections(c, Seq::empty()),
            category_files(c.sections.take(i - 1)),
            image_files(s.images),
        );
        lemma_rebuild_images(c, i - 1, s.images.len() as int);
        assert(s.images.take(s.images.len() as int) =~= s.images);
        assert(c.sections.take(i - 1).push(s) =~= c.sections.take(i));
    }
}

/// Building a category again from the names of its own images, in model
/// order, gives back the same category: a tree that holds just those files
/// rebuilds to an equal model, slug for slug and order for order.
pub proof fn lemma_rebuild_category(file: Seq<char>, name: Seq<char>, files: Seq<Seq<char>>)
    requires
        category_model(file, name, files) is Ok,
    ensures
        category_model(file, name, category_files(category_model(file, name, files)->Ok_0.sections))
            == category_model(file, name, files),
{
    let c = category_model(file, name, files)->Ok_0;
    lemma_category_well_built(file, name, files);
    lemma_scan_files_keeps_names(CategoryView { file, name, sections: Seq::empty() }, files);
    lemma_rebuild_prefix(c, c.sections.len() as int);
    assert(c.sections.take(c.sections.len() as int) =~= c.sections);
    assert(with_sections(c, c.sections) == c);
    assert(with_sections(c, Seq::empty()) == CategoryView { file, name, sections: Seq::empty() });
    let start = CategoryView { file, name, sections: Seq::empty() };
    let c0 = crate::builder::scan_files(start, files)->Ok_0;
    lemma_sorted_category_idempotent(c0);
}

/// Each section's page is its token followed by `.html`.
pub open spec fn pages_match(c: CategoryView) -> bool {
    forall|i: int|
        0 <= i < c.sections.len() ==> (#[trigger] c.sections[i]).file == section_file_of(
            c.sections[i].class,
        )
}

/// No two sections share a page.
pub open spec fn pages_unique(c: CategoryView) -> bool {
    forall|i: int, j: int|
        0 <= i < j < c.sections.len() ==> (#[trigger] c.sections[i]).file != (#[trigger] c.sections[j]).file
}

/// The number of images over all `sections`.
pub open spec fn image_count(sections: Seq<SectionView>) -> nat
    decreases sections.len(),
{
    if sections.len() == 0 {
        0
    } else {
        image_count(sections.drop_last()) + sections.last().images.len()
    }
}

proof fn lemma_image_count_update(s: Seq<SectionView>, i: int, x: SectionView)
    requires
        0 <= i < s.len(),
    ensures
        image_count(s.update(i, x)) + s[i].images.len() == image_count(s) + x.images.len(),
    decreases s.len(),
{
    if i < s.len() - 1 {
        lemma_image_count_update(s.drop_last(), i, x);
        assert(s.update(i, x).drop_last() =~= s.drop_last().update(i, x));
    } else {
        assert(s.update(i, x).drop_last() =~= s.drop_last());
    }
}

/// Adding an image to a category whose section pages match their tokens
/// puts it last in the section of its token, whose page is the token
/// followed by `.html`, and keeps pages matching their tokens.
pub proof fn lemma_add_image_lands_in_token_section(
    c: CategoryView,
    token: Seq<char>,
    file: Seq<char>,
    number: u8,
)
    requires
        pages_match(c),
    ensures
        pages_match(with_image(c, token, file, number)),
        exists|i: int|
            0 <= i < with_image(c, token, file, number).sections.len() && joins(
                #[trigger] with_image(c, token, file, number).sections[i],
                section_file_of(token),
                image_model(c.file, file, number),
            ) && with_image(c, token, file, number).sections[i].class == token,
{
    let r = with_image(c, token, file, number);
    lemma_section_index_valid(c.sections, section_file_of(token));
    match section_index(c.sections, section_file_of(token)) {
        Some(i) => {
            lemma_section_file_injective(c.sections[i].class, token);
            assert(joins(r.sections[i], section_file_of(token), image_model(c.file, file, number)));
            assert forall|a: int| 0 <= a < r.sections.len() implies (#[trigger] r.sections[a]).file
                == section_file_of(r.sections[a].class) by {
                assert(c.sections[a].file == section_file_of(c.sections[a].class));
            }
        },
        None => {
            let i = c.sections.len() as int;
            assert(joins(r.sections[i], section_file_of(token), image_model(c.file, file, number)));
            assert forall|a: int| 0 <= a < r.sections.len() implies (#[trigger] r.sections[a]).file
                == section_file_of(r.sections[a].class) by {
                if a < i {
                    assert(r.sections[a] == c.sections[a]);
                }
            }
        },
    }
}

/// Adding an image to a category with distinct section pages keeps them
/// distinct (one section per token), adds at most one section, adds exactly
/// one image in all, and leaves the category's slug and name alone.
pub proof fn lemma_add_image_keeps_sections_unique(
    c: CategoryView,
    token: Seq<char>,
    file: Seq<char>,
    number: u8,
)
    requires
        pages_unique(c),
    ensures
        pages_unique(with_image(c, token, file, number)),
        with_image(c, token, file, number).sections.len() <= c.sections.len() + 1,
        image_count(with_image(c, token, file, number).sections) == image_count(c.sections) + 1,
        with_image(c, token, file, number).file == c.file,
        with_image(c, token, file, number).name == c.name,
{
    let r = with_image(c, token, file, number);
    lemma_section_index_valid(c.sections, section_file_of(token));
    match section_index(c.sections, section_file_of(token)) {
        Some(i) => {
            lemma_image_count_update(c.sections, i, r.sections[i]);
            assert forall|a: int, b: int| 0 <= a < b < r.sections.len() implies (
            #[trigger] r.sections[a]).file != (#[trigger] r.sections[b]).file by {
                assert(c.sections[a].file != c.sections[b].file);
            }
        },
        None => {
            let last = c.sections.len() as int;
            assert(r.sections.drop_last() =~= c.sections);
            assert forall|a: int, b: int| 0 <= a < b < r.sections.len() implies (
            #[trigger] r.sections[a]).file != (#[trigger] r.sections[b]).file by {
                if b == last {
                    lemma_section_index_none(c.sections, section_file_of(token), a);
                } else {
                    assert(c.sections[a].file != c.sections[b].file);
                }
            }
        },
    }
}

} // verus!
