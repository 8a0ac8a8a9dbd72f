//! Thumbnails: half the width of the source, the height in proportion.

use vstd::prelude::*;
use crate::sorting::views;
use crate::structure::{Category, CategoryView, ImageView, SectionView};

verus! {

#[verifier::external_type_specification]
#[verifier::external_body]
pub struct ExDynamicImage(image::DynamicImage);

#[verifier::external_type_specification]
#[verifier::external_body]
pub struct ExImageError(image::ImageError);

/// The width and height of the PNG image that `bytes` hold, as
/// `image::load_from_memory_with_format` decodes it; `None` where it cannot.
pub uninterp spec fn png_size(bytes: Seq<u8>) -> Option<(u32, u32)>;

/// The size of the thumbnail of a `width` by `height` image: half the
/// width, rounded down, and the height that keeps the proportions, rounded
/// to the nearest pixel (halves up); nothing for an image of no width.
pub open spec fn thumbnail_size_of(width: u32, height: u32) -> (u32, u32) {
    if width == 0 {
        (0, 0)
    } else {
        let w = width / 2;
        (w, ((2 * height * w + width) / (2 * width)) as u32)
    }
}

/// The size of the thumbnail of a `width` by `height` image.
pub fn thumbnail_size(width: u32, height: u32) -> (r: (u32, u32))
    ensures
        r == thumbnail_size_of(width, height),
        r.0 == width / 2,
        r.1 <= height,
        width > 0 ==> 2 * width * r.1 <= 2 * height * r.0 + width < 2 * width * (r.1 + 1),
{
    if width == 0 {
        return (0, 0);
    }
    let w: u32 = width / 2;
    assert((height as int) * (w as int) <= 0xffff_ffff * 0x7fff_ffff) by (nonlinear_arith)
        requires
            0 <= height <= 0xffff_ffff,
            0 <= w <= 0x7fff_ffff,
    ;
    let product: u64 = height as u64 * w as u64;
    let q: u64 = product / width as u64;
    assert(q <= product) by (nonlinear_arith)
        requires
            q == product as int / width as int,
            width >= 1,
            product >= 0,
    ;
    let rem: u64 = product % width as u64;
    let h: u64 = if 2 * rem >= width as u64 {
        q + 1
    } else {
        q
    };
    proof {
        let hh = height as int;
        let ww = width as int;
        let nw = w as int;
        assert(product == hh * nw);
        assert(hh * nw == q * ww + rem) by (nonlinear_arith)
            requires
                q == (hh * nw) / ww,
                rem == (hh * nw) % ww,
                ww > 0,
        ;
        assert(2 * nw < ww + 1);
        assert(h <= hh) by (nonlinear_arith)
            requires
                hh * nw == q * ww + rem,
                0 <= rem < ww,
                2 * nw <= ww,
                0 <= nw,
                0 <= hh,
                h == q || (h == q + 1 && 2 * rem >= ww),
                ww > 0,
        ;
        assert((2 * hh * nw + ww) / (2 * ww) == h) by (nonlinear_arith)
            requires
                hh * nw == q * ww + rem,
                0 <= rem < ww,
                ww > 0,
                (h == q + 1 && 2 * rem >= ww) || (h == q && 2 * rem < ww),
        ;
        assert(2 * ww * h <= 2 * hh * nw + ww < 2 * ww * (h + 1)) by (nonlinear_arith)
            requires
                hh * nw == q * ww + rem,
                0 <= rem < ww,
                ww > 0,
                (h == q + 1 && 2 * rem >= ww) || (h == q && 2 * rem < ww),
        ;
    }
    (w, h as u32)
}

/// A decoded image and its size.
struct Picture {
    pixels: image::DynamicImage,
    width: u32,
    height: u32,
}

/// Why a thumbnail could not be made.
#[derive(PartialEq, Eq, Structural, Clone, Copy, Debug)]
pub enum ThumbnailError {
    /// The source bytes are no PNG image that can be read.
    Decode,
    /// The thumbnail could not be encoded as PNG.
    Encode,
}

/// A thumbnail encoded as PNG, with its size and that of its source.
pub struct Thumbnail {
    pub source_width: u32,
    pub source_height: u32,
    pub width: u32,
    pub height: u32,
    pub png: Vec<u8>,
}

/// Relies on `image::load_from_memory_with_format` with the PNG format:
/// the image that the bytes hold and its size, or the error met in
/// decoding them. The outcome depends on the bytes alone (the decoder's
/// limits are the fixed defaults).
#[verifier::external_body]
fn decode_png(bytes: &[u8]) -> (r: Result<Picture, image::ImageError>)
    ensures
        r is Ok <==> png_size(bytes@) is Some,
        r matches Ok(p) ==> png_size(bytes@) == Some((p.width, p.height)),
{
    let pixels = image::load_from_memory_with_format(bytes, image::ImageFormat::Png)?;
    Ok(Picture { width: pixels.width(), height: pixels.height(), pixels })
}

/// Relies on `DynamicImage::resize_exact` with the nearest-neighbour filter:
/// `nwidth` and `nheight` are the new image's dimensions. A size no larger
/// than the source's allocates no more than the source holds.
#[verifier::external_body]
fn resize_nearest(p: &Picture, nwidth: u32, nheight: u32) -> (r: Picture)
    requires
        nwidth <= p.width,
        nheight <= p.height,
    ensures
        r.width == nwidth,
        r.height == nheight,
{
    let pixels = p.pixels.resize_exact(nwidth, nheight, image::imageops::FilterType::Nearest);
    Picture { width: pixels.width(), height: pixels.height(), pixels }
}

/// Relies on `DynamicImage::write_to` with the PNG format, into a buffer in
/// memory: the encoded bytes, or the error met in encoding. The image is
/// first converted to a colour type that the PNG encoder takes, and writing
/// to memory cannot fail, so only an empty image (no width or no height) is
/// refused.
#[verifier::external_body]
fn encode_png(p: &Picture) -> (r: Result<Vec<u8>, image::ImageError>)
    ensures
        p.width > 0 && p.height > 0 ==> r is Ok,
{
    let mut out = std::io::Cursor::new(Vec::new());
    p.pixels.write_to(&mut out, image::ImageFormat::Png)?;
    Ok(out.into_inner())
}

/// Decodes the PNG image `source` and makes its thumbnail: half the width,
/// the height in proportion, resampled with the nearest-neighbour filter
/// and encoded as PNG. It fails to decode exactly where `source` holds no
/// readable PNG image, and succeeds wherever the thumbnail is not empty.
pub fn make_thumbnail(source: &Vec<u8>) -> (r: Result<Thumbnail, ThumbnailError>)
    ensures
        r matches Ok(t) ==> png_size(source@) == Some((t.source_width, t.source_height)),
        r matches Ok(t) ==> (t.width, t.height) == thumbnail_size_of(
            t.source_width,
            t.source_height,
        ),
        r matches Err(ThumbnailError::Decode) <==> png_size(source@) is None,
        png_size(source@) matches Some(d) && thumbnail_size_of(d.0, d.1).0 > 0
            && thumbnail_size_of(d.0, d.1).1 > 0 ==> r is Ok,
{
    let picture = match decode_png(source.as_slice()) {
        Ok(p) => p,
        Err(_) => return Err(ThumbnailError::Decode),
    };
    let width = picture.width;
    let height = picture.height;
    let (nwidth, nheight) = thumbnail_size(width, height);
    let small = resize_nearest(&picture, nwidth, nheight);
    match encode_png(&small) {
        Ok(png) => Ok(
            Thumbnail {
                source_width: width,
                source_height: height,
                width: small.width,
                height: small.height,
                png,
            },
        ),
        Err(_) => Err(ThumbnailError::Encode),
    }
}

/// One image to resize: the source is `category/file` under the project
/// root, the thumbnail `category/file` under the thumbnails directory.
pub struct ThumbnailJob {
    pub category: String,
    pub file: String,
}

impl View for ThumbnailJob {
    type V = (Seq<char>, Seq<char>);

    open spec fn view(&self) -> (Seq<char>, Seq<char>) {
        (self.category@, self.file@)
    }
}

pub open spec fn image_jobs(images: Seq<ImageView>) -> Seq<(Seq<char>, Seq<char>)> {
    images.map_values(|i: ImageView| (i.category, i.file))
}

pub open spec fn section_jobs(sections: Seq<SectionView>) -> Seq<(Seq<char>, Seq<char>)>
    decreases sections.len(),
{
    if sections.len() == 0 {
        Seq::empty()
    } else {
        section_jobs(sections.drop_last()) + image_jobs(sections.last().images)
    }
}

/// One job for each image of `categories`, in model order.
pub open spec fn category_jobs(categories: Seq<CategoryView>) -> Seq<(Seq<char>, Seq<char>)>
    decreases categories.len(),
{
    if categories.len() == 0 {
        Seq::empty()
    } else {
        category_jobs(categories.drop_last()) + section_jobs(categories.last().sections)
    }
}

/// The resize jobs for every image of the model, in model order.
pub fn thumbnail_jobs(categories: &Vec<Category>) -> (r: Vec<ThumbnailJob>)
    ensures
        views(r@) == category_jobs(views(categories@)),
{
    let ghost cs = views(categories@);
    let mut jobs: Vec<ThumbnailJob> = Vec::new();
    let mut ci: usize = 0;
    assert(views(jobs@) =~= category_jobs(cs.take(0)));
    while ci < categories.len()
        invariant
            cs == views(categories@),
            ci <= categories.len(),
            views(jobs@) == category_jobs(cs.take(ci as int)),
        decreases categories.len() - ci,
    {
        let c = &categories[ci];
        let ghost ss = c@.sections;
        let ghost done = views(jobs@);
        let mut si: usize = 0;
        assert(section_jobs(ss.take(0)) =~= Seq::<(Seq<char>, Seq<char>)>::empty());
        assert(done =~= done + section_jobs(ss.take(0)));
        while si < c.sections.len()
            invariant
                ss == views(c.sections@),
                si <= c.sections.len(),
                views(jobs@) == done + section_jobs(ss.take(si as int)),
            decreases c.sections.len() - si,
        {
            let s = &c.sections[si];
            assert(ss[si as int] == s@);
            let ghost is = s@.images;
            let ghost before = views(jobs@);
            let mut ii: usize = 0;
            assert(before =~= before + image_jobs(is.take(0)));
            while ii < s.images.len()
                invariant
                    is == views(s.images@),
                    ii <= s.images.len(),
                    views(jobs@) == before + image_jobs(is.take(ii as int)),
                decreases s.images.len() - ii,
            {
                let img = &s.images[ii];
                assert(is[ii as int] == img@);
                let ghost prev = jobs@;
                jobs.push(ThumbnailJob { category: img.category.clone(), file: img.file.clone() });
                assert(views(jobs@) =~= views(prev).push((img.category@, img.file@)));
                assert(image_jobs(is.take(ii + 1)) =~= image_jobs(is.take(ii as int)).push(
                    (img.category@, img.file@),
                ));
                ii = ii + 1;
            }
            assert(is.take(ii as int) =~= is);
            assert(ss.take(si + 1).drop_last() =~= ss.take(si as int));
            si = si + 1;
        }
        assert(ss.take(si as int) =~= ss);
        assert(cs[ci as int] == c@);
        assert(cs.take(ci + 1).drop_last() =~= cs.take(ci as int));
        ci = ci + 1;
    }
    assert(cs.take(ci as int) =~= cs);
    jobs
}

/// How far a run of dispatched jobs has come.
pub struct Progress {
    expected: usize,
    finished: usize,
    failed: Vec<usize>,
}

pub struct ProgressView {
    /// The number of jobs dispatched.
    pub expected: nat,
    /// The number of jobs that reported back.
    pub finished: nat,
    /// The jobs that reported a failure, in the order of their reports.
    pub failed: Seq<usize>,
}

impl View for Progress {
    type V = ProgressView;

    closed spec fn view(&self) -> ProgressView {
        ProgressView {
            expected: self.expected as nat,
            finished: self.finished as nat,
            failed: self.failed@,
        }
    }
}

impl Progress {
    /// A run of `expected` dispatched jobs, none of which reported yet.
    pub fn new(expected: usize) -> (r: Progress)
        ensures
            r@ == (ProgressView { expected: expected as nat, finished: 0, failed: Seq::empty() }),
    {
        Progress { expected, finished: 0, failed: Vec::new() }
    }

    /// Records the report of job `job`, a success where `ok`.
    pub fn record(&mut self, job: usize, ok: bool)
        requires
            old(self)@.finished < old(self)@.expected,
        ensures
            final(self)@ == (ProgressView {
                finished: old(self)@.finished + 1,
                failed: if ok {
                    old(self)@.failed
                } else {
                    old(self)@.failed.push(job)
                },
                ..old(self)@
            }),
    {
        self.finished = self.finished + 1;
        if !ok {
            self.failed.push(job);
        }
    }

    /// Whether every dispatched job reported back: the run may end only then.
    pub fn is_complete(&self) -> (r: bool)
        ensures
            r == (self@.finished >= self@.expected),
    {
        self.finished >= self.expected
    }

    /// The jobs that failed, in the order of their reports.
    pub fn failures(&self) -> (r: Vec<usize>)
        ensures
            r@ == self@.failed,
    {
        self.failed.clone()
    }
}

/// The number of workers for a run: the number of processing units
/// detected, or one where detection failed or found none.
pub fn pool_size(detected: Option<u32>) -> (r: usize)
    ensures
        r == match detected {
            Some(n) => if n > 0 && n as int <= usize::MAX {
                n as int
            } else {
                1
            },
            None => 1,
        },
        r >= 1,
{
    match detected {
        Some(n) => if n > 0 && n as u64 <= usize::MAX as u64 {
            n as usize
        } else {
            1
        },
        None => 1,
    }
}

} // verus!
