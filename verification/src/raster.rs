//! Grayscale raster images and glyph segmentation.
//!
//! An image is a row-major grid of intensity bytes. Segmentation scans the
//! columns left to right: a maximal run of consecutive columns that contain
//! ink (a pixel at or below the darkness threshold) is one glyph region, and
//! each region is cropped to its own image of full original height.

use vstd::prelude::*;

verus! {

/// Intensities at or below this value count as ink; everything brighter is
/// background.
pub const INK_MAX: u8 = 1;

/// Mathematical view of a grayscale image: a pixel grid in row-major order.
#[verifier::ext_equal]
pub ghost struct ImgV {
    pub width: nat,
    pub height: nat,
    pub pixels: Seq<u8>,
}

impl ImgV {
    /// The pixel buffer holds exactly one byte per grid cell.
    pub open spec fn wf(self) -> bool {
        self.pixels.len() == self.width * self.height
    }

    /// Intensity of the pixel in column `x` of row `y`.
    pub open spec fn pix(self, x: int, y: int) -> u8 {
        self.pixels[y * self.width + x]
    }
}

/// A grayscale image held as plain values: one intensity byte per pixel,
/// row-major, top-to-bottom and left-to-right.
pub struct GrayImg {
    width: usize,
    height: usize,
    pixels: Vec<u8>,
}

impl View for GrayImg {
    type V = ImgV;

    closed spec fn view(&self) -> ImgV {
        ImgV { width: self.width as nat, height: self.height as nat, pixels: self.pixels@ }
    }
}

impl GrayImg {
    /// Builds an image from its dimensions and row-major pixel bytes; yields
    /// `None` exactly when the buffer length does not match the dimensions.
    pub fn from_raw(width: usize, height: usize, pixels: Vec<u8>) -> (r: Option<GrayImg>)
        ensures
            r is Some <==> pixels@.len() == width * height,
            r is Some ==> r.unwrap()@ == (ImgV {
                width: width as nat,
                height: height as nat,
                pixels: pixels@,
            }),
            r is Some ==> r.unwrap()@.wf(),
    {
        let n = pixels.len();
        match width.checked_mul(height) {
            Some(p) => {
                if p == n {
                    Some(GrayImg { width, height, pixels })
                } else {
                    None
                }
            },
            None => None,
        }
    }

    pub fn width(&self) -> (r: usize)
        ensures
            r == self@.width,
    {
        self.width
    }

    pub fn height(&self) -> (r: usize)
        ensures
            r == self@.height,
    {
        self.height
    }

    pub fn pixel_count(&self) -> (r: usize)
        ensures
            r == self@.pixels.len(),
    {
        self.pixels.len()
    }
}

/// Relies on `image::DynamicImage`: the decoded raster image, in whatever
/// color model the decoder produced. The library only carries a reference to
/// it into the grayscale conversion, never looks into it.
#[verifier::external_type_specification]
#[verifier::external_body]
pub struct ExDynamicImage(image::DynamicImage);

/// What `image::imageops::grayscale` makes of a raster image: its grayscale
/// pixel grid. The conversion depends on the image value alone, so the name
/// lets callers state their result as a function of the input image.
pub uninterp spec fn spec_grayscale(img: image::DynamicImage) -> ImgV;

/// Relies on `image::imageops::grayscale` and on `ImageBuffer`'s accessors:
/// the conversion yields an 8-bit single-channel image, a function of the
/// input image alone (named `spec_grayscale`), whose row-major buffer holds
/// exactly one byte per pixel of its dimensions.
#[verifier::external_body]
pub(crate) fn to_gray(img: &image::DynamicImage) -> (r: GrayImg)
    ensures
        r@ == spec_grayscale(*img),
        r@.wf(),
{
    let g = image::imageops::grayscale(img);
    let (w, h) = g.dimensions();
    GrayImg { width: w as usize, height: h as usize, pixels: g.into_raw() }
}

/// Column `x` contains ink: some pixel of that column is at or below the
/// darkness threshold.
pub open spec fn spec_col_ink(img: ImgV, x: int) -> bool {
    exists|y: int| 0 <= y < img.height && img.pix(x, y) <= INK_MAX
}

/// The run-length scan over the columns from `x` to the right edge: `run`
/// holds the start of the ink run open at `x`, if one is, and `acc` the
/// regions already closed. A region opens where a column with ink follows one
/// without, and closes (exclusive) at the next column without ink, or at the
/// right edge.
pub open spec fn spec_scan(img: ImgV, x: int, run: Option<int>, acc: Seq<(int, int)>) -> Seq<
    (int, int),
>
    decreases img.width - x,
{
    if img.width <= x {
        match run {
            Some(s) => acc.push((s, img.width as int)),
            None => acc,
        }
    } else if spec_col_ink(img, x) {
        match run {
            Some(_) => spec_scan(img, x + 1, run, acc),
            None => spec_scan(img, x + 1, Some(x), acc),
        }
    } else {
        match run {
            Some(s) => spec_scan(img, x + 1, None, acc.push((s, x))),
            None => spec_scan(img, x + 1, None, acc),
        }
    }
}

/// The glyph regions of an image: the maximal runs of consecutive ink
/// columns, as `[start, end)` column spans in left-to-right order.
pub open spec fn spec_regions(img: ImgV) -> Seq<(int, int)> {
    spec_scan(img, 0, None, Seq::empty())
}

/// The crop of the columns `[s, e)` at full height.
pub open spec fn spec_crop(img: ImgV, s: int, e: int) -> ImgV {
    let w = e - s;
    ImgV {
        width: w as nat,
        height: img.height,
        pixels: Seq::new((w * img.height) as nat, |k: int| img.pix(s + k % w, k / w)),
    }
}

/// The segmented glyph images: one crop per region, in region order.
pub open spec fn spec_letters(img: ImgV) -> Seq<ImgV> {
    spec_regions(img).map_values(|r: (int, int)| spec_crop(img, r.0, r.1))
}

/// Region spans that are non-empty, lie within an image of width `width`,
/// and come in left-to-right order without overlap.
pub open spec fn regions_ordered(r: Seq<(int, int)>, width: int) -> bool {
    &&& forall|i: int| 0 <= i < r.len() ==> 0 <= (#[trigger] r[i]).0 < r[i].1 <= width
    &&& forall|i: int, j: int| 0 <= i < j < r.len() ==> r[i].1 <= r[j].0
}

/// The scan only adds regions that lie within the image, in strictly
/// left-to-right order.
proof fn lemma_scan_ordered(img: ImgV, x: int, run: Option<int>, acc: Seq<(int, int)>)
    requires
        0 <= x <= img.width,
        run is Some ==> 0 <= run.unwrap() < x,
        run is Some ==> forall|i: int| 0 <= i < acc.len() ==> (#[trigger] acc[i]).1 <= run.unwrap(),
        forall|i: int| 0 <= i < acc.len() ==> 0 <= (#[trigger] acc[i]).0 < acc[i].1 <= x,
        forall|i: int, j: int| 0 <= i < j < acc.len() ==> acc[i].1 <= acc[j].0,
    ensures
        regions_ordered(spec_scan(img, x, run, acc), img.width as int),
    decreases img.width - x,
{
    if img.width <= x {
        if run is Some {
            let r = acc.push((run.unwrap(), img.width as int));
            assert(forall|i: int| 0 <= i < acc.len() ==> r[i] == (#[trigger] acc[i]));
            assert(r[acc.len() as int] == (run.unwrap(), img.width as int));
            assert(regions_ordered(r, img.width as int));
        } else {
            assert(regions_ordered(acc, img.width as int));
        }
    } else if spec_col_ink(img, x) {
        match run {
            Some(_) => lemma_scan_ordered(img, x + 1, run, acc),
            None => lemma_scan_ordered(img, x + 1, Some(x), acc),
        }
    } else {
        match run {
            Some(s) => {
                let r = acc.push((s, x));
                assert(forall|i: int| 0 <= i < acc.len() ==> r[i] == (#[trigger] acc[i]));
                assert(r[acc.len() as int] == (s, x));
                lemma_scan_ordered(img, x + 1, None, r);
            },
            None => lemma_scan_ordered(img, x + 1, None, acc),
        }
    }
}

/// Every glyph region is a non-empty span within the image, and the regions
/// come in left-to-right order without overlap.
pub proof fn lemma_regions_ordered(img: ImgV)
    ensures
        regions_ordered(spec_regions(img), img.width as int),
{
    lemma_scan_ordered(img, 0, None, Seq::empty());
}

/// Segmentation is deterministic: the region list is a function of the image
/// alone, so any two sequences of glyphs that `extract_letters`' contract
/// admits for the same image are equal.
pub proof fn lemma_segmentation_deterministic(img: ImgV, a: Seq<ImgV>, b: Seq<ImgV>)
    requires
        a == spec_letters(img),
        b == spec_letters(img),
    ensures
        a == b,
{
}

/// A scan that meets no further ink adds no further region.
proof fn lemma_scan_no_ink(img: ImgV, x: int, acc: Seq<(int, int)>)
    requires
        0 <= x,
        forall|c: int| 0 <= c < img.width ==> !spec_col_ink(img, c),
    ensures
        spec_scan(img, x, None, acc) == acc,
    decreases img.width - x,
{
    if img.width <= x {
    } else {
        lemma_scan_no_ink(img, x + 1, acc);
    }
}

/// An image without any ink pixel segments into no region at all.
pub proof fn lemma_no_ink_no_regions(img: ImgV)
    requires
        forall|x: int, y: int|
            0 <= x < img.width && 0 <= y < img.height ==> #[trigger] img.pix(x, y) > INK_MAX,
    ensures
        spec_regions(img) == Seq::<(int, int)>::empty(),
{
    assert forall|c: int| 0 <= c < img.width implies !spec_col_ink(img, c) by {
        if spec_col_ink(img, c) {
            let y = choose|y: int| 0 <= y < img.height && img.pix(c, y) <= INK_MAX;
            assert(img.pix(c, y) > INK_MAX);
        }
    }
    lemma_scan_no_ink(img, 0, Seq::empty());
}

/// Whether column `x` of the image contains any ink pixel.
fn col_has_ink(img: &GrayImg, x: usize) -> (r: bool)
    requires
        img@.wf(),
        x < img@.width,
    ensures
        r == spec_col_ink(img@, x as int),
{
    let n = img.pixels.len();
    let mut y: usize = 0;
    while y < img.height
        invariant
            img@.wf(),
            x < img@.width,
            y <= img@.height,
            n == img@.pixels.len(),
            forall|k: int| 0 <= k < y ==> img@.pix(x as int, k) > INK_MAX,
        decreases img@.height - y,
    {
        proof {
            assert((y as int) * img@.width + x < img@.width * img@.height) by (nonlinear_arith)
                requires
                    0 <= (y as int) < img@.height,
                    0 <= (x as int) < img@.width,
            ;
            assert((y as int) * img@.width + x < n);
        }
        if img.pixels[y * img.width + x] <= INK_MAX {
            proof {
                assert(img@.pix(x as int, y as int) <= INK_MAX);
            }
            return true;
        }
        y += 1;
    }
    false
}

/// Crops the columns `[s, e)` of the image, keeping the full height.
fn crop_image(img: &GrayImg, s: usize, e: usize) -> (r: GrayImg)
    requires
        img@.wf(),
        s < e,
        e <= img@.width,
    ensures
        r@ == spec_crop(img@, s as int, e as int),
        r@.wf(),
{
    let w = e - s;
    let height = img.height;
    let n = img.pixels.len();
    let mut pixels: Vec<u8> = Vec::new();
    let mut y: usize = 0;
    while y < height
        invariant
            img@.wf(),
            s < e,
            e <= img@.width,
            w == e - s,
            height == img@.height,
            n == img@.pixels.len(),
            y <= height,
            pixels@.len() == y * w,
            forall|k: int|
                0 <= k < pixels@.len() ==> pixels@[k] == img@.pix(
                    s + k % (w as int),
                    k / (w as int),
                ),
        decreases height - y,
    {
        let mut xx: usize = 0;
        while xx < w
            invariant
                img@.wf(),
                s < e,
                e <= img@.width,
                w == e - s,
                height == img@.height,
                n == img@.pixels.len(),
                y < height,
                xx <= w,
                pixels@.len() == y * w + xx,
                forall|k: int|
                    0 <= k < pixels@.len() ==> pixels@[k] == img@.pix(
                        s + k % (w as int),
                        k / (w as int),
                    ),
            decreases w - xx,
        {
            proof {
                assert((y as int) * img@.width + s + xx < img@.width * img@.height)
                    by (nonlinear_arith)
                    requires
                        0 <= (y as int) < img@.height,
                        0 <= (s as int) + (xx as int) < img@.width,
                ;
                assert((y as int) * img@.width + s + xx < n);
            }
            let p = img.pixels[y * img.width + s + xx];
            pixels.push(p);
            proof {
                let k = (y as int) * (w as int) + (xx as int);
                vstd::arithmetic::div_mod::lemma_fundamental_div_mod_converse(
                    k,
                    w as int,
                    y as int,
                    xx as int,
                );
                assert(pixels@[k] == img@.pix(s + k % (w as int), k / (w as int)));
            }
            xx += 1;
        }
        proof {
            assert(((y as int) + 1) * (w as int) == (y as int) * (w as int) + (w as int))
                by (nonlinear_arith);
        }
        y += 1;
    }
    let r = GrayImg { width: w, height, pixels };
    proof {
        assert((w as int) * (height as int) == (height as int) * (w as int)) by (nonlinear_arith);
        assert(r@.pixels =~= spec_crop(img@, s as int, e as int).pixels);
        assert(r@ =~= spec_crop(img@, s as int, e as int));
    }
    r
}

/// The larger of two lengths.
pub open spec fn nat_max(a: nat, b: nat) -> nat {
    if a >= b {
        a
    } else {
        b
    }
}

/// The pixel a side-by-side merge shows at `(x, y)`: the left image's pixel,
/// the right image's pixel shifted by the left width, or background where the
/// shorter image has no row `y`.
pub open spec fn spec_merged_pix(a: ImgV, b: ImgV, x: int, y: int) -> u8 {
    if x < a.width {
        if y < a.height {
            a.pix(x, y)
        } else {
            0u8
        }
    } else {
        if y < b.height {
            b.pix(x - a.width, y)
        } else {
            0u8
        }
    }
}

/// The side-by-side merge of two images: `a` on the left, `b` on the right,
/// width the sum of the widths, height the larger of the heights, and
/// background (intensity 0) below the shorter image.
pub open spec fn spec_merge(a: ImgV, b: ImgV) -> ImgV {
    let w = a.width + b.width;
    let h = nat_max(a.height, b.height);
    ImgV {
        width: w,
        height: h,
        pixels: Seq::new(w * h, |k: int| spec_merged_pix(a, b, k % (w as int), k / (w as int))),
    }
}

/// Merges two images side by side, the first on the left.
pub fn merge_images(img1: &GrayImg, img2: &GrayImg) -> (r: GrayImg)
    requires
        img1@.wf(),
        img2@.wf(),
        img1@.width + img2@.width <= usize::MAX,
        (img1@.width + img2@.width) * nat_max(img1@.height, img2@.height) <= usize::MAX,
    ensures
        r@ == spec_merge(img1@, img2@),
        r@.wf(),
{
    let w = img1.width + img2.width;
    let h = if img1.height >= img2.height {
        img1.height
    } else {
        img2.height
    };
    let n1 = img1.pixels.len();
    let n2 = img2.pixels.len();
    let mut pixels: Vec<u8> = Vec::new();
    let mut y: usize = 0;
    while y < h
        invariant
            img1@.wf(),
            img2@.wf(),
            w == img1@.width + img2@.width,
            h == nat_max(img1@.height, img2@.height),
            n1 == img1@.pixels.len(),
            n2 == img2@.pixels.len(),
            y <= h,
            pixels@.len() == y * w,
            forall|k: int|
                0 <= k < pixels@.len() ==> pixels@[k] == spec_merged_pix(
                    img1@,
                    img2@,
                    k % (w as int),
                    k / (w as int),
                ),
        decreases h - y,
    {
        let mut x: usize = 0;
        while x < w
            invariant
                img1@.wf(),
                img2@.wf(),
                w == img1@.width + img2@.width,
                h == nat_max(img1@.height, img2@.height),
                n1 == img1@.pixels.len(),
                n2 == img2@.pixels.len(),
                y < h,
                x <= w,
                pixels@.len() == y * w + x,
                forall|k: int|
                    0 <= k < pixels@.len() ==> pixels@[k] == spec_merged_pix(
                        img1@,
                        img2@,
                        k % (w as int),
                        k / (w as int),
                    ),
            decreases w - x,
        {
            let v: u8 = if x < img1.width {
                if y < img1.height {
                    proof {
                        assert((y as int) * img1@.width + x < img1@.width * img1@.height)
                            by (nonlinear_arith)
                            requires
                                0 <= (y as int) < img1@.height,
                                0 <= (x as int) < img1@.width,
                        ;
                    }
                    img1.pixels[y * img1.width + x]
                } else {
                    0u8
                }
            } else {
                if y < img2.height {
                    proof {
                        assert((y as int) * img2@.width + (x - img1@.width) < img2@.width
                            * img2@.height) by (nonlinear_arith)
                            requires
                                0 <= (y as int) < img2@.height,
                                0 <= (x as int) - img1@.width < img2@.width,
                        ;
                    }
                    img2.pixels[y * img2.width + (x - img1.width)]
                } else {
                    0u8
                }
            };
            pixels.push(v);
            proof {
                let k = (y as int) * (w as int) + (x as int);
                vstd::arithmetic::div_mod::lemma_fundamental_div_mod_converse(
                    k,
                    w as int,
                    y as int,
                    x as int,
                );
                assert(pixels@[k] == spec_merged_pix(img1@, img2@, k % (w as int), k / (w as int)));
            }
            x += 1;
        }
        proof {
            assert(((y as int) + 1) * (w as int) == (y as int) * (w as int) + (w as int))
                by (nonlinear_arith);
        }
        y += 1;
    }
    let r = GrayImg { width: w, height: h, pixels };
    proof {
        assert((w as int) * (h as int) == (h as int) * (w as int)) by (nonlinear_arith);
        assert(r@.pixels =~= spec_merge(img1@, img2@).pixels);
        assert(r@ =~= spec_merge(img1@, img2@));
    }
    r
}

/// The binary fingerprint of a glyph image: one symbol per pixel in row-major
/// order, `'1'` for ink and `'0'` for background.
pub open spec fn spec_fingerprint(img: ImgV) -> Seq<char> {
    img.pixels.map_values(
        |p: u8|
            if p <= INK_MAX {
                '1'
            } else {
                '0'
            },
    )
}

/// Renders the fingerprint of a glyph image as a string of `'0'`/`'1'`.
pub fn fingerprint_image(img: &GrayImg) -> (r: String)
    ensures
        r@ == spec_fingerprint(img@),
{
    let mut r = String::new();
    let mut i: usize = 0;
    while i < img.pixels.len()
        invariant
            i <= img@.pixels.len(),
            r@.len() == i,
            forall|k: int| 0 <= k < i ==> r@[k] == spec_fingerprint(img@)[k],
        decreases img@.pixels.len() - i,
    {
        proof {
            reveal_strlit("1");
            reveal_strlit("0");
        }
        if img.pixels[i] <= INK_MAX {
            r.append("1");
        } else {
            r.append("0");
        }
        i += 1;
    }
    proof {
        assert(r@ =~= spec_fingerprint(img@));
    }
    r
}

/// The column span, as the loop of `extract_letters` sees it.
spec fn run_view(run: Option<usize>) -> Option<int> {
    match run {
        Some(s) => Some(s as int),
        None => None,
    }
}

/// Column spans as pairs of mathematical integers.
spec fn rects_view(rects: Seq<(usize, usize)>) -> Seq<(int, int)> {
    rects.map_values(|p: (usize, usize)| (p.0 as int, p.1 as int))
}

/// Segments the image into its glyph regions and crops each to its own
/// image: the ordered, left-to-right sequence of glyphs.
pub fn extract_letters(img: &GrayImg) -> (r: Vec<GrayImg>)
    requires
        img@.wf(),
    ensures
        r@.map_values(|g: GrayImg| g@) == spec_letters(img@),
        forall|i: int| 0 <= i < r@.len() ==> (#[trigger] r@[i])@.wf(),
{
    let width = img.width();
    let mut rects: Vec<(usize, usize)> = Vec::new();
    let mut run: Option<usize> = None;
    let mut x: usize = 0;
    proof {
        assert(rects_view(rects@) =~= Seq::<(int, int)>::empty());
    }
    while x < width
        invariant
            img@.wf(),
            width == img@.width,
            x <= width,
            spec_scan(img@, x as int, run_view(run), rects_view(rects@)) == spec_regions(img@),
            forall|k: int| 0 <= k < rects@.len() ==> 0 < (#[trigger] rects@[k]).1 <= x,
            forall|k: int| 0 <= k < rects@.len() ==> (#[trigger] rects@[k]).0 < rects@[k].1,
            run is Some ==> run.unwrap() < x,
        decreases width - x,
    {
        let ink = col_has_ink(img, x);
        if ink {
            if run.is_none() {
                run = Some(x);
            }
        } else {
            if let Some(s) = run {
                let ghost old_rects = rects@;
                rects.push((s, x));
                proof {
                    assert(rects_view(rects@) =~= rects_view(old_rects).push((s as int, x as int)));
                }
                run = None;
            }
        }
        x += 1;
    }
    if let Some(s) = run {
        let ghost old_rects = rects@;
        rects.push((s, width));
        proof {
            assert(rects_view(rects@) =~= rects_view(old_rects).push((s as int, width as int)));
        }
    }
    proof {
        assert(rects_view(rects@) == spec_regions(img@));
    }
    let mut out: Vec<GrayImg> = Vec::new();
    let mut i: usize = 0;
    while i < rects.len()
        invariant
            img@.wf(),
            rects_view(rects@) == spec_regions(img@),
            forall|k: int| 0 <= k < rects@.len() ==> 0 < (#[trigger] rects@[k]).1 <= img@.width,
            forall|k: int| 0 <= k < rects@.len() ==> (#[trigger] rects@[k]).0 < rects@[k].1,
            i <= rects@.len(),
            out@.len() == i,
            forall|k: int|
                0 <= k < i ==> (#[trigger] out@[k])@ == spec_crop(
                    img@,
                    rects@[k].0 as int,
                    rects@[k].1 as int,
                ),
            forall|k: int| 0 <= k < i ==> (#[trigger] out@[k])@.wf(),
        decreases rects@.len() - i,
    {
        let (s, e) = rects[i];
        out.push(crop_image(img, s, e));
        i += 1;
    }
    proof {
        assert(out@.map_values(|g: GrayImg| g@) =~= spec_letters(img@));
    }
    out
}

} // verus!
