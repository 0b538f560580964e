//! What becomes of the proportions of a picture, and what is sent of it.

use vstd::arithmetic::div_mod::lemma_fundamental_div_mod;
use vstd::prelude::*;

use crate::text::picture::{
    after_quality, after_size, best_of, grown_to_min, jpeg_file, lemma_chosen_is_smallest, png_file,
    probe_of, processed, qualities, quality_step, resized, rounded, shrunk_to_fit, side_at, sizes,
    tried, webp_file, within_budget, BestView, ErrorView, ImageMime, ProcessedView, ResizeOptions,
};

verus! {

broadcast use vstd::seq::group_seq_axioms;

/// How far apart two numbers are.
pub open spec fn apart(a: int, b: int) -> int {
    if a >= b {
        a - b
    } else {
        b - a
    }
}

/// Whether a number is one that is nearest to a fraction, or the least or the largest that there can
/// be where the nearest is beyond that.
pub open spec fn is_nearest(r: nat, over: nat, under: nat) -> bool {
    ||| 2 * apart((r * under) as int, over as int) <= under
    ||| r == 1 && 2 * over <= under
    ||| r == u32::MAX && over >= u32::MAX * under
}

/// A part of a number is rounded to the nearest whole number, which is no less than one.
pub proof fn lemma_nearest_is_taken(a: nat, b: nat, c: nat)
    requires
        c > 0,
    ensures
        1 <= rounded(a, b, c) <= u32::MAX,
        is_nearest(rounded(a, b, c), a * b, c),
{
    let x = a * b + c / 2;
    let q = x / c;
    let m = x % c;
    lemma_fundamental_div_mod(x as int, c as int);
    assert(x == c * q + m);
    assert(0 <= m < c);
    assert(q * c == c * q) by (nonlinear_arith);
    if q < 1 {
        assert(q == 0);
        assert(c * q == 0) by (nonlinear_arith)
            requires
                q == 0,
        ;
        assert(2 * (a * b) <= c);
    } else if q > u32::MAX {
        assert(c * q >= u32::MAX * c + c) by (nonlinear_arith)
            requires
                q >= u32::MAX + 1,
                c > 0,
        ;
    } else {
        assert(2 * apart((q * c) as int, (a * b) as int) <= c);
    }
}

/// A picture that is too large is brought to just the limit on one side, and to the nearest that keeps
/// its proportions on the other; one that fits stays as it is.
pub proof fn lemma_shrunk_in_proportion(w: nat, h: nat, max_w: nat, max_h: nat)
    requires
        0 < w <= u32::MAX,
        0 < h <= u32::MAX,
        0 < max_w <= u32::MAX,
        0 < max_h <= u32::MAX,
    ensures
        w <= max_w && h <= max_h ==> shrunk_to_fit(w, h, max_w, max_h) == (w, h),
        w > max_w || h > max_h ==> {
            let (x, y) = shrunk_to_fit(w, h, max_w, max_h);
            ||| x == max_w && is_nearest(y, h * max_w, w)
            ||| y == max_h && is_nearest(x, w * max_h, h)
        },
{
    lemma_nearest_is_taken(h, max_w, w);
    lemma_nearest_is_taken(w, max_h, h);
}

/// A picture whose shorter side is too short is brought to just the limit there, and to the nearest that
/// keeps its proportions on the other side; any other one stays as it is.
pub proof fn lemma_grown_in_proportion(w: nat, h: nat, min: nat)
    requires
        0 < w,
        0 < h,
    ensures
        w >= min && h >= min ==> grown_to_min(w, h, min) == (w, h),
        w <= h && w < min ==> grown_to_min(w, h, min).0 == min && is_nearest(
            grown_to_min(w, h, min).1,
            h * min,
            w,
        ),
        h < w && h < min ==> grown_to_min(w, h, min).1 == min && is_nearest(
            grown_to_min(w, h, min).0,
            w * min,
            h,
        ),
{
    lemma_nearest_is_taken(h, min, w);
    lemma_nearest_is_taken(w, min, h);
}

// What is sent

/// A picture of a size and of a number of bytes that are well within the limits is sent as it came;
/// any other one is made anew, and what is told of its size is what it was.
pub proof fn lemma_small_picture_passes(input: Seq<u8>, o: ResizeOptions, scaled: Seq<u8>)
    ensures
        probe_of(input) matches Ok((w, h, mime)) ==> (w > 0 && h > 0 && w * h <= 64_000_000 ==> {
            let short = least(o.min_dimension as int, least(o.max_width as int, o.max_height as int));
            let passes = short <= w <= o.max_width && short <= h <= o.max_height && 4 * input.len()
                <= o.max_bytes;
            &&& passes ==> processed(input, o, scaled) == Ok::<ProcessedView, ErrorView>(
                ProcessedView {
                    bytes: input,
                    mime,
                    width: w,
                    height: h,
                    original_width: w,
                    original_height: h,
                    reencoded: false,
                },
            )
            &&& !passes ==> (processed(input, o, scaled) matches Ok(p) ==> p.reencoded
                && p.original_width == w && p.original_height == h)
        }),
        probe_of(input) matches Ok((w, h, mime)) ==> (w == 0 || h == 0 || w * h > 64_000_000
            ==> processed(input, o, scaled) is Err),
        probe_of(input) is Err ==> processed(input, o, scaled) is Err,
{
}

/// The lesser of two numbers.
pub open spec fn least(a: int, b: int) -> int {
    if a <= b {
        a
    } else {
        b
    }
}

/// Whether a file, if there is one, has too many bytes.
pub open spec fn is_too_big(r: Result<(Seq<u8>, ImageMime), ErrorView>, max: nat) -> bool {
    r matches Ok(x) ==> x.0.len() > max
}

/// The parts of its size to which a picture is made smaller, in their order.
pub open spec fn parts_of_size() -> Seq<(nat, nat)> {
    seq![(3, 4), (1, 2), (7, 20), (1, 4)]
}

/// A side of a picture that is made smaller, though no shorter than it may be.
pub open spec fn smaller_side(side: nat, j: int, floor: nat) -> nat {
    let s = rounded(side, parts_of_size()[j].0, parts_of_size()[j].1);
    if s < floor {
        floor
    } else {
        s
    }
}

/// Whether a smaller picture is of no use: it is as large as the first one, or too big.
pub open spec fn is_no_use(
    picture: Seq<u8>,
    first: BestView,
    o: ResizeOptions,
    floor: nat,
    j: int,
) -> bool {
    let w = smaller_side(first.width as nat, j, floor);
    let h = smaller_side(first.height as nat, j, floor);
    ||| w == first.width && h == first.height
    ||| is_too_big(
        best_of(resized(picture, w as u32, h as u32), o.jpeg_quality, o.allow_webp),
        o.max_bytes as nat,
    )
}

proof fn lemma_side(side: nat, j: int, floor: nat)
    requires
        0 <= j < 4,
        floor <= u32::MAX,
    ensures
        side_at(side, j, floor) == smaller_side(side, j, floor),
        smaller_side(side, j, floor) <= u32::MAX,
{
    assert(parts_of_size()[0] == (3nat, 4nat));
    assert(parts_of_size()[1] == (1nat, 2nat));
    assert(parts_of_size()[2] == (7nat, 20nat));
    assert(parts_of_size()[3] == (1nat, 4nat));
    lemma_nearest_is_taken(side, parts_of_size()[j].0, parts_of_size()[j].1);
}

proof fn lemma_sizes_are_tried(
    picture: Seq<u8>,
    best: BestView,
    first: BestView,
    o: ResizeOptions,
    floor: nat,
    i: int,
)
    requires
        0 <= i <= 4,
        floor <= u32::MAX,
        best.bytes.len() > o.max_bytes,
        best.width == first.width && best.height == first.height || is_too_big(
            best_of(resized(picture, best.width, best.height), o.jpeg_quality, o.allow_webp),
            o.max_bytes as nat,
        ),
        sizes(picture, best, first.width as nat, first.height as nat, o, floor, i).bytes.len()
            > o.max_bytes,
    ensures
        forall|j: int| i <= j < 4 ==> #[trigger] is_no_use(picture, first, o, floor, j),
    decreases 4 - i,
{
    if i < 4 {
        lemma_side(first.width as nat, i, floor);
        lemma_side(first.height as nat, i, floor);
        let w = side_at(first.width as nat, i, floor);
        let h = side_at(first.height as nat, i, floor);
        let next = if w == best.width && h == best.height {
            best
        } else {
            after_size(
                best,
                best_of(resized(picture, w as u32, h as u32), o.jpeg_quality, o.allow_webp),
                w as u32,
                h as u32,
                o.max_bytes as nat,
            ).0
        };
        assert(is_no_use(picture, first, o, floor, i));
        lemma_sizes_are_tried(picture, next, first, o, floor, i + 1);
    }
}

/// A picture with too many bytes is tried at each lower quality and then in each smaller size: what
/// comes of it has too many bytes only where all of them have.
pub proof fn lemma_all_is_tried(picture: Seq<u8>, first: BestView, o: ResizeOptions, floor: nat)
    requires
        floor <= u32::MAX,
    ensures
        first.bytes.len() <= o.max_bytes ==> within_budget(picture, first, o, floor) == first,
        within_budget(picture, first, o, floor).bytes.len() > o.max_bytes ==> {
            &&& forall|q: u8|
                (q == 70 || q == 60 || q == 50 || q == 40) && q < o.jpeg_quality ==> (
                #[trigger] jpeg_file(picture, q) matches Ok(b) ==> b.len() > o.max_bytes)
            &&& forall|j: int| 0 <= j < 4 ==> #[trigger] is_no_use(picture, first, o, floor, j)
        },
{
    if within_budget(picture, first, o, floor).bytes.len() > o.max_bytes {
        let b0 = first;
        let b1 = lemma_quality_is_tried(picture, b0, o, 0);
        let b2 = lemma_quality_is_tried(picture, b1, o, 1);
        let b3 = lemma_quality_is_tried(picture, b2, o, 2);
        let b4 = lemma_quality_is_tried(picture, b3, o, 3);
        assert(qualities(picture, b4, o, 4) == (b4, false));
        lemma_sizes_are_tried(picture, b4, first, o, floor, 0);
    }
}

proof fn lemma_quality_is_tried(picture: Seq<u8>, best: BestView, o: ResizeOptions, i: int) -> (next:
    BestView)
    requires
        0 <= i < 4,
        best.bytes.len() > o.max_bytes,
        qualities(picture, best, o, i).1 ==> qualities(picture, best, o, i).0.bytes.len()
            > o.max_bytes,
    ensures
        next.bytes.len() > o.max_bytes,
        next.width == best.width,
        next.height == best.height,
        qualities(picture, best, o, i) == qualities(picture, next, o, i + 1),
        quality_step(i) < o.jpeg_quality ==> (jpeg_file(picture, quality_step(i)) matches Ok(b)
            ==> b.len() > o.max_bytes),
{
    if quality_step(i) < o.jpeg_quality {
        let (b, fits) = after_quality(
            best,
            jpeg_file(picture, quality_step(i)),
            o.max_bytes as nat,
        );
        assert(!fits);
        b
    } else {
        best
    }
}

/// A picture is sent as a PNG file, a JPEG file or, where that is allowed, a WebP file, whichever has
/// the fewest bytes; it cannot be sent only where all of these fail.
pub proof fn lemma_smallest_file_is_sent(picture: Seq<u8>, quality: u8, allow_webp: bool)
    ensures
        match best_of(picture, quality, allow_webp) {
            Ok((file, mime)) => {
                &&& mime == ImageMime::Png ==> png_file(picture) == Ok::<Seq<u8>, Seq<char>>(file)
                &&& mime == ImageMime::Jpeg ==> jpeg_file(picture, quality) == Ok::<
                    Seq<u8>,
                    Seq<char>,
                >(file)
                &&& mime == ImageMime::Webp ==> allow_webp && webp_file(picture) == Ok::<
                    Seq<u8>,
                    Seq<char>,
                >(file)
                &&& mime != ImageMime::Gif
                &&& png_file(picture) matches Ok(b) ==> file.len() <= b.len()
                &&& jpeg_file(picture, quality) matches Ok(b) ==> file.len() <= b.len()
                &&& allow_webp ==> (webp_file(picture) matches Ok(b) ==> file.len() <= b.len())
            },
            Err(_) => {
                &&& png_file(picture) is Err
                &&& jpeg_file(picture, quality) is Err
                &&& allow_webp ==> webp_file(picture) is Err
            },
        },
{
    let l = tried(picture, quality, allow_webp);
    lemma_chosen_is_smallest(l);
    assert(l[0].result == png_file(picture) && l[0].mime == ImageMime::Png);
    assert(l[1].result == jpeg_file(picture, quality) && l[1].mime == ImageMime::Jpeg);
    if allow_webp {
        assert(l[2].result == webp_file(picture) && l[2].mime == ImageMime::Webp);
    }
}

} // verus!
