use crate::effects::{edge_pixel, gray_of, grayscaled, inverted, on_border};
use crate::utils::{Raster, Rgba};
use vstd::prelude::*;

verus! {

/// Turning a raster grey twice gives the same pixels as doing it once.
pub proof fn grayscale_idempotent(s: Seq<Rgba>)
    ensures
        grayscaled(grayscaled(s)) == grayscaled(s),
{
    assert(grayscaled(grayscaled(s)) =~= grayscaled(s));
}

/// Inverting the colours twice gives back the original pixels.
pub proof fn invert_involution(s: Seq<Rgba>)
    ensures
        inverted(inverted(s)) == s,
{
    assert(inverted(inverted(s)) =~= s);
}

/// Every grey pixel has equal red, green and blue, and the alpha of the pixel it came from.
pub proof fn grayscale_channels(s: Seq<Rgba>)
    ensures
        grayscaled(s).len() == s.len(),
        forall|k: int|
            0 <= k < s.len() ==> {
                &&& (#[trigger] grayscaled(s)[k]).r == grayscaled(s)[k].g
                &&& grayscaled(s)[k].g == grayscaled(s)[k].b
                &&& grayscaled(s)[k].a == s[k].a
            },
{
}

/// Edge detection leaves a border pixel as the grayscale pass made it, so a border pixel
/// that is already grey comes out unchanged.
pub proof fn edge_detect_keeps_border(image: Raster, row: int, col: int)
    requires
        image.wf(),
        image.in_bounds(row, col),
        on_border(image.width as int, image.height as int, row, col),
    ensures
        edge_pixel(grayscaled(image.pixels@), image.width as int, image.height as int, row, col)
            == gray_of(image.at(row, col)),
        gray_of(image.at(row, col)) == image.at(row, col) ==> edge_pixel(
            grayscaled(image.pixels@),
            image.width as int,
            image.height as int,
            row,
            col,
        ) == image.at(row, col),
{
    crate::utils::lemma_flat_in_range(image.width as int, image.height as int, row, col);
}

/// Off the border, every pixel that edge detection writes has equal red, green and blue.
pub proof fn edge_detect_interior_grey(image: Raster, row: int, col: int)
    requires
        image.wf(),
        image.in_bounds(row, col),
    ensures
        ({
            let p = edge_pixel(
                grayscaled(image.pixels@),
                image.width as int,
                image.height as int,
                row,
                col,
            );
            !on_border(image.width as int, image.height as int, row, col) ==> p.r == p.g && p.g
                == p.b
        }),
{
}

} // verus!
