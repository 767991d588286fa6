use vstd::prelude::*;
use crate::types::rects_disjoint;

verus! {

#[verifier::external_type_specification]
#[verifier::external_body]
pub struct ExPacker(rect_packer::Packer);

/// The rectangles one packer instance has handed out so far: for each
/// successful `pack` call, in call order, the `(x, y, width, height)` it
/// returned.
pub uninterp spec fn packer_placed(p: rect_packer::Packer) -> Seq<(u32, u32, u32, u32)>;

/// The `(width, height)` the packer instance was created over.
pub uninterp spec fn packer_dims(p: rect_packer::Packer) -> (u32, u32);

/// What `rect_packer::Packer::pack` (without rotation, without padding)
/// returns: a pure function of the layer dimensions, the rectangles placed
/// so far, and the requested box size.
pub uninterp spec fn pack_result(
    dims: (u32, u32),
    placed: Seq<(u32, u32, u32, u32)>,
    w: u32,
    h: u32,
) -> Option<(u32, u32)>;

/// Relies on rect_packer::Packer::new: a packer built over a positive
/// `width x height` config with zero border and rectangle padding starts
/// with nothing placed. Dimensions stay below 2^30 so that the sums the
/// packer later forms in signed 32-bit arithmetic cannot wrap.
#[verifier::external_body]
pub(crate) fn packer_new(width: u32, height: u32) -> (p: rect_packer::Packer)
    requires
        0 < width < 0x4000_0000u32,
        0 < height < 0x4000_0000u32,
    ensures
        packer_dims(p) == (width, height),
        packer_placed(p) == Seq::<(u32, u32, u32, u32)>::empty(),
{
    rect_packer::Packer::new(rect_packer::Config {
        width: width as i32,
        height: height as i32,
        border_padding: 0,
        rectangle_padding: 0,
    })
}

/// Relies on rect_packer::Packer::pack (no rotation; the packer was built
/// with zero padding): on success the rectangle keeps the requested size,
/// lies inside the layer bounds, and intersects no rectangle the same packer
/// returned before; a failed call leaves the packer unchanged; the result is
/// determined by the dimensions and the rectangles placed so far; an empty
/// packer accepts any box that fits the layer, at the origin. The box size
/// stays below 2^30, as the packer's dimensions do: its search adds a
/// coordinate and a size in signed 32-bit arithmetic before checking bounds,
/// and under these limits no such sum can wrap.
#[verifier::external_body]
pub(crate) fn pack_into(
    layers: &mut Vec<rect_packer::Packer>,
    j: usize,
    w: u32,
    h: u32,
) -> (r: Option<(u32, u32)>)
    requires
        j < old(layers)@.len(),
        0 < w < 0x4000_0000u32,
        0 < h < 0x4000_0000u32,
        packer_dims(old(layers)@[j as int]).0 < 0x4000_0000,
        packer_dims(old(layers)@[j as int]).1 < 0x4000_0000,
    ensures
        final(layers)@.len() == old(layers)@.len(),
        forall|k: int| 0 <= k < old(layers)@.len() && k != j ==> final(layers)@[k] == old(layers)@[k],
        packer_dims(final(layers)@[j as int]) == packer_dims(old(layers)@[j as int]),
        r == pack_result(packer_dims(old(layers)@[j as int]), packer_placed(old(layers)@[j as int]), w, h),
        match r {
            Some(pos) => {
                &&& pos.0 + w <= packer_dims(old(layers)@[j as int]).0
                &&& pos.1 + h <= packer_dims(old(layers)@[j as int]).1
                &&& packer_placed(final(layers)@[j as int])
                    == packer_placed(old(layers)@[j as int]).push((pos.0, pos.1, w, h))
                &&& forall|k: int| 0 <= k < packer_placed(old(layers)@[j as int]).len()
                    ==> rects_disjoint(packer_placed(old(layers)@[j as int])[k], (pos.0, pos.1, w, h))
            },
            None => final(layers)@[j as int] == old(layers)@[j as int],
        },
        ({
            &&& packer_placed(old(layers)@[j as int]) =~= Seq::<(u32, u32, u32, u32)>::empty()
            &&& w <= packer_dims(old(layers)@[j as int]).0
            &&& h <= packer_dims(old(layers)@[j as int]).1
        }) ==> r == Some((0u32, 0u32)),
{
    match layers[j].pack(w as i32, h as i32, false) {
        Some(rect) => Some((rect.x as u32, rect.y as u32)),
        None => None,
    }
}

} // verus!
