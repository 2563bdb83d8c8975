//! World-space box colliders for grid rectangles.
use vstd::prelude::*;
use crate::rects::Rect;

verus! {

/// A box collider in world space. Every field counts half-pixels, so that
/// the centre and the half extents of any rectangle are exact integers.
#[derive(Clone, Copy, Debug, PartialEq, Eq, Structural, Hash, Default)]
pub struct ColliderBox {
    pub center_x: i64,
    pub center_y: i64,
    pub half_width: i64,
    pub half_height: i64,
}

/// The collider of `rect` for cells of `cell_width` by `cell_height` pixels,
/// with the grid's origin at pixel (`anchor_x`, `anchor_y`); in half-pixels.
pub open spec fn collider_of(rect: Rect, cell_width: int, cell_height: int, anchor_x: int, anchor_y: int) -> ColliderBox {
    ColliderBox {
        center_x: (2 * anchor_x + (rect.left + rect.right + 1) * cell_width) as i64,
        center_y: (2 * anchor_y + (rect.bottom + rect.top + 1) * cell_height) as i64,
        half_width: ((rect.right - rect.left + 1) * cell_width) as i64,
        half_height: ((rect.top - rect.bottom + 1) * cell_height) as i64,
    }
}

proof fn lemma_product_bound(a: int, c: int)
    requires
        -0x1_0000_0000 <= a <= 0x1_0000_0000,
        0 < c <= 0x7fff_ffff,
    ensures
        -0x1_0000_0000 * 0x7fff_ffff <= a * c <= 0x1_0000_0000 * 0x7fff_ffff,
{
    if a >= 0 {
        assert(a * c <= 0x1_0000_0000 * c) by (nonlinear_arith)
            requires 0 <= a <= 0x1_0000_0000, 0 < c;
        assert(0x1_0000_0000 * c <= 0x1_0000_0000 * 0x7fff_ffff) by (nonlinear_arith)
            requires c <= 0x7fff_ffff;
        assert(a * c >= 0) by (nonlinear_arith)
            requires 0 <= a, 0 < c;
    } else {
        assert(a * c >= -0x1_0000_0000 * c) by (nonlinear_arith)
            requires -0x1_0000_0000 <= a < 0, 0 < c;
        assert(-0x1_0000_0000 * c >= -0x1_0000_0000 * 0x7fff_ffff) by (nonlinear_arith)
            requires c <= 0x7fff_ffff;
        assert(a * c < 0) by (nonlinear_arith)
            requires a < 0, 0 < c;
    }
}

/// The box collider of `rect`: half extents
/// `((right - left + 1) * cell_width / 2, (top - bottom + 1) * cell_height / 2)`
/// and centre `anchor + ((left + right + 1) * cell_width / 2, (bottom + top + 1) * cell_height / 2)`,
/// all in pixels and here counted in half-pixels.
pub fn rect_collider(rect: &Rect, cell_width: i32, cell_height: i32, anchor_x: i32, anchor_y: i32) -> (c: ColliderBox)
    requires
        cell_width > 0,
        cell_height > 0,
    ensures
        c == collider_of(*rect, cell_width as int, cell_height as int, anchor_x as int, anchor_y as int),
        2 * anchor_x + (rect.left + rect.right + 1) * cell_width == c.center_x,
        2 * anchor_y + (rect.bottom + rect.top + 1) * cell_height == c.center_y,
        (rect.right - rect.left + 1) * cell_width == c.half_width,
        (rect.top - rect.bottom + 1) * cell_height == c.half_height,
{
    let cw = cell_width as i64;
    let ch = cell_height as i64;
    let sx = rect.left as i64 + rect.right as i64 + 1;
    let sy = rect.bottom as i64 + rect.top as i64 + 1;
    let wx = rect.right as i64 - rect.left as i64 + 1;
    let wy = rect.top as i64 - rect.bottom as i64 + 1;
    proof {
        lemma_product_bound(sx as int, cw as int);
        lemma_product_bound(sy as int, ch as int);
        lemma_product_bound(wx as int, cw as int);
        lemma_product_bound(wy as int, ch as int);
    }
    ColliderBox {
        center_x: 2 * anchor_x as i64 + sx * cw,
        center_y: 2 * anchor_y as i64 + sy * ch,
        half_width: wx * cw,
        half_height: wy * ch,
    }
}

/// The box colliders of `rects`, in the same order.
pub fn rect_colliders(rects: &Vec<Rect>, cell_width: i32, cell_height: i32, anchor_x: i32, anchor_y: i32) -> (r: Vec<ColliderBox>)
    requires
        cell_width > 0,
        cell_height > 0,
    ensures
        r@.len() == rects@.len(),
        forall|i: int| 0 <= i < rects@.len() ==> #[trigger] r@[i]
            == collider_of(rects@[i], cell_width as int, cell_height as int, anchor_x as int, anchor_y as int),
{
    let mut r: Vec<ColliderBox> = Vec::new();
    let mut i: usize = 0;
    while i < rects.len()
        invariant
            i <= rects@.len(),
            cell_width > 0,
            cell_height > 0,
            r@.len() == i,
            forall|k: int| 0 <= k < i ==> #[trigger] r@[k]
                == collider_of(rects@[k], cell_width as int, cell_height as int, anchor_x as int, anchor_y as int),
        decreases rects@.len() - i,
    {
        let c = rect_collider(&rects[i], cell_width, cell_height, anchor_x, anchor_y);
        r.push(c);
        i = i + 1;
    }
    r
}

} // verus!
