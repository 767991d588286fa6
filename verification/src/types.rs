use vstd::prelude::*;

verus! {

/// Fixed dimensions shared by every atlas layer.
#[derive(Clone, Copy, Debug, PartialEq, Eq, Structural)]
pub struct LayerConfig {
    pub width: u32,
    pub height: u32,
}

impl LayerConfig {
    /// Both dimensions are positive and below 2^30: the placement primitive
    /// adds two coordinates in signed 32-bit arithmetic, and under this bound
    /// every such sum stays at most 2^31 - 2 and cannot wrap.
    pub open spec fn wf(self) -> bool {
        0 < self.width && 0 < self.height
        && self.width < 0x4000_0000u32 && self.height < 0x4000_0000u32
    }
}

/// One decoded image: a unique name, its dimensions, and its pixels as
/// tightly packed rows of 4-byte RGBA values.
pub struct SourceAsset {
    pub name: Vec<u8>,
    pub width: u32,
    pub height: u32,
    pub pixels: Vec<u8>,
}

impl SourceAsset {
    /// The pixel buffer holds exactly 4 bytes per pixel.
    pub open spec fn wf(self) -> bool {
        self.pixels@.len() == 4 * self.width * self.height
    }

    /// The RGBA value of the pixel at column `x`, row `y`.
    pub open spec fn pixel(self, x: int, y: int) -> (u8, u8, u8, u8) {
        let base = 4 * (y * self.width + x);
        (self.pixels@[base], self.pixels@[base + 1], self.pixels@[base + 2], self.pixels@[base + 3])
    }
}

/// The outcome recorded for one asset, in input order: a rectangle inside one
/// layer, or the explicit mark that the asset fits in no layer.
#[derive(Clone, Copy, Debug, PartialEq, Eq, Structural)]
pub enum Placement {
    Placed { x: u32, y: u32, width: u32, height: u32, layer: u32 },
    Unplaced,
}

impl Placement {
    /// The placed rectangle as `(x, y, width, height)`.
    pub open spec fn rect(self) -> (u32, u32, u32, u32) {
        (self->x, self->y, self->width, self->height)
    }
}

/// Two axis-aligned rectangles `(x, y, width, height)` share no pixel.
pub open spec fn rects_disjoint(a: (u32, u32, u32, u32), b: (u32, u32, u32, u32)) -> bool {
    ||| a.0 + a.2 <= b.0
    ||| b.0 + b.2 <= a.0
    ||| a.1 + a.3 <= b.1
    ||| b.1 + b.3 <= a.1
}

/// Placements in the same layer never overlap; placements in different
/// layers are unconstrained.
pub open spec fn placements_disjoint(a: Placement, b: Placement) -> bool {
    a is Placed && b is Placed && a->layer == b->layer ==> rects_disjoint(a.rect(), b.rect())
}

/// `p` is a placement into layer `l`.
pub open spec fn in_layer(p: Placement, l: int) -> bool {
    p is Placed && p->layer == l
}

/// The asset dimensions that make placement impossible: a zero-area box is
/// refused by the placement primitive, and a box wider or taller than the
/// layer exceeds every layer, empty or not.
pub open spec fn unplaceable(w: u32, h: u32, cfg: LayerConfig) -> bool {
    w == 0 || h == 0 || w > cfg.width || h > cfg.height
}

} // verus!
