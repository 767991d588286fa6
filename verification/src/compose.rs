use vstd::prelude::*;
use crate::packing::placement_valid;
use crate::types::{placements_disjoint, LayerConfig, Placement, SourceAsset};

verus! {

/// The composited atlas: all layers stacked vertically, 4 bytes per pixel.
pub struct RgbaBuffer {
    pub width: u32,
    pub height: u32,
    pub pixels: Vec<u8>,
}

impl RgbaBuffer {
    /// The pixel buffer holds exactly 4 bytes per pixel.
    pub open spec fn wf(self) -> bool {
        self.pixels@.len() == 4 * self.width * self.height
    }

    /// The RGBA value of the pixel at column `x`, row `y`.
    pub open spec fn pixel(self, x: int, y: int) -> (u8, u8, u8, u8) {
        let base = 4 * (y * self.width + x);
        (self.pixels@[base], self.pixels@[base + 1], self.pixels@[base + 2], self.pixels@[base + 3])
    }

    /// Overwrite the pixel at `(x, y)`, leaving every other pixel unchanged.
    pub fn set_pixel(&mut self, x: u32, y: u32, p: (u8, u8, u8, u8))
        requires
            old(self).wf(),
            x < old(self).width,
            y < old(self).height,
        ensures
            final(self).wf(),
            final(self).width == old(self).width,
            final(self).height == old(self).height,
            final(self).pixel(x as int, y as int) == p,
            forall|x2: int, y2: int|
                0 <= x2 < old(self).width && 0 <= y2 < old(self).height && (x2, y2) != (
                    x as int,
                    y as int,
                ) ==> final(self).pixel(x2, y2) == old(self).pixel(x2, y2),
    {
        let n: usize = self.pixels.len();
        proof {
            lemma_pixel_in_range(self.width as int, self.height as int, x as int, y as int);
            assert(n == 4 * self.width * self.height);
            assert(4 * ((y as int) * (self.width as int) + (x as int)) + 3 < n);
        }
        let row: usize = (y as usize) * (self.width as usize);
        let base: usize = 4 * (row + (x as usize));
        self.pixels.set(base, p.0);
        self.pixels.set(base + 1, p.1);
        self.pixels.set(base + 2, p.2);
        self.pixels.set(base + 3, p.3);
        proof {
            assert forall|x2: int, y2: int|
                0 <= x2 < self.width && 0 <= y2 < self.height && (x2, y2) != (x as int, y as int)
                implies self.pixel(x2, y2) == old(self).pixel(x2, y2) by {
                lemma_pixel_in_range(self.width as int, self.height as int, x2, y2);
                lemma_pixel_index_injective(self.width as int, x as int, y as int, x2, y2);
            }
        }
    }
}

/// The byte range of a pixel lies inside a `4 * wd * ht` buffer.
proof fn lemma_pixel_in_range(wd: int, ht: int, x: int, y: int)
    requires
        0 <= x < wd,
        0 <= y < ht,
    ensures
        0 <= y * wd,
        0 <= 4 * (y * wd + x),
        y * wd + x < wd * ht,
        4 * (y * wd + x) + 3 < 4 * (wd * ht),
        4 * (wd * ht) == 4 * wd * ht,
{
    assert(0 <= y * wd && y * wd + x < wd * ht && 4 * (y * wd + x) + 3 < 4 * (wd * ht) && 4 * (wd
        * ht) == 4 * wd * ht) by (nonlinear_arith)
        requires
            0 <= x < wd,
            0 <= y < ht,
    ;
}

/// Distinct pixel coordinates have distinct buffer offsets.
proof fn lemma_pixel_index_injective(wd: int, x1: int, y1: int, x2: int, y2: int)
    requires
        0 <= x1 < wd,
        0 <= x2 < wd,
        0 <= y1,
        0 <= y2,
        (x1, y1) != (x2, y2),
    ensures
        y1 * wd + x1 != y2 * wd + x2,
{
    assert(y1 * wd + x1 != y2 * wd + x2) by (nonlinear_arith)
        requires
            0 <= x1 < wd,
            0 <= x2 < wd,
            0 <= y1,
            0 <= y2,
            (x1, y1) != (x2, y2),
    ;
}

/// Read one RGBA pixel out of an asset's buffer.
fn asset_pixel(a: &SourceAsset, x: u32, y: u32) -> (p: (u8, u8, u8, u8))
    requires
        a.wf(),
        x < a.width,
        y < a.height,
    ensures
        p == a.pixel(x as int, y as int),
{
    let n: usize = a.pixels.len();
    proof {
        lemma_pixel_in_range(a.width as int, a.height as int, x as int, y as int);
        assert(n == 4 * a.width * a.height);
        assert(4 * ((y as int) * (a.width as int) + (x as int)) + 3 < n);
    }
    let row: usize = (y as usize) * (a.width as usize);
    let base: usize = 4 * (row + (x as usize));
    (a.pixels[base], a.pixels[base + 1], a.pixels[base + 2], a.pixels[base + 3])
}

/// The global atlas pixel `(x, y)` lies inside the placed rectangle of `p`,
/// whose layer occupies the row band starting at `layer * cfg.height`.
pub open spec fn global_rect_contains(p: Placement, cfg: LayerConfig, x: int, y: int) -> bool {
    p matches Placement::Placed { x: px, y: py, width, height, layer } && {
        &&& px <= x < px + width
        &&& layer * cfg.height + py <= y < layer * cfg.height + py + height
    }
}

/// Some placement covers the global atlas pixel `(x, y)`.
pub open spec fn covered(ps: Seq<Placement>, cfg: LayerConfig, x: int, y: int) -> bool {
    exists|k: int| 0 <= k < ps.len() && global_rect_contains(#[trigger] ps[k], cfg, x, y)
}

/// The atlas holds, at the placed rectangle of `p`, exactly the pixels of `a`.
pub open spec fn placed_content(
    out: RgbaBuffer,
    a: SourceAsset,
    p: Placement,
    cfg: LayerConfig,
) -> bool {
    p matches Placement::Placed { x, y, width, height, layer } ==> forall|dx: int, dy: int|
        0 <= dx < width && 0 <= dy < height ==> out.pixel(x + dx, layer * cfg.height + y + dy)
            == #[trigger] a.pixel(dx, dy)
}

/// A layer's row band ends inside the stacked buffer.
proof fn lemma_band(l: int, ch: int, lc: int)
    requires
        0 <= l < lc,
        0 <= ch,
    ensures
        l * ch + ch <= ch * lc,
        0 <= l * ch,
{
    assert(l * ch + ch <= ch * lc && 0 <= l * ch) by (nonlinear_arith)
        requires
            0 <= l < lc,
            0 <= ch,
    ;
}

/// Two placements that both cover one global pixel lie in the same layer and
/// their rectangles overlap.
proof fn lemma_regions_meet(p1: Placement, p2: Placement, cfg: LayerConfig, x: int, y: int)
    requires
        p1 is Placed,
        p2 is Placed,
        p1->y + p1->height <= cfg.height,
        p2->y + p2->height <= cfg.height,
        0 < cfg.height,
        global_rect_contains(p1, cfg, x, y),
        global_rect_contains(p2, cfg, x, y),
    ensures
        p1->layer == p2->layer,
        !crate::types::rects_disjoint(p1.rect(), p2.rect()),
{
    let l1 = p1->layer as int;
    let l2 = p2->layer as int;
    let ch = cfg.height as int;
    if l1 != l2 {
        if l1 < l2 {
            assert(l1 * ch + ch <= l2 * ch) by (nonlinear_arith)
                requires
                    l1 < l2,
                    0 <= ch,
            ;
            assert(y < l1 * ch + ch);
            assert(l2 * ch <= y);
            assert(false);
        } else {
            assert(l2 * ch + ch <= l1 * ch) by (nonlinear_arith)
                requires
                    l2 < l1,
                    0 <= ch,
            ;
            assert(y < l2 * ch + ch);
            assert(l1 * ch <= y);
            assert(false);
        }
    }
}

proof fn lemma_covered_take_step(ps: Seq<Placement>, cfg: LayerConfig, k: int, x: int, y: int)
    requires
        0 <= k < ps.len(),
    ensures
        covered(ps.take(k + 1), cfg, x, y) <==> (covered(ps.take(k), cfg, x, y)
            || global_rect_contains(ps[k], cfg, x, y)),
{
    if covered(ps.take(k + 1), cfg, x, y) {
        let i = choose|i: int|
            0 <= i < k + 1 && global_rect_contains(#[trigger] ps.take(k + 1)[i], cfg, x, y);
        if i < k {
            assert(global_rect_contains(ps.take(k)[i], cfg, x, y));
        } else {
            assert(ps.take(k + 1)[k] == ps[k]);
        }
    }
    if covered(ps.take(k), cfg, x, y) {
        let i = choose|i: int|
            0 <= i < k && global_rect_contains(#[trigger] ps.take(k)[i], cfg, x, y);
        assert(global_rect_contains(ps.take(k + 1)[i], cfg, x, y));
    }
    if global_rect_contains(ps[k], cfg, x, y) {
        assert(global_rect_contains(ps.take(k + 1)[k], cfg, x, y));
    }
}

/// Compose the atlas: a buffer of `config.width x (config.height *
/// layer_count)` pixels, holding each placed asset's pixels at its global
/// offset and transparent black everywhere no placement reaches.
pub fn composite(
    assets: &Vec<SourceAsset>,
    placements: &Vec<Placement>,
    config: LayerConfig,
    layer_count: u32,
) -> (out: RgbaBuffer)
    requires
        config.wf(),
        placements@.len() == assets@.len(),
        forall|k: int| 0 <= k < assets@.len() ==> (#[trigger] assets@[k]).wf(),
        forall|k: int| 0 <= k < assets@.len() ==> placement_valid(
            #[trigger] placements@[k],
            assets@[k],
            config,
            layer_count as int,
        ),
        forall|k1: int, k2: int|
            0 <= k1 < assets@.len() && 0 <= k2 < assets@.len() && k1 != k2 ==> placements_disjoint(
                #[trigger] placements@[k1],
                #[trigger] placements@[k2],
            ),
        config.height * layer_count <= u32::MAX,
        4 * config.width * config.height * layer_count <= usize::MAX,
    ensures
        out.wf(),
        out.width == config.width,
        out.height == config.height * layer_count,
        forall|k: int| 0 <= k < placements@.len() ==> placed_content(
            out,
            assets@[k],
            #[trigger] placements@[k],
            config,
        ),
        forall|x: int, y: int|
            0 <= x < out.width && 0 <= y < out.height && !covered(placements@, config, x, y)
                ==> out.pixel(x, y) == (0u8, 0u8, 0u8, 0u8),
{
    let oh: u32 = config.height * layer_count;
    proof {
        assert(0 <= config.width * oh && config.width * oh <= usize::MAX && 4 * (config.width * oh)
            <= usize::MAX && 4 * (config.width * oh) == 4 * config.width * oh)
            by (nonlinear_arith)
            requires
                oh == config.height * layer_count,
                0 <= config.width,
                0 <= oh,
                4 * config.width * config.height * layer_count <= usize::MAX,
        ;
    }
    let total: usize = (config.width as usize) * (oh as usize) * 4;
    let mut pixels: Vec<u8> = Vec::new();
    let mut t: usize = 0;
    while t < total
        invariant
            t <= total,
            pixels@.len() == t,
            forall|q: int| 0 <= q < t ==> pixels@[q] == 0u8,
        decreases total - t,
    {
        pixels.push(0u8);
        t = t + 1;
    }
    let mut out = RgbaBuffer { width: config.width, height: oh, pixels };
    proof {
        assert(out.wf());
        assert forall|x: int, y: int| 0 <= x < out.width && 0 <= y < out.height implies out.pixel(
            x,
            y,
        ) == (0u8, 0u8, 0u8, 0u8) by {
            lemma_pixel_in_range(out.width as int, out.height as int, x, y);
        }
    }
    let mut k: usize = 0;
    while k < placements.len()
        invariant
            k <= placements@.len(),
            placements@.len() == assets@.len(),
            config.wf(),
            out.wf(),
            out.width == config.width,
            out.height == oh,
            oh == config.height * layer_count,
            forall|k2: int| 0 <= k2 < assets@.len() ==> (#[trigger] assets@[k2]).wf(),
            forall|k2: int| 0 <= k2 < assets@.len() ==> placement_valid(
                #[trigger] placements@[k2],
                assets@[k2],
                config,
                layer_count as int,
            ),
            forall|k1: int, k2: int|
                0 <= k1 < assets@.len() && 0 <= k2 < assets@.len() && k1 != k2
                    ==> placements_disjoint(
                    #[trigger] placements@[k1],
                    #[trigger] placements@[k2],
                ),
            forall|k2: int| 0 <= k2 < k ==> placed_content(
                out,
                assets@[k2],
                #[trigger] placements@[k2],
                config,
            ),
            forall|x: int, y: int|
                0 <= x < out.width && 0 <= y < out.height && !covered(
                    placements@.take(k as int),
                    config,
                    x,
                    y,
                ) ==> out.pixel(x, y) == (0u8, 0u8, 0u8, 0u8),
        decreases placements@.len() - k,
    {
        let pk = placements[k];
        match pk {
            Placement::Placed { x: px, y: py, width: pw, height: ph, layer } => {
                proof {
                    assert(placement_valid(
                        placements@[k as int],
                        assets@[k as int],
                        config,
                        layer_count as int,
                    ));
                    lemma_band(layer as int, config.height as int, layer_count as int);
                    assert(layer * config.height + py + ph <= oh);
                }
                let base_y: u32 = layer * config.height + py;
                let ghost o0 = out;
                let mut dy: u32 = 0;
                while dy < ph
                    invariant
                        dy <= ph,
                        config.wf(),
                        placements@.len() == assets@.len(),
                        k < placements@.len(),
                        placements@[k as int] == (Placement::Placed {
                            x: px,
                            y: py,
                            width: pw,
                            height: ph,
                            layer,
                        }),
                        assets@[k as int].wf(),
                        pw == assets@[k as int].width,
                        ph == assets@[k as int].height,
                        px + pw <= config.width,
                        py + ph <= config.height,
                        base_y == layer * config.height + py,
                        base_y + ph <= oh,
                        out.wf(),
                        out.width == config.width,
                        out.height == oh,
                        o0.wf(),
                        o0.width == config.width,
                        o0.height == oh,
                        forall|x: int, y: int|
                            0 <= x < out.width && 0 <= y < out.height && !global_rect_contains(
                                placements@[k as int],
                                config,
                                x,
                                y,
                            ) ==> out.pixel(x, y) == o0.pixel(x, y),
                        forall|dx2: int, dy2: int|
                            0 <= dx2 < pw && 0 <= dy2 < dy ==> out.pixel(
                                px + dx2,
                                base_y + dy2,
                            ) == #[trigger] assets@[k as int].pixel(dx2, dy2),
                    decreases ph - dy,
                {
                    let mut dx: u32 = 0;
                    while dx < pw
                        invariant
                            dx <= pw,
                            dy < ph,
                            config.wf(),
                            placements@.len() == assets@.len(),
                            k < placements@.len(),
                            placements@[k as int] == (Placement::Placed {
                                x: px,
                                y: py,
                                width: pw,
                                height: ph,
                                layer,
                            }),
                            assets@[k as int].wf(),
                            pw == assets@[k as int].width,
                            ph == assets@[k as int].height,
                            px + pw <= config.width,
                            py + ph <= config.height,
                            base_y == layer * config.height + py,
                            base_y + ph <= oh,
                            out.wf(),
                            out.width == config.width,
                            out.height == oh,
                            o0.wf(),
                            o0.width == config.width,
                            o0.height == oh,
                            forall|x: int, y: int|
                                0 <= x < out.width && 0 <= y < out.height && !global_rect_contains(
                                    placements@[k as int],
                                    config,
                                    x,
                                    y,
                                ) ==> out.pixel(x, y) == o0.pixel(x, y),
                            forall|dx2: int, dy2: int|
                                0 <= dx2 < pw && 0 <= dy2 < dy ==> out.pixel(
                                    px + dx2,
                                    base_y + dy2,
                                ) == #[trigger] assets@[k as int].pixel(dx2, dy2),
                            forall|dx2: int|
                                0 <= dx2 < dx ==> out.pixel(px + dx2, base_y + dy)
                                    == #[trigger] assets@[k as int].pixel(dx2, dy as int),
                        decreases pw - dx,
                    {
                        let p = asset_pixel(&assets[k], dx, dy);
                        out.set_pixel(px + dx, base_y + dy, p);
                        dx = dx + 1;
                    }
                    dy = dy + 1;
                }
                proof {
                    // the newly filled region holds the asset's pixels; every
                    // other pixel kept its previous value
                    assert forall|k2: int| 0 <= k2 < k + 1 implies placed_content(
                        out,
                        assets@[k2],
                        #[trigger] placements@[k2],
                        config,
                    ) by {
                        if k2 < k {
                            match placements@[k2] {
                                Placement::Placed { x: qx, y: qy, width: qw, height: qh, layer: ql } => {
                                    assert forall|dx2: int, dy2: int|
                                        0 <= dx2 < qw && 0 <= dy2 < qh implies out.pixel(
                                        qx + dx2,
                                        ql * config.height + qy + dy2,
                                    ) == #[trigger] assets@[k2].pixel(dx2, dy2) by {
                                        let gx = qx + dx2;
                                        let gy = ql * config.height + qy + dy2;
                                        assert(global_rect_contains(placements@[k2], config, gx, gy));
                                        lemma_band(ql as int, config.height as int, layer_count as int);
                                        if global_rect_contains(placements@[k as int], config, gx, gy) {
                                            lemma_regions_meet(
                                                placements@[k as int],
                                                placements@[k2],
                                                config,
                                                gx,
                                                gy,
                                            );
                                        }
                                        assert(out.pixel(gx, gy) == o0.pixel(gx, gy));
                                    }
                                }
                                Placement::Unplaced => {}
                            }
                        }
                    }
                    assert forall|x: int, y: int|
                        0 <= x < out.width && 0 <= y < out.height && !covered(
                            placements@.take(k as int + 1),
                            config,
                            x,
                            y,
                        ) implies out.pixel(x, y) == (0u8, 0u8, 0u8, 0u8) by {
                        lemma_covered_take_step(placements@, config, k as int, x, y);
                    }
                }
            }
            Placement::Unplaced => {
                proof {
                    assert forall|x: int, y: int|
                        0 <= x < out.width && 0 <= y < out.height && !covered(
                            placements@.take(k as int + 1),
                            config,
                            x,
                            y,
                        ) implies out.pixel(x, y) == (0u8, 0u8, 0u8, 0u8) by {
                        lemma_covered_take_step(placements@, config, k as int, x, y);
                    }
                }
            }
        }
        k = k + 1;
    }
    proof {
        assert(placements@.take(placements@.len() as int) =~= placements@);
    }
    out
}

} // verus!
