use vstd::prelude::*;
use crate::compose::{composite, covered, placed_content, RgbaBuffer};
use crate::manifest::{
    clone_bytes, entry_view, lemma_record_spec_view, record_view, Manifest, ManifestEntry,
};
use crate::packing::{dims_of, layer_used, place_all, place_seq, placement_valid};
use crate::types::{placements_disjoint, LayerConfig, Placement, SourceAsset};

verus! {

/// Everything one packing run produces: the per-asset placements, the number
/// of layers, the composited pixel buffer, and the manifest.
pub struct Atlas {
    pub placements: Vec<Placement>,
    pub layer_count: u32,
    pub buffer: RgbaBuffer,
    pub manifest: Manifest,
}

/// The manifest entry views after recording the first `k` placements:
/// one record per placed asset, keyed by name, the last write winning.
pub open spec fn manifest_views_upto(
    assets: Seq<SourceAsset>,
    ps: Seq<Placement>,
    k: int,
) -> Seq<(Seq<u8>, u32, u32, u32, u32, u32)>
    decreases k,
{
    if k <= 0 {
        Seq::empty()
    } else {
        let prev = manifest_views_upto(assets, ps, k - 1);
        match ps[k - 1] {
            Placement::Placed { x, y, width, height, layer } => record_view(
                prev,
                (assets[k - 1].name@, x, y, width, height, layer),
            ),
            Placement::Unplaced => prev,
        }
    }
}

/// The manifest entry views for a whole run.
pub open spec fn manifest_views(assets: Seq<SourceAsset>, ps: Seq<Placement>) -> Seq<
    (Seq<u8>, u32, u32, u32, u32, u32),
> {
    manifest_views_upto(assets, ps, ps.len() as int)
}

/// Pack every asset, compose the atlas buffer, and build the manifest, as
/// one run over the input order.
pub fn build_atlas(assets: &Vec<SourceAsset>, config: LayerConfig) -> (r: Atlas)
    requires
        config.wf(),
        assets@.len() <= u32::MAX,
        forall|k: int| 0 <= k < assets@.len() ==> (#[trigger] assets@[k]).wf(),
        config.height * assets@.len() <= u32::MAX,
        4 * config.width * config.height * assets@.len() <= usize::MAX,
    ensures
        r.placements@.len() == assets@.len(),
        r.placements@ == place_seq(config, dims_of(assets@)).0,
        r.layer_count as int == place_seq(config, dims_of(assets@)).1.len(),
        r.layer_count <= assets@.len(),
        forall|k: int| 0 <= k < assets@.len() ==> placement_valid(
            #[trigger] r.placements@[k],
            assets@[k],
            config,
            r.layer_count as int,
        ),
        forall|k1: int, k2: int|
            0 <= k1 < assets@.len() && 0 <= k2 < assets@.len() && k1 != k2 ==> placements_disjoint(
                #[trigger] r.placements@[k1],
                #[trigger] r.placements@[k2],
            ),
        forall|l: int| 0 <= l < r.layer_count ==> #[trigger] layer_used(r.placements@, l),
        r.buffer.wf(),
        r.buffer.width == config.width,
        r.buffer.height == config.height * r.layer_count,
        forall|k: int| 0 <= k < r.placements@.len() ==> placed_content(
            r.buffer,
            assets@[k],
            #[trigger] r.placements@[k],
            config,
        ),
        forall|x: int, y: int|
            0 <= x < r.buffer.width && 0 <= y < r.buffer.height && !covered(
                r.placements@,
                config,
                x,
                y,
            ) ==> r.buffer.pixel(x, y) == (0u8, 0u8, 0u8, 0u8),
        r.manifest.wf(),
        r.manifest.entries@.map_values(|e: ManifestEntry| entry_view(e)) == manifest_views(
            assets@,
            r.placements@,
        ),
{
    let (placements, layer_count) = place_all(assets, config);
    proof {
        assert(config.height * layer_count <= u32::MAX && 4 * config.width * config.height
            * layer_count <= usize::MAX) by (nonlinear_arith)
            requires
                0 <= layer_count <= assets@.len(),
                0 <= config.height,
                0 <= config.width,
                config.height * assets@.len() <= u32::MAX,
                4 * config.width * config.height * assets@.len() <= usize::MAX,
        ;
    }
    let mut manifest = Manifest::new();
    let n = placements.len();
    let mut i: usize = 0;
    while i < n
        invariant
            n == placements@.len(),
            placements@.len() == assets@.len(),
            i <= n,
            forall|k: int| 0 <= k < assets@.len() ==> (#[trigger] assets@[k]).wf(),
            manifest.wf(),
            manifest.entries@.map_values(|e: ManifestEntry| entry_view(e)) == manifest_views_upto(
                assets@,
                placements@,
                i as int,
            ),
        decreases n - i,
    {
        let pk = placements[i];
        match pk {
            Placement::Placed { x, y, width, height, layer } => {
                let name = clone_bytes(&assets[i].name);
                let ghost m0 = manifest.entries@;
                let ghost e = (ManifestEntry { name: name, x, y, width, height, layer });
                manifest.record(name, x, y, width, height, layer);
                proof {
                    lemma_record_spec_view(m0, e);
                    assert(entry_view(e) == (assets@[i as int].name@, x, y, width, height, layer));
                }
            }
            Placement::Unplaced => {}
        }
        i = i + 1;
    }
    let buffer = composite(assets, &placements, config, layer_count);
    Atlas { placements, layer_count, buffer, manifest }
}

} // verus!
