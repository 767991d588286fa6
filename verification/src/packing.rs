use vstd::prelude::*;
use vstd::set_lib::lemma_int_range;
use vstd::set_lib::set_int_range;
use crate::primitive::{pack_into, pack_result, packer_dims, packer_new, packer_placed};
use crate::types::{
    in_layer, placements_disjoint, rects_disjoint, unplaceable, LayerConfig, Placement,
    SourceAsset,
};

verus! {

/// The width and height of each asset, in input order.
pub open spec fn dims_of(assets: Seq<SourceAsset>) -> Seq<(u32, u32)> {
    assets.map(|i: int, a: SourceAsset| (a.width, a.height))
}

/// The layer index and position chosen by trying the layers in increasing
/// index order and stopping at the first whose packer accepts the box.
pub open spec fn first_fit(
    dims: (u32, u32),
    layers: Seq<Seq<(u32, u32, u32, u32)>>,
    w: u32,
    h: u32,
) -> Option<(int, (u32, u32))>
    decreases layers.len(),
{
    if layers.len() == 0 {
        None
    } else {
        match pack_result(dims, layers[0], w, h) {
            Some(pos) => Some((0int, pos)),
            None => match first_fit(dims, layers.subrange(1, layers.len() as int), w, h) {
                Some(jp) => Some((jp.0 + 1, jp.1)),
                None => None,
            },
        }
    }
}

/// One step of the packing loop: the placement recorded for a `w x h` asset,
/// and the layer states after it. A box no layer can hold is `Unplaced` and
/// creates no layer; otherwise the first accepting layer receives it, and if
/// none does, a fresh layer is created and places it at the origin.
pub open spec fn place_one(
    cfg: LayerConfig,
    layers: Seq<Seq<(u32, u32, u32, u32)>>,
    w: u32,
    h: u32,
) -> (Placement, Seq<Seq<(u32, u32, u32, u32)>>) {
    if unplaceable(w, h, cfg) {
        (Placement::Unplaced, layers)
    } else {
        match first_fit((cfg.width, cfg.height), layers, w, h) {
            Some(jp) => (
                Placement::Placed { x: jp.1.0, y: jp.1.1, width: w, height: h, layer: jp.0 as u32 },
                layers.update(jp.0, layers[jp.0].push((jp.1.0, jp.1.1, w, h))),
            ),
            None => (
                Placement::Placed { x: 0, y: 0, width: w, height: h, layer: layers.len() as u32 },
                layers.push(seq![(0u32, 0u32, w, h)]),
            ),
        }
    }
}

/// The whole packing run over an ordered dimension sequence: the placements,
/// in input order, and the final layer states. `place_all` returns exactly
/// this, which makes the run a function of its input alone.
pub open spec fn place_seq(cfg: LayerConfig, dims: Seq<(u32, u32)>) -> (
    Seq<Placement>,
    Seq<Seq<(u32, u32, u32, u32)>>,
)
    decreases dims.len(),
{
    if dims.len() == 0 {
        (Seq::<Placement>::empty(), Seq::<Seq<(u32, u32, u32, u32)>>::empty())
    } else {
        let prev = place_seq(cfg, dims.drop_last());
        let step = place_one(cfg, prev.1, dims.last().0, dims.last().1);
        (prev.0.push(step.0), step.1)
    }
}

/// The placement for one asset relates to the asset and the layer count as
/// the packing rules demand: `Unplaced` exactly when no layer could hold the
/// asset, and otherwise a rectangle of the asset's own size, inside the
/// layer bounds, in an existing layer.
pub open spec fn placement_valid(
    p: Placement,
    a: SourceAsset,
    cfg: LayerConfig,
    nlayers: int,
) -> bool {
    &&& (p is Unplaced <==> unplaceable(a.width, a.height, cfg))
    &&& (p matches Placement::Placed { x, y, width, height, layer } ==> {
        &&& width == a.width
        &&& height == a.height
        &&& x + width <= cfg.width
        &&& y + height <= cfg.height
        &&& (layer as int) < nlayers
    })
}

/// Some placement lies in layer `l`.
pub open spec fn layer_used(ps: Seq<Placement>, l: int) -> bool {
    exists|k: int| 0 <= k < ps.len() && in_layer(#[trigger] ps[k], l)
}

/// The layer indices that appear among the placements.
pub open spec fn used_layers(ps: Seq<Placement>) -> Set<int> {
    Set::new(|l: int| layer_used(ps, l))
}

proof fn lemma_first_fit_found(
    dims: (u32, u32),
    layers: Seq<Seq<(u32, u32, u32, u32)>>,
    w: u32,
    h: u32,
    j: int,
    pos: (u32, u32),
)
    requires
        0 <= j < layers.len(),
        forall|k: int| 0 <= k < j ==> pack_result(dims, #[trigger] layers[k], w, h) is None,
        pack_result(dims, layers[j], w, h) == Some(pos),
    ensures
        first_fit(dims, layers, w, h) == Some((j, pos)),
    decreases j,
{
    if j == 0 {
    } else {
        let tail = layers.subrange(1, layers.len() as int);
        assert(pack_result(dims, layers[0], w, h) is None);
        assert(tail[j - 1] == layers[j]);
        assert forall|k: int| 0 <= k < j - 1 implies pack_result(
            dims,
            #[trigger] tail[k],
            w,
            h,
        ) is None by {
            assert(tail[k] == layers[k + 1]);
        }
        lemma_first_fit_found(dims, tail, w, h, j - 1, pos);
    }
}

proof fn lemma_first_fit_none(
    dims: (u32, u32),
    layers: Seq<Seq<(u32, u32, u32, u32)>>,
    w: u32,
    h: u32,
)
    requires
        forall|k: int| 0 <= k < layers.len() ==> pack_result(dims, #[trigger] layers[k], w, h) is None,
    ensures
        first_fit(dims, layers, w, h) is None,
    decreases layers.len(),
{
    if layers.len() > 0 {
        let tail = layers.subrange(1, layers.len() as int);
        assert forall|k: int| 0 <= k < tail.len() implies pack_result(
            dims,
            #[trigger] tail[k],
            w,
            h,
        ) is None by {
            assert(tail[k] == layers[k + 1]);
        }
        lemma_first_fit_none(dims, tail, w, h);
    }
}

proof fn lemma_layer_used_push(ps: Seq<Placement>, p: Placement, l: int)
    requires
        layer_used(ps, l) || in_layer(p, l),
    ensures
        layer_used(ps.push(p), l),
{
    if layer_used(ps, l) {
        let k = choose|k: int| 0 <= k < ps.len() && in_layer(#[trigger] ps[k], l);
        assert(in_layer(ps.push(p)[k], l));
    } else {
        assert(in_layer(ps.push(p)[ps.len() as int], l));
    }
}

proof fn lemma_place_seq_step(cfg: LayerConfig, dims: Seq<(u32, u32)>, i: int)
    requires
        0 <= i < dims.len(),
    ensures
        place_seq(cfg, dims.take(i + 1)).0 == place_seq(cfg, dims.take(i)).0.push(
            place_one(cfg, place_seq(cfg, dims.take(i)).1, dims[i].0, dims[i].1).0,
        ),
        place_seq(cfg, dims.take(i + 1)).1 == place_one(
            cfg,
            place_seq(cfg, dims.take(i)).1,
            dims[i].0,
            dims[i].1,
        ).1,
{
    let s = dims.take(i + 1);
    assert(s.len() == i + 1);
    assert(s.drop_last() =~= dims.take(i));
    assert(s.last() == dims[i]);
}

/// Place every asset, in input order, into the first layer that accepts it,
/// creating layers as needed; an asset that fits no layer is `Unplaced` and
/// creates none. Deterministic: the result equals `place_seq` applied to the
/// configuration and the asset dimensions, so equal inputs give equal
/// results. The placements are rectangles of the assets' own sizes, inside
/// the layer bounds, mutually disjoint within each layer, and the layer
/// indices used are exactly `0 .. layer count`.
pub fn place_all(assets: &Vec<SourceAsset>, config: LayerConfig) -> (r: (Vec<Placement>, u32))
    requires
        config.wf(),
        assets@.len() <= u32::MAX,
    ensures
        r.0@.len() == assets@.len(),
        r.0@ == place_seq(config, dims_of(assets@)).0,
        r.1 as int == place_seq(config, dims_of(assets@)).1.len(),
        r.1 <= assets@.len(),
        forall|k: int| 0 <= k < assets@.len() ==> placement_valid(
            #[trigger] r.0@[k],
            assets@[k],
            config,
            r.1 as int,
        ),
        forall|k1: int, k2: int|
            0 <= k1 < assets@.len() && 0 <= k2 < assets@.len() && k1 != k2 ==> placements_disjoint(
                #[trigger] r.0@[k1],
                #[trigger] r.0@[k2],
            ),
        forall|l: int| 0 <= l < r.1 ==> #[trigger] layer_used(r.0@, l),
{
    let ghost dims = dims_of(assets@);
    let mut layers: Vec<rect_packer::Packer> = Vec::new();
    let mut placements: Vec<Placement> = Vec::new();
    let ghost mut lm = Seq::<Seq<(u32, u32, u32, u32)>>::empty();
    let mut i: usize = 0;
    while i < assets.len()
        invariant
            i <= assets@.len(),
            assets@.len() <= u32::MAX,
            config.wf(),
            dims == dims_of(assets@),
            placements@.len() == i,
            layers@.len() == lm.len(),
            lm.len() <= i,
            forall|k: int| 0 <= k < lm.len() ==> packer_dims(#[trigger] layers@[k]) == (
                config.width,
                config.height,
            ),
            forall|k: int| 0 <= k < lm.len() ==> packer_placed(#[trigger] layers@[k]) == lm[k],
            (placements@, lm) == place_seq(config, dims.take(i as int)),
            forall|k: int| 0 <= k < i ==> placement_valid(
                #[trigger] placements@[k],
                assets@[k],
                config,
                lm.len() as int,
            ),
            forall|k: int| 0 <= k < i ==> (#[trigger] placements@[k] matches Placement::Placed {
                x,
                y,
                width,
                height,
                layer,
            } ==> lm[layer as int].contains((x, y, width, height))),
            forall|k1: int, k2: int|
                0 <= k1 < i && 0 <= k2 < i && k1 != k2 ==> placements_disjoint(
                    #[trigger] placements@[k1],
                    #[trigger] placements@[k2],
                ),
            forall|l: int| 0 <= l < lm.len() ==> #[trigger] layer_used(placements@, l),
        decreases assets@.len() - i,
    {
        let w = assets[i].width;
        let h = assets[i].height;
        proof {
            assert(dims[i as int] == (w, h));
        }
        if w == 0 || h == 0 || w > config.width || h > config.height {
            let ghost ps0 = placements@;
            placements.push(Placement::Unplaced);
            proof {
                lemma_place_seq_step(config, dims, i as int);
                assert(placements@ == place_seq(config, dims.take(i as int + 1)).0);
                assert forall|l: int| 0 <= l < lm.len() implies #[trigger] layer_used(
                    placements@,
                    l,
                ) by {
                    lemma_layer_used_push(ps0, Placement::Unplaced, l);
                }
            }
        } else {
            let ghost lm0 = lm;
            let mut found: Option<(u32, u32, u32)> = None;
            let mut j: usize = 0;
            while j < layers.len() && found.is_none()
                invariant
                    0 < w <= config.width,
                    0 < h <= config.height,
                    config.wf(),
                    i < assets@.len(),
                    assets@.len() <= u32::MAX,
                    lm0.len() <= i,
                    layers@.len() == lm.len(),
                    forall|k: int| 0 <= k < lm.len() ==> packer_dims(#[trigger] layers@[k]) == (
                        config.width,
                        config.height,
                    ),
                    forall|k: int| 0 <= k < lm.len() ==> packer_placed(#[trigger] layers@[k])
                        == lm[k],
                    found is None ==> {
                        &&& j <= lm0.len()
                        &&& lm == lm0
                    },
                    found is None ==> forall|k: int| 0 <= k < j ==> pack_result(
                        (config.width, config.height),
                        #[trigger] lm0[k],
                        w,
                        h,
                    ) is None,
                    found matches Some(f) ==> {
                        &&& f.2 as int == j
                        &&& j < lm0.len()
                        &&& (forall|k: int| 0 <= k < f.2 as int ==> pack_result(
                            (config.width, config.height),
                            #[trigger] lm0[k],
                            w,
                            h,
                        ) is None)
                        &&& pack_result((config.width, config.height), lm0[f.2 as int], w, h)
                            == Some((f.0, f.1))
                        &&& f.0 + w <= config.width
                        &&& f.1 + h <= config.height
                        &&& (forall|k: int| 0 <= k < lm0[f.2 as int].len() ==> rects_disjoint(
                            #[trigger] lm0[f.2 as int][k],
                            (f.0, f.1, w, h),
                        ))
                        &&& lm == lm0.update(
                            f.2 as int,
                            lm0[f.2 as int].push((f.0, f.1, w, h)),
                        )
                    },
                decreases lm0.len() - j + (if found is None { 1int } else { 0int }),
            {
                let r = pack_into(&mut layers, j, w, h);
                match r {
                    Some(pos) => {
                        proof {
                            lm = lm0.update(j as int, lm0[j as int].push((pos.0, pos.1, w, h)));
                        }
                        found = Some((pos.0, pos.1, j as u32));
                    }
                    None => {
                        j = j + 1;
                    }
                }
            }
            match found {
                Some(f) => {
                    let ghost ps0 = placements@;
                    placements.push(
                        Placement::Placed { x: f.0, y: f.1, width: w, height: h, layer: f.2 },
                    );
                    proof {
                        assert forall|l: int| 0 <= l < lm.len() implies #[trigger] layer_used(
                            placements@,
                            l,
                        ) by {
                            lemma_layer_used_push(
                                ps0,
                                Placement::Placed {
                                    x: f.0,
                                    y: f.1,
                                    width: w,
                                    height: h,
                                    layer: f.2,
                                },
                                l,
                            );
                        }
                        lemma_first_fit_found(
                            (config.width, config.height),
                            lm0,
                            w,
                            h,
                            f.2 as int,
                            (f.0, f.1),
                        );
                        lemma_place_seq_step(config, dims, i as int);
                        assert(placements@ == place_seq(config, dims.take(i as int + 1)).0);
                        assert(lm == place_seq(config, dims.take(i as int + 1)).1);
                        let nw = placements@.len() - 1;
                        // membership for every placement, over the updated model
                        assert forall|k: int|
                            0 <= k < placements@.len() implies (
                        #[trigger] placements@[k] matches Placement::Placed {
                            x,
                            y,
                            width,
                            height,
                            layer,
                        } ==> lm[layer as int].contains((x, y, width, height))) by {
                            match placements@[k] {
                                Placement::Placed { x, y, width, height, layer } => {
                                    if k < nw {
                                        if layer as int == f.2 as int {
                                            let wi = choose|wi: int|
                                                0 <= wi < lm0[f.2 as int].len()
                                                    && lm0[f.2 as int][wi] == (x, y, width, height);
                                            assert(lm[layer as int][wi] == (x, y, width, height));
                                        } else {
                                            assert(lm[layer as int] == lm0[layer as int]);
                                        }
                                    } else {
                                        let last = lm[f.2 as int].len() - 1;
                                        assert(lm[f.2 as int][last] == (x, y, width, height));
                                    }
                                }
                                Placement::Unplaced => {}
                            }
                        }
                        // pairwise disjointness, the new placement against the old
                        assert forall|k1: int, k2: int|
                            0 <= k1 < placements@.len() && 0 <= k2 < placements@.len() && k1 != k2
                            implies placements_disjoint(
                            #[trigger] placements@[k1],
                            #[trigger] placements@[k2],
                        ) by {
                            if k1 == nw || k2 == nw {
                                let ko = if k1 == nw { k2 } else { k1 };
                                match placements@[ko] {
                                    Placement::Placed { x, y, width, height, layer } => {
                                        if layer == f.2 {
                                            let wi = choose|wi: int|
                                                0 <= wi < lm0[f.2 as int].len()
                                                    && lm0[f.2 as int][wi] == (x, y, width, height);
                                            assert(rects_disjoint(
                                                lm0[f.2 as int][wi],
                                                (f.0, f.1, w, h),
                                            ));
                                        }
                                    }
                                    Placement::Unplaced => {}
                                }
                            }
                        }
                    }
                }
                None => {
                    proof {
                        assert(j == lm0.len());
                        lemma_first_fit_none((config.width, config.height), lm0, w, h);
                    }
                    let newp = packer_new(config.width, config.height);
                    layers.push(newp);
                    let idx = layers.len() - 1;
                    let r = pack_into(&mut layers, idx, w, h);
                    proof {
                        assert(r == Some((0u32, 0u32)));
                        lm = lm.push(seq![(0u32, 0u32, w, h)]);
                        assert(packer_placed(layers@[idx as int]) == lm[idx as int]);
                    }
                    let lay = idx as u32;
                    let ghost ps0 = placements@;
                    placements.push(
                        Placement::Placed { x: 0, y: 0, width: w, height: h, layer: lay },
                    );
                    proof {
                        assert(lay as int == lm0.len());
                        lemma_place_seq_step(config, dims, i as int);
                        assert(placements@ == place_seq(config, dims.take(i as int + 1)).0);
                        assert(lm == place_seq(config, dims.take(i as int + 1)).1);
                        let nw = placements@.len() - 1;
                        assert(lm[lay as int].contains((0u32, 0u32, w, h))) by {
                            assert(lm[lay as int][0] == (0u32, 0u32, w, h));
                        }
                        // every older layer is untouched
                        assert(forall|k: int| 0 <= k < lm0.len() ==> lm[k] == #[trigger] lm0[k]);
                        // surjectivity: older layers keep their witness, the
                        // new layer has the new placement
                        assert(in_layer(placements@[nw], lay as int));
                        assert forall|l: int| 0 <= l < lm.len() implies #[trigger] layer_used(
                            placements@,
                            l,
                        ) by {
                            lemma_layer_used_push(
                                ps0,
                                Placement::Placed { x: 0, y: 0, width: w, height: h, layer: lay },
                                l,
                            );
                        }
                    }
                }
            }
        }
        i = i + 1;
    }
    proof {
        assert(dims.take(assets@.len() as int) =~= dims);
    }
    let count = layers.len() as u32;
    (placements, count)
}

/// Law: an asset whose width and height are positive and no larger than the
/// layer dimensions is always placed — a fresh, empty layer would accept it.
/// A zero-width or zero-height asset is refused by the placement primitive
/// and stays unplaced, so it is left out here.
pub proof fn lemma_fitting_assets_placed(
    ps: Seq<Placement>,
    assets: Seq<SourceAsset>,
    config: LayerConfig,
    count: u32,
)
    requires
        ps.len() == assets.len(),
        forall|k: int| 0 <= k < ps.len() ==> placement_valid(
            #[trigger] ps[k],
            assets[k],
            config,
            count as int,
        ),
    ensures
        forall|k: int|
            0 <= k < ps.len() && 0 < assets[k].width <= config.width && 0 < assets[k].height
                <= config.height ==> (#[trigger] ps[k]) is Placed,
{
}

/// Law: the layer count returned by packing equals the number of distinct
/// layer indices appearing among the placements.
pub proof fn lemma_layer_count_is_distinct_layers(ps: Seq<Placement>, count: u32)
    requires
        forall|k: int| 0 <= k < ps.len() ==> ((#[trigger] ps[k]) is Placed ==> (ps[k]->layer as int)
            < count),
        forall|l: int| 0 <= l < count ==> #[trigger] layer_used(ps, l),
    ensures
        used_layers(ps) =~= set_int_range(0, count as int),
        used_layers(ps).len() == count,
{
    assert forall|l: int| used_layers(ps).contains(l) implies set_int_range(
        0,
        count as int,
    ).contains(l) by {
        let k = choose|k: int| 0 <= k < ps.len() && in_layer(ps[k], l);
        assert(ps[k] is Placed);
    }
    assert forall|l: int| set_int_range(0, count as int).contains(l) implies used_layers(
        ps,
    ).contains(l) by {
        assert(layer_used(ps, l));
    }
    assert(used_layers(ps) =~= set_int_range(0, count as int));
    lemma_int_range(0, count as int);
}

} // verus!
