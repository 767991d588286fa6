use atlas_packer::packing::place_all;
use atlas_packer::types::{LayerConfig, Placement, SourceAsset};

fn asset(name: &str, w: u32, h: u32) -> SourceAsset {
    SourceAsset {
        name: name.as_bytes().to_vec(),
        width: w,
        height: h,
        pixels: vec![0u8; (4 * w * h) as usize],
    }
}

#[test]
fn zero_assets_zero_layers() {
    let assets: Vec<SourceAsset> = Vec::new();
    let config = LayerConfig { width: 1024, height: 1024 };
    let (placements, layer_count) = place_all(&assets, config);
    assert_eq!(placements.len(), 0);
    assert_eq!(layer_count, 0);
}

#[test]
fn fitting_assets_always_placed() {
    let assets = vec![
        asset("a", 1024, 1024),
        asset("b", 1, 1),
        asset("c", 512, 1024),
        asset("d", 1024, 512),
    ];
    let config = LayerConfig { width: 1024, height: 1024 };
    let (placements, _) = place_all(&assets, config);
    for p in &placements {
        assert!(matches!(p, Placement::Placed { .. }));
    }
}

#[test]
fn oversize_asset_unplaced_no_layer() {
    let assets = vec![asset("wide", 2000, 10)];
    let config = LayerConfig { width: 1024, height: 1024 };
    let (placements, layer_count) = place_all(&assets, config);
    assert_eq!(placements[0], Placement::Unplaced);
    assert_eq!(layer_count, 0);
}

#[test]
fn tall_asset_unplaced_despite_rotation_fitting() {
    // 3200 wide, 320 tall: would fit rotated, but rotation is never attempted
    let assets = vec![asset("wide", 3200, 320)];
    let config = LayerConfig { width: 1024, height: 1024 };
    let (placements, layer_count) = place_all(&assets, config);
    assert_eq!(placements[0], Placement::Unplaced);
    assert_eq!(layer_count, 0);
}

#[test]
fn zero_sized_asset_unplaced() {
    let assets = vec![asset("empty", 0, 5)];
    let config = LayerConfig { width: 1024, height: 1024 };
    let (placements, layer_count) = place_all(&assets, config);
    assert_eq!(placements[0], Placement::Unplaced);
    assert_eq!(layer_count, 0);
}

#[test]
fn exact_fit_takes_whole_layer_at_origin() {
    let assets = vec![asset("full", 1024, 1024), asset("full2", 1024, 1024)];
    let config = LayerConfig { width: 1024, height: 1024 };
    let (placements, layer_count) = place_all(&assets, config);
    assert_eq!(
        placements[0],
        Placement::Placed { x: 0, y: 0, width: 1024, height: 1024, layer: 0 }
    );
    assert_eq!(
        placements[1],
        Placement::Placed { x: 0, y: 0, width: 1024, height: 1024, layer: 1 }
    );
    assert_eq!(layer_count, 2);
}

#[test]
fn deterministic_on_equal_input() {
    let mk = || {
        vec![
            asset("block", 32, 32),
            asset("charset", 512, 512),
            asset("block2", 320, 320),
            asset("sagan", 600, 600),
            asset("milk", 1000, 1000),
        ]
    };
    let config = LayerConfig { width: 1024, height: 1024 };
    let (p1, c1) = place_all(&mk(), config);
    let (p2, c2) = place_all(&mk(), config);
    assert_eq!(p1, p2);
    assert_eq!(c1, c2);
}

#[test]
fn order_changes_layer_count() {
    // the same multiset of boxes, two orders, different layer counts
    let config = LayerConfig { width: 10, height: 10 };
    let interleaved = vec![
        asset("a", 6, 10),
        asset("b", 4, 10),
        asset("c", 6, 10),
        asset("d", 4, 10),
    ];
    let grouped = vec![
        asset("b", 4, 10),
        asset("d", 4, 10),
        asset("a", 6, 10),
        asset("c", 6, 10),
    ];
    let (_, count1) = place_all(&interleaved, config);
    let (_, count2) = place_all(&grouped, config);
    assert_eq!(count1, 2);
    assert_eq!(count2, 3);
}

#[test]
fn scenario_layer_1024() {
    let assets = vec![
        asset("block", 32, 32),
        asset("charset", 512, 512),
        asset("block2", 320, 320),
        asset("block3", 3200, 320),
        asset("sagan", 600, 600),
        asset("milk", 1000, 1000),
        asset("poop", 500, 600),
        asset("poop2", 600, 400),
    ];
    let config = LayerConfig { width: 1024, height: 1024 };
    let (placements, layer_count) = place_all(&assets, config);
    assert_eq!(layer_count, 4);
    assert_eq!(placements[0], Placement::Placed { x: 0, y: 0, width: 32, height: 32, layer: 0 });
    assert_eq!(placements[1], Placement::Placed { x: 32, y: 0, width: 512, height: 512, layer: 0 });
    assert_eq!(
        placements[2],
        Placement::Placed { x: 544, y: 0, width: 320, height: 320, layer: 0 }
    );
    assert_eq!(placements[3], Placement::Unplaced);
    assert_eq!(placements[4], Placement::Placed { x: 0, y: 0, width: 600, height: 600, layer: 1 });
    assert_eq!(
        placements[5],
        Placement::Placed { x: 0, y: 0, width: 1000, height: 1000, layer: 2 }
    );
    assert_eq!(placements[6], Placement::Placed { x: 0, y: 0, width: 500, height: 600, layer: 3 });
    assert_eq!(
        placements[7],
        Placement::Placed { x: 0, y: 512, width: 600, height: 400, layer: 0 }
    );
    // milk nearly fills its layer, so it occupies that layer alone
    let milk_layer = match placements[5] {
        Placement::Placed { layer, .. } => layer,
        Placement::Unplaced => panic!("milk must be placed"),
    };
    for (i, p) in placements.iter().enumerate() {
        if i != 5 {
            if let Placement::Placed { layer, .. } = p {
                assert!(*layer != milk_layer);
            }
        }
    }
}

#[test]
fn placements_within_one_layer_never_overlap() {
    let assets = vec![
        asset("a", 300, 300),
        asset("b", 300, 300),
        asset("c", 300, 300),
        asset("d", 300, 300),
        asset("e", 300, 300),
        asset("f", 300, 300),
        asset("g", 300, 300),
        asset("h", 300, 300),
        asset("i", 300, 300),
        asset("j", 500, 500),
    ];
    let config = LayerConfig { width: 1024, height: 1024 };
    let (placements, layer_count) = place_all(&assets, config);
    let mut rects: Vec<(u32, u32, u32, u32, u32)> = Vec::new();
    for p in &placements {
        if let Placement::Placed { x, y, width, height, layer } = *p {
            assert!(x + width <= 1024);
            assert!(y + height <= 1024);
            assert!(layer < layer_count);
            rects.push((x, y, width, height, layer));
        }
    }
    for i in 0..rects.len() {
        for j in 0..rects.len() {
            if i != j && rects[i].4 == rects[j].4 {
                let (x1, y1, w1, h1, _) = rects[i];
                let (x2, y2, w2, h2, _) = rects[j];
                let apart = x1 + w1 <= x2 || x2 + w2 <= x1 || y1 + h1 <= y2 || y2 + h2 <= y1;
                assert!(apart);
            }
        }
    }
}

#[test]
fn layer_count_matches_distinct_layers() {
    let assets = vec![
        asset("a", 700, 700),
        asset("b", 700, 700),
        asset("c", 100, 100),
        asset("d", 2000, 2000),
    ];
    let config = LayerConfig { width: 1024, height: 1024 };
    let (placements, layer_count) = place_all(&assets, config);
    let mut seen: Vec<u32> = Vec::new();
    for p in &placements {
        if let Placement::Placed { layer, .. } = *p {
            if !seen.contains(&layer) {
                seen.push(layer);
            }
        }
    }
    assert_eq!(seen.len() as u32, layer_count);
    for l in 0..layer_count {
        assert!(seen.contains(&l));
    }
}
