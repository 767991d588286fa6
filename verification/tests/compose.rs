use atlas_packer::atlas::build_atlas;
use atlas_packer::compose::composite;
use atlas_packer::packing::place_all;
use atlas_packer::types::{LayerConfig, Placement, SourceAsset};

fn asset_with_pixels(name: &str, w: u32, h: u32, pixels: Vec<u8>) -> SourceAsset {
    assert_eq!(pixels.len(), (4 * w * h) as usize);
    SourceAsset { name: name.as_bytes().to_vec(), width: w, height: h, pixels }
}

#[test]
fn zero_assets_give_empty_buffer() {
    let assets: Vec<SourceAsset> = Vec::new();
    let config = LayerConfig { width: 1024, height: 1024 };
    let (placements, layer_count) = place_all(&assets, config);
    let buf = composite(&assets, &placements, config, layer_count);
    assert_eq!(buf.width, 1024);
    assert_eq!(buf.height, 0);
    assert_eq!(buf.pixels.len(), 0);
}

#[test]
fn single_pixel_copied_rest_transparent() {
    let assets = vec![asset_with_pixels("dot", 1, 1, vec![10, 20, 30, 40])];
    let config = LayerConfig { width: 2, height: 2 };
    let (placements, layer_count) = place_all(&assets, config);
    assert_eq!(layer_count, 1);
    assert_eq!(placements[0], Placement::Placed { x: 0, y: 0, width: 1, height: 1, layer: 0 });
    let buf = composite(&assets, &placements, config, layer_count);
    assert_eq!(buf.width, 2);
    assert_eq!(buf.height, 2);
    assert_eq!(
        buf.pixels,
        vec![10, 20, 30, 40, 0, 0, 0, 0, 0, 0, 0, 0, 0, 0, 0, 0]
    );
}

#[test]
fn buffer_height_is_layer_height_times_count() {
    let assets = vec![
        asset_with_pixels("a", 2, 2, vec![1; 16]),
        asset_with_pixels("b", 2, 2, vec![2; 16]),
        asset_with_pixels("c", 1, 1, vec![3; 4]),
    ];
    let config = LayerConfig { width: 2, height: 2 };
    let (placements, layer_count) = place_all(&assets, config);
    assert_eq!(layer_count, 3);
    let buf = composite(&assets, &placements, config, layer_count);
    assert_eq!(buf.height, 6);
    assert_eq!(buf.pixels.len(), 4 * 2 * 6);
}

#[test]
fn atlas_stacks_layers_vertically() {
    let bg: Vec<u8> = (1..=16).collect();
    let assets = vec![
        asset_with_pixels("bg", 2, 2, bg.clone()),
        asset_with_pixels("dot", 1, 1, vec![9, 9, 9, 9]),
    ];
    let config = LayerConfig { width: 2, height: 2 };
    let atlas = build_atlas(&assets, config);
    assert_eq!(atlas.layer_count, 2);
    assert_eq!(atlas.buffer.width, 2);
    assert_eq!(atlas.buffer.height, 4);
    let mut expected = bg;
    expected.extend_from_slice(&[9, 9, 9, 9, 0, 0, 0, 0]);
    expected.extend_from_slice(&[0; 8]);
    assert_eq!(atlas.buffer.pixels, expected);
    assert_eq!(
        atlas.manifest.to_json(),
        b"{\"bg\":[0,0,2,2,0],\"dot\":[0,0,1,1,1]}".to_vec()
    );
}

#[test]
fn unplaced_assets_left_out_of_manifest() {
    let assets = vec![
        asset_with_pixels("fits", 1, 1, vec![5, 5, 5, 5]),
        asset_with_pixels("wide", 3, 1, vec![7; 12]),
    ];
    let config = LayerConfig { width: 2, height: 2 };
    let atlas = build_atlas(&assets, config);
    assert_eq!(atlas.layer_count, 1);
    assert_eq!(atlas.placements[1], Placement::Unplaced);
    assert_eq!(atlas.manifest.to_json(), b"{\"fits\":[0,0,1,1,0]}".to_vec());
}
