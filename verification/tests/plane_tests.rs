use hysteresis::engine::flood_mask;
use hysteresis::plane_ops::{
    copy_plane_u8, flood_plane_u16, flood_plane_u8, plane_output_u8,
};
use hysteresis::policy::{ClipInfo, ColorFamily, FilterConfig, FormatInfo, SampleKind};

/// Expected output of the 5x5 scenario: a 3x3 block of `value` at rows and
/// columns 1..=3, zero elsewhere.
fn block_5x5(value: u8) -> Vec<u8> {
    let mut v = vec![0u8; 25];
    for y in 1..4 {
        for x in 1..4 {
            v[y * 5 + x] = value;
        }
    }
    v
}

#[test]
fn seeded_block_fills_whole_component() {
    // 5x5 candidate plane fully 255 in a 3x3 block at rows/cols 1..=3,
    // seed 255 only at (2, 2): the whole block survives, nothing else.
    let cand = block_5x5(255);
    let mut seed = vec![0u8; 25];
    seed[2 * 5 + 2] = 255;
    let out = flood_plane_u8(&seed, &cand, 5, 5, 5, 5, 5, 255);
    assert_eq!(out, block_5x5(255));
}

#[test]
fn all_zero_seed_gives_all_zero_output() {
    // Same candidate geometry, seed all zero: no component is ever seeded.
    let cand = block_5x5(255);
    let seed = vec![0u8; 25];
    let out = flood_plane_u8(&seed, &cand, 5, 5, 5, 5, 5, 255);
    assert_eq!(out, vec![0u8; 25]);
}

#[test]
fn diagonal_only_connection_counts() {
    // Two candidate pixels sharing only a corner are connected.
    let mut cand = vec![0u8; 4];
    cand[0] = 255; // (0, 0)
    cand[3] = 255; // (1, 1)
    let mut seed = vec![0u8; 4];
    seed[0] = 255;
    let out = flood_plane_u8(&seed, &cand, 2, 2, 2, 2, 2, 255);
    assert_eq!(out, vec![255, 0, 0, 255]);
}

#[test]
fn gap_in_every_direction_disconnects() {
    // The same pair moved two pixels apart, with all-zero pixels between:
    // the unseeded pixel stays off.
    let mut cand = vec![0u8; 9];
    cand[0] = 255; // (0, 0)
    cand[8] = 255; // (2, 2)
    let mut seed = vec![0u8; 9];
    seed[0] = 255;
    let out = flood_plane_u8(&seed, &cand, 3, 3, 3, 3, 3, 255);
    let mut expected = vec![0u8; 9];
    expected[0] = 255;
    assert_eq!(out, expected);
}

#[test]
fn values_below_peak_give_same_connectivity() {
    // Samples strictly between 0 and peak behave exactly like peak samples:
    // only "> 0" matters, never "== peak".
    let cand_low = block_5x5(7);
    let mut seed_low = vec![0u8; 25];
    seed_low[2 * 5 + 2] = 13;
    let out_low = flood_plane_u8(&seed_low, &cand_low, 5, 5, 5, 5, 5, 255);

    let cand_peak = block_5x5(255);
    let mut seed_peak = vec![0u8; 25];
    seed_peak[2 * 5 + 2] = 255;
    let out_peak = flood_plane_u8(&seed_peak, &cand_peak, 5, 5, 5, 5, 5, 255);

    assert_eq!(out_low, out_peak);
    assert_eq!(out_low, block_5x5(255));
}

#[test]
fn component_without_seed_is_entirely_absent() {
    // One row with two components; the right one has no seed member and
    // leaks nothing, even though it is candidate-"on".
    let cand: Vec<u8> = vec![255, 255, 0, 255, 255];
    let seed: Vec<u8> = vec![255, 0, 0, 0, 0];
    let out = flood_plane_u8(&seed, &cand, 5, 1, 5, 5, 5, 255);
    assert_eq!(out, vec![255, 255, 0, 0, 0]);
}

#[test]
fn propagation_ignores_seed_values() {
    // Only the seeding pixel needs seed backing; propagation is governed by
    // candidate connectivity alone.
    let cand: Vec<u8> = vec![255, 255, 255];
    let seed: Vec<u8> = vec![0, 0, 255];
    let out = flood_plane_u8(&seed, &cand, 3, 1, 3, 3, 3, 255);
    assert_eq!(out, vec![255, 255, 255]);
}

#[test]
fn flood_mask_drives_float_planes() {
    // The bi-level engine on already-thresholded masks, as used for 32-bit
    // float planes after comparing against 0.0.
    let samples: Vec<f32> = vec![0.25, 0.5, 1.0, 0.0, 0.75];
    let cand: Vec<bool> = samples.iter().map(|&v| v > 0.0).collect();
    let seed_samples: Vec<f32> = vec![1.0, 0.0, 0.0, 0.0, 0.0];
    let seed: Vec<bool> = seed_samples.iter().map(|&v| v > 0.0).collect();
    let out = flood_mask(&seed, &cand, 5, 1);
    assert_eq!(out, vec![true, true, true, false, false]);
}

#[test]
fn differing_strides_are_respected() {
    // Seed, candidate and output all use different strides; padding bytes in
    // the inputs must never be read as pixels.
    let width = 2;
    let height = 2;
    // seed stride 3: pixel rows [255, 0], padding 77
    let seed: Vec<u8> = vec![255, 0, 77, 0, 0, 77];
    // cand stride 4: pixel rows [255, 255], [0, 255], padding 88
    let cand: Vec<u8> = vec![255, 255, 88, 88, 0, 255, 88, 88];
    let out = flood_plane_u8(&seed, &cand, width, height, 3, 4, 5, 255);
    // dst stride 5: both candidate pixels of the component survive
    assert_eq!(out, vec![255, 255, 0, 0, 0, 0, 255, 0, 0, 0]);
}

#[test]
fn sixteen_bit_planes_use_their_peak() {
    // 10-bit samples held in u16, peak 1023; a non-peak positive sample
    // still seeds.
    let cand: Vec<u16> = vec![500, 1023, 0];
    let seed: Vec<u16> = vec![3, 0, 0];
    let out = flood_plane_u16(&seed, &cand, 3, 1, 3, 3, 3, 1023);
    assert_eq!(out, vec![1023, 1023, 0]);
}

#[test]
fn empty_grid_yields_empty_mask() {
    let seed: Vec<bool> = Vec::new();
    let cand: Vec<bool> = Vec::new();
    let out = flood_mask(&seed, &cand, 0, 0);
    assert!(out.is_empty());
}

#[test]
fn pass_through_copies_rows_exactly() {
    // An unprocessed plane is copied sample for sample, row by row, under
    // each buffer's own stride.
    let width = 4;
    let height = 2;
    let src: Vec<u8> = vec![
        1, 2, 3, 4, 99, 99, // row 0, stride 6
        5, 6, 7, 8, 99, 99, // row 1
    ];
    let out = copy_plane_u8(&src, width, height, 6, 5);
    assert_eq!(out, vec![1, 2, 3, 4, 0, 5, 6, 7, 8, 0]);
}

#[test]
fn plane_selection_copies_unprocessed_planes() {
    // Request processing of plane 0 only on a 3-plane clip: planes 1 and 2
    // of the output equal the seed's planes, plane 0 is flood-filled.
    let format = FormatInfo {
        color_family: ColorFamily::Yuv,
        sample_kind: SampleKind::Integer,
        bits_per_sample: 8,
        num_planes: 3,
    };
    let info = ClipInfo { format, width: 3, height: 1, num_frames: 10 };
    let list: Vec<i64> = vec![0];
    let config = FilterConfig::create(&info, &info, Some(&list)).unwrap();
    assert_eq!(config.process_planes, vec![true, false, false]);
    assert_eq!(config.peak, 255);

    let seed_planes: Vec<Vec<u8>> = vec![
        vec![255, 0, 0],
        vec![10, 20, 30],
        vec![40, 50, 60],
    ];
    let cand_planes: Vec<Vec<u8>> = vec![
        vec![255, 255, 0],
        vec![70, 80, 90],
        vec![90, 80, 70],
    ];
    let mut outputs: Vec<Vec<u8>> = Vec::new();
    for plane in 0..3 {
        outputs.push(plane_output_u8(
            config.process_planes[plane],
            &seed_planes[plane],
            &cand_planes[plane],
            3,
            1,
            3,
            3,
            3,
            config.peak as u8,
        ));
    }
    assert_eq!(outputs[0], vec![255, 255, 0]);
    assert_eq!(outputs[1], seed_planes[1]);
    assert_eq!(outputs[2], seed_planes[2]);
}
