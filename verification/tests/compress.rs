use wu_quantization::quantise::CompressError;
use wu_quantization::{compress, Rgb};

fn rgb(r: u8, g: u8, b: u8) -> Rgb {
    Rgb::new(r, g, b)
}

#[test]
fn empty_palette_rejected() {
    let palette: Vec<Rgb> = Vec::new();
    match compress(&palette, 16) {
        Err(e) => assert_eq!(e, CompressError::EmptyPalette),
        Ok(_) => panic!("an empty palette must be rejected"),
    }
}

#[test]
fn zero_colours_rejected() {
    let palette = vec![rgb(1, 2, 3)];
    match compress(&palette, 0) {
        Err(e) => assert_eq!(e, CompressError::NoColours),
        Ok(_) => panic!("a request for zero colours must be rejected"),
    }
}

#[test]
fn single_repeated_colour_collapses_to_one_entry() {
    let palette: Vec<Rgb> = (0..1000).map(|_| rgb(10, 20, 30)).collect();
    let (flat, volume) = compress(&palette, 16).unwrap();
    assert_eq!(flat.len(), 1);
    assert_eq!(flat[0], rgb(10, 20, 30));
    assert_eq!(volume.lookup(rgb(10, 20, 30)), 0);
}

#[test]
fn two_extreme_colours_stay_separate() {
    let palette = vec![rgb(0, 0, 0), rgb(255, 255, 255)];
    let (flat, volume) = compress(&palette, 2).unwrap();
    assert_eq!(flat.len(), 2);
    let black = volume.lookup(rgb(0, 0, 0));
    let white = volume.lookup(rgb(255, 255, 255));
    assert_ne!(black, white);
    assert_eq!(flat[black as usize], rgb(0, 0, 0));
    assert_eq!(flat[white as usize], rgb(255, 255, 255));
}

#[test]
fn one_colour_request_gives_global_mean() {
    let palette = vec![rgb(0, 0, 0), rgb(10, 10, 10), rgb(20, 20, 20), rgb(30, 40, 50)];
    let (flat, volume) = compress(&palette, 1).unwrap();
    assert_eq!(flat.len(), 1);
    assert_eq!(flat[0], rgb(15, 17, 20));
    for c in &palette {
        assert_eq!(volume.lookup(*c), 0);
    }
    assert_eq!(volume.lookup(rgb(200, 100, 50)), 0);
}

#[test]
fn palette_never_exceeds_request() {
    let palette: Vec<Rgb> = (0u16..256).map(|v| rgb(v as u8, (255 - v) as u8, (v / 2) as u8)).collect();
    for n in [1usize, 2, 3, 7, 16, 100, 256] {
        let (flat, _) = compress(&palette, n).unwrap();
        assert!(flat.len() <= n);
        assert!(flat.len() >= 1);
    }
}

#[test]
fn lossless_below_capacity() {
    let palette = vec![
        rgb(0, 0, 0),
        rgb(64, 0, 0),
        rgb(128, 0, 0),
        rgb(192, 0, 0),
        rgb(255, 255, 255),
    ];
    let (flat, volume) = compress(&palette, 16).unwrap();
    assert_eq!(flat.len(), palette.len());
    for c in &palette {
        let idx = volume.lookup(*c) as usize;
        assert!(idx < flat.len());
        assert_eq!(flat[idx], *c);
    }
}

#[test]
fn recompress_of_output_is_unchanged() {
    let palette = vec![rgb(8, 16, 24), rgb(96, 0, 200), rgb(200, 200, 0), rgb(255, 255, 255)];
    let (first, _) = compress(&palette, 16).unwrap();
    assert_eq!(first.len(), palette.len());
    let (second, _) = compress(&first, 16).unwrap();
    assert_eq!(second.len(), first.len());
    for c in &first {
        assert!(second.contains(c));
    }
}

#[test]
fn lookup_is_stable_across_calls() {
    let palette: Vec<Rgb> = (0u16..300).map(|v| rgb((v % 256) as u8, (v * 7 % 256) as u8, (v * 13 % 256) as u8)).collect();
    let (flat, volume) = compress(&palette, 8).unwrap();
    for c in &palette {
        let a = volume.lookup(*c);
        let b = volume.lookup(*c);
        assert_eq!(a, b);
        assert!((a as usize) < flat.len());
    }
}

#[test]
fn compress_is_deterministic_across_calls() {
    let palette: Vec<Rgb> = (0u16..300)
        .map(|v| rgb((v % 256) as u8, (v * 11 % 256) as u8, (v * 5 % 256) as u8))
        .collect();
    let (flat1, volume1) = compress(&palette, 12).unwrap();
    let (flat2, volume2) = compress(&palette, 12).unwrap();
    assert_eq!(flat1, flat2);
    for r in (0u16..256).step_by(13) {
        for g in (0u16..256).step_by(19) {
            let c = rgb(r as u8, g as u8, (r ^ g) as u8);
            assert_eq!(volume1.lookup(c), volume2.lookup(c));
        }
    }
}

#[test]
fn corner_colours_map_to_distinct_entries() {
    // Fully saturated primary and secondary shades spanning the cube's
    // corners: seven edge families at descending brightness, plus black.
    let mut palette = vec![rgb(0, 0, 0)];
    for k in 0..43u16 {
        let v = (255 - 6 * k) as u8;
        palette.push(rgb(v, 0, 0));
        palette.push(rgb(0, v, 0));
        palette.push(rgb(0, 0, v));
        palette.push(rgb(v, v, 0));
        palette.push(rgb(v, 0, v));
        palette.push(rgb(0, v, v));
        palette.push(rgb(v, v, v));
    }
    assert!(palette.len() >= 300);
    let (flat, volume) = compress(&palette, 256).unwrap();
    assert!(flat.len() <= 256);
    let corners = [
        rgb(0, 0, 0),
        rgb(255, 0, 0),
        rgb(0, 255, 0),
        rgb(0, 0, 255),
        rgb(255, 255, 0),
        rgb(255, 0, 255),
        rgb(0, 255, 255),
        rgb(255, 255, 255),
    ];
    let mut indices: Vec<u8> = corners.iter().map(|c| volume.lookup(*c)).collect();
    for i in &indices {
        assert!((*i as usize) < flat.len());
    }
    indices.sort_unstable();
    indices.dedup();
    assert_eq!(indices.len(), corners.len());
}

#[test]
fn reduction_groups_nearby_colours() {
    // All channels are reduced by a three-bit shift, so colours inside the
    // same 8x8x8 block share a grid cell and an index.
    let palette = vec![rgb(0, 0, 0), rgb(255, 255, 255)];
    let (_, volume) = compress(&palette, 2).unwrap();
    assert_eq!(volume.lookup(rgb(0, 0, 0)), volume.lookup(rgb(7, 7, 7)));
    assert_eq!(volume.lookup(rgb(255, 255, 255)), volume.lookup(rgb(248, 248, 248)));
    assert_ne!(volume.lookup(rgb(0, 0, 0)), volume.lookup(rgb(255, 255, 255)));
}

#[test]
fn every_lookup_is_a_valid_index() {
    let palette = vec![rgb(3, 250, 17), rgb(90, 90, 90), rgb(255, 0, 128)];
    let (flat, volume) = compress(&palette, 2).unwrap();
    assert!(flat.len() <= 2);
    for r in (0u16..256).step_by(17) {
        for g in (0u16..256).step_by(23) {
            for b in (0u16..256).step_by(29) {
                let idx = volume.lookup(rgb(r as u8, g as u8, b as u8));
                assert!((idx as usize) < flat.len());
            }
        }
    }
}
