use wu_quantization::{count_distinct, minmax_ids, palette_to_rgb, ColourCompression, Rgb};

#[test]
fn palette_to_rgb_groups_triples() {
    let bytes: Vec<u8> = vec![1, 2, 3, 4, 5, 6, 255, 0, 128];
    let out = palette_to_rgb(&bytes);
    assert_eq!(out.len(), 3);
    assert_eq!(out[0], Rgb::new(1, 2, 3));
    assert_eq!(out[1], Rgb::new(4, 5, 6));
    assert_eq!(out[2], Rgb::new(255, 0, 128));
}

#[test]
fn palette_to_rgb_of_nothing_is_empty() {
    let bytes: Vec<u8> = Vec::new();
    assert_eq!(palette_to_rgb(&bytes).len(), 0);
}

#[test]
fn count_distinct_ignores_repeats() {
    let palette = vec![
        Rgb::new(1, 2, 3),
        Rgb::new(4, 5, 6),
        Rgb::new(1, 2, 3),
        Rgb::new(7, 8, 9),
        Rgb::new(4, 5, 6),
    ];
    assert_eq!(count_distinct(&palette), 3);
}

#[test]
fn count_distinct_of_empty_is_zero() {
    let palette: Vec<Rgb> = Vec::new();
    assert_eq!(count_distinct(&palette), 0);
}

#[test]
fn minmax_ids_finds_first_extremes() {
    let values: Vec<usize> = vec![5, 3, 7, 3, 7];
    assert_eq!(minmax_ids(&values), (1, 2));
}

#[test]
fn minmax_ids_single_element() {
    let values: Vec<usize> = vec![42];
    assert_eq!(minmax_ids(&values), (0, 0));
}

#[test]
fn minmax_ids_descending_then_ascending() {
    let values: Vec<usize> = vec![9, 4, 1, 4, 9, 12];
    assert_eq!(minmax_ids(&values), (2, 5));
}

#[test]
fn colour_compression_defaults_to_uncompressed() {
    assert!(matches!(ColourCompression::default(), ColourCompression::Uncompressed));
}
