use base64::Engine;
use kll_rs::{DataSketchesError, KllDoubleSketch, KllFloatSketch};

#[test]
fn valid_resolutions_are_kept() {
    for k in [8u16, 9, 100, 128, 200, 1000, 32768, 65535] {
        let d = KllDoubleSketch::new_with_k(k).unwrap();
        assert_eq!(d.get_k(), k);
        let f = KllFloatSketch::new_with_k(k).unwrap();
        assert_eq!(f.get_k(), k);
    }
}

#[test]
fn small_resolutions_are_rejected() {
    for k in 0u16..8 {
        let d = KllDoubleSketch::new_with_k(k);
        assert!(matches!(d, Err(DataSketchesError::InvalidParameter(_))));
        let f = KllFloatSketch::new_with_k(k);
        assert!(matches!(f, Err(DataSketchesError::InvalidParameter(_))));
    }
}

#[test]
fn n_counts_update_calls() {
    let mut sketch = KllDoubleSketch::new().unwrap();
    for i in 0..57 {
        sketch.update((i as f64).to_bits());
        assert_eq!(sketch.get_n(), i + 1);
        assert!((sketch.get_num_retained() as u64) <= sketch.get_n());
    }
}

#[test]
fn round_trip_preserves_everything() {
    let mut sketch = KllDoubleSketch::new_with_k(160).unwrap();
    for i in 1..=250 {
        sketch.update((i as f64).to_bits());
    }
    let bytes = sketch.serialize().unwrap();
    let back = KllDoubleSketch::deserialize(&bytes).unwrap();
    assert_eq!(back.get_n(), sketch.get_n());
    assert_eq!(back.get_k(), sketch.get_k());
    assert_eq!(back.get_num_retained(), sketch.get_num_retained());
    assert_eq!(back.is_estimation_mode(), sketch.is_estimation_mode());
    for fraction in [0.25f64, 0.5, 0.75, 0.9] {
        assert_eq!(
            back.get_quantile(fraction.to_bits()),
            sketch.get_quantile(fraction.to_bits())
        );
    }
}

#[test]
fn copy_and_byte_path_agree() {
    let mut sketch = KllDoubleSketch::new().unwrap();
    for i in 1..=500 {
        sketch.update((i as f64).to_bits());
    }
    let copied = sketch.copy().unwrap();
    let bytes = sketch.serialize().unwrap();
    let rebuilt = KllDoubleSketch::deserialize(&bytes).unwrap();
    for fraction in [0.25f64, 0.5, 0.75, 0.9] {
        let a = f64::from_bits(copied.get_quantile(fraction.to_bits()));
        let b = f64::from_bits(rebuilt.get_quantile(fraction.to_bits()));
        let c = f64::from_bits(sketch.get_quantile(fraction.to_bits()));
        assert!((a - c).abs() < 1e-10);
        assert!((b - c).abs() < 1e-10);
    }
}

#[test]
fn duplicates_are_independent() {
    let mut original = KllFloatSketch::new().unwrap();
    for i in 1..=20 {
        original.update((i as f32).to_bits());
    }
    let mut duplicate = original.clone();

    original.update(21.0f32.to_bits());
    assert_eq!(duplicate.get_n(), 20);
    assert_eq!(original.get_n(), 21);

    duplicate.update(22.0f32.to_bits());
    duplicate.update(23.0f32.to_bits());
    assert_eq!(original.get_n(), 21);
    assert_eq!(duplicate.get_n(), 22);
}

#[test]
fn empty_sketch_contract() {
    let sketch = KllDoubleSketch::new().unwrap();
    assert!(sketch.is_empty());
    assert_eq!(sketch.get_n(), 0);
    assert_eq!(sketch.get_num_retained(), 0);
    assert!(f64::from_bits(sketch.get_quantile(0.5f64.to_bits())).is_nan());
    assert!(f64::from_bits(sketch.get_quantile(0.0f64.to_bits())).is_nan());
    assert!(f64::from_bits(sketch.get_min_value()).is_nan());
    assert!(f64::from_bits(sketch.get_max_value()).is_nan());
    assert!(f64::from_bits(sketch.get_rank(3.0f64.to_bits())).is_nan());
    let fractions: Vec<u64> = vec![0.1f64.to_bits(), 0.9f64.to_bits()];
    assert!(sketch.get_quantiles(&fractions).is_empty());
    assert!(sketch.get_quantiles_evenly_spaced(7).is_empty());
}

#[test]
fn invalid_fraction_contract() {
    let mut sketch = KllDoubleSketch::new().unwrap();
    for i in 1..=10 {
        sketch.update((i as f64).to_bits());
    }
    for bad in [f64::NAN, f64::INFINITY, f64::NEG_INFINITY, -0.1, 1.1] {
        assert!(
            f64::from_bits(sketch.get_quantile(bad.to_bits())).is_nan(),
            "fraction {} should give NaN",
            bad
        );
    }
    let batch: Vec<u64> = vec![0.5f64.to_bits(), 1.1f64.to_bits(), 0.25f64.to_bits()];
    let result = sketch.get_quantiles(&batch);
    assert_eq!(result.len(), batch.len());
    for r in result {
        assert!(f64::from_bits(r).is_nan());
    }
}

#[test]
fn merge_combines_ranges() {
    let mut a = KllDoubleSketch::new().unwrap();
    let mut b = KllDoubleSketch::new().unwrap();
    for i in 1..=50 {
        a.update((i as f64).to_bits());
    }
    for i in 51..=100 {
        b.update((i as f64).to_bits());
    }
    a.merge(&b).unwrap();
    assert_eq!(a.get_n(), 100);
    assert_eq!(f64::from_bits(a.get_min_value()), 1.0);
    assert_eq!(f64::from_bits(a.get_max_value()), 100.0);
    // The argument is left unmodified.
    assert_eq!(b.get_n(), 50);
    assert_eq!(f64::from_bits(b.get_min_value()), 51.0);
}

#[test]
fn exact_quantile_selection() {
    let mut sketch = KllDoubleSketch::new().unwrap();
    for i in 1..=100 {
        sketch.update((i as f64).to_bits());
    }
    // floor(f * 100) selects a position in the sorted elements, clamped to
    // the last one.
    assert_eq!(f64::from_bits(sketch.get_quantile(0.0f64.to_bits())), 1.0);
    assert_eq!(f64::from_bits(sketch.get_quantile(0.25f64.to_bits())), 26.0);
    assert_eq!(f64::from_bits(sketch.get_quantile(0.5f64.to_bits())), 51.0);
    assert_eq!(f64::from_bits(sketch.get_quantile(1.0f64.to_bits())), 100.0);
}

#[test]
fn exact_rank_values() {
    let mut sketch = KllDoubleSketch::new().unwrap();
    for i in 1..=100 {
        sketch.update((i as f64).to_bits());
    }
    assert_eq!(f64::from_bits(sketch.get_rank(50.0f64.to_bits())), 0.5);
    assert_eq!(f64::from_bits(sketch.get_rank(100.0f64.to_bits())), 1.0);
    assert_eq!(f64::from_bits(sketch.get_rank(25.0f64.to_bits())), 0.25);
    assert_eq!(f64::from_bits(sketch.get_rank(0.5f64.to_bits())), 0.0);
}

#[test]
fn evenly_spaced_exact_values() {
    let mut sketch = KllDoubleSketch::new().unwrap();
    for i in 1..=5 {
        sketch.update((i as f64).to_bits());
    }
    let five: Vec<f64> = sketch
        .get_quantiles_evenly_spaced(5)
        .into_iter()
        .map(f64::from_bits)
        .collect();
    assert_eq!(five, vec![1.0, 2.0, 3.0, 4.0, 5.0]);
    let one: Vec<f64> = sketch
        .get_quantiles_evenly_spaced(1)
        .into_iter()
        .map(f64::from_bits)
        .collect();
    assert_eq!(one, vec![1.0]);
}

#[test]
fn batch_quantiles_match_single_queries() {
    let mut sketch = KllFloatSketch::new().unwrap();
    for i in 1..=40 {
        sketch.update((i as f32).to_bits());
    }
    let fractions: Vec<u64> =
        vec![0.0f64.to_bits(), 0.25f64.to_bits(), 0.5f64.to_bits(), 1.0f64.to_bits()];
    let batch = sketch.get_quantiles(&fractions);
    assert_eq!(batch.len(), 4);
    for (i, f) in fractions.iter().enumerate() {
        assert_eq!(batch[i], sketch.get_quantile(*f));
    }
}

#[test]
fn total_order_on_signed_zeros_and_negatives() {
    let mut sketch = KllDoubleSketch::new().unwrap();
    sketch.update(0.0f64.to_bits());
    sketch.update((-0.0f64).to_bits());
    sketch.update((-1.5f64).to_bits());
    sketch.update(2.5f64.to_bits());
    assert_eq!(sketch.get_min_value(), (-1.5f64).to_bits());
    assert_eq!(sketch.get_max_value(), 2.5f64.to_bits());
    // Negative zero sits below positive zero in the element order.
    let q = sketch.get_quantiles_evenly_spaced(4);
    assert_eq!(q[1], (-0.0f64).to_bits());
    assert_eq!(q[2], 0.0f64.to_bits());
}

#[test]
fn not_a_number_updates_are_counted() {
    let mut sketch = KllFloatSketch::new().unwrap();
    sketch.update(f32::NAN.to_bits());
    assert!(!sketch.is_empty());
    assert_eq!(sketch.get_n(), 1);
}

#[test]
fn deserialize_rejects_malformed_bytes() {
    // Too short.
    assert!(matches!(
        KllDoubleSketch::deserialize(&vec![1u8, 2, 3]),
        Err(DataSketchesError::DeserializationError(_))
    ));
    // Wrong magic.
    assert!(matches!(
        KllDoubleSketch::deserialize(&vec![0u8; 64]),
        Err(DataSketchesError::DeserializationError(_))
    ));
    // A float sketch's bytes are not a double sketch's bytes.
    let mut f = KllFloatSketch::new().unwrap();
    f.update(1.0f32.to_bits());
    let fbytes = f.serialize().unwrap();
    assert!(matches!(
        KllDoubleSketch::deserialize(&fbytes),
        Err(DataSketchesError::DeserializationError(_))
    ));
    // A truncated valid serialization is rejected.
    let mut d = KllDoubleSketch::new().unwrap();
    d.update(1.0f64.to_bits());
    let mut dbytes = d.serialize().unwrap();
    dbytes.pop();
    assert!(matches!(
        KllDoubleSketch::deserialize(&dbytes),
        Err(DataSketchesError::DeserializationError(_))
    ));
}

#[test]
fn text_form_round_trips() {
    let mut sketch = KllDoubleSketch::new_with_k(64).unwrap();
    for i in 1..=30 {
        sketch.update((i as f64).to_bits());
    }
    let text = sketch.to_base64().unwrap();
    let back = KllDoubleSketch::from_base64(&text).unwrap();
    assert_eq!(back.get_n(), sketch.get_n());
    assert_eq!(back.get_k(), sketch.get_k());
    assert_eq!(back.get_quantile(0.5f64.to_bits()), sketch.get_quantile(0.5f64.to_bits()));

    let mut fsketch = KllFloatSketch::new().unwrap();
    fsketch.update(4.25f32.to_bits());
    let ftext = fsketch.to_base64().unwrap();
    let fback = KllFloatSketch::from_base64(&ftext).unwrap();
    assert_eq!(fback.get_n(), 1);
    assert_eq!(fback.get_min_value(), 4.25f32.to_bits());
}

#[test]
fn text_form_is_standard_base64_of_the_bytes() {
    let mut sketch = KllDoubleSketch::new().unwrap();
    for i in 1..=10 {
        sketch.update((i as f64).to_bits());
    }
    let text = sketch.to_base64().unwrap();
    let decoded = base64::engine::general_purpose::STANDARD.decode(&text).unwrap();
    assert_eq!(decoded, sketch.serialize().unwrap());
    assert_ne!(text.as_bytes(), decoded.as_slice());
}

#[test]
fn text_form_rejects_bad_input() {
    assert!(matches!(
        KllDoubleSketch::from_base64("this is not base64!!!"),
        Err(DataSketchesError::DeserializationError(_))
    ));
    // Valid base64 of bytes that are not a serialized sketch.
    let garbage = base64::engine::general_purpose::STANDARD.encode([1u8, 2, 3, 4]);
    assert!(matches!(
        KllDoubleSketch::from_base64(&garbage),
        Err(DataSketchesError::DeserializationError(_))
    ));
}

#[test]
fn default_sketches_are_empty_with_default_resolution() {
    let d = KllDoubleSketch::default();
    assert_eq!(d.get_k(), 200);
    assert!(d.is_empty());
    let f = KllFloatSketch::default();
    assert_eq!(f.get_k(), 200);
    assert!(f.is_empty());
}
