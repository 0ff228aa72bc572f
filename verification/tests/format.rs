use aether_core::format::byte_counts;
use aether_core::{AetherError, CompressionMethod, ContentType, PredictorId};

#[test]
fn predictor_id_roundtrip() {
    for id in [
        PredictorId::Order0,
        PredictorId::ContextMixer,
        PredictorId::NeuralSsm,
        PredictorId::ContextMixerLight,
        PredictorId::Lz4Aware,
        PredictorId::Rle,
        PredictorId::ZstdOnly,
    ] {
        let v = id.to_u16();
        assert_eq!(PredictorId::from_u16(v).unwrap(), id);
    }
}

#[test]
fn compression_method_roundtrip() {
    for m in [
        CompressionMethod::PredictorRans,
        CompressionMethod::Zstd,
        CompressionMethod::Store,
        CompressionMethod::LzPredictorRans,
        CompressionMethod::Lz77PredictorRans,
        CompressionMethod::BwtPredictorRans,
        CompressionMethod::BytePlanePredictorRans,
    ] {
        let v = m.to_u8();
        assert_eq!(CompressionMethod::from_u8(v).unwrap(), m);
    }
}

#[test]
fn content_type_roundtrip() {
    for ct in [
        ContentType::Mixed,
        ContentType::Text,
        ContentType::BinaryStructured,
        ContentType::BinaryRandom,
        ContentType::Image,
        ContentType::Executable,
        ContentType::NumericData,
    ] {
        let v = ct.to_u16();
        assert_eq!(ContentType::from_u16(v).unwrap(), ct);
    }
}

#[test]
fn unknown_numbers_are_refused() {
    assert!(matches!(
        PredictorId::from_u16(7),
        Err(AetherError::UnknownPredictorId(7))
    ));
    assert_eq!(PredictorId::from_u16(255).unwrap(), PredictorId::ZstdOnly);
    assert_eq!(PredictorId::Mtf.to_u16(), 6);
    assert!(matches!(
        CompressionMethod::from_u8(100),
        Err(AetherError::UnknownCompressionMethod(100))
    ));
    assert!(matches!(
        ContentType::from_u16(7),
        Err(AetherError::UnknownContentType(7))
    ));
}

#[test]
fn bytes_are_counted() {
    let counts = byte_counts(b"abracadabra");
    assert_eq!(counts[b'a' as usize], 5);
    assert_eq!(counts[b'b' as usize], 2);
    assert_eq!(counts[0], 0);
    assert_eq!(counts.iter().sum::<u64>(), 11);
}
