use aether_core::builtin_dicts::{by_hash, for_content_type};
use aether_core::dictionary::Dictionary;
use aether_core::{ContentType, PredictorId};

fn stored(state: &[u8]) -> (Dictionary, Vec<u8>) {
    let dict = Dictionary {
        predictor_id: PredictorId::NeuralSsm,
        state: state.to_vec(),
        hash: *blake3::hash(state).as_bytes(),
    };
    let mut bytes = Vec::new();
    dict.write_to(&mut bytes).unwrap();
    (dict, bytes)
}

#[test]
fn text_dict_is_valid_and_resolvable() {
    let (_, other) = stored(b"another state");
    let (dict, text) = stored(b"learned from text");
    let d = for_content_type(ContentType::Text, &text).expect("text dict present");
    assert_eq!(d.hash, dict.hash);
    // Round-trips by hash (the mechanism extract relies on).
    let resolved = by_hash(&d.hash, &[other, text]).expect("resolvable by hash");
    assert_eq!(resolved.hash, d.hash);
    assert_eq!(resolved.state, b"learned from text");
    assert_eq!(resolved.predictor_id, PredictorId::NeuralSsm);
    assert!(by_hash(&[0; 32], &[b"no dictionary".to_vec()]).is_none());
}

#[test]
fn non_text_types_have_no_builtin_dict() {
    let (_, text) = stored(b"learned from text");
    assert!(for_content_type(ContentType::Image, &text).is_none());
    assert!(for_content_type(ContentType::NumericData, &text).is_none());
}
