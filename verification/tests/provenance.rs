//! Provenance manifests.
use forgefs::cbor::{encode_map_sorted, encode_text, encode_u64, text_key};
use forgefs::provenance::{AttributionMap, ProvenanceManifest, MAX_LABEL_BYTES};
use forgefs::types::ObjectId;

fn map_of(items: &[(ObjectId, &str)]) -> AttributionMap {
    let mut map = AttributionMap::new();
    for (id, label) in items {
        map.insert(*id, label.to_string());
    }
    map
}

fn entries() -> AttributionMap {
    map_of(&[(ObjectId([0xaa; 32]), "alice"), (ObjectId([0xbb; 32]), "bob")])
}

fn manifest() -> ProvenanceManifest {
    ProvenanceManifest::new(entries()).unwrap()
}

fn legacy_encoded() -> Vec<u8> {
    let pairs = entries()
        .items()
        .iter()
        .map(|item| {
            let mut key = Vec::new();
            encode_text(&mut key, &item.id.hex());
            let mut value = Vec::new();
            encode_text(&mut value, &item.label);
            (key, value)
        })
        .collect();
    let mut encoded = Vec::new();
    encode_map_sorted(&mut encoded, pairs);
    encoded
}

#[test]
fn provenance_manifest_is_canonical_and_roundtrips() {
    let value = manifest();
    let encoded = value.encode();
    assert_eq!(ProvenanceManifest::decode(&encoded).unwrap(), value);
    assert_eq!(value.encode(), encoded);
    assert!(!value.is_legacy());

    let legacy = ProvenanceManifest::decode(&legacy_encoded()).unwrap();
    assert!(legacy.is_legacy());
    assert_eq!(legacy.entries(), &entries());
}

#[test]
fn provenance_manifest_rejects_noncanonical_and_malformed_keys() {
    let encoded = legacy_encoded();

    let mut out_of_order = encoded.clone();
    let entry_len = 2 + 64 + 1 + "alice".len();
    let first = out_of_order[1..1 + entry_len].to_vec();
    let second = out_of_order[1 + entry_len..].to_vec();
    out_of_order.truncate(1);
    out_of_order.extend_from_slice(&second);
    out_of_order.extend_from_slice(&first);
    assert!(ProvenanceManifest::decode(&out_of_order).is_err());

    let uppercase_position = encoded[3..67]
        .iter()
        .position(|byte| *byte == b'a')
        .unwrap();
    let mut uppercase = encoded.clone();
    uppercase[uppercase_position + 3] = b'A';
    assert!(ProvenanceManifest::decode(&uppercase).is_err());

    let mut trailing = encoded;
    trailing.push(0);
    assert!(ProvenanceManifest::decode(&trailing).is_err());
}

#[test]
fn provenance_manifest_rejects_unknown_envelope_versions() {
    let mut version = Vec::new();
    encode_u64(&mut version, 2);
    let mut encoded = Vec::new();
    encode_map_sorted(
        &mut encoded,
        vec![
            (text_key("entries"), legacy_encoded()),
            (text_key("version"), version),
        ],
    );

    let error = ProvenanceManifest::decode(&encoded).unwrap_err();
    assert!(error.message().contains("unsupported provenance version 2"));
}

#[test]
fn attribution_and_canonical_payload_limits_apply_before_publication() {
    let long = "x".repeat(MAX_LABEL_BYTES + 1);
    let oversized_label = map_of(&[(ObjectId([1; 32]), &long)]);
    assert!(ProvenanceManifest::new(oversized_label).is_err());

    let manifest =
        ProvenanceManifest::new(map_of(&[(ObjectId([2; 32]), "agent")])).unwrap();
    let canonical = manifest.encode();
    let error =
        ProvenanceManifest::decode_with_limit(&canonical, canonical.len() - 1).unwrap_err();
    assert!(error.message().contains("serialized size limit"));
}

#[test]
fn decoder_rejects_an_oversized_label_before_copying_it() {
    let mut key = Vec::new();
    encode_text(&mut key, &ObjectId([3; 32]).hex());
    let mut label = Vec::new();
    encode_text(&mut label, &"x".repeat(MAX_LABEL_BYTES + 1));
    let mut encoded = Vec::new();
    encode_map_sorted(&mut encoded, vec![(key, label)]);

    let error = ProvenanceManifest::decode(&encoded).unwrap_err();
    assert!(error.message().contains("attribution label"));
}
