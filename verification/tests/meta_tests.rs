use cliprec::errors::MetaError;
use cliprec::meta::decode_clip;

#[test]
fn empty_bytes_decode_to_empty_descriptor() {
    let c = decode_clip(&Vec::new()).unwrap();
    assert!(c.name.is_none());
    assert_eq!(c.timelines.len(), 0);
}

#[test]
fn name_field_is_decoded() {
    // field 1, length-delimited, "Hello"
    let bytes = vec![0x0a, 0x05, b'H', b'e', b'l', b'l', b'o'];
    let c = decode_clip(&bytes).unwrap();
    assert_eq!(c.name.unwrap(), "Hello");
    assert_eq!(c.timelines.len(), 0);
}

#[test]
fn nested_recording_id_is_decoded() {
    // timelines[0].recordings[0].recording_id == "abc"
    let recording = vec![0x0a, 0x03, b'a', b'b', b'c'];
    let mut timeline = vec![0x0a, recording.len() as u8];
    timeline.extend(recording);
    let mut clip = vec![0x12, timeline.len() as u8];
    clip.extend(timeline);
    let c = decode_clip(&clip).unwrap();
    assert_eq!(c.timelines.len(), 1);
    assert_eq!(c.timelines[0].recordings.len(), 1);
    assert_eq!(
        c.timelines[0].recordings[0].recording_id.as_deref(),
        Some("abc")
    );
}

#[test]
fn unknown_fields_are_skipped() {
    // field 3 varint (value 300, two varint bytes), then the name field
    let bytes = vec![0x18, 0xac, 0x02, 0x0a, 0x02, b'h', b'i'];
    let c = decode_clip(&bytes).unwrap();
    assert_eq!(c.name.unwrap(), "hi");
    assert_eq!(c.timelines.len(), 0);
}

#[test]
fn missing_timelines_field_means_no_timelines() {
    // Only a name and an unknown fixed32 field: schema-tolerant decode.
    let bytes = vec![0x0a, 0x01, b'x', 0x25, 1, 2, 3, 4];
    let c = decode_clip(&bytes).unwrap();
    assert_eq!(c.timelines.len(), 0);
}

#[test]
fn truncated_payload_is_an_error() {
    // Declared length 5, only two bytes follow.
    let bytes = vec![0x0a, 0x05, b'h', b'i'];
    assert_eq!(decode_clip(&bytes).unwrap_err(), MetaError::MetadataDecode);
}

#[test]
fn dangling_key_is_an_error() {
    let bytes = vec![0x0a];
    assert_eq!(decode_clip(&bytes).unwrap_err(), MetaError::MetadataDecode);
}

#[test]
fn invalid_utf8_name_is_an_error() {
    let bytes = vec![0x0a, 0x02, 0xff, 0xfe];
    assert_eq!(decode_clip(&bytes).unwrap_err(), MetaError::MetadataDecode);
}

#[test]
fn group_wire_type_is_an_error() {
    // field 1, wire type 3 (group start) has no defined payload shape
    let bytes = vec![0x0b];
    assert_eq!(decode_clip(&bytes).unwrap_err(), MetaError::MetadataDecode);
}

#[test]
fn last_name_wins() {
    let bytes = vec![0x0a, 0x01, b'a', 0x0a, 0x01, b'b'];
    let c = decode_clip(&bytes).unwrap();
    assert_eq!(c.name.unwrap(), "b");
}

#[test]
fn multibyte_name_is_decoded() {
    // field 1, length 3: "é" (two bytes) plus "x"
    let bytes = vec![0x0a, 0x03, 0xc3, 0xa9, b'x'];
    let c = decode_clip(&bytes).unwrap();
    assert_eq!(c.name.unwrap(), "\u{e9}x");
}
