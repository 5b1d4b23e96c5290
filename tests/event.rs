use hoot::{EventBuilder, EventId, Tag};

#[test]
fn event_id_from_string_pads_and_truncates() {
    let id = EventId::from_string("abc".to_string());
    let mut expected = [0u8; 32];
    expected[..3].copy_from_slice(b"abc");
    assert_eq!(id.as_bytes(), &expected);
    let long = "x".repeat(40);
    assert_eq!(EventId::from_string(long).into_bytes(), [b'x'; 32]);
    assert_eq!(EventId::from_array([9u8; 32]).into_bytes(), [9u8; 32]);
    assert_eq!(EventId::default().into_bytes(), [0u8; 32]);
}

#[test]
fn tag_accessors() {
    let tag = Tag::new();
    assert_eq!(tag.content(), None);
    assert_eq!(tag.len(), 0);
}

#[test]
fn event_builder_collects_fields() {
    let b = EventBuilder::new().kind(1).created_at(1234567890);
    assert_eq!(b.kind, Some(1));
    assert_eq!(b.created_at, Some(1234567890));
    assert!(b.tags.is_none());
    let b = b.tag(Tag::new()).tags(vec![Tag::new(), Tag::new()]);
    assert_eq!(b.tags.as_ref().map(|t| t.len()), Some(3));
    assert!(b.content.is_none());
}

#[test]
fn event_id_from_impls() {
    let a: EventId = [3u8; 32].into();
    assert_eq!(a.into_bytes(), [3u8; 32]);
    let b = EventId::from("hi".to_string());
    let mut expected = [0u8; 32];
    expected[..2].copy_from_slice(b"hi");
    assert_eq!(b.into_bytes(), expected);
}
