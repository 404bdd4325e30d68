use ir_builder::Context;
use ir_builder::TypeHandle;
use ir_builder::text::StringRef;

#[test]
fn null_type_handles_compare_equal() {
    let cx = Context::new();
    assert!(cx.type_eq(TypeHandle::Null, TypeHandle::Null));
}

#[test]
fn null_never_equals_non_null() {
    let mut cx = Context::new();
    let t = cx.make_type(42);
    assert!(!t.is_null());
    assert!(!cx.type_eq(TypeHandle::Null, t));
    assert!(!cx.type_eq(t, TypeHandle::Null));
}

#[test]
fn structurally_identical_content_compares_equal() {
    // Two independently obtained handles denoting the same content are
    // equal, even though the handles themselves differ.
    let mut cx = Context::new();
    let t1 = cx.make_type(42);
    let t2 = cx.make_type(42);
    assert_ne!(t1, t2);
    assert!(cx.type_eq(t1, t2));
    assert!(cx.type_eq(t2, t1));
}

#[test]
fn different_content_compares_unequal() {
    let mut cx = Context::new();
    let t1 = cx.make_type(42);
    let t2 = cx.make_type(43);
    assert!(!cx.type_eq(t1, t2));
    assert!(!cx.type_eq(t2, t1));
}

#[test]
fn block_handle_equality() {
    let mut cx = Context::new();
    let b1 = cx.create_block();
    let b2 = cx.create_block();
    assert!(cx.block_eq(None, None));
    assert!(!cx.block_eq(None, Some(b1)));
    assert!(!cx.block_eq(Some(b1), None));
    assert!(cx.block_eq(Some(b1), Some(b1)));
    assert!(!cx.block_eq(Some(b1), Some(b2)));
}

#[test]
fn text_round_trip() {
    let s = "héllo, wörld ✓";
    let view = StringRef::from_text(s);
    assert_eq!(view.len(), s.len());
    let back = view.to_text().unwrap();
    assert_eq!(back, s);
}

#[test]
fn empty_text_round_trip() {
    let view = StringRef::from_text("");
    assert_eq!(view.len(), 0);
    assert_eq!(view.to_text().unwrap(), "");
}

#[test]
fn invalid_bytes_fail_to_decode() {
    let view = StringRef::from_bytes(vec![0xff, 0xfe, 0x20]);
    assert!(view.to_text().is_err());
}

#[test]
fn valid_bytes_decode_to_their_text() {
    let view = StringRef::from_bytes(vec![0x68, 0x69]);
    assert_eq!(view.to_text().unwrap(), "hi");
}
