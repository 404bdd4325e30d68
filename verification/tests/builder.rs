use ir_builder::Block;
use ir_builder::Builder;
use ir_builder::Context;
use ir_builder::Location;
use ir_builder::Operation;
use ir_builder::ir::OperationState;

fn op(cx: &mut Context, name: u64) -> Operation {
    OperationState::new(name, Location::Unknown).build(cx)
}

fn block_in_fresh_region(cx: &mut Context) -> Block {
    let blk = cx.create_block();
    let region = cx.create_region();
    cx.append_block(region, blk);
    blk
}

#[test]
fn new_builder_defaults() {
    let bld = Builder::new();
    assert_eq!(bld.loc(), Location::Unknown);
    assert!(bld.insert_block.is_none());
    assert!(bld.insert_block_after.is_none());
}

#[test]
fn set_loc_and_loc() {
    let mut bld = Builder::new();
    bld.set_loc(Location::Tagged(7));
    assert_eq!(bld.loc(), Location::Tagged(7));
    bld.set_loc(Location::Tagged(8));
    assert_eq!(bld.loc(), Location::Tagged(8));
}

#[test]
fn start_semantics_appends_in_call_order() {
    // Two consecutive inserts at BlockStart of an empty block: the first
    // operation stays first, the second lands directly after it.
    let mut cx = Context::new();
    let mut bld = Builder::new();
    let blk = block_in_fresh_region(&mut cx);
    bld.set_insertion_point_to_start(blk);
    let first = op(&mut cx, 1);
    bld.insert(&mut cx, first);
    let second = op(&mut cx, 2);
    bld.insert(&mut cx, second);
    assert_eq!(cx.block_operations(blk), vec![first, second]);
}

#[test]
fn order_preserved_from_block_start() {
    let mut cx = Context::new();
    let mut bld = Builder::new();
    let blk = block_in_fresh_region(&mut cx);
    let x = op(&mut cx, 10);
    let y = op(&mut cx, 11);
    bld.set_insertion_point_to_end(blk);
    bld.insert(&mut cx, x);
    bld.insert(&mut cx, y);
    bld.set_insertion_point_to_start(blk);
    let n1 = op(&mut cx, 1);
    let n2 = op(&mut cx, 2);
    let n3 = op(&mut cx, 3);
    bld.insert(&mut cx, n1);
    bld.insert(&mut cx, n2);
    bld.insert(&mut cx, n3);
    assert_eq!(cx.block_operations(blk), vec![n1, n2, n3, x, y]);
}

#[test]
fn order_preserved_from_block_end() {
    let mut cx = Context::new();
    let mut bld = Builder::new();
    let blk = block_in_fresh_region(&mut cx);
    let x = op(&mut cx, 10);
    let y = op(&mut cx, 11);
    bld.set_insertion_point_to_end(blk);
    bld.insert(&mut cx, x);
    bld.insert(&mut cx, y);
    bld.set_insertion_point_to_end(blk);
    let n1 = op(&mut cx, 1);
    let n2 = op(&mut cx, 2);
    let n3 = op(&mut cx, 3);
    bld.insert(&mut cx, n1);
    bld.insert(&mut cx, n2);
    bld.insert(&mut cx, n3);
    assert_eq!(cx.block_operations(blk), vec![x, y, n1, n2, n3]);
}

#[test]
fn order_preserved_from_before() {
    let mut cx = Context::new();
    let mut bld = Builder::new();
    let blk = block_in_fresh_region(&mut cx);
    let x = op(&mut cx, 10);
    let y = op(&mut cx, 11);
    bld.set_insertion_point_to_end(blk);
    bld.insert(&mut cx, x);
    bld.insert(&mut cx, y);
    bld.set_insertion_point_before(&cx, y);
    let n1 = op(&mut cx, 1);
    let n2 = op(&mut cx, 2);
    let n3 = op(&mut cx, 3);
    bld.insert(&mut cx, n1);
    bld.insert(&mut cx, n2);
    bld.insert(&mut cx, n3);
    assert_eq!(cx.block_operations(blk), vec![x, n1, n2, n3, y]);
}

#[test]
fn order_preserved_from_after() {
    let mut cx = Context::new();
    let mut bld = Builder::new();
    let blk = block_in_fresh_region(&mut cx);
    let x = op(&mut cx, 10);
    let y = op(&mut cx, 11);
    bld.set_insertion_point_to_end(blk);
    bld.insert(&mut cx, x);
    bld.insert(&mut cx, y);
    bld.set_insertion_point_after(&cx, x);
    let n1 = op(&mut cx, 1);
    let n2 = op(&mut cx, 2);
    let n3 = op(&mut cx, 3);
    bld.insert(&mut cx, n1);
    bld.insert(&mut cx, n2);
    bld.insert(&mut cx, n3);
    assert_eq!(cx.block_operations(blk), vec![x, n1, n2, n3, y]);
}

#[test]
fn mid_block_insertion() {
    // Block [A, C]: inserting B before C gives [A, B, C]; the cursor
    // auto-advances to after B, so a further insert gives [A, B, B2, C].
    let mut cx = Context::new();
    let mut bld = Builder::new();
    let blk = block_in_fresh_region(&mut cx);
    bld.set_insertion_point_to_end(blk);
    let a = op(&mut cx, 1);
    bld.insert(&mut cx, a);
    let c = op(&mut cx, 3);
    bld.insert(&mut cx, c);
    bld.set_insertion_point_before(&cx, c);
    let b = op(&mut cx, 2);
    bld.insert(&mut cx, b);
    assert_eq!(cx.block_operations(blk), vec![a, b, c]);
    let b2 = op(&mut cx, 4);
    bld.insert(&mut cx, b2);
    assert_eq!(cx.block_operations(blk), vec![a, b, b2, c]);
}

#[test]
fn tracking_follows_parent_block() {
    let mut cx = Context::new();
    let mut bld = Builder::new();
    let blk = block_in_fresh_region(&mut cx);
    bld.set_insertion_point_to_end(blk);
    let a = op(&mut cx, 1);
    bld.insert(&mut cx, a);
    assert_eq!(cx.parent_block_of(a), Some(blk));
    let mut other = Builder::new();
    other.set_insertion_point_after(&cx, a);
    assert_eq!(other.insert_block, Some(blk));
    assert_eq!(other.insert_block_after, Some(blk));
}

#[test]
fn add_block_sequences_blocks_without_moving_cursor() {
    // With B0 tracked, three add_block calls chain B1, B2, B3 after B0 in
    // the parent region, in creation order, while operations keep landing
    // in B0.
    let mut cx = Context::new();
    let mut bld = Builder::new();
    let b0 = cx.create_block();
    let region = cx.create_region();
    cx.append_block(region, b0);
    bld.set_insertion_point_to_end(b0);
    let e1 = op(&mut cx, 1);
    bld.insert(&mut cx, e1);
    let b1 = bld.add_block(&mut cx);
    let e2 = op(&mut cx, 2);
    bld.insert(&mut cx, e2);
    let b2 = bld.add_block(&mut cx);
    let b3 = bld.add_block(&mut cx);
    let e3 = op(&mut cx, 3);
    bld.insert(&mut cx, e3);
    assert_eq!(cx.region_blocks(region), vec![b0, b1, b2, b3]);
    assert_eq!(cx.block_operations(b0), vec![e1, e2, e3]);
    assert_eq!(cx.block_operations(b1), vec![]);
    assert_eq!(cx.block_operations(b2), vec![]);
    assert_eq!(cx.block_operations(b3), vec![]);
    assert_eq!(cx.parent_region_of(b1), Some(region));
    assert_eq!(cx.parent_region_of(b3), Some(region));
}

#[test]
fn sentinel_splices_at_block_edges() {
    // The raw engine primitives: "after the empty sentinel" means before the
    // block's first operation, "before the empty sentinel" means after its
    // last.
    let mut cx = Context::new();
    let blk = block_in_fresh_region(&mut cx);
    let a = op(&mut cx, 1);
    cx.insert_operation_after(blk, None, a);
    let b = op(&mut cx, 2);
    cx.insert_operation_after(blk, None, b);
    assert_eq!(cx.block_operations(blk), vec![b, a]);
    let c = op(&mut cx, 3);
    cx.insert_operation_before(blk, None, c);
    assert_eq!(cx.block_operations(blk), vec![b, a, c]);
    let d = op(&mut cx, 4);
    cx.insert_operation_after(blk, Some(a), d);
    assert_eq!(cx.block_operations(blk), vec![b, a, d, c]);
    let e = op(&mut cx, 5);
    cx.insert_operation_before(blk, Some(a), e);
    assert_eq!(cx.block_operations(blk), vec![b, e, a, d, c]);
}

#[test]
fn location_stamping() {
    // An operation built after set_loc(L) carries L; moving the builder's
    // location afterwards does not retroactively change it.
    let mut cx = Context::new();
    let mut bld = Builder::new();
    let blk = block_in_fresh_region(&mut cx);
    bld.set_insertion_point_to_end(blk);
    bld.set_loc(Location::Tagged(5));
    let first = bld.build_with(&mut cx, 9, |_cx, _b, _st| {});
    assert_eq!(cx.operation_loc(first), Location::Tagged(5));
    assert_eq!(cx.operation_name(first), 9);
    bld.set_loc(Location::Tagged(6));
    assert_eq!(cx.operation_loc(first), Location::Tagged(5));
    let second = bld.build_with(&mut cx, 9, |_cx, _b, _st| {});
    assert_eq!(cx.operation_loc(second), Location::Tagged(6));
    assert_eq!(cx.block_operations(blk), vec![first, second]);
}

#[test]
fn build_with_collects_operands_and_inserts() {
    let mut cx = Context::new();
    let mut bld = Builder::new();
    let blk = block_in_fresh_region(&mut cx);
    bld.set_insertion_point_to_end(blk);
    let built = bld.build_with(&mut cx, 42, |_cx, _b, st| {
        st.add_operand(7);
        st.add_operand(8);
    });
    assert_eq!(cx.operation_name(built), 42);
    assert_eq!(cx.operation_operands(built), vec![7, 8]);
    assert_eq!(cx.parent_block_of(built), Some(blk));
    assert_eq!(cx.block_operations(blk), vec![built]);
}

#[test]
fn build_with_reentrant_nested_emission() {
    // The callback may reconfigure the builder to emit nested structure
    // before the outer operation is spliced; the outer operation then lands
    // at whatever cursor the callback left configured.
    let mut cx = Context::new();
    let mut bld = Builder::new();
    let outer = block_in_fresh_region(&mut cx);
    let inner = block_in_fresh_region(&mut cx);
    bld.set_insertion_point_to_end(outer);
    let built = bld.build_with(&mut cx, 1, |cx, b, _st| {
        b.set_insertion_point_to_end(inner);
        let nested = OperationState::new(2, Location::Unknown).build(cx);
        b.insert(cx, nested);
        b.set_insertion_point_to_end(outer);
    });
    assert_eq!(cx.block_operations(outer), vec![built]);
    assert_eq!(cx.block_operations(inner).len(), 1);
    let nested = cx.block_operations(inner)[0];
    assert_eq!(cx.operation_name(nested), 2);
}
