use shadowd::block::allocator_block::{frag_index, AllocatorBlock, DiskAccess};
use shadowd::block::insert_helpers::TransitOption;
use shadowd::block::shadowd_dispatcher::{start_action, DispatchAction};

#[test]
fn fragments_are_numbered_up_to_four() {
    assert_eq!(frag_index(0), Some(0));
    assert_eq!(frag_index(3), Some(3));
    assert_eq!(frag_index(4), None);
}

#[test]
fn block_size_is_fixed() {
    assert_eq!(AllocatorBlock::get_size_block(), 283);
}

#[test]
fn keys_compose() {
    let lk = AllocatorBlock::get_layer_key(1);
    let dk = AllocatorBlock::get_disk_key(lk, 2);
    let bk = AllocatorBlock::get_block_key(dk, 3);
    assert_eq!(AllocatorBlock::get_ofusc_key(1, 2, 3), bk);
    assert_ne!(AllocatorBlock::get_ofusc_key(1, 2, 3), AllocatorBlock::get_ofusc_key(1, 2, 4));
    // Multiplying zero by anything and mixing zero both give zero.
    assert_eq!(AllocatorBlock::get_disk_key(lk, 0), lk);
    assert_eq!(AllocatorBlock::get_block_key(dk, 0), dk);
}

#[test]
fn locate_splits_offsets_into_fragments() {
    let mut alloc = AllocatorBlock::new();
    let max = i64::MAX as u64;
    let a = alloc.locate(max + 5, 7).unwrap();
    assert_eq!(a, DiskAccess { disk: 7, frag: 1, slot: 1, inner_off: 5, must_open: true });
    alloc.mark_open(7, 1);
    let a = alloc.locate(max + 9, 7).unwrap();
    assert!(!a.must_open);
    assert!(alloc.locate(9, 7).unwrap().must_open);
    assert_eq!(alloc.locate(9, u16::MAX), None);
    assert!(alloc.locate(u64::MAX, 0).is_some());
    assert_eq!(alloc.locate(u64::MAX, 0).unwrap().frag, 2);
}

#[test]
fn dispatcher_actions() {
    assert_eq!(start_action(TransitOption::InsertBegin), DispatchAction::RunInsert);
    assert_eq!(start_action(TransitOption::InsertEnd), DispatchAction::RunInsert);
    assert_eq!(start_action(TransitOption::InsertInPos), DispatchAction::RunInsert);
    assert_eq!(start_action(TransitOption::Finalize), DispatchAction::Finish);
    assert_eq!(start_action(TransitOption::DeletePosDefault), DispatchAction::Unsupported);
}
