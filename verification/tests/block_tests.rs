use pagedb::block::ceil_to_block_hi_pos;
use pagedb::block::floor_to_block_lo_pos;
use pagedb::block::BlockHandle;

#[test]
fn test_floor_to_block_lo_pos() {
    // Test with different alignments
    assert_eq!(floor_to_block_lo_pos(5000, 4096), 4096);
    assert_eq!(floor_to_block_lo_pos(12345, 1024), 12288);
}

#[test]
fn test_ceil_to_block_hi_pos() {
    assert_eq!(ceil_to_block_hi_pos(5000, 4096), 8192);
    assert_eq!(ceil_to_block_hi_pos(12288, 1024), 12288);
    assert_eq!(ceil_to_block_hi_pos(1, 16), 16);
}

#[test]
fn test_block_handle_default() {
    let h = BlockHandle::default();
    assert_eq!(h.offset, 0);
    assert_eq!(h.length, 0);
}
