use move_api::block::NativeBlockContext;

#[test]
fn new_context_reads_back() {
    let ctx = NativeBlockContext::new("initia-1".to_string(), 42, 1_700_000_000_123_456_789);
    assert_eq!(ctx.get_chain_id(), "initia-1");
    assert_eq!(ctx.get_block_height(), 42);
    assert_eq!(ctx.get_block_timestamp_nanos(), 1_700_000_000_123_456_789);
    assert_eq!(ctx.get_block_timestamp(), 1_700_000_000);
    assert_eq!(ctx.get_block_info(), (42, 1_700_000_000));
}

#[test]
fn setters_change_one_field() {
    let mut ctx = NativeBlockContext::new("a".to_string(), 1, 5);
    ctx.set_chain_id("b".to_string());
    assert_eq!(ctx.get_chain_id(), "b");
    assert_eq!(ctx.get_block_height(), 1);
    ctx.set_block_height(9);
    assert_eq!(ctx.get_block_height(), 9);
    assert_eq!(ctx.get_block_timestamp_nanos(), 5);
    ctx.set_block_timestamp(100);
    assert_eq!(ctx.get_block_timestamp_nanos(), 100_000_000_000);
    assert_eq!(ctx.get_block_info(), (9, 100));
    ctx.set_block_timestamp_nanos(2_999_999_999);
    assert_eq!(ctx.get_block_timestamp(), 2);
    assert_eq!(ctx.get_chain_id(), "b");
}

#[test]
fn largest_whole_second_timestamp() {
    let mut ctx = NativeBlockContext::new(String::new(), 0, 0);
    let secs = u64::MAX / 1_000_000_000;
    ctx.set_block_timestamp(secs);
    assert_eq!(ctx.get_block_timestamp(), secs);
}
