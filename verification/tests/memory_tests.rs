use merkle_bitmap::{byte_unit, get_allocated_memory, get_net_allocated_memory, ByteUnit};

#[test]
fn allocated_memory_is_the_nominal_figure() {
    assert_eq!(get_allocated_memory(), 2000000);
    assert_eq!(get_net_allocated_memory(0), 2000000);
    assert_eq!(get_net_allocated_memory(12345), 2000000);
}

#[test]
fn byte_unit_changes_just_above_each_threshold() {
    assert_eq!(byte_unit(0), ByteUnit::Bytes);
    assert_eq!(byte_unit(1024), ByteUnit::Bytes);
    assert_eq!(byte_unit(1025), ByteUnit::Kilobytes);
    assert_eq!(byte_unit(1048576), ByteUnit::Kilobytes);
    assert_eq!(byte_unit(1048577), ByteUnit::Megabytes);
    assert_eq!(byte_unit(2000000), ByteUnit::Megabytes);
    assert_eq!(byte_unit(1073741824), ByteUnit::Megabytes);
    assert_eq!(byte_unit(1073741825), ByteUnit::Gigabytes);
}
