use nonos_chat::virtqueue_layout::{avail_offset, used_offset, valid_queue_size, REGION_SIZE};

#[test]
fn standard_256_slot_layout() {
    assert_eq!(avail_offset(256), 4096);
    assert_eq!(used_offset(256), 8192);
}

#[test]
fn qemu_1024_slot_layout() {
    assert_eq!(avail_offset(1024), 16384);
    assert_eq!(used_offset(1024), 20480);
}

#[test]
fn every_supported_ring_fits_without_overlap() {
    for exponent in 0..=10 {
        let slots = 1u16 << exponent;
        assert!(valid_queue_size(slots));
        assert!(used_offset(slots) >= avail_offset(slots) + 6 + 2 * slots as usize);
        assert_eq!(used_offset(slots) % 4096, 0);
        assert!(used_offset(slots) + 6 + 8 * slots as usize <= REGION_SIZE);
    }
}

#[test]
fn reject_invalid_device_sizes() {
    for slots in [0, 3, 255, 1023, 1025, 2048, u16::MAX] {
        assert!(!valid_queue_size(slots));
    }
}
