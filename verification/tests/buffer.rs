//! Buffers and views of them.

use candle_metal_kernels::buffer::Buffer;

/// A view stands for the same allocation, from its own byte on, and no further than it says.
#[test]
fn a_view_addresses_its_own_bytes() {
    let whole = Buffer::new(7, 4096, 0x1_0000);
    assert_eq!((whole.raw_id(), whole.length(), whole.base_offset()), (7, 4096, 0));
    assert_eq!(whole.data(), 0x1_0000);
    let v = whole.view(256, 128);
    assert_eq!((v.raw_id(), v.length(), v.base_offset()), (7, 128, 256));
    assert_eq!(v.contents(), 0x1_0000 + 256);
    let inner = v.view(64, 32);
    assert_eq!((inner.base_offset(), inner.length()), (320, 32));
    assert_eq!(inner.data(), 0x1_0000 + 320);
    let unmapped = Buffer::new(8, 4096, 0);
    assert_eq!(unmapped.view(16, 16).contents(), 0);
}
