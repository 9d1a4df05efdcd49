use daedal::{ImgSec, PixelBuffer};

#[test]
fn new_buffer_is_black() {
    let b = PixelBuffer::new(4, 3).unwrap();
    assert_eq!(b.dimensions(), (4, 3));
    assert_eq!(b.pixel(3, 2), Some([0, 0, 0]));
    assert_eq!(b.pixel(4, 0), None);
    assert_eq!(b.pixel(0, 3), None);
    assert_eq!(b.to_raw(), vec![0u8; 36]);
}

#[test]
fn oversized_buffer_is_refused() {
    assert!(PixelBuffer::new(u32::MAX, u32::MAX).is_none());
}

#[test]
fn raw_bytes_go_row_by_row() {
    let mut sec = ImgSec { x: 0, y: 0, buf: PixelBuffer::new(2, 2).unwrap() };
    sec.paint(1, 0, 0, &[[10, 20, 30]], 5);
    sec.paint(0, 1, 0, &[[40, 50, 60]], 5);
    assert_eq!(
        sec.buf.to_raw(),
        vec![0, 0, 0, 10, 20, 30, 40, 50, 60, 0, 0, 0]
    );
}
