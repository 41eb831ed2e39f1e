use splayed::bitmap::{bitmap_count_ones, bitmap_fill_bits, Bitmap, BitmapView};
use splayed::buffer::BufferView;
use splayed::FormatError;

#[test]
fn ones_and_zeros_roundtrip() {
    for len in [0usize, 1, 7, 8, 9, 63, 64, 65, 250] {
        let ones = Bitmap::ones(len);
        assert_eq!(ones.len(), len);
        assert_eq!(ones.as_view().null_count(), 0);

        let zeros = Bitmap::zeros(len);
        assert_eq!(zeros.as_view().null_count(), len);
    }
    let bmp = Bitmap::ones(10);
    assert_eq!(bmp.as_view().as_raw().len(), 2);
    // The last byte has its two low bits set only.
    assert_eq!(bmp.as_view().as_raw()[1], 0b0000_0011);
}

#[test]
fn set_and_slice() {
    let mut bmp = Bitmap::ones(20);
    bmp.set(3, false);
    bmp.set(17, false);
    assert!(!bmp.is_valid(3));
    assert!(!bmp.is_valid(17));
    assert!(bmp.is_valid(4));

    let tail = bmp.as_view().slice(16, 4).unwrap();
    assert_eq!(tail.len(), 4);
    assert!(tail.is_valid(0));
    assert!(!tail.is_valid(1));

    assert!(bmp.as_view().slice(18, 4).is_err());
}

#[test]
fn bit_offset_view() {
    let mut bmp = Bitmap::ones(16);
    bmp.set(9, false);
    // In the view from bit 8 on, bit 9 is number 1.
    let view = BitmapView::new(BufferView::new(bmp.as_view().as_raw()), 8, 8).unwrap();
    assert!(!view.is_valid(1));
    assert!(view.is_valid(0));
    assert!(view.is_valid(7));
}

/// A fixed pattern without visible order.
fn pattern_bitmap(len: usize) -> Bitmap {
    let mut bmp = Bitmap::zeros(len);
    for i in 0..len {
        if (i * 7 + 3) % 5 != 0 && (i ^ 0x2A) % 3 != 0 {
            bmp.set(i, true);
        }
    }
    bmp
}

#[test]
fn count_ones_matches_perbit_on_misaligned_ranges() {
    let bmp = pattern_bitmap(257);
    let expected: usize = (0..257).filter(|&i| bmp.is_valid(i)).count();
    assert_eq!(bmp.count_ones(), expected);
    assert_eq!(bmp.null_count(), 257 - expected);
    for off in [0usize, 1, 3, 7, 8, 9, 15, 16, 63, 64, 65, 128, 250] {
        for len in [0usize, 1, 2, 7, 8, 9, 16, 33, 64, 65] {
            if off + len > 257 {
                continue;
            }
            let view = bmp.as_view().slice(off, len).unwrap();
            let per_bit = (0..len).filter(|&i| view.is_valid(i)).count();
            assert_eq!(view.count_ones(), per_bit, "range [{off}, {})", off + len);
        }
    }
}

#[test]
fn copy_bits_roundtrip_all_phases() {
    let src = pattern_bitmap(200);
    for dst_off in [0usize, 1, 3, 7, 8, 9, 15, 16, 63, 65] {
        for src_off in [0usize, 1, 5, 8, 13, 16, 64] {
            let len = 100;
            if src_off + len > 200 || dst_off + len > 260 {
                continue;
            }
            let mut dst = Bitmap::zeros(260);
            let (old_ones, new_ones) = {
                let view = src.as_view().slice(src_off, len).unwrap();
                dst.copy_bits_from(dst_off, &view, len)
            };
            assert_eq!(old_ones, 0, "dst starts all zero");
            assert_eq!(new_ones as usize, {
                let v = src.as_view().slice(src_off, len).unwrap();
                (0..len).filter(|&i| v.is_valid(i)).count()
            });
            for i in 0..len {
                assert_eq!(
                    dst.is_valid(dst_off + i),
                    src.is_valid(src_off + i),
                    "dst_off={dst_off} src_off={src_off} bit {i}"
                );
            }
            // What lies outside stays as it was.
            assert!((0..dst_off).all(|i| !dst.is_valid(i)));
            assert!((dst_off + len..260).all(|i| !dst.is_valid(i)));
        }
    }
}

#[test]
fn copy_bits_returns_delta_counts() {
    let mut dst = Bitmap::zeros(40);
    dst.set_range(5, 8, true);
    assert_eq!(dst.count_ones(), 8);
    let mut src_bits = Bitmap::zeros(8);
    src_bits.set(1, true);
    src_bits.set(6, true);
    let (old, new) = {
        let view = src_bits.as_view();
        dst.copy_bits_from(5, &view, 8)
    };
    assert_eq!(old, 8);
    assert_eq!(new, 2);
    assert_eq!(dst.count_ones(), 2);
}

#[test]
fn set_range_fill_bytes_and_edges() {
    let mut bmp = Bitmap::zeros(70);
    let old = bmp.set_range(3, 60, true);
    assert_eq!(old, 0);
    assert_eq!(bmp.count_ones(), 60);
    assert!(!bmp.is_valid(2));
    assert!(bmp.is_valid(3));
    assert!(bmp.is_valid(62));
    assert!(!bmp.is_valid(63));
    let old = bmp.set_range(10, 5, false);
    assert_eq!(old, 5);
    assert_eq!(bmp.count_ones(), 55);
    for i in 0..70 {
        let expected = (3..63).contains(&i) && !(10..15).contains(&i);
        assert_eq!(bmp.is_valid(i), expected, "bit {i}");
    }
}

#[test]
fn extract_bits_matches_source() {
    let src = pattern_bitmap(129);
    for (off, len) in [(0usize, 129usize), (1, 64), (7, 9), (63, 3), (120, 9)] {
        let out = src.extract_bits(off, len).unwrap();
        for i in 0..len {
            let bit = (out[i / 8] >> (i % 8)) & 1 == 1;
            assert_eq!(bit, src.is_valid(off + i), "extract [{off},+{len}) bit {i}");
        }
    }
    assert!(src.extract_bits(128, 2).is_err());
}

#[test]
fn packed_bytes_start_at_the_first_bit() {
    let src = pattern_bitmap(77);
    let view = src.as_view().slice(13, 40).unwrap();
    let packed = view.to_packed_bytes();
    assert_eq!(packed.len(), 5);
    for i in 0..40 {
        assert_eq!((packed[i / 8] >> (i % 8)) & 1 == 1, src.is_valid(13 + i));
    }
}

#[test]
fn counting_words_of_64_bits() {
    let bytes = vec![0xFFu8; 40];
    assert_eq!(bitmap_count_ones(&bytes, 3, 300), 300);
    assert_eq!(bitmap_count_ones(&bytes, 0, 0), 0);
    let mixed: Vec<u8> = (0..40u8).collect();
    let expected: u64 = (5..5 + 256)
        .filter(|i| (mixed[i / 8] >> (i % 8)) & 1 == 1)
        .count() as u64;
    assert_eq!(bitmap_count_ones(&mixed, 5, 256), expected);
}

#[test]
fn filling_bits_returns_what_was_set() {
    let mut bytes = vec![0b1010_1010u8; 3];
    assert_eq!(bitmap_fill_bits(&mut bytes, 2, 20, true), 10);
    assert_eq!(bytes, vec![0b1111_1110u8, 0xFF, 0b1011_1111]);
    assert_eq!(bitmap_fill_bits(&mut bytes, 0, 24, false), 22);
    assert_eq!(bytes, vec![0u8; 3]);
}

#[test]
fn a_view_needs_its_bytes() {
    let bytes = [0xFFu8; 2];
    assert!(BitmapView::new(BufferView::new(&bytes), 3, 13).is_ok());
    match BitmapView::new(BufferView::new(&bytes), 3, 14) {
        Err(FormatError::InvalidLayout(message)) => {
            assert_eq!(
                message,
                "validity buffer too small: need 3 bytes for bits [3, 17), got 2"
            );
        }
        other => panic!("{other:?}"),
    }
}
