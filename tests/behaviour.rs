use compressed_vec::buffered::{BufCVec, BufCVecRef, Buffer, BufferedCVec};
use compressed_vec::wire::{DecodeError, WireField};
use compressed_vec::CVec;

const WORD: usize = std::mem::size_of::<usize>();

fn pushed(values: &[u32]) -> CVec {
    let mut v = CVec::new();
    for x in values {
        v.push(*x);
    }
    v
}

#[test]
fn full_block_of_bytes_packs_at_eight_bits() {
    let v = pushed(&(0..=255).collect::<Vec<u32>>());
    assert_eq!(v.len(), 256);
    assert_eq!(v.capacity(), 256);
    // one width byte and 8 bits for each of 256 values
    assert_eq!(v.byte_len(), 2 * WORD + 1 + 256);
    let (blocks, items) = v.as_parts();
    assert_eq!(items, 256);
    assert_eq!(blocks.len(), 1);
    assert_eq!(blocks[0].0, 8);
}

#[test]
fn two_blocks_then_pop_back_to_one() {
    let mut v = pushed(&(0..=256).collect::<Vec<u32>>());
    assert_eq!(v.capacity(), 512);
    assert_eq!(v.pop(), Some(256));
    assert_eq!(v.len(), 256);
    assert_eq!(v.capacity(), 256);
    assert_eq!(v.last(), Some(255));
}

#[test]
fn with_capacity_rounds_up_to_blocks() {
    let v = CVec::with_capacity(1000);
    assert_eq!(v.capacity(), 1024);
    assert_eq!(v.len(), 0);
    assert_eq!(CVec::with_capacity(0).capacity(), 0);
    assert_eq!(CVec::with_capacity(256).capacity(), 256);
    assert_eq!(CVec::with_capacity(257).capacity(), 512);
}

#[test]
fn wire_round_trip_of_9999_values() {
    let data = (0..9999).collect::<Vec<u32>>();
    let v = pushed(&data);
    let bytes = v.as_bytes();
    let back = CVec::from_bytes(&bytes).unwrap();
    assert_eq!(back, v);
    assert_eq!(back, data);
}

#[test]
fn wire_round_trip_of_small_lengths() {
    for n in [0u32, 1, 255, 256, 257, 513] {
        let data = (0..n).map(|x| x.wrapping_mul(2654435761)).collect::<Vec<u32>>();
        let v = pushed(&data);
        let back = CVec::from_bytes(&v.as_bytes()).unwrap();
        assert_eq!(back, data);
    }
}

#[test]
fn empty_vector() {
    let mut v = CVec::new();
    assert_eq!(v.pop(), None);
    assert_eq!(v.len(), 0);
    assert!(v.is_empty());
    assert_eq!(v.last(), None);
    assert_eq!(v.get(0), None);
    assert_eq!(v.byte_len(), 2 * WORD);
}

#[test]
fn extend_64_then_192_equals_pushing_one_block() {
    let mut a = CVec::from_slice(&(0..64).collect::<Vec<u32>>());
    let b = CVec::from_slice(&(64..256).collect::<Vec<u32>>());
    a.extend(&b.as_vec());
    let direct = pushed(&(0..256).collect::<Vec<u32>>());
    assert_eq!(a.as_parts(), direct.as_parts());
    assert_eq!(a.capacity(), 256);
}

#[test]
fn push_then_pop_restores() {
    for n in [0u32, 1, 255, 256, 257] {
        let before = (0..n).collect::<Vec<u32>>();
        let mut v = pushed(&before);
        v.push(77);
        assert_eq!(v.pop(), Some(77));
        assert_eq!(v.len(), before.len());
        assert_eq!(v, before);
    }
}

#[test]
fn extend_twice_equals_pushing_all() {
    let lens = [0u32, 1, 255, 256, 257, 511, 512, 513];
    for a_len in lens {
        for b_len in lens {
            let a = (0..a_len).collect::<Vec<u32>>();
            let b = (1000..1000 + b_len).collect::<Vec<u32>>();
            let mut ext = CVec::new();
            ext.extend(&a);
            ext.extend(&b);
            let mut all = a.clone();
            all.extend_from_slice(&b);
            let one_by_one = pushed(&all);
            assert_eq!(ext, one_by_one);
            assert_eq!(ext.as_vec(), all);
        }
    }
}

#[test]
fn extend_uses_spare_blocks_first() {
    let mut v = CVec::with_capacity(1000);
    let data = (0..600).collect::<Vec<u32>>();
    v.extend(&data);
    assert_eq!(v.capacity(), 1024);
    assert_eq!(v, data);
    v.extend(&(600..1100).collect::<Vec<u32>>());
    assert_eq!(v.capacity(), 1280);
    assert_eq!(v, (0..1100).collect::<Vec<u32>>());
}

#[test]
fn cache_reads_match_get_in_any_order() {
    let n = 3000usize;
    let v = pushed(&(0..n as u32).map(|x| x * 7 % 1009).collect::<Vec<u32>>());
    let mut cache = BufCVecRef::new(&v);
    // a stride coprime with n visits every index once, jumping between blocks
    let mut i = 0usize;
    for _ in 0..n {
        assert_eq!(cache.get_buffered(i).copied(), v.get(i));
        i = (i + 1237) % n;
    }
    assert_eq!(cache.get_buffered(n), None);
}

#[test]
fn buffer_reads_directly() {
    let v = pushed(&(0..700).collect::<Vec<u32>>());
    let mut buf = Buffer::new();
    assert_eq!(buf.read_buffered(&v, 699), Some(&699));
    assert_eq!(buf.read_buffered(&v, 3), Some(&3));
    assert_eq!(buf.read_buffered(&v, 700), None);
}

#[test]
fn wire_bytes_layout() {
    let v = pushed(&[1, 2, 3]);
    let bytes = v.as_bytes();
    assert_eq!(bytes.len(), 8 + 4 + 1 + 2 * 32);
    assert_eq!(&bytes[0..8], &3u64.to_le_bytes());
    assert_eq!(&bytes[8..12], &1u32.to_le_bytes());
    assert_eq!(bytes[12], 2);
}

fn header(items: u64, blocks: u32) -> Vec<u8> {
    let mut b = items.to_le_bytes().to_vec();
    b.extend_from_slice(&blocks.to_le_bytes());
    b
}

#[test]
fn decode_errors() {
    assert_eq!(
        CVec::from_bytes(&[0, 0, 0]),
        Err(DecodeError::UnexpectedEnd(WireField::ItemCount))
    );
    assert_eq!(
        CVec::from_bytes(&[0; 10]),
        Err(DecodeError::UnexpectedEnd(WireField::BlockCount))
    );
    assert_eq!(CVec::from_bytes(&header(257, 1)), Err(DecodeError::TooFewBlocks));
    assert_eq!(
        CVec::from_bytes(&header(3, 1)),
        Err(DecodeError::UnexpectedEnd(WireField::BitWidth(0)))
    );
    let mut bad_width = header(3, 2);
    bad_width.push(0);
    bad_width.push(33);
    assert_eq!(CVec::from_bytes(&bad_width), Err(DecodeError::InvalidBitWidth(1)));
    let mut short = header(3, 1);
    short.push(2);
    short.extend_from_slice(&[0; 63]);
    assert_eq!(
        CVec::from_bytes(&short),
        Err(DecodeError::UnexpectedEnd(WireField::PackedBytes(0)))
    );
    let empty = CVec::from_bytes(&header(0, 0)).unwrap();
    assert!(empty.is_empty());
}

#[test]
fn zero_and_max_widths() {
    let zeros = pushed(&[0, 0, 0]);
    assert_eq!(zeros.byte_len(), 2 * WORD + 1);
    assert_eq!(zeros.get(2), Some(0));
    let max = pushed(&[u32::MAX, 1]);
    assert_eq!(max.byte_len(), 2 * WORD + 1 + 32 * 32);
    assert_eq!(max.get(0), Some(u32::MAX));
    assert_eq!(max.get(1), Some(1));
}

#[test]
fn set_out_of_range_changes_nothing() {
    let mut v = pushed(&[5, 6]);
    assert_eq!(v.set(2, 9), None);
    assert_eq!(v.set(1, 9), Some(()));
    assert_eq!(v, vec![5, 9]);
}

#[test]
fn from_parts_checks_blocks() {
    assert!(CVec::from_parts(vec![(33, vec![0; 33 * 32])], 1).is_none());
    assert!(CVec::from_parts(vec![(2, vec![0; 10])], 1).is_none());
    assert!(CVec::from_parts(vec![(0, vec![])], 257).is_none());
    let v = CVec::from_parts(vec![(0, vec![])], 256).unwrap();
    assert_eq!(v.get(255), Some(0));
}

#[test]
fn cursor_reports_remaining() {
    let v = pushed(&[4, 5, 6]);
    let mut it = v.iter();
    assert_eq!(it.len(), 3);
    assert_eq!(it.next(), Some(4));
    assert_eq!(it.len(), 2);
    let mut owned = v.clone().into_iter();
    owned.next();
    owned.next();
    owned.next();
    assert_eq!(owned.len(), 0);
    assert_eq!(owned.next(), None);
}

#[test]
fn cache_through_the_trait() {
    let v = pushed(&(0..300).collect::<Vec<u32>>());
    let mut owned = BufCVec::from(v.clone());
    assert_eq!(owned.get_vec().len(), 300);
    assert_eq!(BufferedCVec::get_buffered(&mut owned, 299), Some(&299));
    *owned.get_buffer() = Buffer::new();
    assert_eq!(BufferedCVec::get_buffered(&mut owned, 1), Some(&1));
}

#[test]
fn buffer_never_returns_stale_values() {
    let mut v = pushed(&(0..300).collect::<Vec<u32>>());
    let mut buf = Buffer::new();
    assert_eq!(buf.read_buffered(&v, 5), Some(&5));
    v.set(6, 600);
    assert_eq!(buf.read_buffered(&v, 6), Some(&600));
    let other = pushed(&(1000..1300).collect::<Vec<u32>>());
    assert_eq!(buf.read_buffered(&other, 6), Some(&1006));
    v.pop();
    assert_eq!(buf.read_buffered(&v, 6), Some(&600));
}

#[test]
fn pop_repacks_at_the_narrower_width() {
    let mut v = CVec::new();
    v.push(1);
    v.push(1000);
    assert_eq!(v.byte_len(), 2 * WORD + 1 + 10 * 32);
    assert_eq!(v.pop(), Some(1000));
    assert_eq!(v.byte_len(), 2 * WORD + 1 + 32);
    assert_eq!(v.get(0), Some(1));
}

#[test]
fn second_block_of_257_values_has_width_nine() {
    let v = pushed(&(0..=256).collect::<Vec<u32>>());
    assert_eq!(v.byte_len(), 2 * WORD + (1 + 8 * 32) + (1 + 9 * 32));
    assert_eq!(v.get(256), Some(256));
}

#[test]
fn with_capacity_blocks_are_empty() {
    let v = CVec::with_capacity(1000);
    assert_eq!(v.byte_len(), 2 * WORD + 4);
}

#[test]
fn extend_and_push_give_the_same_widths() {
    let lens = [0u32, 1, 255, 256, 257, 511, 512, 513];
    for a_len in lens {
        for b_len in lens {
            let a = (0..a_len).map(|x| x % 300).collect::<Vec<u32>>();
            let b = (0..b_len).map(|x| x * 31).collect::<Vec<u32>>();
            let mut ext = CVec::new();
            ext.extend(&a);
            ext.extend(&b);
            let mut all = a.clone();
            all.extend_from_slice(&b);
            let one_by_one = pushed(&all);
            assert_eq!(ext.byte_len(), one_by_one.byte_len());
            assert_eq!(ext.capacity(), one_by_one.capacity());
        }
    }
    let mut a = CVec::from_slice(&(0..64).collect::<Vec<u32>>());
    a.extend(&(64..256).collect::<Vec<u32>>());
    assert_eq!(a.byte_len(), pushed(&(0..256).collect::<Vec<u32>>()).byte_len());
}

#[test]
fn decompress_fills_the_front_of_a_longer_buffer() {
    let mut packed = Vec::new();
    let width = compressed_vec::codec::compress(vec![3, 1, 2], &mut packed);
    assert_eq!(width, 2);
    // bytes past the packed ones are ignored
    packed.extend_from_slice(&[0xff; 5]);
    let mut out = vec![7u32; 300];
    compressed_vec::codec::decompress(&packed, width, &mut out);
    assert_eq!(out.len(), 300);
    assert_eq!(&out[0..3], &[3, 1, 2]);
    assert!(out[3..256].iter().all(|x| *x == 0));
    assert!(out[256..].iter().all(|x| *x == 7));
    let mut short = Vec::new();
    compressed_vec::codec::decompress(&packed, width, &mut short);
    assert_eq!(short.len(), 256);
    assert_eq!(&short[0..3], &[3, 1, 2]);
}
