use protocache::buffer::Buffer;
use protocache::compression::{compress, compress_into, decompress, decompress_into};
use protocache::utils::CorruptionKind;

#[test]
fn buffer_put_prepends_words() {
    let mut buffer = Buffer::new();
    buffer.put(3);
    buffer.put(2);
    buffer.put(1);
    assert_eq!(buffer.view(), &[1, 2, 3]);
}

#[test]
fn buffer_expand_preserves_existing_payload() {
    let mut buffer = Buffer::with_capacity_words(4);
    buffer.put_words(&[3, 4]);
    buffer.put_words(&[1, 2]);
    assert_eq!(buffer.view(), &[1, 2, 3, 4]);

    buffer.put_words(&[0]);
    assert_eq!(buffer.view(), &[0, 1, 2, 3, 4]);
    assert!(buffer.allocated_words() >= 5);
}

#[test]
fn buffer_shrink_discards_from_front() {
    let mut buffer = Buffer::new();
    buffer.put_words(&[1, 2, 3, 4]);
    buffer.shrink(2);
    assert_eq!(buffer.view(), &[3, 4]);
    buffer.clear();
    assert!(buffer.is_empty());
}

#[test]
fn utils_put_prepends_words() {
    let mut buffer = Buffer::new();
    buffer.put(3);
    buffer.put(2);
    buffer.put(1);
    assert_eq!(buffer.view(), &[1, 2, 3]);
}

#[test]
fn utils_expand_preserves_existing_payload() {
    let mut buffer = Buffer::with_capacity_words(4);
    buffer.put_words(&[3, 4]);
    buffer.put_words(&[1, 2]);
    assert_eq!(buffer.view(), &[1, 2, 3, 4]);

    buffer.put_words(&[0]);
    assert_eq!(buffer.view(), &[0, 1, 2, 3, 4]);
    assert!(buffer.allocated_words() >= 5);
}

#[test]
fn utils_shrink_discards_from_front() {
    let mut buffer = Buffer::new();
    buffer.put_words(&[1, 2, 3, 4]);
    buffer.shrink(2);
    assert_eq!(buffer.view(), &[3, 4]);
    buffer.clear();
    assert!(buffer.is_empty());
}

#[test]
fn compression_roundtrip_preserves_payload() {
    let src = b"\0\0\0\0abcd\xff\xff\xffefgh\0";
    let compressed = compress(src);
    let restored = decompress(&compressed).unwrap();
    assert_eq!(restored, src);
}

#[test]
fn compression_into_reuses_buffers() {
    let src = b"\0\0\0\0abcd\xff\xff\xffefgh\0";
    let mut compressed = Vec::with_capacity(128);
    let compressed_capacity = compressed.capacity();
    compress_into(src, &mut compressed);
    assert_eq!(compressed.capacity(), compressed_capacity);

    let mut restored = Vec::with_capacity(128);
    let restored_capacity = restored.capacity();
    decompress_into(&compressed, &mut restored).unwrap();
    assert_eq!(restored, src);
    assert_eq!(restored.capacity(), restored_capacity);
}

#[test]
fn compression_of_nothing_is_nothing() {
    assert!(compress(&[]).is_empty());
    assert_eq!(decompress(&[]).unwrap(), Vec::<u8>::new());
}

#[test]
fn compression_packs_runs_into_nibbles() {
    // four zeros (mark 0xb), then three plain bytes (mark 3) with their bytes.
    let compressed = compress(&[0, 0, 0, 0, 1, 2, 3]);
    assert_eq!(compressed, vec![7, 0x3b, 1, 2, 3]);
    // a run of 0xff (mark 0xe for three bytes) alone.
    assert_eq!(compress(&[0xff, 0xff, 0xff]), vec![3, 0x0e]);
}

#[test]
fn decompression_reports_corruption() {
    // the header announces five bytes but the body writes one zero.
    assert_eq!(decompress(&[5, 0x08]).unwrap_err().kind, CorruptionKind::Truncated);
    // a header whose five bytes all continue.
    assert_eq!(
        decompress(&[0x80, 0x80, 0x80, 0x80, 0x80, 0]).unwrap_err().kind,
        CorruptionKind::InvalidHeader
    );
    // the header ends before its last byte.
    assert_eq!(decompress(&[0x80]).unwrap_err().kind, CorruptionKind::Truncated);
}

#[test]
fn expand_gives_the_new_front_words_for_writing() {
    let mut b = Buffer::new();
    b.put_words(&[3, 4]);
    {
        let front = b.expand(2);
        assert_eq!(front.len(), 2);
        front[0] = 1;
        front[1] = 2;
    }
    assert_eq!(b.view(), &[1, 2, 3, 4]);
    assert!(b.allocated_words() >= 4);
    b.head_mut()[0] = 9;
    assert_eq!(b.view(), &[9, 2, 3, 4]);
    let n = b.allocated_words();
    {
        let tail = b.at_from_end_mut(1).unwrap();
        tail[0] = 7;
    }
    assert_eq!(b.view(), &[9, 2, 3, 7]);
    assert!(b.at_from_end_mut(n + 1).is_none());
}
