use oubliette::{Archive, ArchiveBuilder, ArchiveError, Codec, CodecId, Index, ZstdCodec};

fn build_from(entries: &[(&str, &[u8])], max_size: usize) -> Archive {
    let mut b = ArchiveBuilder::new(ZstdCodec::new(10), max_size);
    for (p, c) in entries {
        b.add_file(p, c).unwrap();
    }
    b.finish().unwrap()
}

fn round_trip(entries: &[(&str, &[u8])]) -> Archive {
    let (index_bytes, data) = build_from(entries, 10 * 1024 * 1024).serialize();
    Archive::new(Index::deserialize(index_bytes).unwrap(), data)
}

fn compressed_len(content: &[u8]) -> usize {
    let mut codec = ZstdCodec::new(10);
    codec.compress(content).unwrap().len()
}

#[test]
fn empty_directory() {
    let (index_bytes, data) = build_from(&[], 10 * 1024 * 1024).serialize();
    assert!(data.is_empty());
    let index = Index::deserialize(index_bytes).unwrap();
    assert_eq!(index.get("anything"), None);
    let archive = Archive::new(index, data);
    assert_eq!(archive.get("anything"), Ok(None));
}

#[test]
fn single_small_file() {
    let archive = round_trip(&[("hello.txt", b"hi\n")]);
    assert_eq!(archive.get("hello.txt"), Ok(Some(b"hi\n".to_vec())));
}

#[test]
fn two_files_lexicographic_ordering() {
    let archive = round_trip(&[("b", b"B"), ("a", b"A")]);
    let (index_bytes, data) = archive.serialize();
    let index = Index::deserialize(index_bytes).unwrap();
    let la = compressed_len(b"A");
    let lb = compressed_len(b"B");
    assert_eq!(index.get("a"), Some((0, la)));
    assert_eq!(index.get("b"), Some((la, lb)));
    let archive = Archive::new(index, data);
    assert_eq!(archive.get("a"), Ok(Some(b"A".to_vec())));
    assert_eq!(archive.get("b"), Ok(Some(b"B".to_vec())));
}

#[test]
fn nested_path() {
    let archive = round_trip(&[("sub/dir/x.bin", &[0x00, 0x01, 0x02])]);
    assert_eq!(archive.get("sub/dir/x.bin"), Ok(Some(vec![0x00, 0x01, 0x02])));
}

#[test]
fn missing_entry() {
    let archive = round_trip(&[("a.txt", b"alpha")]);
    assert_eq!(archive.get("missing"), Ok(None));
    assert_eq!(archive.get("a.txt"), Ok(Some(b"alpha".to_vec())));
}

#[test]
fn corrupt_magic_region_is_rejected() {
    let (mut index_bytes, _) = build_from(&[("a", b"A")], 10 * 1024 * 1024).serialize();
    index_bytes[3] ^= 0xff;
    assert_eq!(Index::deserialize(index_bytes).err(), Some(ArchiveError::BadHeader));
}

#[test]
fn corrupt_magic_text_is_rejected() {
    let (mut index_bytes, _) = build_from(&[("a", b"A")], 10 * 1024 * 1024).serialize();
    index_bytes[12] ^= 0xff;
    assert_eq!(Index::deserialize(index_bytes).err(), Some(ArchiveError::NotOubliette));
}

#[test]
fn unknown_version_is_rejected() {
    let (mut index_bytes, _) = build_from(&[("a", b"A")], 10 * 1024 * 1024).serialize();
    index_bytes[28] = 1;
    assert_eq!(Index::deserialize(index_bytes).err(), Some(ArchiveError::UnknownVersion));
}

#[test]
fn truncated_header_is_rejected() {
    let index_bytes = vec![0xd9, 0xd9, 0xf7];
    assert_eq!(Index::deserialize(index_bytes).err(), Some(ArchiveError::BadHeader));
}

#[test]
fn corrupt_transducer_region_is_rejected() {
    let (mut index_bytes, _) = build_from(&[("a", b"A")], 10 * 1024 * 1024).serialize();
    let last = index_bytes.len() - 1;
    index_bytes[last] ^= 0xff;
    assert_eq!(Index::deserialize(index_bytes).err(), Some(ArchiveError::InvalidFst));
}

#[test]
fn serialization_is_deterministic() {
    let entries: &[(&str, &[u8])] = &[("one", b"first contents"), ("two", b"second contents")];
    let (i1, d1) = build_from(entries, 10 * 1024 * 1024).serialize();
    let (i2, d2) = build_from(entries, 10 * 1024 * 1024).serialize();
    assert_eq!(i1, i2);
    assert_eq!(d1, d2);
}

#[test]
fn insertion_order_does_not_matter() {
    let forward: &[(&str, &[u8])] = &[("one", b"first"), ("two", b"second")];
    let backward: &[(&str, &[u8])] = &[("two", b"second"), ("one", b"first")];
    let (i1, d1) = build_from(forward, 10 * 1024 * 1024).serialize();
    let (i2, d2) = build_from(backward, 10 * 1024 * 1024).serialize();
    assert_eq!(i1, i2);
    assert_eq!(d1, d2);
}

#[test]
fn offsets_are_running_sums() {
    let archive = build_from(
        &[("c", b"third third third"), ("a", b"first first"), ("b", b"second")],
        10 * 1024 * 1024,
    );
    let (index_bytes, data) = archive.serialize();
    let index = Index::deserialize(index_bytes).unwrap();
    let la = compressed_len(b"first first");
    let lb = compressed_len(b"second");
    let lc = compressed_len(b"third third third");
    assert_eq!(index.get("a"), Some((0, la)));
    assert_eq!(index.get("b"), Some((la, lb)));
    assert_eq!(index.get("c"), Some((la + lb, lc)));
    assert_eq!(data.len(), la + lb + lc);
}

#[test]
fn duplicate_path_overwrites() {
    let archive = round_trip(&[("a", b"old contents"), ("a", b"new contents")]);
    assert_eq!(archive.get("a"), Ok(Some(b"new contents".to_vec())));
    let la = compressed_len(b"new contents");
    let (index_bytes, data) = archive.serialize();
    let index = Index::deserialize(index_bytes).unwrap();
    assert_eq!(index.get("a"), Some((0, la)));
    assert_eq!(data.len(), la);
}

#[test]
fn zero_length_file() {
    let archive = round_trip(&[("empty", b""), ("full", b"data")]);
    assert_eq!(archive.get("empty"), Ok(Some(Vec::new())));
    assert_eq!(archive.get("full"), Ok(Some(b"data".to_vec())));
}

#[test]
fn total_over_ceiling_is_rejected() {
    let mut b = ArchiveBuilder::new(ZstdCodec::new(10), 3);
    assert_eq!(
        b.add_file("big", b"does not fit in three bytes once compressed"),
        Err(ArchiveError::TotalTooLarge)
    );
    let archive = b.finish().unwrap();
    assert_eq!(archive.get("big"), Ok(None));
}

#[test]
fn decompression_ceiling_is_enforced() {
    let huge = vec![0u8; 11 * 1024 * 1024];
    let archive = round_trip(&[("huge", &huge), ("small", b"ok")]);
    assert_eq!(archive.get("huge"), Err(ArchiveError::Decompress));
    assert_eq!(archive.get("small"), Ok(Some(b"ok".to_vec())));
}

#[test]
fn short_data_blob_is_a_bounds_error() {
    let (index_bytes, _) = build_from(&[("a", b"contents")], 10 * 1024 * 1024).serialize();
    let index = Index::deserialize(index_bytes).unwrap();
    let archive = Archive::new(index, Vec::new());
    assert_eq!(archive.get("a"), Err(ArchiveError::Bounds));
}

#[test]
fn codec_round_trips_and_honours_the_cap() {
    let mut codec = ZstdCodec::new(10);
    let input = b"some bytes worth compressing, repeated a few times over".to_vec();
    let packed = codec.compress(&input).unwrap();
    assert!(packed.len() <= input.len() + input.len() / 256 + 64);
    assert_eq!(codec.decompress(&packed, 1024).unwrap(), input);
    assert_eq!(codec.decompress(&packed, 4), Err(ArchiveError::Decompress));
}

#[test]
fn many_sibling_entries_round_trip() {
    let mut names: Vec<String> = Vec::new();
    for c in (b'A'..=b'Z').chain(b'a'..=b'z') {
        names.push(String::from_utf8(vec![c]).unwrap());
    }
    let mut b = ArchiveBuilder::new(ZstdCodec::new(10), 10 * 1024 * 1024);
    for (i, name) in names.iter().enumerate() {
        let contents = vec![i as u8; 5];
        b.add_file(name, &contents).unwrap();
    }
    let (index_bytes, data) = b.finish().unwrap().serialize();
    let archive = Archive::new(Index::deserialize(index_bytes).unwrap(), data);
    for (i, name) in names.iter().enumerate() {
        assert_eq!(archive.get(name), Ok(Some(vec![i as u8; 5])));
    }
    assert_eq!(archive.get("0"), Ok(None));
}

#[test]
fn undecodable_input_is_rejected() {
    let mut codec = ZstdCodec::new(0);
    assert_eq!(
        codec.decompress(&[0x01, 0x02, 0x03], 1024),
        Err(ArchiveError::Decompress)
    );
}

#[test]
fn codec_reports_its_id() {
    assert_eq!(ZstdCodec::new(0).id(), CodecId::Zstd);
}

#[test]
fn errors_describe_themselves() {
    assert_eq!(ArchiveError::NotOubliette.describe(), "not oubliette");
    assert_eq!(ArchiveError::UnknownVersion.describe(), "unknown version");
    assert_eq!(ArchiveError::Bounds.describe(), "entry out of bounds");
}
