use pin_core::codec::bytes::{Reader, Writer};
use pin_core::codec::offsets::{Encoding, OffsetSet};
use pin_core::codec::position_blocks;
use pin_core::codec::positions;
use pin_core::codec::records::{
    decode_value, encode_manifest, encode_value, DocumentRecord, Manifest, Publication, Source,
};
use pin_core::codec::ErrorKind;
use pin_core::identity::{Generation, HeapLayout, Incarnation, RootTid, SegmentId};

#[test]
fn fields_and_varints_read_back() {
    let mut bytes = [0u8; 64];
    let len = {
        let mut writer = Writer::new(&mut bytes);
        writer.u8(7).unwrap();
        writer.u16(0x1234).unwrap();
        writer.u32(0xdead_beef).unwrap();
        writer.u64(u64::MAX).unwrap();
        for value in [0, 127, 128, 16_383, 16_384, u32::MAX] {
            writer.var_u32(value).unwrap();
        }
        writer.var_u64(u64::MAX).unwrap();
        writer.len()
    };
    let mut reader = Reader::new(&bytes[..len]);
    assert_eq!(reader.u8().unwrap(), 7);
    assert_eq!(reader.u16().unwrap(), 0x1234);
    assert_eq!(reader.u32().unwrap(), 0xdead_beef);
    assert_eq!(reader.u64().unwrap(), u64::MAX);
    for value in [0, 127, 128, 16_383, 16_384, u32::MAX] {
        assert_eq!(reader.var_u32().unwrap(), value);
    }
    assert_eq!(reader.var_u64().unwrap(), u64::MAX);
    assert_eq!(reader.u8().unwrap_err().kind, ErrorKind::Truncated);
    reader.finish().unwrap();
    assert_eq!(Reader::new(&[0x80, 0]).var_u32().unwrap_err().kind, ErrorKind::NonCanonical);
    assert_eq!(
        Reader::new(&[0xff, 0xff, 0xff, 0xff, 0x10]).var_u32().unwrap_err().kind,
        ErrorKind::Overflow
    );
}

#[test]
fn records_values_and_manifests_read_back() {
    let layout = HeapLayout::new(291).unwrap();
    let record = DocumentRecord {
        segment: SegmentId::new(5).unwrap(),
        incarnation: Incarnation::new(6).unwrap(),
        root: RootTid::new(7, 8, layout).unwrap(),
        token_count: 9,
        profile: 1,
        publication: Publication::Published,
        live: true,
    };
    let mut bytes = [0u8; 256];
    let len = record.encode(&mut bytes).unwrap();
    assert_eq!(len, DocumentRecord::ENCODED_BYTES);
    assert_eq!(DocumentRecord::parse(&bytes[..len], layout).unwrap(), record);
    bytes[0] ^= 1;
    assert_eq!(
        DocumentRecord::parse(&bytes[..len], layout).unwrap_err().kind,
        ErrorKind::BadMagic
    );
    for value in [None, Some(""), Some("caf\u{e9}")] {
        let len = encode_value(value, &mut bytes, 256).unwrap();
        assert_eq!(decode_value(&bytes[..len], 256).unwrap(), value);
    }
    let sources = [
        Source { id: SegmentId::new(1).unwrap(), sealed: false },
        Source { id: SegmentId::new(4).unwrap(), sealed: true },
    ];
    let len = encode_manifest(Generation::new(3).unwrap(), &sources, &mut bytes, 4).unwrap();
    let manifest = Manifest::parse(&bytes[..len], 4, 256).unwrap();
    assert_eq!(manifest.len(), 2);
    assert_eq!(manifest.source(1).unwrap(), sources[1]);
    assert_eq!(Manifest::parse(&bytes[..len], 1, 256).unwrap_err().kind, ErrorKind::LimitExceeded);
}

#[test]
fn positions_read_back_and_reject_disorder() {
    let list = [0, 1, 5, 1000, 100_000];
    let mut bytes = [0u8; 64];
    let len = positions::encode(&list, &mut bytes, 10).unwrap();
    let parsed = positions::Positions::parse(&bytes[..len], 10).unwrap();
    let mut found = Vec::new();
    let mut iter = parsed.iter();
    while let Some(position) = iter.next() {
        found.push(position.unwrap());
    }
    assert_eq!(found, list);
    assert_eq!(
        positions::encode(&[2, 2], &mut bytes, 10).unwrap_err().kind,
        ErrorKind::InvalidOrder
    );
}

#[test]
fn blocked_positions_seek_like_a_scan() {
    let list: Vec<u32> = (0..1000).map(|i| i * 3 + 1).collect();
    let mut bytes = vec![0u8; 16384];
    let len = position_blocks::encode(&list, &mut bytes, 2000).unwrap();
    let blocks = position_blocks::PositionBlocks::open(&bytes[..len], 2000).unwrap();
    assert_eq!(blocks.len(), 1000);
    for target in [0, 1, 2, 384, 385, 1500, 2998, 2999] {
        let expected = list.iter().copied().find(|&position| position >= target);
        assert_eq!(blocks.seek_ge(target).unwrap().position, expected);
    }
    blocks.validate_all().unwrap();
}

#[test]
fn offset_sets_combine_and_read_back() {
    let layout = HeapLayout::new(291).unwrap();
    let mut left = OffsetSet::new(layout);
    let mut right = OffsetSet::new(layout);
    for offset in [1, 2, 3, 100, 291] {
        assert!(left.insert(offset).unwrap());
    }
    for offset in [2, 100, 200] {
        right.insert(offset).unwrap();
    }
    assert!(!left.insert(1).unwrap());
    assert!(left.insert(292).is_err());
    assert_eq!(left.intersection(&right).unwrap().len(), 2);
    assert_eq!(left.union(&right).unwrap().len(), 6);
    assert_eq!(left.difference(&right).unwrap().len(), 3);
    for encoding in [Encoding::Sparse, Encoding::Bitmap, Encoding::Runs] {
        let mut bytes = [0u8; 1024];
        let len = left.encode_as(encoding, &mut bytes).unwrap();
        assert_eq!(len, left.encoded_len(encoding));
        let parsed = OffsetSet::parse(&bytes[..len], layout).unwrap();
        assert!([1, 2, 3, 100, 291].iter().all(|&offset| parsed.contains(offset)));
        assert_eq!(parsed.len(), 5);
    }
}

#[test]
fn parsed_offsets_and_records_encode_to_the_same_bytes() {
    let layout = HeapLayout::new(291).unwrap();
    let sparse: &[u8] = &[0x23, 1, 2, 0, 0, 0, 3, 0, 0x23, 1];
    let runs: &[u8] = &[0x23, 1, 3, 0, 2, 0, 2, 0, 1, 0, 2, 0, 5, 0, 1, 0];
    for (given, encoding) in [(sparse, Encoding::Sparse), (runs, Encoding::Runs)] {
        let set = OffsetSet::parse(given, layout).unwrap();
        let mut bytes = [0u8; 64];
        let len = set.encode_as(encoding, &mut bytes).unwrap();
        assert_eq!(&bytes[..len], given);
    }
    // adjacent runs are one run, so this form of the set is refused.
    let split = [0x23, 1, 2, 0, 2, 0, 2, 0, 1, 0, 1, 0, 2, 0, 1, 0];
    assert_eq!(
        OffsetSet::parse(&split, layout).unwrap_err().kind,
        ErrorKind::InvalidOrder
    );
    let given: Vec<u8> = [
        &b"PIN1\x01\0"[..],
        &[1, 0, 0, 0, 0, 0, 36, 0, 0, 0],
        &[5, 0, 0, 0, 0, 0, 0, 0, 6, 0, 0, 0, 0, 0, 0, 0],
        &[7, 0, 0, 0, 8, 0, 0, 0, 9, 0, 0, 0, 1, 0, 0, 0],
        &[Publication::Published.tag(), 1, 0, 0],
    ]
    .concat();
    let record = DocumentRecord::parse(&given, layout).unwrap();
    let mut bytes = [0u8; 64];
    let len = record.encode(&mut bytes).unwrap();
    assert_eq!(&bytes[..len], &given[..]);
}
