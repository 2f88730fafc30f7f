use pin_core::grouped::{encode_bitmap, Bitmap, BitmapKind, GroupKey, PageOffsets, MAX_BITMAP_BYTES};
use pin_core::identity::{Generation, HeapLayout, SegmentId};
use pin_core::mutable::grouped::anchors::{Anchor, SortRecord};
use pin_core::mutable::grouped::values::{inline_postings, Value, BITMAP_BYTES};
use pin_core::mutable::page::NO_BLOCK;

#[test]
fn word_decoding_covers_every_width_and_unaligned_record() {
    for maximum in [291, 512] {
        let key = GroupKey::new(
            Generation::new(1).unwrap(),
            SegmentId::new(1).unwrap(),
            0,
            HeapLayout::new(maximum).unwrap(),
        )
        .unwrap();
        for offset in 1..=maximum {
            let mut expected = [0; 8];
            // fill every bit below the last offset, including every word boundary.
            for bit in 0..usize::from(offset) {
                expected[bit / 64] |= 1 << (bit % 64);
            }
            for kind in [BitmapKind::Posting, BitmapKind::Liveness] {
                let mut bytes = [0; MAX_BITMAP_BYTES + 1];
                let len = encode_bitmap(
                    key,
                    kind,
                    &[PageOffsets { page: 255, offsets: expected }],
                    &mut bytes[1..],
                )
                .unwrap();
                let bitmap = Bitmap::open(&bytes[1..1 + len]).unwrap();
                assert_eq!(bitmap.offsets(255).unwrap(), expected);
                assert_eq!(bitmap.offsets(0).unwrap(), [0; 8]);
            }
        }
    }
}

#[test]
fn anchor_records_round_trip_and_reject_corruption() {
    let term = (1 << 16) | 16;
    for anchor in [Anchor::new(7, 3, 99).unwrap(), Anchor::new(NO_BLOCK, NO_BLOCK, 1).unwrap()] {
        assert_eq!(Anchor::from_sort(anchor.sort_record(term)).unwrap(), Some((term, anchor)));
        assert_eq!(Anchor::read(&anchor.entry(term)).unwrap(), anchor);
        for index in [0, 20, 63] {
            let mut bad = anchor.entry(term);
            bad.value[index] ^= 1;
            assert!(Anchor::read(&bad).is_err());
        }
    }
    for (head, tail, last) in [(0, 1, 1), (1, NO_BLOCK, 1), (NO_BLOCK, 1, 1), (1, 1, 0)] {
        assert!(Anchor::new(head, tail, last).is_err());
    }
    assert!(Anchor::from_sort(SortRecord::default()).is_err());
}

#[test]
fn sparse_delta_round_trip_and_corruption() {
    let layout = HeapLayout::new(512).unwrap();
    let key = [1, 0];
    let mut pages = [
        PageOffsets {
            page: 1,
            offsets: [0; 8],
        },
        PageOffsets {
            page: 255,
            offsets: [0; 8],
        },
    ];
    pages[0].offsets[0] = (1 << 2) | (1 << 4);
    pages[1].offsets[7] = 1 << 63;
    let entry = inline_postings(key, &pages, layout).unwrap().unwrap();
    let value = Value::read(&entry).unwrap();
    let decoded = value.inline_pages(layout.max_offset()).unwrap();
    let count = decoded.len();
    assert_eq!(count, pages.len());
    for (actual, expected) in decoded[..count].iter().zip(&pages) {
        assert_eq!(actual.page, expected.page);
        assert_eq!(actual.offsets, expected.offsets);
    }

    let group = GroupKey::new(
        Generation::new(1).unwrap(),
        SegmentId::new(2).unwrap(),
        0,
        layout,
    )
    .unwrap();
    let mut expected = [0; BITMAP_BYTES];
    let mut actual = [0; BITMAP_BYTES];
    let expected_len = encode_bitmap(group, BitmapKind::Posting, &pages, &mut expected).unwrap();
    let actual_len =
        encode_bitmap(group, BitmapKind::Posting, &decoded[..count], &mut actual).unwrap();
    assert_eq!(&expected[..expected_len], &actual[..actual_len]);

    let mut corrupt = entry;
    corrupt.value[58] = 1;
    assert!(Value::read(&corrupt).is_err());

    let mut legacy_bytes = [0u8; 20];
    legacy_bytes[..9].copy_from_slice(&value.inline.unwrap()[..9]);
    let legacy = Value {
        len: 0,
        blocks: core::array::from_fn(|index| {
            let start = index * 4;
            u32::from_le_bytes([
                legacy_bytes[start],
                legacy_bytes[start + 1],
                legacy_bytes[start + 2],
                legacy_bytes[start + 3],
            ])
        }),
        pages: value.pages,
        members: u32::from_le_bytes([
            legacy_bytes[12],
            legacy_bytes[13],
            legacy_bytes[14],
            legacy_bytes[15],
        ]),
        member_bytes: u32::from_le_bytes([
            legacy_bytes[16],
            legacy_bytes[17],
            legacy_bytes[18],
            legacy_bytes[19],
        ]),
        count: 3,
        inline: None,
    };
    assert!(Value::read(&legacy.entry(key)).is_ok());
    let mut many = [PageOffsets {
        page: 1,
        offsets: [0; 8],
    }];
    many[0].offsets[0] = (1 << 18) - 1;
    assert!(inline_postings(key, &many, layout).unwrap().is_some());
    many[0].offsets[0] = (1 << 19) - 1;
    assert!(inline_postings(key, &many, layout).unwrap().is_none());
}
