//! A document record has one encoding.

use super::bytes::{group_bytes, u16_bytes_of_le, u32_bytes_of_le, u64_bytes_of_le};
use super::records::{envelope, flag_byte, opened, DocumentRecord};
use crate::identity::{group_identity, HeapLayout};
use vstd::prelude::*;

verus! {

broadcast use {group_identity, group_bytes};

/// What opens as a payload is the payload behind its header.
pub proof fn envelope_of_opened(bytes: Seq<u8>, kind: u8, max_bytes: usize)
    requires
        opened(bytes, kind, max_bytes) is Ok,
    ensures
        bytes == envelope(kind, opened(bytes, kind, max_bytes)->Ok_0),
{
    let payload = opened(bytes, kind, max_bytes)->Ok_0;
    u16_bytes_of_le(bytes, 6);
    u32_bytes_of_le(bytes, 8);
    u32_bytes_of_le(bytes, 12);
    assert(bytes.subrange(16, bytes.len() as int) =~= payload);
    assert(bytes =~= bytes.take(4) + seq![bytes[4]] + seq![bytes[5]] + bytes.subrange(6, 8)
        + bytes.subrange(8, 12) + bytes.subrange(12, 16) + payload);
    assert(bytes =~= envelope(kind, payload));
}

/// What parses is the encoding of its record.
pub proof fn parsed_document_record_is_encoded(bytes: Seq<u8>, layout: HeapLayout)
    requires
        DocumentRecord::parsed(bytes, layout) is Ok,
    ensures
        bytes == envelope(1, (DocumentRecord::parsed(bytes, layout)->Ok_0).payload_bytes()),
{
    let payload = opened(bytes, 1, DocumentRecord::ENCODED_BYTES)->Ok_0;
    let record = DocumentRecord::parsed(bytes, layout)->Ok_0;
    envelope_of_opened(bytes, 1, DocumentRecord::ENCODED_BYTES);
    u64_bytes_of_le(payload, 0);
    u64_bytes_of_le(payload, 8);
    u32_bytes_of_le(payload, 16);
    u16_bytes_of_le(payload, 20);
    u16_bytes_of_le(payload, 22);
    u32_bytes_of_le(payload, 24);
    u32_bytes_of_le(payload, 28);
    u16_bytes_of_le(payload, 34);
    assert(record.publication.tag() == payload[32]);
    assert(flag_byte(record.live) == payload[33]);
    assert(payload =~= payload.subrange(0, 8) + payload.subrange(8, 16) + payload.subrange(16, 20)
        + payload.subrange(20, 22) + payload.subrange(22, 24) + payload.subrange(24, 28)
        + payload.subrange(28, 32) + seq![payload[32]] + seq![payload[33]] + payload.subrange(34, 36));
    assert(record.payload_bytes() =~= payload);
}

} // verus!
