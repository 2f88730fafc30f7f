//! Versioned document, nullable text and source-manifest payloads.
//! Relation identity comes from the enclosing source; these records prove no visibility.

use super::bytes::{
    extent, get_u64, le_u16, le_u16_of_bytes, le_u32, le_u32_of_bytes, le_u64, le_u64_of_bytes,
    group_bytes, splice, u16_bytes, u32_bytes, u64_bytes, Reader, Writer,
};
use super::{fail, Error, ErrorKind, Result};
use crate::identity::{
    coordinate_error, group_identity, Generation, HeapLayout, Incarnation, RootTid, SegmentId,
};
use crate::text::{text_bytes, utf8};
use vstd::prelude::*;
use vstd::utf8::valid_utf8;

verus! {

broadcast use {group_identity, group_bytes};

pub const HEADER_BYTES: usize = 16;

pub const FORMAT_VERSION: u16 = 1;

/// The four bytes that start every record.
pub open spec fn magic() -> Seq<u8> {
    seq![0x50u8, 0x49u8, 0x4Eu8, 0x31u8]
}

/// The sixteen bytes before a payload of `len` bytes.
pub open spec fn envelope_header(kind: u8, len: u32) -> Seq<u8> {
    magic() + seq![kind] + seq![0u8] + u16_bytes(FORMAT_VERSION) + u32_bytes(0) + u32_bytes(len)
}

/// A payload behind its header.
pub open spec fn envelope(kind: u8, payload: Seq<u8>) -> Seq<u8> {
    envelope_header(kind, payload.len() as u32) + payload
}

/// The payload of a record of `kind`, or why there is none.
pub open spec fn opened(bytes: Seq<u8>, kind: u8, max_bytes: usize) -> Result<Seq<u8>> {
    if bytes.len() > max_bytes {
        fail(0, ErrorKind::LimitExceeded)
    } else if bytes.len() < 4 {
        fail(0, ErrorKind::Truncated)
    } else if bytes.take(4) != magic() {
        fail(0, ErrorKind::BadMagic)
    } else if bytes.len() < 5 {
        fail(4, ErrorKind::Truncated)
    } else if bytes[4] != kind {
        fail(4, ErrorKind::UnknownTag)
    } else if bytes.len() < 6 {
        fail(5, ErrorKind::Truncated)
    } else if bytes[5] != 0 {
        fail(5, ErrorKind::NonCanonical)
    } else if bytes.len() < 8 {
        fail(6, ErrorKind::Truncated)
    } else if le_u16(bytes, 6) != FORMAT_VERSION {
        fail(6, ErrorKind::UnsupportedVersion)
    } else if bytes.len() < 12 {
        fail(8, ErrorKind::Truncated)
    } else if le_u32(bytes, 8) != 0 {
        fail(8, ErrorKind::UnsupportedFeatures)
    } else if bytes.len() < 16 {
        fail(12, ErrorKind::Truncated)
    } else {
        match extent(bytes, 16, le_u32(bytes, 12) as int) {
            Err(error) => Err(error),
            Ok(payload) => if bytes.len() != 16 + payload.len() {
                fail(16 + payload.len() as int, ErrorKind::TrailingBytes)
            } else {
                Ok(payload)
            },
        }
    }
}

pub(crate) fn payload(bytes: &[u8], kind: u8, max_bytes: usize) -> (result: Result<&[u8]>)
    ensures
        match opened(bytes@, kind, max_bytes) {
            Ok(value) => result matches Ok(slice) && slice@ == value && slice@.len() <= max_bytes,
            Err(error) => result == Err::<&[u8], _>(error),
        },
{
    if bytes.len() > max_bytes {
        return Err(Error::new(0, ErrorKind::LimitExceeded));
    }
    let mut reader: Reader = Reader::new(bytes);
    let start: &[u8] = reader.take(4)?;
    let expected: [u8; 4] = [0x50, 0x49, 0x4E, 0x31];
    assert(expected@ =~= magic());
    if !crate::text::same_bytes(start, &expected) {
        return Err(Error::new(0, ErrorKind::BadMagic));
    }
    if reader.u8()? != kind {
        return Err(Error::new(4, ErrorKind::UnknownTag));
    }
    if reader.u8()? != 0 {
        return Err(Error::new(5, ErrorKind::NonCanonical));
    }
    if reader.u16()? != FORMAT_VERSION {
        return Err(Error::new(6, ErrorKind::UnsupportedVersion));
    }
    if reader.u32()? != 0 {
        return Err(Error::new(8, ErrorKind::UnsupportedFeatures));
    }
    let len: usize = reader.u32()? as usize;
    let result: &[u8] = reader.take(len)?;
    reader.finish()?;
    Ok(result)
}

/// Why a record with a payload of `len` bytes cannot start in `room` bytes.
pub open spec fn start_error(room: nat, len: nat) -> Option<Error> {
    if len + 16 > usize::MAX || len > u32::MAX {
        Some(Error { offset: 0, kind: ErrorKind::Overflow })
    } else if room < len + 16 {
        Some(Error { offset: 0, kind: ErrorKind::Truncated })
    } else {
        None
    }
}

pub(crate) fn start(output: &mut [u8], kind: u8, len: usize) -> (result: Result<Writer<'_>>)
    ensures
        match start_error(old(output)@.len(), len as nat) {
            Some(error) => result == Err::<Writer<'_>, _>(error) && final(output)@ == old(output)@,
            None => result matches Ok(writer) && writer.offset == 16 && writer.bytes@ == splice(
                old(output)@,
                0,
                envelope_header(kind, len as u32),
            ) && final(writer.bytes)@ == final(output)@,
        },
{
    if len > usize::MAX - HEADER_BYTES {
        return Err(Error::new(0, ErrorKind::Overflow));
    }
    if len as u64 > u32::MAX as u64 {
        return Err(Error::new(0, ErrorKind::Overflow));
    }
    if output.len() < len + HEADER_BYTES {
        return Err(Error::new(0, ErrorKind::Truncated));
    }
    let ghost before = output@;
    let mut writer: Writer = Writer::new(output);
    let expected: [u8; 4] = [0x50, 0x49, 0x4E, 0x31];
    assert(expected@ =~= magic());
    assert(before =~= splice(before, 0, Seq::empty()));
    assert(Seq::<u8>::empty() + magic() =~= magic());
    let written: Result<()> = writer.put(&expected);
    assert(written is Ok);
    let written: Result<()> = writer.u8(kind);
    assert(written is Ok);
    let written: Result<()> = writer.u8(0);
    assert(written is Ok);
    let written: Result<()> = writer.u16(FORMAT_VERSION);
    assert(written is Ok);
    let written: Result<()> = writer.u32(0);
    assert(written is Ok);
    let written: Result<()> = writer.u32(len as u32);
    assert(written is Ok);
    Ok(writer)
}

/// How far a document has come on its way into a segment.
#[derive(Clone, Copy, Debug, Eq, PartialEq, Structural)]
pub enum Publication {
    Allocated,
    FragmentsWritten,
    Published,
    Abandoned,
}

impl Publication {
    /// The stored tag.
    pub open spec fn spec_tag(self) -> u8 {
        match self {
            Publication::Allocated => 0,
            Publication::FragmentsWritten => 1,
            Publication::Published => 2,
            Publication::Abandoned => 3,
        }
    }

    #[verifier::when_used_as_spec(spec_tag)]
    pub fn tag(self) -> (tag: u8)
        ensures
            tag == self.tag(),
    {
        match self {
            Publication::Allocated => 0,
            Publication::FragmentsWritten => 1,
            Publication::Published => 2,
            Publication::Abandoned => 3,
        }
    }

    /// The publication with the given tag.
    pub open spec fn spec_of_tag(tag: u8) -> Option<Publication> {
        if tag == 0 {
            Some(Publication::Allocated)
        } else if tag == 1 {
            Some(Publication::FragmentsWritten)
        } else if tag == 2 {
            Some(Publication::Published)
        } else if tag == 3 {
            Some(Publication::Abandoned)
        } else {
            None
        }
    }

    #[verifier::when_used_as_spec(spec_of_tag)]
    pub fn of_tag(tag: u8) -> (publication: Option<Publication>)
        ensures
            publication == Publication::of_tag(tag),
    {
        match tag {
            0 => Some(Publication::Allocated),
            1 => Some(Publication::FragmentsWritten),
            2 => Some(Publication::Published),
            3 => Some(Publication::Abandoned),
            _ => None,
        }
    }
}

#[derive(Clone, Copy, Debug, Eq, PartialEq, Structural)]
pub struct DocumentRecord {
    pub segment: SegmentId,
    pub incarnation: Incarnation,
    pub root: RootTid,
    pub token_count: u32,
    pub profile: u32,
    pub publication: Publication,
    pub live: bool,
}

/// The stored form of a flag.
pub open spec fn flag_byte(flag: bool) -> u8 {
    if flag {
        1
    } else {
        0
    }
}

impl DocumentRecord {
    /// The encoded size of a document record.
    pub const ENCODED_BYTES: usize = 52;

    /// A record names a profile, and only a published document is live.
    pub open spec fn valid(self) -> bool {
        self.profile != 0 && (self.live ==> self.publication == Publication::Published)
    }

    /// The payload of the record.
    pub open spec fn payload_bytes(self) -> Seq<u8> {
        u64_bytes(self.segment.get()) + u64_bytes(self.incarnation.get()) + u32_bytes(
            self.root.block(),
        ) + u16_bytes(self.root.offset()) + u16_bytes(0) + u32_bytes(self.token_count) + u32_bytes(
            self.profile,
        ) + seq![self.publication.tag()] + seq![flag_byte(self.live)] + u16_bytes(0)
    }

    /// The record that a payload holds.
    pub open spec fn parsed_payload(bytes: Seq<u8>, layout: HeapLayout) -> Result<DocumentRecord> {
        if bytes.len() < 8 {
            fail(0, ErrorKind::Truncated)
        } else if le_u64(bytes, 0) == 0 {
            fail(0, ErrorKind::InvalidValue)
        } else if bytes.len() < 16 {
            fail(8, ErrorKind::Truncated)
        } else if le_u64(bytes, 8) == 0 {
            fail(8, ErrorKind::InvalidValue)
        } else if bytes.len() < 20 {
            fail(16, ErrorKind::Truncated)
        } else if bytes.len() < 22 {
            fail(20, ErrorKind::Truncated)
        } else if coordinate_error(le_u32(bytes, 16), le_u16(bytes, 20), layout) is Some {
            fail(16, ErrorKind::InvalidValue)
        } else if bytes.len() < 24 {
            fail(22, ErrorKind::Truncated)
        } else if le_u16(bytes, 22) != 0 {
            fail(22, ErrorKind::NonCanonical)
        } else if bytes.len() < 28 {
            fail(24, ErrorKind::Truncated)
        } else if bytes.len() < 32 {
            fail(28, ErrorKind::Truncated)
        } else if bytes.len() < 33 {
            fail(32, ErrorKind::Truncated)
        } else if Publication::of_tag(bytes[32]) is None {
            fail(32, ErrorKind::UnknownTag)
        } else if bytes.len() < 34 {
            fail(33, ErrorKind::Truncated)
        } else if bytes[33] > 1 {
            fail(33, ErrorKind::InvalidValue)
        } else if bytes.len() < 36 {
            fail(34, ErrorKind::Truncated)
        } else if le_u16(bytes, 34) != 0 {
            fail(34, ErrorKind::NonCanonical)
        } else if bytes.len() != 36 {
            fail(36, ErrorKind::TrailingBytes)
        } else {
            let record = DocumentRecord {
                segment: SegmentId::of(le_u64(bytes, 0)),
                incarnation: Incarnation::of(le_u64(bytes, 8)),
                root: RootTid::of(le_u32(bytes, 16), le_u16(bytes, 20)),
                token_count: le_u32(bytes, 24),
                profile: le_u32(bytes, 28),
                publication: Publication::of_tag(bytes[32])->Some_0,
                live: bytes[33] == 1,
            };
            if record.valid() {
                Ok(record)
            } else {
                fail(0, ErrorKind::InvalidValue)
            }
        }
    }

    /// The record that `bytes` hold.
    pub open spec fn parsed(bytes: Seq<u8>, layout: HeapLayout) -> Result<DocumentRecord> {
        match opened(bytes, 1, Self::ENCODED_BYTES) {
            Err(error) => Err(error),
            Ok(payload) => DocumentRecord::parsed_payload(payload, layout),
        }
    }

    fn validate(self) -> (result: Result<()>)
        ensures
            result == (if self.valid() {
                Ok(())
            } else {
                fail(0, ErrorKind::InvalidValue)
            }),
    {
        if self.profile == 0 || (self.live && self.publication != Publication::Published) {
            return Err(Error::new(0, ErrorKind::InvalidValue));
        }
        Ok(())
    }

    pub fn encode(self, output: &mut [u8]) -> (result: Result<usize>)
        ensures
            if !self.valid() {
                result == fail::<usize>(0, ErrorKind::InvalidValue) && final(output)@ == old(output)@
            } else if old(output)@.len() < Self::ENCODED_BYTES {
                result == fail::<usize>(0, ErrorKind::Truncated) && final(output)@ == old(output)@
            } else {
                result == Ok::<usize, Error>(Self::ENCODED_BYTES) && final(output)@ == splice(
                    old(output)@,
                    0,
                    envelope(1, self.payload_bytes()),
                ) && envelope(1, self.payload_bytes()).len() == Self::ENCODED_BYTES
            },
    {
        self.validate()?;
        let ghost before = output@;
        let ghost header = envelope_header(1, 36);
        let mut writer: Writer = start(output, 1, 36)?;
        let written: Result<()> = writer.u64(self.segment.get());
        assert(written is Ok);
        let written: Result<()> = writer.u64(self.incarnation.get());
        assert(written is Ok);
        let written: Result<()> = writer.u32(self.root.block());
        assert(written is Ok);
        let written: Result<()> = writer.u16(self.root.offset());
        assert(written is Ok);
        let written: Result<()> = writer.u16(0);
        assert(written is Ok);
        let written: Result<()> = writer.u32(self.token_count);
        assert(written is Ok);
        let written: Result<()> = writer.u32(self.profile);
        assert(written is Ok);
        let written: Result<()> = writer.u8(self.publication.tag());
        assert(written is Ok);
        let written: Result<()> = writer.u8(if self.live {
            1
        } else {
            0
        });
        assert(written is Ok);
        let written: Result<()> = writer.u16(0);
        assert(written is Ok);
        assert(header + u64_bytes(self.segment.get()) + u64_bytes(self.incarnation.get())
            + u32_bytes(self.root.block()) + u16_bytes(self.root.offset()) + u16_bytes(0)
            + u32_bytes(self.token_count) + u32_bytes(self.profile)
            + seq![self.publication.tag()] + seq![flag_byte(self.live)] + u16_bytes(0)
            =~= envelope(1, self.payload_bytes()));
        Ok(writer.len())
    }

    pub fn parse(bytes: &[u8], layout: HeapLayout) -> (result: Result<Self>)
        ensures
            result == DocumentRecord::parsed(bytes@, layout),
    {
        let body: &[u8] = payload(bytes, 1, Self::ENCODED_BYTES)?;
        let mut reader: Reader = Reader::new(body);
        let segment: SegmentId = match SegmentId::new(reader.u64()?) {
            Ok(segment) => segment,
            Err(_) => {
                return Err(Error::new(0, ErrorKind::InvalidValue));
            },
        };
        let incarnation: Incarnation = match Incarnation::new(reader.u64()?) {
            Ok(incarnation) => incarnation,
            Err(_) => {
                return Err(Error::new(8, ErrorKind::InvalidValue));
            },
        };
        let block: u32 = reader.u32()?;
        let offset: u16 = reader.u16()?;
        let root: RootTid = match RootTid::new(block, offset, layout) {
            Ok(root) => root,
            Err(_) => {
                return Err(Error::new(16, ErrorKind::InvalidValue));
            },
        };
        if reader.u16()? != 0 {
            return Err(Error::new(22, ErrorKind::NonCanonical));
        }
        let token_count: u32 = reader.u32()?;
        let profile: u32 = reader.u32()?;
        let publication: Publication = match Publication::of_tag(reader.u8()?) {
            Some(publication) => publication,
            None => {
                return Err(Error::new(32, ErrorKind::UnknownTag));
            },
        };
        let flag: u8 = reader.u8()?;
        if flag > 1 {
            return Err(Error::new(33, ErrorKind::InvalidValue));
        }
        if reader.u16()? != 0 {
            return Err(Error::new(34, ErrorKind::NonCanonical));
        }
        reader.finish()?;
        let record: DocumentRecord = DocumentRecord {
            segment,
            incarnation,
            root,
            token_count,
            profile,
            publication,
            live: flag == 1,
        };
        record.validate()?;
        Ok(record)
    }
}

/// The payload of nullable text: a tag, and for text its length and bytes.
pub open spec fn value_payload(value: Option<Seq<u8>>) -> Seq<u8> {
    match value {
        None => seq![0u8],
        Some(text) => seq![1u8] + u32_bytes(text.len() as u32) + text,
    }
}

/// The nullable text that a payload holds.
pub open spec fn value_of_payload(bytes: Seq<u8>) -> Result<Option<Seq<u8>>> {
    if bytes.len() < 1 {
        fail(0, ErrorKind::Truncated)
    } else if bytes[0] == 0 {
        if bytes.len() != 1 {
            fail(1, ErrorKind::TrailingBytes)
        } else {
            Ok(None)
        }
    } else if bytes[0] != 1 {
        fail(0, ErrorKind::UnknownTag)
    } else if bytes.len() < 5 {
        fail(1, ErrorKind::Truncated)
    } else {
        match extent(bytes, 5, le_u32(bytes, 1) as int) {
            Err(error) => Err(error),
            Ok(text) => if !valid_utf8(text) {
                fail(5, ErrorKind::InvalidUtf8)
            } else if bytes.len() != 5 + text.len() {
                fail(5 + text.len() as int, ErrorKind::TrailingBytes)
            } else {
                Ok(Some(text))
            },
        }
    }
}

/// The nullable text that `bytes` hold.
pub open spec fn decoded_value(bytes: Seq<u8>, max_bytes: usize) -> Result<Option<Seq<u8>>> {
    match opened(bytes, 2, max_bytes) {
        Err(error) => Err(error),
        Ok(payload) => value_of_payload(payload),
    }
}

/// The bytes of nullable text.
pub open spec fn text_value(value: Option<&str>) -> Option<Seq<u8>> {
    match value {
        None => None,
        Some(text) => Some(text_bytes(text)),
    }
}

/// Preserves null versus empty text; returned text borrows the validated input.
pub fn decode_value(bytes: &[u8], max_bytes: usize) -> (result: Result<Option<&str>>)
    ensures
        match decoded_value(bytes@, max_bytes) {
            Ok(value) => result matches Ok(text) && text_value(text) == value,
            Err(error) => result == Err::<Option<&str>, _>(error),
        },
{
    let body: &[u8] = payload(bytes, 2, max_bytes)?;
    let mut reader: Reader = Reader::new(body);
    let tag: u8 = reader.u8()?;
    if tag == 0 {
        reader.finish()?;
        return Ok(None);
    }
    if tag != 1 {
        return Err(Error::new(0, ErrorKind::UnknownTag));
    }
    let len: usize = reader.u32()? as usize;
    let slice: &[u8] = reader.take(len)?;
    let text: &str = match utf8(slice) {
        Some(text) => text,
        None => {
            return Err(Error::new(5, ErrorKind::InvalidUtf8));
        },
    };
    reader.finish()?;
    Ok(Some(text))
}

/// Why nullable text cannot be encoded, if it cannot.
pub open spec fn value_error(value: Option<Seq<u8>>, room: nat, max_bytes: usize) -> Option<Error> {
    let len = value_payload(value).len();
    if len > usize::MAX {
        Some(Error { offset: 0, kind: ErrorKind::Overflow })
    } else if len + 16 > max_bytes {
        Some(Error { offset: 0, kind: ErrorKind::LimitExceeded })
    } else {
        start_error(room, len)
    }
}

pub fn encode_value(value: Option<&str>, output: &mut [u8], max_bytes: usize) -> (result: Result<
    usize,
>)
    ensures
        match value_error(text_value(value), old(output)@.len(), max_bytes) {
            Some(error) => result == Err::<usize, _>(error) && final(output)@ == old(output)@,
            None => result == Ok::<usize, Error>(
                envelope(2, value_payload(text_value(value))).len() as usize,
            ) && final(output)@ == splice(
                old(output)@,
                0,
                envelope(2, value_payload(text_value(value))),
            ),
        },
{
    let len: usize = match value {
        None => 1,
        Some(text) => {
            let length: usize = text.as_bytes().len();
            if length > usize::MAX - 5 {
                return Err(Error::new(0, ErrorKind::Overflow));
            }
            length + 5
        },
    };
    if len > usize::MAX - HEADER_BYTES || len + HEADER_BYTES > max_bytes {
        return Err(Error::new(0, ErrorKind::LimitExceeded));
    }
    let ghost header = envelope_header(2, len as u32);
    let mut writer: Writer = start(output, 2, len)?;
    match value {
        None => {
            let written: Result<()> = writer.u8(0);
            assert(written is Ok);
        },
        Some(text) => {
            let written: Result<()> = writer.u8(1);
            assert(written is Ok);
            let bytes: &[u8] = text.as_bytes();
            let written: Result<()> = writer.u32(bytes.len() as u32);
            assert(written is Ok);
            let written: Result<()> = writer.put(bytes);
            assert(written is Ok);
            assert(header + seq![1u8] + u32_bytes(bytes@.len() as u32) + bytes@ =~= envelope(
                2,
                value_payload(text_value(value)),
            ));
        },
    }
    Ok(writer.len())
}

#[derive(Clone, Copy, Debug, Eq, PartialEq, Structural)]
pub struct Source {
    pub id: SegmentId,
    pub sealed: bool,
}

/// The sixteen bytes of one manifest entry.
pub open spec fn source_bytes(source: Source) -> Seq<u8> {
    u64_bytes(source.id.get()) + seq![flag_byte(source.sealed)] + Seq::new(7, |i: int| 0u8)
}

/// The manifest entry at `index`.
pub open spec fn source_at(entries: Seq<u8>, index: int) -> Result<Source> {
    let at = index * 16;
    if le_u64(entries, at) == 0 {
        fail(at, ErrorKind::InvalidValue)
    } else if entries[at + 8] > 1 {
        fail(at + 8, ErrorKind::UnknownTag)
    } else if exists|i: int| at + 9 <= i < at + 16 && entries[i] != 0 {
        fail(at + 9, ErrorKind::NonCanonical)
    } else {
        Ok(Source { id: SegmentId::of(le_u64(entries, at)), sealed: entries[at + 8] == 1 })
    }
}

/// The first fault among the entries from `index` on, whose numbers must exceed `previous`.
pub open spec fn sources_error(entries: Seq<u8>, count: int, index: int, previous: u64) -> Option<
    Error,
>
    decreases count - index,
{
    if index >= count {
        None
    } else {
        match source_at(entries, index) {
            Err(error) => Some(error),
            Ok(source) => if source.id.get() <= previous {
                Some(Error { offset: 12, kind: ErrorKind::InvalidOrder })
            } else {
                sources_error(entries, count, index + 1, source.id.get())
            },
        }
    }
}

/// What a manifest says: a generation and its sources by increasing number.
#[verifier::ext_equal]
pub struct ManifestModel {
    pub generation: Generation,
    pub sources: Seq<Source>,
}

/// The manifest that a payload holds.
pub open spec fn manifest_of_payload(bytes: Seq<u8>, max_sources: u32) -> Result<ManifestModel> {
    if bytes.len() < 8 {
        fail(0, ErrorKind::Truncated)
    } else if le_u64(bytes, 0) == 0 {
        fail(0, ErrorKind::InvalidValue)
    } else if bytes.len() < 12 {
        fail(8, ErrorKind::Truncated)
    } else {
        let count = le_u32(bytes, 8);
        let entries = bytes.subrange(12, bytes.len() as int);
        if count > max_sources {
            fail(8, ErrorKind::LimitExceeded)
        } else if entries.len() != count * 16 {
            fail(12, ErrorKind::InvalidValue)
        } else {
            match sources_error(entries, count as int, 0, 0) {
                Some(error) => Err(error),
                None => Ok(
                    ManifestModel {
                        generation: Generation::of(le_u64(bytes, 0)),
                        sources: Seq::new(count as nat, |i: int| source_at(entries, i)->Ok_0),
                    },
                ),
            }
        }
    }
}

/// The manifest that `bytes` hold.
pub open spec fn parsed_manifest(bytes: Seq<u8>, max_sources: u32, max_bytes: usize) -> Result<
    ManifestModel,
> {
    match opened(bytes, 4, max_bytes) {
        Err(error) => Err(error),
        Ok(payload) => manifest_of_payload(payload, max_sources),
    }
}

/// A checked list of sources, borrowed from its encoding.
#[derive(Clone, Copy, Debug)]
pub struct Manifest<'a> {
    pub generation: Generation,
    entries: &'a [u8],
    count: u32,
}

impl<'a> View for Manifest<'a> {
    type V = ManifestModel;

    closed spec fn view(&self) -> ManifestModel {
        ManifestModel {
            generation: self.generation,
            sources: Seq::new(self.count as nat, |i: int| source_at(self.entries@, i)->Ok_0),
        }
    }
}

proof fn sources_ok(entries: Seq<u8>, count: int, index: int, previous: u64)
    requires
        0 <= index,
        sources_error(entries, count, index, previous) is None,
    ensures
        forall|i: int| index <= i < count ==> (#[trigger] source_at(entries, i)) is Ok,
        forall|i: int|
            index <= i < count ==> (#[trigger] source_at(entries, i))->Ok_0.id.get() > previous,
        forall|i: int, j: int|
            index <= i < j < count ==> (#[trigger] source_at(entries, i))->Ok_0.id.get() < (
            #[trigger] source_at(entries, j))->Ok_0.id.get(),
    decreases count - index,
{
    if index < count {
        sources_ok(entries, count, index + 1, source_at(entries, index)->Ok_0.id.get());
    }
}

impl<'a> Manifest<'a> {
    #[verifier::type_invariant]
    closed spec fn inv(self) -> bool {
        &&& self.entries@.len() == self.count * 16
        &&& forall|i: int| 0 <= i < self.count ==> (#[trigger] source_at(self.entries@, i)) is Ok
    }

    #[verifier::loop_isolation(false)]
    pub fn parse(bytes: &'a [u8], max_sources: u32, max_bytes: usize) -> (result: Result<Self>)
        ensures
            match parsed_manifest(bytes@, max_sources, max_bytes) {
                Ok(model) => result matches Ok(manifest) && manifest@ == model,
                Err(error) => result == Err::<Self, _>(error),
            },
    {
        let body: &'a [u8] = payload(bytes, 4, max_bytes)?;
        let mut reader: Reader<'a> = Reader::new(body);
        let generation: Generation = match Generation::new(reader.u64()?) {
            Ok(generation) => generation,
            Err(_) => {
                return Err(Error::new(0, ErrorKind::InvalidValue));
            },
        };
        let count: u32 = reader.u32()?;
        if count > max_sources {
            return Err(Error::new(8, ErrorKind::LimitExceeded));
        }
        let length: usize = reader.remaining();
        let entries: &'a [u8] = reader.take(length)?;
        if entries.len() as u64 != count as u64 * 16 {
            return Err(Error::new(12, ErrorKind::InvalidValue));
        }
        let mut previous: u64 = 0;
        let mut index: u32 = 0;
        while index < count
            invariant
                index <= count,
                sources_error(entries@, count as int, 0, 0) == sources_error(
                    entries@,
                    count as int,
                    index as int,
                    previous,
                ),
            decreases count - index,
        {
            let source: Source = read_source(entries, index as usize)?;
            if source.id.get() <= previous {
                return Err(Error::new(12, ErrorKind::InvalidOrder));
            }
            previous = source.id.get();
            index += 1;
        }
        proof {
            sources_ok(entries@, count as int, 0, 0);
        }
        let manifest: Manifest<'a> = Manifest { generation, entries, count };
        assert(manifest@ =~= parsed_manifest(bytes@, max_sources, max_bytes)->Ok_0);
        Ok(manifest)
    }

    pub fn len(self) -> (len: u32)
        ensures
            len == self@.sources.len(),
    {
        self.count
    }

    pub fn is_empty(self) -> (empty: bool)
        ensures
            empty == (self@.sources.len() == 0),
    {
        self.count == 0
    }

    pub fn source(self, index: u32) -> (result: Result<Source>)
        ensures
            result == (if index >= self@.sources.len() {
                fail(0, ErrorKind::InvalidValue)
            } else {
                Ok(self@.sources[index as int])
            }),
    {
        proof {
            use_type_invariant(&self);
        }
        if index >= self.count {
            return Err(Error::new(0, ErrorKind::InvalidValue));
        }
        let length: usize = self.entries.len();
        assert(index * 16 + 16 <= length);
        read_source(self.entries, index as usize)
    }
}

#[verifier::loop_isolation(false)]
fn read_source(entries: &[u8], index: usize) -> (result: Result<Source>)
    requires
        index * 16 + 16 <= entries@.len(),
    ensures
        result == source_at(entries@, index as int),
{
    let length: usize = entries.len();
    assert(index * 16 + 16 <= length);
    let at: usize = index * 16;
    let id: SegmentId = match SegmentId::new(get_u64(entries, at)) {
        Ok(id) => id,
        Err(_) => {
            return Err(Error::new(at, ErrorKind::InvalidValue));
        },
    };
    let flag: u8 = entries[at + 8];
    if flag > 1 {
        return Err(Error::new(at + 8, ErrorKind::UnknownTag));
    }
    let mut i: usize = at + 9;
    while i < at + 16
        invariant
            at + 9 <= i <= at + 16,
            forall|j: int| at + 9 <= j < i ==> entries@[j] == 0,
        decreases at + 16 - i,
    {
        if entries[i] != 0 {
            return Err(Error::new(at + 9, ErrorKind::NonCanonical));
        }
        i += 1;
    }
    Ok(Source { id, sealed: flag == 1 })
}

/// The entries of all sources, in order.
pub open spec fn sources_bytes(sources: Seq<Source>) -> Seq<u8>
    decreases sources.len(),
{
    if sources.len() == 0 {
        Seq::empty()
    } else {
        sources_bytes(sources.drop_last()) + source_bytes(sources.last())
    }
}

/// The payload of a manifest.
pub open spec fn manifest_payload(model: ManifestModel) -> Seq<u8> {
    u64_bytes(model.generation.get()) + u32_bytes(model.sources.len() as u32) + sources_bytes(
        model.sources,
    )
}

/// Whether source numbers are positive and strictly increase.
pub open spec fn sources_ordered(sources: Seq<Source>) -> bool {
    &&& forall|i: int| 0 <= i < sources.len() ==> (#[trigger] sources[i]).id.get() > 0
    &&& forall|i: int, j: int|
        0 <= i < j < sources.len() ==> (#[trigger] sources[i]).id.get() < (
        #[trigger] sources[j]).id.get()
}

/// Why a manifest cannot be encoded, if it cannot.
pub open spec fn manifest_error(sources: Seq<Source>, room: nat, max_sources: u32) -> Option<
    Error,
> {
    if sources.len() > max_sources {
        Some(Error { offset: 0, kind: ErrorKind::LimitExceeded })
    } else if !sources_ordered(sources) {
        Some(Error { offset: 0, kind: ErrorKind::InvalidOrder })
    } else if sources.len() * 16 + 12 > usize::MAX {
        Some(Error { offset: 0, kind: ErrorKind::Overflow })
    } else {
        start_error(room, sources.len() * 16 + 12)
    }
}

#[verifier::loop_isolation(false)]
pub fn encode_manifest(
    generation: Generation,
    sources: &[Source],
    output: &mut [u8],
    max_sources: u32,
) -> (result: Result<usize>)
    ensures
        match manifest_error(sources@, old(output)@.len(), max_sources) {
            Some(error) => result == Err::<usize, _>(error) && final(output)@ == old(output)@,
            None => ({
                let code = envelope(
                    4,
                    manifest_payload(ManifestModel { generation, sources: sources@ }),
                );
                &&& code.len() == 28 + 16 * sources@.len()
                &&& result == Ok::<usize, Error>(code.len() as usize)
                &&& final(output)@ == splice(old(output)@, 0, code)
            }),
        },
{
    let total: usize = sources.len();
    if total > max_sources as usize {
        return Err(Error::new(0, ErrorKind::LimitExceeded));
    }
    let count: u32 = total as u32;
    let mut previous: u64 = 0;
    let mut index: usize = 0;
    while index < total
        invariant
            index <= total,
            index == 0 ==> previous == 0,
            index > 0 ==> previous == sources@[index - 1].id.get(),
            forall|i: int| 0 <= i < index ==> 0 < (#[trigger] sources@[i]).id.get() <= previous,
            forall|i: int, j: int|
                0 <= i < j < index ==> (#[trigger] sources@[i]).id.get() < (
                #[trigger] sources@[j]).id.get(),
        decreases total - index,
    {
        let number: u64 = sources[index].id.get();
        if number <= previous {
            proof {
                if index > 0 {
                    assert(sources@[index - 1].id.get() >= sources@[index as int].id.get());
                }
            }
            return Err(Error::new(0, ErrorKind::InvalidOrder));
        }
        previous = number;
        index += 1;
    }
    if total > (usize::MAX - 12) / 16 {
        return Err(Error::new(0, ErrorKind::Overflow));
    }
    let len: usize = total * 16 + 12;
    let ghost before = output@;
    let ghost header = envelope_header(4, len as u32);
    let ghost lead = header + u64_bytes(generation.get()) + u32_bytes(count);
    let mut writer: Writer = start(output, 4, len)?;
    let written: Result<()> = writer.u64(generation.get());
    assert(written is Ok);
    let written: Result<()> = writer.u32(count);
    assert(written is Ok);
    let zeros: [u8; 7] = [0u8; 7];
    assert(zeros@ =~= Seq::new(7, |i: int| 0u8));
    let mut index: usize = 0;
    assert(sources_bytes(sources@.take(0)) =~= Seq::<u8>::empty());
    assert(lead =~= lead + Seq::<u8>::empty());
    while index < total
        invariant
            index <= total,
            writer.offset == 28 + 16 * index,
            sources_bytes(sources@.take(index as int)).len() == 16 * index,
            writer.bytes@ == splice(before, 0, lead + sources_bytes(sources@.take(index as int))),
            final(writer.bytes)@ == after_borrow(output)@,
        decreases total - index,
    {
        let source: Source = sources[index];
        let ghost done = lead + sources_bytes(sources@.take(index as int));
        let written: Result<()> = writer.u64(source.id.get());
        assert(written is Ok);
        let written: Result<()> = writer.u8(if source.sealed {
            1
        } else {
            0
        });
        assert(written is Ok);
        let written: Result<()> = writer.put(&zeros);
        assert(written is Ok);
        proof {
            assert(sources@.take(index + 1).drop_last() =~= sources@.take(index as int));
            assert(done + u64_bytes(source.id.get()) + seq![flag_byte(source.sealed)] + zeros@
                =~= lead + sources_bytes(sources@.take(index + 1)));
        }
        index += 1;
    }
    assert(sources@.take(index as int) =~= sources@);
    assert(lead + sources_bytes(sources@) =~= envelope(
        4,
        manifest_payload(ManifestModel { generation, sources: sources@ }),
    ));
    Ok(writer.len())
}

pub proof fn opened_of_envelope(kind: u8, payload: Seq<u8>, max_bytes: usize)
    requires
        payload.len() <= u32::MAX,
        payload.len() + 16 <= max_bytes,
    ensures
        opened(envelope(kind, payload), kind, max_bytes) == Ok::<Seq<u8>, Error>(payload),
{
    let bytes = envelope(kind, payload);
    assert(bytes.take(4) =~= magic());
    assert(bytes.subrange(6, 8) =~= u16_bytes(FORMAT_VERSION));
    assert(bytes.subrange(8, 12) =~= u32_bytes(0));
    assert(bytes.subrange(12, 16) =~= u32_bytes(payload.len() as u32));
    le_u16_of_bytes(bytes, 6, FORMAT_VERSION);
    le_u32_of_bytes(bytes, 8, 0);
    le_u32_of_bytes(bytes, 12, payload.len() as u32);
    assert(bytes.subrange(16, bytes.len() as int) =~= payload);
}

/// A document record reads back as it was written, under any layout that admits its root.
pub proof fn document_record_round_trip(record: DocumentRecord, layout: HeapLayout)
    requires
        record.valid(),
        record.segment.get() != 0,
        record.incarnation.get() != 0,
        coordinate_error(record.root.block(), record.root.offset(), layout) is None,
    ensures
        DocumentRecord::parsed(envelope(1, record.payload_bytes()), layout) == Ok::<
            DocumentRecord,
            Error,
        >(record),
{
    let bytes = record.payload_bytes();
    opened_of_envelope(1, bytes, DocumentRecord::ENCODED_BYTES);
    assert(bytes.subrange(0, 8) =~= u64_bytes(record.segment.get()));
    assert(bytes.subrange(8, 16) =~= u64_bytes(record.incarnation.get()));
    assert(bytes.subrange(16, 20) =~= u32_bytes(record.root.block()));
    assert(bytes.subrange(20, 22) =~= u16_bytes(record.root.offset()));
    assert(bytes.subrange(22, 24) =~= u16_bytes(0));
    assert(bytes.subrange(24, 28) =~= u32_bytes(record.token_count));
    assert(bytes.subrange(28, 32) =~= u32_bytes(record.profile));
    assert(bytes.subrange(34, 36) =~= u16_bytes(0));
    le_u64_of_bytes(bytes, 0, record.segment.get());
    le_u64_of_bytes(bytes, 8, record.incarnation.get());
    le_u32_of_bytes(bytes, 16, record.root.block());
    le_u16_of_bytes(bytes, 20, record.root.offset());
    le_u16_of_bytes(bytes, 22, 0);
    le_u32_of_bytes(bytes, 24, record.token_count);
    le_u32_of_bytes(bytes, 28, record.profile);
    le_u16_of_bytes(bytes, 34, 0);
    assert(bytes[32] == record.publication.tag());
    assert(bytes[33] == flag_byte(record.live));
}

/// Nullable text reads back as it was written; null and empty text stay apart.
pub proof fn value_round_trip(value: Option<Seq<u8>>, max_bytes: usize)
    requires
        value matches Some(text) ==> valid_utf8(text),
        value_payload(value).len() <= u32::MAX,
        value_payload(value).len() + 16 <= max_bytes,
    ensures
        decoded_value(envelope(2, value_payload(value)), max_bytes) == Ok::<
            Option<Seq<u8>>,
            Error,
        >(value),
{
    let bytes = value_payload(value);
    opened_of_envelope(2, bytes, max_bytes);
    if let Some(text) = value {
        assert(bytes.subrange(1, 5) =~= u32_bytes(text.len() as u32));
        le_u32_of_bytes(bytes, 1, text.len() as u32);
        assert(bytes.subrange(5, bytes.len() as int) =~= text);
    }
}

proof fn sources_bytes_at(sources: Seq<Source>, index: int)
    requires
        0 <= index < sources.len(),
    ensures
        sources_bytes(sources).len() == 16 * sources.len(),
        sources_bytes(sources).subrange(16 * index, 16 * index + 16) == source_bytes(
            sources[index],
        ),
    decreases sources.len(),
{
    let last = sources.len() - 1;
    if last > 0 {
        sources_bytes_at(sources.drop_last(), if index < last { index } else { 0 });
    } else {
        assert(sources_bytes(sources.drop_last()) =~= Seq::<u8>::empty());
    }
    if index == last {
        assert(sources_bytes(sources).subrange(16 * index, 16 * index + 16) =~= source_bytes(
            sources[index],
        ));
    } else {
        assert(sources_bytes(sources).subrange(16 * index, 16 * index + 16) =~= sources_bytes(
            sources.drop_last(),
        ).subrange(16 * index, 16 * index + 16));
    }
}

proof fn source_at_of_bytes(sources: Seq<Source>, index: int)
    requires
        0 <= index < sources.len(),
        sources[index].id.get() != 0,
    ensures
        source_at(sources_bytes(sources), index) == Ok::<Source, Error>(sources[index]),
{
    let entries = sources_bytes(sources);
    let at = 16 * index;
    sources_bytes_at(sources, index);
    let one = entries.subrange(at, at + 16);
    assert(entries.subrange(at, at + 8) =~= one.subrange(0, 8));
    assert(one.subrange(0, 8) =~= u64_bytes(sources[index].id.get()));
    le_u64_of_bytes(entries, at, sources[index].id.get());
    assert(entries[at + 8] == one[8]);
    assert forall|i: int| at + 9 <= i < at + 16 implies entries[i] == 0 by {
        assert(entries[i] == one[i - at]);
    }
}

proof fn sources_error_of_bytes(sources: Seq<Source>, index: int, previous: u64)
    requires
        0 <= index <= sources.len(),
        sources_ordered(sources),
        index < sources.len() ==> previous < sources[index].id.get(),
    ensures
        sources_error(sources_bytes(sources), sources.len() as int, index, previous) is None,
    decreases sources.len() - index,
{
    if index < sources.len() {
        source_at_of_bytes(sources, index);
        sources_error_of_bytes(sources, index + 1, sources[index].id.get());
    }
}

proof fn manifest_payload_round_trip(model: ManifestModel, max_sources: u32)
    requires
        model.generation.get() != 0,
        sources_ordered(model.sources),
        model.sources.len() <= max_sources,
    ensures
        manifest_of_payload(manifest_payload(model), max_sources) == Ok::<ManifestModel, Error>(
            model,
        ),
{
    let bytes = manifest_payload(model);
    let entries = sources_bytes(model.sources);
    let count = model.sources.len();
    assert(bytes.subrange(0, 8) =~= u64_bytes(model.generation.get()));
    assert(bytes.subrange(8, 12) =~= u32_bytes(count as u32));
    assert(bytes.subrange(12, bytes.len() as int) =~= entries);
    le_u64_of_bytes(bytes, 0, model.generation.get());
    le_u32_of_bytes(bytes, 8, count as u32);
    if count > 0 {
        sources_bytes_at(model.sources, 0);
    }
    sources_error_of_bytes(model.sources, 0, 0);
    assert forall|i: int| 0 <= i < count implies #[trigger] source_at(entries, i) == Ok::<
        Source,
        Error,
    >(model.sources[i]) by {
        source_at_of_bytes(model.sources, i);
    }
    assert(Seq::new(count as u32 as nat, |i: int| source_at(entries, i)->Ok_0) =~= model.sources);
}

/// A manifest reads back as it was written.
pub proof fn manifest_round_trip(model: ManifestModel, max_sources: u32, max_bytes: usize)
    requires
        model.generation.get() != 0,
        sources_ordered(model.sources),
        model.sources.len() <= max_sources,
        manifest_payload(model).len() <= u32::MAX,
        manifest_payload(model).len() + 16 <= max_bytes,
    ensures
        parsed_manifest(envelope(4, manifest_payload(model)), max_sources, max_bytes) == Ok::<
            ManifestModel,
            Error,
        >(model),
{
    opened_of_envelope(4, manifest_payload(model), max_bytes);
    manifest_payload_round_trip(model, max_sources);
}

} // verus!
