//! The `.sqrb` bundle container: a 32-byte header, the stored section
//! payloads one after another, and a directory of 40-byte entries.
//!
//! Header: `SQRB`, major (u16), minor (u16), section count (u32), directory
//! offset (u64), flags (u32), reserved (u64); every integer little endian.
//! Directory entry: id (u16), flags (u16), reserved (u32), offset (u64),
//! stored length (u64), raw length (u64), CRC-32 of the raw payload (u32),
//! item count (u32). Flag `0x1` marks a JSON payload, `0x2` a MessagePack
//! payload and `0x4` a zstd-compressed one.
use crate::codec::{
    crc32, crc32_of, zstd_content, zstd_decode, zstd_encode, zstd_frame,
};
use vstd::prelude::*;
use vstd::slice::{slice_subrange, slice_to_vec};

verus! {

pub const SQRB_MAJOR: u16 = 1;

pub const SQRB_MINOR: u16 = 0;

pub const HEADER_LEN: usize = 32;

pub const ENTRY_LEN: usize = 40;

/// Payloads longer than this are compressed when their section asks for it.
pub const COMPRESS_THRESHOLD: usize = 1024;

/// The zstd level of compressed payloads.
pub const ZSTD_LEVEL: i32 = 10;

pub const FLAG_JSON: u16 = 1;

pub const FLAG_MSGPACK: u16 = 2;

pub const FLAG_ZSTD: u16 = 4;

/* ---------- little-endian integers ---------- */

pub open spec fn u16_le(v: u16) -> Seq<u8> {
    seq![v as u8, (v >> 8u16) as u8]
}

pub open spec fn u32_le(v: u32) -> Seq<u8> {
    seq![v as u8, (v >> 8u32) as u8, (v >> 16u32) as u8, (v >> 24u32) as u8]
}

pub open spec fn u64_le(v: u64) -> Seq<u8> {
    seq![
        v as u8,
        (v >> 8u64) as u8,
        (v >> 16u64) as u8,
        (v >> 24u64) as u8,
        (v >> 32u64) as u8,
        (v >> 40u64) as u8,
        (v >> 48u64) as u8,
        (v >> 56u64) as u8,
    ]
}

pub open spec fn u16_from(b0: u8, b1: u8) -> u16 {
    (b0 as u16) | ((b1 as u16) << 8u16)
}

pub open spec fn u32_from(b0: u8, b1: u8, b2: u8, b3: u8) -> u32 {
    (b0 as u32) | ((b1 as u32) << 8u32) | ((b2 as u32) << 16u32) | ((b3 as u32) << 24u32)
}

pub open spec fn u64_from(b0: u8, b1: u8, b2: u8, b3: u8, b4: u8, b5: u8, b6: u8, b7: u8) -> u64 {
    (b0 as u64) | ((b1 as u64) << 8u64) | ((b2 as u64) << 16u64) | ((b3 as u64) << 24u64) | ((
    b4 as u64) << 32u64) | ((b5 as u64) << 40u64) | ((b6 as u64) << 48u64) | ((b7 as u64)
        << 56u64)
}

/// The little-endian u16 at byte `i` of `b`.
pub open spec fn u16_at(b: Seq<u8>, i: int) -> u16 {
    u16_from(b[i], b[i + 1])
}

pub open spec fn u32_at(b: Seq<u8>, i: int) -> u32 {
    u32_from(b[i], b[i + 1], b[i + 2], b[i + 3])
}

pub open spec fn u64_at(b: Seq<u8>, i: int) -> u64 {
    u64_from(b[i], b[i + 1], b[i + 2], b[i + 3], b[i + 4], b[i + 5], b[i + 6], b[i + 7])
}

pub proof fn lemma_u16_le(v: u16)
    ensures
        u16_at(u16_le(v), 0) == v,
{
    let b0 = v as u8;
    let b1 = (v >> 8u16) as u8;
    assert(u16_from(b0, b1) == v) by (bit_vector)
        requires
            b0 == v as u8,
            b1 == (v >> 8u16) as u8,
    ;
}

pub proof fn lemma_u32_le(v: u32)
    ensures
        u32_at(u32_le(v), 0) == v,
{
    let b0 = v as u8;
    let b1 = (v >> 8u32) as u8;
    let b2 = (v >> 16u32) as u8;
    let b3 = (v >> 24u32) as u8;
    assert(u32_from(b0, b1, b2, b3) == v) by (bit_vector)
        requires
            b0 == v as u8,
            b1 == (v >> 8u32) as u8,
            b2 == (v >> 16u32) as u8,
            b3 == (v >> 24u32) as u8,
    ;
}

pub proof fn lemma_u64_le(v: u64)
    ensures
        u64_at(u64_le(v), 0) == v,
{
    let b0 = v as u8;
    let b1 = (v >> 8u64) as u8;
    let b2 = (v >> 16u64) as u8;
    let b3 = (v >> 24u64) as u8;
    let b4 = (v >> 32u64) as u8;
    let b5 = (v >> 40u64) as u8;
    let b6 = (v >> 48u64) as u8;
    let b7 = (v >> 56u64) as u8;
    assert(u64_from(b0, b1, b2, b3, b4, b5, b6, b7) == v) by (bit_vector)
        requires
            b0 == v as u8,
            b1 == (v >> 8u64) as u8,
            b2 == (v >> 16u64) as u8,
            b3 == (v >> 24u64) as u8,
            b4 == (v >> 32u64) as u8,
            b5 == (v >> 40u64) as u8,
            b6 == (v >> 48u64) as u8,
            b7 == (v >> 56u64) as u8,
    ;
}

fn push_u16(out: &mut Vec<u8>, v: u16)
    ensures
        final(out)@ == old(out)@ + u16_le(v),
{
    out.push(v as u8);
    out.push((v >> 8) as u8);
    assert(final(out)@ =~= old(out)@ + u16_le(v));
}

fn push_u32(out: &mut Vec<u8>, v: u32)
    ensures
        final(out)@ == old(out)@ + u32_le(v),
{
    out.push(v as u8);
    out.push((v >> 8) as u8);
    out.push((v >> 16) as u8);
    out.push((v >> 24) as u8);
    assert(final(out)@ =~= old(out)@ + u32_le(v));
}

fn push_u64(out: &mut Vec<u8>, v: u64)
    ensures
        final(out)@ == old(out)@ + u64_le(v),
{
    out.push(v as u8);
    out.push((v >> 8) as u8);
    out.push((v >> 16) as u8);
    out.push((v >> 24) as u8);
    out.push((v >> 32) as u8);
    out.push((v >> 40) as u8);
    out.push((v >> 48) as u8);
    out.push((v >> 56) as u8);
    assert(final(out)@ =~= old(out)@ + u64_le(v));
}

/* ---------- sections ---------- */

/// The sections of a bundle, in the order in which they are written.
#[derive(Debug, Clone, Copy, PartialEq, Eq)]
pub enum SectionId {
    Manifest,
    Teams,
    Squads,
    Players,
    Vehicles,
    Helicopters,
    Deployables,
    Components,
    PlayerTracks,
    VehicleTracks,
    HelicopterTracks,
    Kills,
    Deployments,
    SeatChanges,
    ComponentStates,
    VehicleStates,
    WeaponStates,
    Properties,
    Diagnostics,
}

impl SectionId {
    /// The id that the directory records for this section.
    pub open spec fn wire_code(self) -> u16 {
        match self {
            SectionId::Manifest => 1,
            SectionId::Teams => 2,
            SectionId::Squads => 3,
            SectionId::Players => 4,
            SectionId::Vehicles => 5,
            SectionId::Helicopters => 6,
            SectionId::Deployables => 7,
            SectionId::Components => 8,
            SectionId::PlayerTracks => 9,
            SectionId::VehicleTracks => 10,
            SectionId::HelicopterTracks => 11,
            SectionId::Kills => 12,
            SectionId::Deployments => 13,
            SectionId::SeatChanges => 14,
            SectionId::ComponentStates => 15,
            SectionId::VehicleStates => 16,
            SectionId::WeaponStates => 17,
            SectionId::Properties => 18,
            SectionId::Diagnostics => 19,
        }
    }

    /// Only the manifest is stored as JSON; every other section is MessagePack.
    pub open spec fn json_payload(self) -> bool {
        self == SectionId::Manifest
    }

    /// The sections whose large payloads are compressed: tracks and the
    /// per-tick state events.
    pub open spec fn compressible(self) -> bool {
        match self {
            SectionId::PlayerTracks | SectionId::VehicleTracks | SectionId::HelicopterTracks
            | SectionId::ComponentStates | SectionId::VehicleStates | SectionId::WeaponStates
            | SectionId::Properties => true,
            _ => false,
        }
    }

    pub fn code(self) -> (res: u16)
        ensures
            res == self.wire_code(),
    {
        match self {
            SectionId::Manifest => 1,
            SectionId::Teams => 2,
            SectionId::Squads => 3,
            SectionId::Players => 4,
            SectionId::Vehicles => 5,
            SectionId::Helicopters => 6,
            SectionId::Deployables => 7,
            SectionId::Components => 8,
            SectionId::PlayerTracks => 9,
            SectionId::VehicleTracks => 10,
            SectionId::HelicopterTracks => 11,
            SectionId::Kills => 12,
            SectionId::Deployments => 13,
            SectionId::SeatChanges => 14,
            SectionId::ComponentStates => 15,
            SectionId::VehicleStates => 16,
            SectionId::WeaponStates => 17,
            SectionId::Properties => 18,
            SectionId::Diagnostics => 19,
        }
    }

    pub fn is_json(self) -> (res: bool)
        ensures
            res == self.json_payload(),
    {
        match self {
            SectionId::Manifest => true,
            _ => false,
        }
    }

    pub fn compresses(self) -> (res: bool)
        ensures
            res == self.compressible(),
    {
        match self {
            SectionId::PlayerTracks | SectionId::VehicleTracks | SectionId::HelicopterTracks
            | SectionId::ComponentStates | SectionId::VehicleStates | SectionId::WeaponStates
            | SectionId::Properties => true,
            _ => false,
        }
    }

    /// The section recorded under directory id `code`, if any.
    pub fn from_code(code: u16) -> (res: Option<SectionId>)
        ensures
            match res {
                Some(id) => id.wire_code() == code,
                None => !(1 <= code <= 19),
            },
    {
        match code {
            1 => Some(SectionId::Manifest),
            2 => Some(SectionId::Teams),
            3 => Some(SectionId::Squads),
            4 => Some(SectionId::Players),
            5 => Some(SectionId::Vehicles),
            6 => Some(SectionId::Helicopters),
            7 => Some(SectionId::Deployables),
            8 => Some(SectionId::Components),
            9 => Some(SectionId::PlayerTracks),
            10 => Some(SectionId::VehicleTracks),
            11 => Some(SectionId::HelicopterTracks),
            12 => Some(SectionId::Kills),
            13 => Some(SectionId::Deployments),
            14 => Some(SectionId::SeatChanges),
            15 => Some(SectionId::ComponentStates),
            16 => Some(SectionId::VehicleStates),
            17 => Some(SectionId::WeaponStates),
            18 => Some(SectionId::Properties),
            19 => Some(SectionId::Diagnostics),
            _ => None,
        }
    }

    /// Every section, in the order in which a bundle is written.
    pub fn all() -> (res: Vec<SectionId>)
        ensures
            res@.len() == 19,
            forall|i: int| 0 <= i < 19 ==> #[trigger] res@[i].wire_code() == i + 1,
    {
        vec![
            SectionId::Manifest,
            SectionId::Teams,
            SectionId::Squads,
            SectionId::Players,
            SectionId::Vehicles,
            SectionId::Helicopters,
            SectionId::Deployables,
            SectionId::Components,
            SectionId::PlayerTracks,
            SectionId::VehicleTracks,
            SectionId::HelicopterTracks,
            SectionId::Kills,
            SectionId::Deployments,
            SectionId::SeatChanges,
            SectionId::ComponentStates,
            SectionId::VehicleStates,
            SectionId::WeaponStates,
            SectionId::Properties,
            SectionId::Diagnostics,
        ]
    }
}

/// One section to write: its id, the number of items it holds and its raw
/// (serialized, uncompressed) payload.
pub struct SectionPayload {
    pub id: SectionId,
    pub item_count: u32,
    pub raw: Vec<u8>,
}

/// The payload is stored compressed.
pub open spec fn is_compressed(s: SectionPayload) -> bool {
    s.id.compressible() && s.raw@.len() > COMPRESS_THRESHOLD
}

/// The directory flags of a section.
pub open spec fn section_flags(s: SectionPayload) -> u16 {
    ((if s.id.json_payload() { FLAG_JSON } else { FLAG_MSGPACK }) + (if is_compressed(s) {
        FLAG_ZSTD
    } else {
        0
    })) as u16
}

/// The bytes stored for a section.
pub open spec fn stored_bytes(s: SectionPayload) -> Seq<u8> {
    if is_compressed(s) {
        zstd_frame(s.raw@, ZSTD_LEVEL)
    } else {
        s.raw@
    }
}

/// The stored payloads of `ss`, one after another.
pub open spec fn body(ss: Seq<SectionPayload>) -> Seq<u8>
    decreases ss.len(),
{
    if ss.len() == 0 {
        Seq::empty()
    } else {
        body(ss.drop_last()) + stored_bytes(ss.last())
    }
}

/// Where the stored payload of section `i` starts in the file.
pub open spec fn section_offset(ss: Seq<SectionPayload>, i: int) -> int {
    HEADER_LEN + body(ss.take(i)).len()
}

pub open spec fn entry_bytes(
    id: u16,
    flags: u16,
    offset: u64,
    stored_len: u64,
    raw_len: u64,
    crc: u32,
    item_count: u32,
) -> Seq<u8> {
    u16_le(id) + u16_le(flags) + u32_le(0) + u64_le(offset) + u64_le(stored_len) + u64_le(raw_len)
        + u32_le(crc) + u32_le(item_count)
}

/// The directory entry of section `i` of `ss`.
pub open spec fn section_entry(ss: Seq<SectionPayload>, i: int) -> Seq<u8> {
    entry_bytes(
        ss[i].id.wire_code(),
        section_flags(ss[i]),
        section_offset(ss, i) as u64,
        stored_bytes(ss[i]).len() as u64,
        ss[i].raw@.len() as u64,
        crc32_of(ss[i].raw@),
        ss[i].item_count,
    )
}

/// The directory entries of the first `n` sections of `ss`.
pub open spec fn directory(ss: Seq<SectionPayload>, n: int) -> Seq<u8>
    decreases n,
{
    if n <= 0 {
        Seq::empty()
    } else {
        directory(ss, n - 1) + section_entry(ss, n - 1)
    }
}

pub open spec fn magic() -> Seq<u8> {
    seq![0x53u8, 0x51u8, 0x52u8, 0x42u8]
}

pub open spec fn header(section_count: u32, directory_offset: u64) -> Seq<u8> {
    magic() + u16_le(SQRB_MAJOR) + u16_le(SQRB_MINOR) + u32_le(section_count) + u64_le(
        directory_offset,
    ) + u32_le(0) + u64_le(0)
}

/// The complete `.sqrb` file that holds `ss`.
pub open spec fn sqrb_image(ss: Seq<SectionPayload>) -> Seq<u8> {
    header(ss.len() as u32, (HEADER_LEN + body(ss).len()) as u64) + body(ss) + directory(
        ss,
        ss.len() as int,
    )
}

/* ---------- the sections of a bundle ---------- */

/// A serialized collection and the number of items in it.
pub struct CountedPayload {
    pub items: usize,
    pub raw: Vec<u8>,
}

/// The serialized parts of a bundle, one per section.
pub struct BundlePayloads {
    pub manifest: Vec<u8>,
    pub teams: CountedPayload,
    pub squads: CountedPayload,
    pub players: CountedPayload,
    pub vehicles: CountedPayload,
    pub helicopters: CountedPayload,
    pub deployables: CountedPayload,
    pub components: CountedPayload,
    pub player_tracks: CountedPayload,
    pub vehicle_tracks: CountedPayload,
    pub helicopter_tracks: CountedPayload,
    pub kills: CountedPayload,
    pub deployments: CountedPayload,
    pub seat_changes: CountedPayload,
    pub component_states: CountedPayload,
    pub vehicle_states: CountedPayload,
    pub weapon_states: CountedPayload,
    pub properties: CountedPayload,
    pub diagnostics: Vec<u8>,
}

/// `s` holds the collection `c`; its item count is the collection's length
/// truncated to 32 bits.
pub open spec fn holds(s: SectionPayload, c: CountedPayload) -> bool {
    s.item_count == c.items as u32 && s.raw@ == c.raw@
}

fn counted(id: SectionId, c: CountedPayload) -> (s: SectionPayload)
    ensures
        s.id == id,
        holds(s, c),
{
    SectionPayload { id, item_count: c.items as u32, raw: c.raw }
}

/// The sections of a bundle in writing order. The manifest and the
/// diagnostics each count as one item.
pub fn bundle_sections(p: BundlePayloads) -> (res: Vec<SectionPayload>)
    ensures
        res@.len() == 19,
        forall|i: int| 0 <= i < 19 ==> #[trigger] res@[i].id.wire_code() == i + 1,
        res@[0].item_count == 1 && res@[0].raw@ == p.manifest@,
        holds(res@[1], p.teams),
        holds(res@[2], p.squads),
        holds(res@[3], p.players),
        holds(res@[4], p.vehicles),
        holds(res@[5], p.helicopters),
        holds(res@[6], p.deployables),
        holds(res@[7], p.components),
        holds(res@[8], p.player_tracks),
        holds(res@[9], p.vehicle_tracks),
        holds(res@[10], p.helicopter_tracks),
        holds(res@[11], p.kills),
        holds(res@[12], p.deployments),
        holds(res@[13], p.seat_changes),
        holds(res@[14], p.component_states),
        holds(res@[15], p.vehicle_states),
        holds(res@[16], p.weapon_states),
        holds(res@[17], p.properties),
        res@[18].item_count == 1 && res@[18].raw@ == p.diagnostics@,
{
    vec![
        SectionPayload { id: SectionId::Manifest, item_count: 1, raw: p.manifest },
        counted(SectionId::Teams, p.teams),
        counted(SectionId::Squads, p.squads),
        counted(SectionId::Players, p.players),
        counted(SectionId::Vehicles, p.vehicles),
        counted(SectionId::Helicopters, p.helicopters),
        counted(SectionId::Deployables, p.deployables),
        counted(SectionId::Components, p.components),
        counted(SectionId::PlayerTracks, p.player_tracks),
        counted(SectionId::VehicleTracks, p.vehicle_tracks),
        counted(SectionId::HelicopterTracks, p.helicopter_tracks),
        counted(SectionId::Kills, p.kills),
        counted(SectionId::Deployments, p.deployments),
        counted(SectionId::SeatChanges, p.seat_changes),
        counted(SectionId::ComponentStates, p.component_states),
        counted(SectionId::VehicleStates, p.vehicle_states),
        counted(SectionId::WeaponStates, p.weapon_states),
        counted(SectionId::Properties, p.properties),
        SectionPayload { id: SectionId::Diagnostics, item_count: 1, raw: p.diagnostics },
    ]
}

/* ---------- errors ---------- */

/// Why a `.sqrb` image could not be written or read.
#[derive(Debug, PartialEq, Eq)]
pub enum SqrbError {
    /// Shorter than a header, or not starting with `SQRB`.
    BadMagic,
    /// A major version other than `SQRB_MAJOR`.
    UnsupportedMajor(u16),
    /// The directory offset lies before the end of the header or past the end
    /// of the file (a truncated file, or a header that was never patched).
    DirectoryOutOfRange { offset: usize, file_size: usize },
    /// A directory entry runs past the end of the file.
    UnexpectedEof,
    /// A section's stored bytes run past the end of the file.
    SectionOutOfBounds,
    /// A section's raw payload does not have the CRC-32 its entry records.
    CrcMismatch(u16),
    /// zstd could not decompress a section (zstd's own message).
    Decompress(String),
    /// zstd could not compress a section (zstd's own message).
    Compress(String),
}

/* ---------- writing ---------- */

/// A section ready to be written: its directory values and stored bytes.
pub struct EncodedSection {
    pub code: u16,
    pub flags: u16,
    pub raw_len: u64,
    pub crc32: u32,
    pub item_count: u32,
    pub stored: Vec<u8>,
}

/// The directory values of a written section.
pub struct SectionDirectoryEntry {
    pub code: u16,
    pub flags: u16,
    pub offset: u64,
    pub stored_len: u64,
    pub raw_len: u64,
    pub crc32: u32,
    pub item_count: u32,
}

pub open spec fn encoded_as(e: EncodedSection, s: SectionPayload) -> bool {
    &&& e.code == s.id.wire_code()
    &&& e.flags == section_flags(s)
    &&& e.raw_len == s.raw@.len()
    &&& e.crc32 == crc32_of(s.raw@)
    &&& e.item_count == s.item_count
    &&& e.stored@ == stored_bytes(s)
}

/// The directory entry `d` describes section `i` of `ss`.
pub open spec fn entry_describes(d: SectionDirectoryEntry, ss: Seq<SectionPayload>, i: int) -> bool {
    entry_bytes(d.code, d.flags, d.offset, d.stored_len, d.raw_len, d.crc32, d.item_count)
        == section_entry(ss, i)
}

/// The values of a compressed section whose zstd frame is `frame`.
pub open spec fn framed_as(e: EncodedSection, s: SectionPayload, frame: Seq<u8>) -> bool {
    &&& e.code == s.id.wire_code()
    &&& e.flags == section_flags(s)
    &&& e.raw_len == s.raw@.len()
    &&& e.crc32 == crc32_of(s.raw@)
    &&& e.item_count == s.item_count
    &&& e.stored@ == frame
}

/// The encoded section of a compressed section, from what zstd gave back
/// for its raw payload: the frame is stored, and a zstd failure is a
/// `Compress` error with zstd's message.
pub fn compressed_section(
    section: &SectionPayload,
    crc: u32,
    compressed: Result<Vec<u8>, String>,
) -> (res: Result<EncodedSection, SqrbError>)
    requires
        is_compressed(*section),
        crc == crc32_of(section.raw@),
    ensures
        match compressed {
            Ok(frame) => res matches Ok(e) && framed_as(e, *section, frame@),
            Err(message) => res == Err::<EncodedSection, _>(SqrbError::Compress(message)),
        },
{
    let flags: u16 = if section.id.is_json() {
        FLAG_JSON
    } else {
        FLAG_MSGPACK
    } | FLAG_ZSTD;
    assert(1u16 | 4u16 == 5u16 && 2u16 | 4u16 == 6u16) by (bit_vector);
    match compressed {
        Ok(stored) => Ok(
            EncodedSection {
                code: section.id.code(),
                flags,
                raw_len: section.raw.len() as u64,
                crc32: crc,
                item_count: section.item_count,
                stored,
            },
        ),
        Err(message) => Err(SqrbError::Compress(message)),
    }
}

/// Checksums the raw payload, compresses it when the section asks for it and
/// it is longer than `COMPRESS_THRESHOLD`, and works out the section's flags.
pub fn encode_section(section: &SectionPayload) -> (res: Result<EncodedSection, SqrbError>)
    ensures
        !is_compressed(*section) ==> res is Ok,
        match res {
            Ok(e) => encoded_as(e, *section) && (is_compressed(*section) ==> zstd_content(e.stored@)
                == Some(section.raw@)),
            Err(err) => err is Compress && is_compressed(*section),
        },
{
    let crc = crc32(section.raw.as_slice());
    if section.id.compresses() && section.raw.len() > COMPRESS_THRESHOLD {
        let compressed = zstd_encode(section.raw.as_slice(), ZSTD_LEVEL);
        let ghost zstd_result = compressed;
        let res = compressed_section(section, crc, compressed);
        proof {
            if let Ok(frame) = zstd_result {
                assert(frame@ == zstd_frame(section.raw@, ZSTD_LEVEL));
            }
        }
        res
    } else {
        let flags: u16 = if section.id.is_json() {
            FLAG_JSON
        } else {
            FLAG_MSGPACK
        };
        let stored = section.raw.clone();
        Ok(
            EncodedSection {
                code: section.id.code(),
                flags,
                raw_len: section.raw.len() as u64,
                crc32: crc,
                item_count: section.item_count,
                stored,
            },
        )
    }
}

/// Appends a section's stored bytes to `out` and records where they went.
pub fn write_encoded_section(
    out: &mut Vec<u8>,
    directory: &mut Vec<SectionDirectoryEntry>,
    section: EncodedSection,
)
    ensures
        final(out)@ == old(out)@ + section.stored@,
        final(directory)@ == old(directory)@.push(
            SectionDirectoryEntry {
                code: section.code,
                flags: section.flags,
                offset: old(out)@.len() as u64,
                stored_len: section.stored@.len() as u64,
                raw_len: section.raw_len,
                crc32: section.crc32,
                item_count: section.item_count,
            },
        ),
{
    let offset = out.len() as u64;
    let stored_len = section.stored.len() as u64;
    let mut stored = section.stored;
    out.append(&mut stored);
    directory.push(
        SectionDirectoryEntry {
            code: section.code,
            flags: section.flags,
            offset,
            stored_len,
            raw_len: section.raw_len,
            crc32: section.crc32,
            item_count: section.item_count,
        },
    );
}

fn push_entry(out: &mut Vec<u8>, d: &SectionDirectoryEntry)
    ensures
        final(out)@ == old(out)@ + entry_bytes(
            d.code,
            d.flags,
            d.offset,
            d.stored_len,
            d.raw_len,
            d.crc32,
            d.item_count,
        ),
{
    let ghost start = out@;
    push_u16(out, d.code);
    push_u16(out, d.flags);
    push_u32(out, 0);
    push_u64(out, d.offset);
    push_u64(out, d.stored_len);
    push_u64(out, d.raw_len);
    push_u32(out, d.crc32);
    push_u32(out, d.item_count);
    assert(final(out)@ =~= start + entry_bytes(
        d.code,
        d.flags,
        d.offset,
        d.stored_len,
        d.raw_len,
        d.crc32,
        d.item_count,
    ));
}

fn push_header(out: &mut Vec<u8>, section_count: u32, directory_offset: u64)
    ensures
        final(out)@ == old(out)@ + header(section_count, directory_offset),
{
    let ghost start = out@;
    out.push(0x53);
    out.push(0x51);
    out.push(0x52);
    out.push(0x42);
    push_u16(out, SQRB_MAJOR);
    push_u16(out, SQRB_MINOR);
    push_u32(out, section_count);
    push_u64(out, directory_offset);
    push_u32(out, 0);
    push_u64(out, 0);
    assert(final(out)@ =~= start + header(section_count, directory_offset));
}

pub proof fn lemma_body_take(ss: Seq<SectionPayload>, i: int)
    requires
        0 <= i < ss.len(),
    ensures
        body(ss.take(i + 1)) == body(ss.take(i)) + stored_bytes(ss[i]),
{
    assert(ss.take(i + 1).drop_last() =~= ss.take(i));
}

pub proof fn lemma_directory_prefix(ss: Seq<SectionPayload>, i: int)
    requires
        0 <= i < ss.len(),
    ensures
        directory(ss, i + 1) == directory(ss, i) + section_entry(ss, i),
{
}

/// Writes the `.sqrb` image of `sections`: header, stored payloads in order,
/// directory, with the header's directory offset pointing past the payloads.
pub fn write(sections: &Vec<SectionPayload>) -> (res: Result<Vec<u8>, SqrbError>)
    requires
        sections@.len() <= u32::MAX,
    ensures
        match res {
            Ok(image) => image@ == sqrb_image(sections@) && sqrb_contents(image@) == Ok::<
                _,
                SqrbError,
            >(section_contents(sections@)),
            Err(err) => err is Compress && exists|i: int|
                0 <= i < sections@.len() && is_compressed(#[trigger] sections@[i]),
        },
        (forall|i: int| 0 <= i < sections@.len() ==> !is_compressed(#[trigger] sections@[i]))
            ==> res is Ok,
{
    let ghost ss = sections@;
    let count = sections.len() as u32;
    let mut out: Vec<u8> = Vec::new();
    push_header(&mut out, count, 0);
    let mut entries: Vec<SectionDirectoryEntry> = Vec::new();
    let mut i: usize = 0;
    while i < sections.len()
        invariant
            ss == sections@,
            count == ss.len(),
            i <= ss.len(),
            out@ == header(count, 0) + body(ss.take(i as int)),
            entries@.len() == i,
            forall|k: int| 0 <= k < i ==> #[trigger] entry_describes(entries@[k], ss, k),
            forall|k: int|
                0 <= k < i && is_compressed(#[trigger] ss[k]) ==> zstd_content(
                    zstd_frame(ss[k].raw@, ZSTD_LEVEL),
                ) == Some(ss[k].raw@),
        decreases ss.len() - i,
    {
        let encoded = match encode_section(&sections[i]) {
            Ok(e) => e,
            Err(err) => {
                assert(is_compressed(ss[i as int]));
                return Err(err);
            },
        };
        proof {
            lemma_body_take(ss, i as int);
        }
        let ghost before = out@;
        write_encoded_section(&mut out, &mut entries, encoded);
        proof {
            assert(before.len() == section_offset(ss, i as int));
            assert(entry_describes(entries@[i as int], ss, i as int));
            assert(out@ =~= header(count, 0) + body(ss.take(i + 1)));
        }
        i += 1;
    }
    assert(ss.take(ss.len() as int) =~= ss);
    let directory_offset = out.len() as u64;
    let ghost payload_end = out@;
    let mut j: usize = 0;
    while j < entries.len()
        invariant
            ss == sections@,
            entries@.len() == ss.len(),
            forall|k: int| 0 <= k < ss.len() ==> #[trigger] entry_describes(entries@[k], ss, k),
            j <= ss.len(),
            payload_end == header(count, 0) + body(ss),
            out@ == payload_end + directory(ss, j as int),
        decreases ss.len() - j,
    {
        push_entry(&mut out, &entries[j]);
        proof {
            lemma_directory_prefix(ss, j as int);
            assert(entry_describes(entries@[j as int], ss, j as int));
            assert(out@ =~= payload_end + directory(ss, j + 1));
        }
        j += 1;
    }
    let d = directory_offset;
    out.set(12, d as u8);
    out.set(13, (d >> 8) as u8);
    out.set(14, (d >> 16) as u8);
    out.set(15, (d >> 24) as u8);
    out.set(16, (d >> 32) as u8);
    out.set(17, (d >> 40) as u8);
    out.set(18, (d >> 48) as u8);
    out.set(19, (d >> 56) as u8);
    proof {
        let expected = sqrb_image(ss);
        let h0 = header(count, 0);
        let h1 = header(count, d);
        assert(h0.len() == 32 && h1.len() == 32);
        assert forall|k: int| 0 <= k < 32 && !(12 <= k < 20) implies h0[k] == h1[k] by {}
        assert(out@ =~= expected);
        assert(out@.len() == out.len());
        lemma_sqrb_roundtrip(ss);
    }
    Ok(out)
}

/* ---------- reading ---------- */

/// The values of a directory entry that reading uses.
#[derive(Debug, Clone, Copy, PartialEq, Eq)]
pub struct DirectoryEntry {
    pub id: u16,
    pub flags: u16,
    pub offset: u64,
    pub stored_len: u64,
    pub crc32: u32,
}

/// A section read back from an image: its directory id and raw payload.
pub struct Section {
    pub id: u16,
    pub raw: Vec<u8>,
}

/// Two failures are the same, ignoring the text of zstd's messages.
pub open spec fn same_failure(a: SqrbError, b: SqrbError) -> bool {
    match (a, b) {
        (SqrbError::Decompress(_), SqrbError::Decompress(_)) => true,
        (SqrbError::Compress(_), SqrbError::Compress(_)) => true,
        _ => a == b,
    }
}

/// An actual result agrees with the one that the format prescribes.
pub open spec fn agrees<T>(actual: Result<T, SqrbError>, expected: Result<T, SqrbError>) -> bool {
    match (actual, expected) {
        (Ok(a), Ok(e)) => a == e,
        (Err(a), Err(e)) => same_failure(a, e),
        _ => false,
    }
}

pub open spec fn payload_view(r: Result<Vec<u8>, SqrbError>) -> Result<Seq<u8>, SqrbError> {
    match r {
        Ok(v) => Ok(v@),
        Err(e) => Err(e),
    }
}

/// The id and raw payload of each section read.
pub open spec fn section_pairs(v: Seq<Section>) -> Seq<(u16, Seq<u8>)> {
    v.map_values(|s: Section| (s.id, s.raw@))
}

pub open spec fn sections_view(r: Result<Vec<Section>, SqrbError>) -> Result<
    Seq<(u16, Seq<u8>)>,
    SqrbError,
> {
    match r {
        Ok(v) => Ok(section_pairs(v@)),
        Err(e) => Err(e),
    }
}

/// Checks the header: magic, major version and directory offset; gives the
/// section count and the directory offset.
pub open spec fn parse_header(b: Seq<u8>) -> Result<(u32, usize), SqrbError> {
    if b.len() < HEADER_LEN || b.take(4) != magic() {
        Err(SqrbError::BadMagic)
    } else if u16_at(b, 4) != SQRB_MAJOR {
        Err(SqrbError::UnsupportedMajor(u16_at(b, 4)))
    } else {
        let dir = u64_at(b, 12) as usize;
        if dir < HEADER_LEN || dir > b.len() {
            Err(SqrbError::DirectoryOutOfRange { offset: dir, file_size: b.len() as usize })
        } else {
            Ok((u32_at(b, 8), dir))
        }
    }
}

/// The directory entry at byte `pos`.
pub open spec fn entry_at(b: Seq<u8>, pos: int) -> DirectoryEntry {
    DirectoryEntry {
        id: u16_at(b, pos),
        flags: u16_at(b, pos + 2),
        offset: u64_at(b, pos + 8),
        stored_len: u64_at(b, pos + 16),
        crc32: u32_at(b, pos + 32),
    }
}

/// The directory of an image: every entry must lie inside the file.
pub open spec fn parse_directory(b: Seq<u8>) -> Result<Seq<DirectoryEntry>, SqrbError> {
    match parse_header(b) {
        Err(e) => Err(e),
        Ok((count, dir)) => if dir + ENTRY_LEN * count > b.len() {
            Err(SqrbError::UnexpectedEof)
        } else {
            Ok(Seq::new(count as nat, |i: int| entry_at(b, dir + ENTRY_LEN * i)))
        },
    }
}

/// The raw payload of the section that `e` describes: its stored bytes must
/// lie inside the file, are decompressed when flagged, and must match the
/// recorded checksum.
pub open spec fn section_raw(b: Seq<u8>, e: DirectoryEntry) -> Result<Seq<u8>, SqrbError> {
    let start = (e.offset as usize) as int;
    let end = start + (e.stored_len as usize) as int;
    if end > b.len() {
        Err(SqrbError::SectionOutOfBounds)
    } else {
        let stored = b.subrange(start, end);
        let raw = if e.flags & FLAG_ZSTD != 0 {
            zstd_content(stored)
        } else {
            Some(stored)
        };
        match raw {
            None => Err(SqrbError::Decompress(arbitrary())),
            Some(r) => if crc32_of(r) != e.crc32 {
                Err(SqrbError::CrcMismatch(e.id))
            } else {
                Ok(r)
            },
        }
    }
}

/// The sections that `entries` describe, in order; the first failure wins.
pub open spec fn read_sections(b: Seq<u8>, entries: Seq<DirectoryEntry>) -> Result<
    Seq<(u16, Seq<u8>)>,
    SqrbError,
>
    decreases entries.len(),
{
    if entries.len() == 0 {
        Ok(Seq::empty())
    } else {
        match read_sections(b, entries.drop_last()) {
            Err(e) => Err(e),
            Ok(prefix) => match section_raw(b, entries.last()) {
                Err(e) => Err(e),
                Ok(r) => Ok(prefix.push((entries.last().id, r))),
            },
        }
    }
}

/// Once reading a prefix of the entries fails, reading more entries fails
/// the same way.
pub proof fn lemma_read_sections_failure_persists(
    b: Seq<u8>,
    es: Seq<DirectoryEntry>,
    j: int,
    k: int,
)
    requires
        0 <= j <= k <= es.len(),
        read_sections(b, es.take(j)) is Err,
    ensures
        read_sections(b, es.take(k)) == read_sections(b, es.take(j)),
    decreases k - j,
{
    if k > j {
        lemma_read_sections_failure_persists(b, es, j, k - 1);
        assert(es.take(k).drop_last() =~= es.take(k - 1));
    }
}

/// What reading the image `b` gives: each section's id and raw payload.
pub open spec fn sqrb_contents(b: Seq<u8>) -> Result<Seq<(u16, Seq<u8>)>, SqrbError> {
    match parse_directory(b) {
        Err(e) => Err(e),
        Ok(entries) => read_sections(b, entries),
    }
}

/// Reads the little-endian u16 at `*offset` and moves past it.
pub fn read_u16(bytes: &[u8], offset: &mut usize) -> (res: Result<u16, SqrbError>)
    ensures
        match res {
            Ok(v) => old(offset) + 2 <= bytes@.len() && v == u16_at(bytes@, *old(offset) as int)
                && *final(offset) == *old(offset) + 2,
            Err(e) => e == SqrbError::UnexpectedEof && old(offset) + 2 > bytes@.len()
                && *final(offset) == *old(offset),
        },
{
    if bytes.len() < 2 || *offset > bytes.len() - 2 {
        return Err(SqrbError::UnexpectedEof);
    }
    let o = *offset;
    let value = (bytes[o] as u16) | ((bytes[o + 1] as u16) << 8);
    *offset = o + 2;
    Ok(value)
}

/// Reads the little-endian u32 at `*offset` and moves past it.
pub fn read_u32(bytes: &[u8], offset: &mut usize) -> (res: Result<u32, SqrbError>)
    ensures
        match res {
            Ok(v) => old(offset) + 4 <= bytes@.len() && v == u32_at(bytes@, *old(offset) as int)
                && *final(offset) == *old(offset) + 4,
            Err(e) => e == SqrbError::UnexpectedEof && old(offset) + 4 > bytes@.len()
                && *final(offset) == *old(offset),
        },
{
    if bytes.len() < 4 || *offset > bytes.len() - 4 {
        return Err(SqrbError::UnexpectedEof);
    }
    let o = *offset;
    let value = (bytes[o] as u32) | ((bytes[o + 1] as u32) << 8) | ((bytes[o + 2] as u32) << 16)
        | ((bytes[o + 3] as u32) << 24);
    *offset = o + 4;
    Ok(value)
}

/// Reads the little-endian u64 at `*offset` and moves past it.
pub fn read_u64(bytes: &[u8], offset: &mut usize) -> (res: Result<u64, SqrbError>)
    ensures
        match res {
            Ok(v) => old(offset) + 8 <= bytes@.len() && v == u64_at(bytes@, *old(offset) as int)
                && *final(offset) == *old(offset) + 8,
            Err(e) => e == SqrbError::UnexpectedEof && old(offset) + 8 > bytes@.len()
                && *final(offset) == *old(offset),
        },
{
    if bytes.len() < 8 || *offset > bytes.len() - 8 {
        return Err(SqrbError::UnexpectedEof);
    }
    let o = *offset;
    let value = (bytes[o] as u64) | ((bytes[o + 1] as u64) << 8) | ((bytes[o + 2] as u64) << 16)
        | ((bytes[o + 3] as u64) << 24) | ((bytes[o + 4] as u64) << 32) | ((bytes[o + 5] as u64)
        << 40) | ((bytes[o + 6] as u64) << 48) | ((bytes[o + 7] as u64) << 56);
    *offset = o + 8;
    Ok(value)
}

/// Checks the header of an image and reads its directory.
pub fn read_directory(bytes: &[u8]) -> (res: Result<Vec<DirectoryEntry>, SqrbError>)
    ensures
        match res {
            Ok(entries) => parse_directory(bytes@) == Ok::<_, SqrbError>(entries@),
            Err(e) => parse_directory(bytes@) == Err::<Seq<DirectoryEntry>, _>(e),
        },
{
    if bytes.len() < HEADER_LEN || bytes[0] != 0x53 || bytes[1] != 0x51 || bytes[2] != 0x52
        || bytes[3] != 0x42 {
        proof {
            if bytes@.len() >= HEADER_LEN {
                assert(bytes@.take(4)[0] == bytes@[0]);
                assert(bytes@.take(4)[1] == bytes@[1]);
                assert(bytes@.take(4)[2] == bytes@[2]);
                assert(bytes@.take(4)[3] == bytes@[3]);
            }
        }
        return Err(SqrbError::BadMagic);
    }
    assert(bytes@.take(4) =~= magic());
    let mut cursor: usize = 4;
    let major = match read_u16(bytes, &mut cursor) {
        Ok(v) => v,
        Err(e) => return Err(e),
    };
    let _minor = match read_u16(bytes, &mut cursor) {
        Ok(v) => v,
        Err(e) => return Err(e),
    };
    if major != SQRB_MAJOR {
        return Err(SqrbError::UnsupportedMajor(major));
    }
    let section_count = match read_u32(bytes, &mut cursor) {
        Ok(v) => v,
        Err(e) => return Err(e),
    };
    let directory_offset = match read_u64(bytes, &mut cursor) {
        Ok(v) => v,
        Err(e) => return Err(e),
    } as usize;
    let _flags = match read_u32(bytes, &mut cursor) {
        Ok(v) => v,
        Err(e) => return Err(e),
    };
    let _reserved = match read_u64(bytes, &mut cursor) {
        Ok(v) => v,
        Err(e) => return Err(e),
    };
    if directory_offset < HEADER_LEN || directory_offset > bytes.len() {
        return Err(
            SqrbError::DirectoryOutOfRange { offset: directory_offset, file_size: bytes.len() },
        );
    }
    let ghost b = bytes@;
    let ghost dir = directory_offset as int;
    let mut entries: Vec<DirectoryEntry> = Vec::new();
    let mut dir_cursor = directory_offset;
    let mut i: u32 = 0;
    while i < section_count
        invariant
            b == bytes@,
            parse_header(b) == Ok::<_, SqrbError>((section_count, directory_offset)),
            dir == directory_offset,
            i <= section_count,
            dir_cursor == dir + ENTRY_LEN * i,
            dir_cursor <= b.len(),
            entries@.len() == i,
            forall|k: int| 0 <= k < i ==> #[trigger] entries@[k] == entry_at(b, dir + ENTRY_LEN * k),
        decreases section_count - i,
    {
        let ghost pos = dir_cursor as int;
        let id = match read_u16(bytes, &mut dir_cursor) {
            Ok(v) => v,
            Err(e) => {
                assert(dir + ENTRY_LEN * section_count > b.len()) by (nonlinear_arith)
                    requires
                        pos + 2 > b.len(),
                        pos == dir + ENTRY_LEN * i,
                        i < section_count,
                ;
                return Err(e);
            },
        };
        let flags = match read_u16(bytes, &mut dir_cursor) {
            Ok(v) => v,
            Err(e) => {
                assert(dir + ENTRY_LEN * section_count > b.len()) by (nonlinear_arith)
                    requires
                        pos + 4 > b.len(),
                        pos == dir + ENTRY_LEN * i,
                        i < section_count,
                ;
                return Err(e);
            },
        };
        let _reserved = match read_u32(bytes, &mut dir_cursor) {
            Ok(v) => v,
            Err(e) => {
                assert(dir + ENTRY_LEN * section_count > b.len()) by (nonlinear_arith)
                    requires
                        pos + 8 > b.len(),
                        pos == dir + ENTRY_LEN * i,
                        i < section_count,
                ;
                return Err(e);
            },
        };
        let offset = match read_u64(bytes, &mut dir_cursor) {
            Ok(v) => v,
            Err(e) => {
                assert(dir + ENTRY_LEN * section_count > b.len()) by (nonlinear_arith)
                    requires
                        pos + 16 > b.len(),
                        pos == dir + ENTRY_LEN * i,
                        i < section_count,
                ;
                return Err(e);
            },
        };
        let stored_len = match read_u64(bytes, &mut dir_cursor) {
            Ok(v) => v,
            Err(e) => {
                assert(dir + ENTRY_LEN * section_count > b.len()) by (nonlinear_arith)
                    requires
                        pos + 24 > b.len(),
                        pos == dir + ENTRY_LEN * i,
                        i < section_count,
                ;
                return Err(e);
            },
        };
        let _raw_len = match read_u64(bytes, &mut dir_cursor) {
            Ok(v) => v,
            Err(e) => {
                assert(dir + ENTRY_LEN * section_count > b.len()) by (nonlinear_arith)
                    requires
                        pos + 32 > b.len(),
                        pos == dir + ENTRY_LEN * i,
                        i < section_count,
                ;
                return Err(e);
            },
        };
        let crc32 = match read_u32(bytes, &mut dir_cursor) {
            Ok(v) => v,
            Err(e) => {
                assert(dir + ENTRY_LEN * section_count > b.len()) by (nonlinear_arith)
                    requires
                        pos + 36 > b.len(),
                        pos == dir + ENTRY_LEN * i,
                        i < section_count,
                ;
                return Err(e);
            },
        };
        let _item_count = match read_u32(bytes, &mut dir_cursor) {
            Ok(v) => v,
            Err(e) => {
                assert(dir + ENTRY_LEN * section_count > b.len()) by (nonlinear_arith)
                    requires
                        pos + 40 > b.len(),
                        pos == dir + ENTRY_LEN * i,
                        i < section_count,
                ;
                return Err(e);
            },
        };
        entries.push(DirectoryEntry { id, flags, offset, stored_len, crc32 });
        assert(dir_cursor == dir + ENTRY_LEN * (i + 1)) by (nonlinear_arith)
            requires
                dir_cursor == pos + 40,
                pos == dir + ENTRY_LEN * i,
        ;
        i += 1;
    }
    assert(entries@ =~= Seq::new(
        section_count as nat,
        |k: int| entry_at(b, dir + ENTRY_LEN * k),
    ));
    Ok(entries)
}

/// The raw payload of the section that `entry` describes. Stored bytes that
/// end past the file (an end offset that overflows included) are out of
/// bounds.
pub fn section_payload(bytes: &[u8], entry: &DirectoryEntry) -> (res: Result<Vec<u8>, SqrbError>)
    ensures
        agrees(payload_view(res), section_raw(bytes@, *entry)),
{
    let start = entry.offset as usize;
    let len = entry.stored_len as usize;
    if len > bytes.len() || start > bytes.len() - len {
        return Err(SqrbError::SectionOutOfBounds);
    }
    let end = start + len;
    let stored = slice_subrange(bytes, start, end);
    let raw = if (entry.flags & FLAG_ZSTD) != 0 {
        match zstd_decode(stored) {
            Ok(raw) => raw,
            Err(message) => return Err(SqrbError::Decompress(message)),
        }
    } else {
        slice_to_vec(stored)
    };
    if crc32(raw.as_slice()) != entry.crc32 {
        return Err(SqrbError::CrcMismatch(entry.id));
    }
    Ok(raw)
}

/// Reads every section of the image `bytes`, in directory order.
pub fn read(bytes: &[u8]) -> (res: Result<Vec<Section>, SqrbError>)
    ensures
        agrees(sections_view(res), sqrb_contents(bytes@)),
{
    let entries = match read_directory(bytes) {
        Ok(entries) => entries,
        Err(e) => return Err(e),
    };
    let ghost es = entries@;
    let mut sections: Vec<Section> = Vec::new();
    let mut i: usize = 0;
    assert(es.take(0) =~= Seq::<DirectoryEntry>::empty());
    assert(section_pairs(sections@) =~= Seq::<(u16, Seq<u8>)>::empty());
    while i < entries.len()
        invariant
            es == entries@,
            parse_directory(bytes@) == Ok::<_, SqrbError>(es),
            i <= es.len(),
            read_sections(bytes@, es.take(i as int)) == Ok::<_, SqrbError>(
                section_pairs(sections@),
            ),
        decreases es.len() - i,
    {
        assert(es.take(i + 1).drop_last() =~= es.take(i as int));
        let raw = match section_payload(bytes, &entries[i]) {
            Ok(raw) => raw,
            Err(e) => {
                proof {
                    lemma_read_sections_failure_persists(bytes@, es, i + 1, es.len() as int);
                    assert(es.take(es.len() as int) =~= es);
                }
                return Err(e);
            },
        };
        let ghost before = sections@;
        sections.push(Section { id: entries[i].id, raw });
        assert(section_pairs(sections@) =~= section_pairs(before).push((es[i as int].id, raw@)));
        i += 1;
    }
    assert(es.take(es.len() as int) =~= es);
    Ok(sections)
}

/* ---------- what a read gives back of a write ---------- */

/// What reading back a bundle's sections gives: each id and raw payload.
pub open spec fn section_contents(ss: Seq<SectionPayload>) -> Seq<(u16, Seq<u8>)> {
    ss.map_values(|s: SectionPayload| (s.id.wire_code(), s.raw@))
}

/// zstd gives back the raw payload of every compressed section of `ss`.
pub open spec fn frames_decode(ss: Seq<SectionPayload>) -> bool {
    forall|i: int|
        0 <= i < ss.len() && is_compressed(#[trigger] ss[i]) ==> zstd_content(
            zstd_frame(ss[i].raw@, ZSTD_LEVEL),
        ) == Some(ss[i].raw@)
}

proof fn lemma_entry_at_window(x: Seq<u8>, p: int)
    requires
        0 <= p,
        p + 40 <= x.len(),
    ensures
        entry_at(x, p) == entry_at(x.subrange(p, p + 40), 0),
{
}

proof fn lemma_entry_fields(
    id: u16,
    flags: u16,
    offset: u64,
    stored_len: u64,
    raw_len: u64,
    crc: u32,
    item_count: u32,
)
    ensures
        entry_bytes(id, flags, offset, stored_len, raw_len, crc, item_count).len() == 40,
        entry_at(entry_bytes(id, flags, offset, stored_len, raw_len, crc, item_count), 0)
            == (DirectoryEntry { id, flags, offset, stored_len, crc32: crc }),
        u64_at(entry_bytes(id, flags, offset, stored_len, raw_len, crc, item_count), 24)
            == raw_len,
        u32_at(entry_bytes(id, flags, offset, stored_len, raw_len, crc, item_count), 36)
            == item_count,
{
    let e = entry_bytes(id, flags, offset, stored_len, raw_len, crc, item_count);
    lemma_u16_le(id);
    lemma_u16_le(flags);
    lemma_u64_le(offset);
    lemma_u64_le(stored_len);
    lemma_u32_le(crc);
    assert(e.subrange(0, 2) =~= u16_le(id));
    assert(e.subrange(2, 4) =~= u16_le(flags));
    assert(e.subrange(8, 16) =~= u64_le(offset));
    assert(e.subrange(16, 24) =~= u64_le(stored_len));
    assert(e.subrange(32, 36) =~= u32_le(crc));
    assert(u16_at(e, 0) == u16_at(e.subrange(0, 2), 0));
    assert(u16_at(e, 2) == u16_at(e.subrange(2, 4), 0));
    assert(u64_at(e, 8) == u64_at(e.subrange(8, 16), 0));
    assert(u64_at(e, 16) == u64_at(e.subrange(16, 24), 0));
    assert(u32_at(e, 32) == u32_at(e.subrange(32, 36), 0));
    lemma_u64_le(raw_len);
    lemma_u32_le(item_count);
    assert(e.subrange(24, 32) =~= u64_le(raw_len));
    assert(e.subrange(36, 40) =~= u32_le(item_count));
    assert(u64_at(e, 24) == u64_at(e.subrange(24, 32), 0));
    assert(u32_at(e, 36) == u32_at(e.subrange(36, 40), 0));
}

/// The payloads of a prefix of the sections are a prefix of the body.
proof fn lemma_body_prefix(ss: Seq<SectionPayload>, j: int, k: int)
    requires
        0 <= j <= k <= ss.len(),
    ensures
        body(ss.take(j)).len() <= body(ss.take(k)).len(),
        body(ss.take(k)).subrange(0, body(ss.take(j)).len() as int) == body(ss.take(j)),
    decreases k - j,
{
    if j == k {
        assert(body(ss.take(k)).subrange(0, body(ss.take(j)).len() as int) =~= body(ss.take(j)));
    } else {
        lemma_body_prefix(ss, j, k - 1);
        lemma_body_take(ss, k - 1);
        assert(body(ss.take(k)).subrange(0, body(ss.take(j)).len() as int) =~= body(
            ss.take(k - 1),
        ).subrange(0, body(ss.take(j)).len() as int));
    }
}

/// Section `i`'s stored bytes lie in the body at its offset.
proof fn lemma_body_section(ss: Seq<SectionPayload>, i: int)
    requires
        0 <= i < ss.len(),
    ensures
        body(ss.take(i)).len() + stored_bytes(ss[i]).len() <= body(ss).len(),
        body(ss).subrange(
            body(ss.take(i)).len() as int,
            (body(ss.take(i)).len() + stored_bytes(ss[i]).len()) as int,
        ) == stored_bytes(ss[i]),
{
    lemma_body_prefix(ss, i + 1, ss.len() as int);
    lemma_body_take(ss, i);
    assert(ss.take(ss.len() as int) =~= ss);
    let a = body(ss.take(i)).len() as int;
    let n = stored_bytes(ss[i]).len() as int;
    assert(body(ss).subrange(a, a + n) =~= body(ss.take(i + 1)).subrange(a, a + n));
    assert(body(ss.take(i + 1)).subrange(a, a + n) =~= stored_bytes(ss[i]));
}

proof fn lemma_directory_len(ss: Seq<SectionPayload>, n: int)
    requires
        0 <= n,
    ensures
        directory(ss, n).len() == ENTRY_LEN * n,
    decreases n,
{
    if n > 0 {
        lemma_directory_len(ss, n - 1);
        let i = n - 1;
        lemma_entry_fields(
            ss[i].id.wire_code(),
            section_flags(ss[i]),
            section_offset(ss, i) as u64,
            stored_bytes(ss[i]).len() as u64,
            ss[i].raw@.len() as u64,
            crc32_of(ss[i].raw@),
            ss[i].item_count,
        );
    }
}

/// Entry `i` of the directory lies at `ENTRY_LEN * i`.
proof fn lemma_directory_entry(ss: Seq<SectionPayload>, n: int, i: int)
    requires
        0 <= i < n,
    ensures
        directory(ss, n).subrange(ENTRY_LEN * i, ENTRY_LEN * i + ENTRY_LEN) == section_entry(ss, i),
    decreases n,
{
    lemma_directory_len(ss, n);
    lemma_directory_len(ss, n - 1);
    if i == n - 1 {
        assert(directory(ss, n).subrange(ENTRY_LEN * i, ENTRY_LEN * i + ENTRY_LEN) =~= section_entry(
            ss,
            i,
        ));
    } else {
        lemma_directory_entry(ss, n - 1, i);
        assert(ENTRY_LEN * i + ENTRY_LEN <= ENTRY_LEN * (n - 1)) by (nonlinear_arith)
            requires
                i < n - 1,
        ;
        assert(directory(ss, n).subrange(ENTRY_LEN * i, ENTRY_LEN * i + ENTRY_LEN) =~= directory(
            ss,
            n - 1,
        ).subrange(ENTRY_LEN * i, ENTRY_LEN * i + ENTRY_LEN));
    }
}

proof fn lemma_flags(s: SectionPayload)
    ensures
        (section_flags(s) & FLAG_ZSTD != 0) == is_compressed(s),
{
    assert(1u16 & 4u16 == 0 && 2u16 & 4u16 == 0 && 5u16 & 4u16 != 0 && 6u16 & 4u16 != 0)
        by (bit_vector);
}

proof fn lemma_header_fields(count: u32, dir: u64, rest: Seq<u8>)
    ensures
        ({
            let img = header(count, dir) + rest;
            &&& img.len() >= HEADER_LEN
            &&& img.take(4) == magic()
            &&& u16_at(img, 4) == SQRB_MAJOR
            &&& u32_at(img, 8) == count
            &&& u64_at(img, 12) == dir
        }),
{
    let img = header(count, dir) + rest;
    lemma_u16_le(SQRB_MAJOR);
    lemma_u32_le(count);
    lemma_u64_le(dir);
    assert(img.take(4) =~= magic());
    assert(img.subrange(4, 6) =~= u16_le(SQRB_MAJOR));
    assert(img.subrange(8, 12) =~= u32_le(count));
    assert(img.subrange(12, 20) =~= u64_le(dir));
    assert(u16_at(img, 4) == u16_at(img.subrange(4, 6), 0));
    assert(u32_at(img, 8) == u32_at(img.subrange(8, 12), 0));
    assert(u64_at(img, 12) == u64_at(img.subrange(12, 20), 0));
}

/// Section `i` of an image reads back as its raw payload.
#[verifier::spinoff_prover]
#[verifier::rlimit(60)]
proof fn lemma_section_reads_back(ss: Seq<SectionPayload>, i: int)
    requires
        0 <= i < ss.len(),
        ss.len() <= u32::MAX,
        sqrb_image(ss).len() <= usize::MAX,
        frames_decode(ss),
    ensures
        section_raw(
            sqrb_image(ss),
            entry_at(sqrb_image(ss), HEADER_LEN + body(ss).len() + ENTRY_LEN * i),
        ) == Ok::<_, SqrbError>(ss[i].raw@),
        entry_at(sqrb_image(ss), HEADER_LEN + body(ss).len() + ENTRY_LEN * i).id
            == ss[i].id.wire_code(),
{
    let n = ss.len() as int;
    let img = sqrb_image(ss);
    let h = header(n as u32, (HEADER_LEN + body(ss).len()) as u64);
    let d = directory(ss, n);
    let dir = HEADER_LEN + body(ss).len();
    lemma_directory_len(ss, n);
    lemma_directory_entry(ss, n, i);
    assert(ENTRY_LEN * i + ENTRY_LEN <= ENTRY_LEN * n) by (nonlinear_arith)
        requires
            i < n,
    ;
    let p = dir + ENTRY_LEN * i;
    assert(img.subrange(p, p + 40) =~= d.subrange(ENTRY_LEN * i, ENTRY_LEN * i + ENTRY_LEN));
    lemma_entry_at_window(img, p);
    let off = section_offset(ss, i);
    lemma_entry_fields(
        ss[i].id.wire_code(),
        section_flags(ss[i]),
        off as u64,
        stored_bytes(ss[i]).len() as u64,
        ss[i].raw@.len() as u64,
        crc32_of(ss[i].raw@),
        ss[i].item_count,
    );
    let e = entry_at(img, p);
    lemma_body_section(ss, i);
    let stored = stored_bytes(ss[i]);
    assert(e.offset as usize as int == off);
    assert(e.stored_len as usize as int == stored.len());
    assert(img.subrange(off, off + stored.len()) =~= body(ss).subrange(
        body(ss.take(i)).len() as int,
        (body(ss.take(i)).len() + stored.len()) as int,
    ));
    lemma_flags(ss[i]);
}

/// The sections that the first `k` directory entries of an image describe.
proof fn lemma_sections_read_back(ss: Seq<SectionPayload>, entries: Seq<DirectoryEntry>, k: int)
    requires
        0 <= k <= ss.len(),
        ss.len() <= u32::MAX,
        sqrb_image(ss).len() <= usize::MAX,
        frames_decode(ss),
        entries.len() == ss.len(),
        forall|i: int|
            0 <= i < ss.len() ==> #[trigger] entries[i] == entry_at(
                sqrb_image(ss),
                HEADER_LEN + body(ss).len() + ENTRY_LEN * i,
            ),
    ensures
        read_sections(sqrb_image(ss), entries.take(k)) == Ok::<_, SqrbError>(
            section_contents(ss.take(k)),
        ),
    decreases k,
{
    if k == 0 {
        assert(section_contents(ss.take(0)) =~= Seq::<(u16, Seq<u8>)>::empty());
    } else {
        lemma_sections_read_back(ss, entries, k - 1);
        assert(entries.take(k).drop_last() =~= entries.take(k - 1));
        lemma_section_reads_back(ss, k - 1);
        assert(section_contents(ss.take(k)) =~= section_contents(ss.take(k - 1)).push(
            (ss[k - 1].id.wire_code(), ss[k - 1].raw@),
        ));
    }
}


/// What a written image records for section `i`, read back from its bytes:
/// the header starts with `SQRB` and major version 1 and holds the section
/// count; the header's directory offset leads to 40-byte
/// entries, one per section in order; entry `i` holds the section's id, its
/// flags (`1` for the JSON manifest, `2` for MessagePack, plus `4` where a
/// track or state section of more than 1024 bytes is compressed), the
/// offset and length of the stored payload, the raw payload's length and
/// CRC-32, and the item count the caller gave, whatever the payload's size.
#[verifier::spinoff_prover]
#[verifier::rlimit(80)]
pub proof fn law_directory_records_sections(ss: Seq<SectionPayload>, i: int)
    requires
        0 <= i < ss.len(),
        ss.len() <= u32::MAX,
        sqrb_image(ss).len() <= usize::MAX,
    ensures
        ({
            let img = sqrb_image(ss);
            let s = ss[i];
            let p = u64_at(img, 12) + 40 * i;
            let compressed = (s.id == SectionId::PlayerTracks || s.id == SectionId::VehicleTracks
                || s.id == SectionId::HelicopterTracks || s.id == SectionId::ComponentStates
                || s.id == SectionId::VehicleStates || s.id == SectionId::WeaponStates || s.id
                == SectionId::Properties) && s.raw@.len() > 1024;
            let start = u64_at(img, p + 8) as int;
            let stored_len = u64_at(img, p + 16) as int;
            &&& img.take(4) == seq![0x53u8, 0x51u8, 0x52u8, 0x42u8]
            &&& u16_at(img, 4) == 1
            &&& u32_at(img, 8) == ss.len()
            &&& 32 <= p && p + 40 <= img.len()
            &&& u16_at(img, p) == s.id.wire_code()
            &&& u16_at(img, p + 2) == (if s.id == SectionId::Manifest {
                1int
            } else {
                2int
            }) + (if compressed {
                4int
            } else {
                0int
            })
            &&& u64_at(img, p + 24) == s.raw@.len()
            &&& u32_at(img, p + 32) == crc32_of(s.raw@)
            &&& u32_at(img, p + 36) == s.item_count
            &&& 32 <= start && start + stored_len <= u64_at(img, 12)
            &&& img.subrange(start, start + stored_len) == if compressed {
                zstd_frame(s.raw@, 10)
            } else {
                s.raw@
            }
        }),
{
    let n = ss.len() as int;
    let img = sqrb_image(ss);
    let d = directory(ss, n);
    let dir = HEADER_LEN + body(ss).len();
    lemma_directory_len(ss, n);
    lemma_header_fields(n as u32, dir as u64, body(ss) + d);
    assert(img =~= header(n as u32, dir as u64) + (body(ss) + d));
    lemma_directory_entry(ss, n, i);
    assert(ENTRY_LEN * i + ENTRY_LEN <= ENTRY_LEN * n) by (nonlinear_arith)
        requires
            i < n,
    ;
    let p = dir + ENTRY_LEN * i;
    let w = img.subrange(p, p + 40);
    assert(w =~= d.subrange(ENTRY_LEN * i, ENTRY_LEN * i + ENTRY_LEN));
    lemma_entry_at_window(img, p);
    let off = section_offset(ss, i);
    lemma_entry_fields(
        ss[i].id.wire_code(),
        section_flags(ss[i]),
        off as u64,
        stored_bytes(ss[i]).len() as u64,
        ss[i].raw@.len() as u64,
        crc32_of(ss[i].raw@),
        ss[i].item_count,
    );
    lemma_body_section(ss, i);
    let stored = stored_bytes(ss[i]);
    assert(img.len() == dir + ENTRY_LEN * n);
    assert(u64_at(img, 12) == dir);
    assert(u16_at(img, p) == u16_at(w, 0));
    assert(u16_at(img, p + 2) == u16_at(w, 2));
    assert(u64_at(img, p + 8) == u64_at(w, 8));
    assert(u64_at(img, p + 16) == u64_at(w, 16));
    assert(u64_at(img, p + 24) == u64_at(w, 24));
    assert(u32_at(img, p + 32) == u32_at(w, 32));
    assert(u32_at(img, p + 36) == u32_at(w, 36));
    assert(u16_at(img, p) == ss[i].id.wire_code());
    assert(u16_at(img, p + 2) == section_flags(ss[i]));
    assert(u64_at(img, p + 8) == off);
    assert(u64_at(img, p + 16) == stored.len());
    assert(img.subrange(off, off + stored.len()) =~= body(ss).subrange(
        body(ss.take(i)).len() as int,
        (body(ss.take(i)).len() + stored.len()) as int,
    ));
    let s = ss[i];
    let compressed = (s.id == SectionId::PlayerTracks || s.id == SectionId::VehicleTracks
        || s.id == SectionId::HelicopterTracks || s.id == SectionId::ComponentStates || s.id
        == SectionId::VehicleStates || s.id == SectionId::WeaponStates || s.id
        == SectionId::Properties) && s.raw@.len() > 1024;
    assert(compressed == is_compressed(s));
    assert(section_flags(s) == (if s.id == SectionId::Manifest {
        1int
    } else {
        2int
    }) + (if compressed {
        4int
    } else {
        0int
    }));
    assert(stored == if compressed {
        zstd_frame(s.raw@, 10)
    } else {
        s.raw@
    });
    assert(off + stored.len() <= dir);
    assert(s.raw@.len() == s.raw.len());
}

/// Reading the image of `ss` gives back every section's id and raw payload,
/// in order, provided zstd gives back what it compressed.
pub proof fn lemma_sqrb_roundtrip(ss: Seq<SectionPayload>)
    requires
        ss.len() <= u32::MAX,
        sqrb_image(ss).len() <= usize::MAX,
        frames_decode(ss),
    ensures
        sqrb_contents(sqrb_image(ss)) == Ok::<_, SqrbError>(section_contents(ss)),
{
    let n = ss.len() as int;
    let img = sqrb_image(ss);
    let dir = HEADER_LEN + body(ss).len();
    lemma_directory_len(ss, n);
    lemma_header_fields(n as u32, dir as u64, body(ss) + directory(ss, n));
    assert(img =~= header(n as u32, dir as u64) + (body(ss) + directory(ss, n)));
    assert(img.len() == dir + ENTRY_LEN * n);
    assert(parse_header(img) == Ok::<_, SqrbError>((n as u32, dir as usize)));
    let entries = Seq::new(n as nat, |i: int| entry_at(img, dir + ENTRY_LEN * i));
    assert(parse_directory(img) == Ok::<_, SqrbError>(entries));
    lemma_sections_read_back(ss, entries, n);
    assert(entries.take(n) =~= entries);
    assert(ss.take(n) =~= ss);
}

} // verus!
