use squadreplay::sqrb::{
    bundle_sections, encode_section, BundlePayloads, CountedPayload,
    read, read_directory, read_u16, read_u32, read_u64, section_payload, DirectoryEntry,
    SectionId, SectionPayload, SqrbError,
};

fn payload(id: SectionId, item_count: u32, raw: Vec<u8>) -> SectionPayload {
    SectionPayload { id, item_count, raw }
}

fn canonical_sections() -> Vec<SectionPayload> {
    SectionId::all()
        .into_iter()
        .enumerate()
        .map(|(i, id)| {
            let raw = match id {
                SectionId::Manifest => b"{\n  \"schema\": {}\n}".to_vec(),
                SectionId::PlayerTracks => (0..5000u32).map(|k| (k % 7) as u8).collect(),
                SectionId::Properties => vec![0xAB; 2048],
                SectionId::Teams => vec![0x90],
                _ => vec![i as u8; i],
            };
            payload(id, i as u32, raw)
        })
        .collect()
}

#[test]
fn sqrb_roundtrip_preserves_section_payloads() {
    let sections = canonical_sections();
    let image = squadreplay::sqrb::write(&sections).expect("write should succeed");
    let back = read(&image).expect("read should succeed");
    assert_eq!(back.len(), sections.len());
    for (s, b) in sections.iter().zip(back.iter()) {
        assert_eq!(b.id, s.id.code());
        assert_eq!(b.raw, s.raw);
    }
}

#[test]
fn header_and_directory_layout() {
    let sections = canonical_sections();
    let image = squadreplay::sqrb::write(&sections).unwrap();
    assert_eq!(&image[..4], b"SQRB");
    assert_eq!(u16::from_le_bytes([image[4], image[5]]), 1);
    assert_eq!(u16::from_le_bytes([image[6], image[7]]), 0);
    assert_eq!(u32::from_le_bytes(image[8..12].try_into().unwrap()), 19);
    let directory_offset = u64::from_le_bytes(image[12..20].try_into().unwrap()) as usize;
    assert_eq!(&image[20..32], &[0u8; 12]);
    assert_eq!(image.len(), directory_offset + 19 * 40);

    let entries = read_directory(&image).unwrap();
    assert_eq!(entries.len(), 19);
    let mut offset = 32u64;
    for (entry, section) in entries.iter().zip(sections.iter()) {
        assert_eq!(entry.id, section.id.code());
        assert_eq!(entry.offset, offset);
        offset += entry.stored_len;
        let json = if section.id.is_json() { 1 } else { 2 };
        let compressed = section.id.compresses() && section.raw.len() > 1024;
        assert_eq!(entry.flags, if compressed { json | 4 } else { json });
        assert_eq!(entry.crc32, crc32fast::hash(&section.raw));
    }
    assert_eq!(offset as usize, directory_offset);
}

#[test]
fn large_track_sections_are_compressed() {
    let sections = canonical_sections();
    let image = squadreplay::sqrb::write(&sections).unwrap();
    let entries = read_directory(&image).unwrap();
    let tracks = &entries[8];
    assert_eq!(tracks.id, 9);
    assert_eq!(tracks.flags, 2 | 4);
    assert!((tracks.stored_len as usize) < 5000);
    let stored = &image[tracks.offset as usize..(tracks.offset + tracks.stored_len) as usize];
    assert_eq!(zstd::stream::decode_all(stored).unwrap(), sections[8].raw);
    let kills = &entries[11];
    assert_eq!(kills.flags, 2);
    let manifest = &entries[0];
    assert_eq!(manifest.flags, 1);
}

#[test]
fn small_compressible_sections_are_stored_raw() {
    let sections = vec![payload(SectionId::VehicleStates, 3, vec![1, 2, 3])];
    let image = squadreplay::sqrb::write(&sections).unwrap();
    let entries = read_directory(&image).unwrap();
    assert_eq!(entries[0].flags, 2);
    assert_eq!(entries[0].stored_len, 3);
    assert_eq!(&image[32..35], &[1, 2, 3]);
}

#[test]
fn checksum_is_crc32_of_raw_payload() {
    let sections = vec![payload(SectionId::Kills, 9, b"123456789".to_vec())];
    let image = squadreplay::sqrb::write(&sections).unwrap();
    let entries = read_directory(&image).unwrap();
    assert_eq!(entries[0].crc32, 0xCBF4_3926);
}

#[test]
fn bad_magic_and_short_files() {
    assert_eq!(read(b"").err(), Some(SqrbError::BadMagic));
    assert_eq!(read(&[0u8; 40]).err(), Some(SqrbError::BadMagic));
    let mut image = squadreplay::sqrb::write(&canonical_sections()).unwrap();
    image[0] = b'X';
    assert_eq!(read(&image).err(), Some(SqrbError::BadMagic));
    assert_eq!(read(b"SQRB").err(), Some(SqrbError::BadMagic));
}

#[test]
fn unsupported_major_version() {
    let mut image = squadreplay::sqrb::write(&canonical_sections()).unwrap();
    image[4] = 2;
    assert_eq!(read(&image).err(), Some(SqrbError::UnsupportedMajor(2)));
}

#[test]
fn unpatched_directory_offset_is_out_of_range() {
    let mut image = squadreplay::sqrb::write(&canonical_sections()).unwrap();
    for b in &mut image[12..20] {
        *b = 0;
    }
    let size = image.len();
    assert_eq!(
        read(&image).err(),
        Some(SqrbError::DirectoryOutOfRange { offset: 0, file_size: size })
    );
}

#[test]
fn truncated_directory_is_end_of_file() {
    let image = squadreplay::sqrb::write(&canonical_sections()).unwrap();
    let truncated = &image[..image.len() - 1];
    assert_eq!(read(truncated).err(), Some(SqrbError::UnexpectedEof));
}

#[test]
fn corrupted_payload_fails_its_checksum() {
    let sections = vec![
        payload(SectionId::Teams, 1, vec![1, 2, 3, 4]),
        payload(SectionId::Squads, 1, vec![5, 6, 7, 8]),
    ];
    let mut image = squadreplay::sqrb::write(&sections).unwrap();
    image[32 + 4] ^= 0xFF;
    assert_eq!(read(&image).err(), Some(SqrbError::CrcMismatch(3)));
}

#[test]
fn section_past_end_of_file_is_out_of_bounds() {
    let image = squadreplay::sqrb::write(&vec![payload(SectionId::Teams, 1, vec![1, 2, 3])]).unwrap();
    let entry = DirectoryEntry { id: 2, flags: 2, offset: 30, stored_len: 10_000, crc32: 0 };
    assert_eq!(section_payload(&image, &entry).err(), Some(SqrbError::SectionOutOfBounds));
    let past = DirectoryEntry { id: 2, flags: 2, offset: 76, stored_len: 0, crc32: 0 };
    assert_eq!(image.len(), 75);
    assert_eq!(section_payload(&image, &past).err(), Some(SqrbError::SectionOutOfBounds));
    let huge = DirectoryEntry { id: 2, flags: 2, offset: u64::MAX, stored_len: 2, crc32: 0 };
    assert_eq!(section_payload(&image, &huge).err(), Some(SqrbError::SectionOutOfBounds));
}

#[test]
fn invalid_zstd_frame_fails_to_decompress() {
    let data = vec![1u8, 2, 3, 4, 5, 6, 7, 8];
    let entry = DirectoryEntry { id: 9, flags: 6, offset: 0, stored_len: 8, crc32: 0 };
    assert!(matches!(section_payload(&data, &entry), Err(SqrbError::Decompress(_))));
}

#[test]
fn empty_image_has_only_a_header() {
    let image = squadreplay::sqrb::write(&vec![]).unwrap();
    assert_eq!(image.len(), 32);
    assert_eq!(read(&image).unwrap().len(), 0);
}

#[test]
fn little_endian_readers_advance() {
    let bytes = [1u8, 2, 3, 4, 5, 6, 7, 8, 9];
    let mut at = 0usize;
    assert_eq!(read_u16(&bytes, &mut at), Ok(0x0201));
    assert_eq!(at, 2);
    assert_eq!(read_u32(&bytes, &mut at), Ok(0x0605_0403));
    assert_eq!(at, 6);
    assert_eq!(read_u64(&bytes, &mut at), Err(SqrbError::UnexpectedEof));
    assert_eq!(at, 6);
    let mut at = 1usize;
    assert_eq!(read_u64(&bytes, &mut at), Ok(0x0908_0706_0504_0302));
    assert_eq!(at, 9);
    assert_eq!(read_u16(&bytes, &mut at), Err(SqrbError::UnexpectedEof));
}

#[test]
fn section_codes_round_trip() {
    let all = SectionId::all();
    assert_eq!(all.len(), 19);
    for (i, id) in all.iter().enumerate() {
        assert_eq!(id.code() as usize, i + 1);
        assert_eq!(SectionId::from_code(id.code()), Some(*id));
    }
    assert_eq!(SectionId::from_code(0), None);
    assert_eq!(SectionId::from_code(20), None);
    assert!(SectionId::Manifest.is_json());
    assert!(!SectionId::Teams.is_json());
    assert!(SectionId::WeaponStates.compresses());
    assert!(!SectionId::Kills.compresses());
}

fn counted(items: usize, raw: &[u8]) -> CountedPayload {
    CountedPayload { items, raw: raw.to_vec() }
}

#[test]
fn bundle_sections_come_in_writing_order() {
    let payloads = BundlePayloads {
        manifest: b"{}".to_vec(),
        teams: counted(2, &[1]),
        squads: counted(3, &[2]),
        players: counted(4, &[3]),
        vehicles: counted(5, &[4]),
        helicopters: counted(6, &[5]),
        deployables: counted(7, &[6]),
        components: counted(8, &[7]),
        player_tracks: counted(9, &[8]),
        vehicle_tracks: counted(10, &[9]),
        helicopter_tracks: counted(11, &[10]),
        kills: counted(12, &[11]),
        deployments: counted(13, &[12]),
        seat_changes: counted(14, &[13]),
        component_states: counted(15, &[14]),
        vehicle_states: counted(16, &[15]),
        weapon_states: counted(17, &[16]),
        properties: counted(18, &[17]),
        diagnostics: vec![0x80],
    };
    let sections = bundle_sections(payloads);
    assert_eq!(sections.len(), 19);
    assert_eq!(sections[0].item_count, 1);
    assert_eq!(sections[0].raw, b"{}".to_vec());
    for i in 1..18 {
        assert_eq!(sections[i].id.code() as usize, i + 1);
        assert_eq!(sections[i].item_count as usize, i + 1);
        assert_eq!(sections[i].raw, vec![i as u8]);
    }
    assert_eq!(sections[18].id, SectionId::Diagnostics);
    assert_eq!(sections[18].item_count, 1);
    assert_eq!(sections[18].raw, vec![0x80]);
}

#[test]
fn item_counts_are_truncated_to_32_bits() {
    let payloads_teams = counted((u32::MAX as usize) + 3, &[]);
    let s = squadreplay::sqrb::bundle_sections(BundlePayloads {
        manifest: vec![],
        teams: payloads_teams,
        squads: counted(0, &[]),
        players: counted(0, &[]),
        vehicles: counted(0, &[]),
        helicopters: counted(0, &[]),
        deployables: counted(0, &[]),
        components: counted(0, &[]),
        player_tracks: counted(0, &[]),
        vehicle_tracks: counted(0, &[]),
        helicopter_tracks: counted(0, &[]),
        kills: counted(0, &[]),
        deployments: counted(0, &[]),
        seat_changes: counted(0, &[]),
        component_states: counted(0, &[]),
        vehicle_states: counted(0, &[]),
        weapon_states: counted(0, &[]),
        properties: counted(0, &[]),
        diagnostics: vec![],
    });
    assert_eq!(s[1].item_count, 2);
}

#[test]
fn large_compressible_section_encodes() {
    let section = payload(SectionId::Properties, 3, vec![7u8; 4096]);
    let encoded = encode_section(&section).expect("compression should succeed");
    assert_eq!(encoded.code, 18);
    assert_eq!(encoded.flags, 6);
    assert_eq!(encoded.raw_len, 4096);
    assert_eq!(encoded.item_count, 3);
    assert_eq!(encoded.crc32, crc32fast::hash(&section.raw));
    assert!(encoded.stored.len() < 4096);
    assert_eq!(zstd::stream::decode_all(&encoded.stored[..]).unwrap(), section.raw);
}
