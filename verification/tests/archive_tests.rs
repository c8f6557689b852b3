use quilt::archive::encoder::ArchiveEncoder;
use quilt::archive::{Archive, ArchiveError, ArchiveType, Unpacked};

fn collect(archive: &mut Archive) -> Vec<(Option<Vec<u8>>, u32, u32, Vec<u8>)> {
    let mut it = archive.entries().expect("entries");
    let mut out = Vec::new();
    while let Some(e) = it.next() {
        out.push((e.name.clone(), e.offset, e.size, e.buffer.clone()));
    }
    out
}

fn pack_pak(inputs: &[(&str, &[u8])], no_filenames: bool) -> Vec<u8> {
    let mut enc = ArchiveEncoder::new(ArchiveType::Pak);
    for (name, data) in inputs {
        enc.add(Some(name.as_bytes().to_vec()), data.to_vec())
            .expect("add");
    }
    enc.pack(no_filenames).expect("pack")
}

#[test]
fn roundtrip_pak_names_and_data() {
    let inputs: Vec<(&str, &[u8])> = vec![
        ("alpha.txt", b"the first file body"),
        ("beta.bin", &[0u8, 1, 2, 3, 254, 255]),
        ("gamma", b""),
    ];
    let stream = pack_pak(&inputs, false);
    let mut archive = Archive::open(stream).expect("open");
    assert!(archive.ty == ArchiveType::Pak);
    let entries = collect(&mut archive);
    assert_eq!(entries.len(), 3);
    for (i, (name, data)) in inputs.iter().enumerate() {
        assert_eq!(entries[i].0.as_deref(), Some(name.as_bytes()));
        // the stored payload is compressed, so unpack to compare
        let mut a2 = Archive::open(pack_pak(&inputs, false)).expect("open");
        let mut it = a2.entries().expect("entries");
        let mut k = 0;
        while let Some(e) = it.next() {
            if k == i {
                match e.unpack().expect("unpack") {
                    Unpacked::Data(bytes) => assert_eq!(bytes.as_slice(), *data),
                    Unpacked::External(_) => panic!("pak entry must decompress in place"),
                }
            }
            k += 1;
        }
    }
}

#[test]
fn roundtrip_kub_no_names() {
    // the external codec's output is opaque to the container: any buffer
    // whose first two bytes are zero decodes as a kub stream
    let payloads: Vec<&[u8]> = vec![&[0u8, 0, 9, 9, 9], &[0u8, 0], &[0u8, 0, 42]];
    let mut enc = ArchiveEncoder::new(ArchiveType::Kub);
    for p in &payloads {
        enc.add(None, p.to_vec()).expect("add");
    }
    let stream = enc.pack(false).expect("pack");
    let mut archive = Archive::open(stream).expect("open");
    assert!(archive.ty == ArchiveType::Kub);
    let entries = collect(&mut archive);
    assert_eq!(entries.len(), 3);
    for (i, p) in payloads.iter().enumerate() {
        assert_eq!(entries[i].0, None);
        assert_eq!(entries[i].3.as_slice(), *p);
    }
}

#[test]
fn kub_unpack_hands_payload_to_external_codec() {
    let mut enc = ArchiveEncoder::new(ArchiveType::Kub);
    enc.add(None, vec![0, 0, 7, 7]).expect("add");
    let mut archive = Archive::open(enc.pack(false).expect("pack")).expect("open");
    let mut it = archive.entries().expect("entries");
    let e = it.next().expect("one entry");
    match e.unpack().expect("unpack") {
        Unpacked::External(p) => assert_eq!(p, vec![0, 0, 7, 7]),
        Unpacked::Data(_) => panic!("kub entries go to the external codec"),
    }
}

#[test]
fn no_filenames_entries_decode_with_placeholder_names() {
    let inputs: Vec<(&str, &[u8])> = vec![("a", b"one"), ("b", b"two")];
    let stream = pack_pak(&inputs, true);
    let mut archive = Archive::open(stream).expect("open");
    let entries = collect(&mut archive);
    assert_eq!(entries.len(), 2);
    for e in &entries {
        assert_eq!(e.0.as_deref(), Some(&b""[..]));
    }
}

#[test]
fn no_filenames_on_kub_is_a_contract_violation() {
    let mut enc = ArchiveEncoder::new(ArchiveType::Kub);
    enc.add(None, vec![0, 0, 1]).expect("add");
    assert_eq!(enc.pack(true), Err(ArchiveError::Contract));
}

#[test]
fn offsets_and_sizes_delimit_the_payload_bytes() {
    let inputs: Vec<(&str, &[u8])> = vec![("x.dat", b"xxxxxx"), ("y.dat", b"yy")];
    let stream = pack_pak(&inputs, false);
    let mut archive = Archive::open(stream.clone()).expect("open");
    let entries = collect(&mut archive);
    for (_, offset, size, buffer) in &entries {
        let lo = *offset as usize;
        let hi = lo + *size as usize;
        assert!(hi <= stream.len());
        assert_eq!(&stream[lo..hi], buffer.as_slice());
        assert_eq!(*size as usize, buffer.len());
    }
}

#[test]
fn payload_region_starts_on_a_four_byte_boundary() {
    // names of odd lengths force non-trivial padding after the blob
    let inputs: Vec<(&str, &[u8])> = vec![("a", b"1"), ("bcd", b"2"), ("ef", b"3")];
    let stream = pack_pak(&inputs, false);
    let mut archive = Archive::open(stream).expect("open");
    let entries = collect(&mut archive);
    assert_eq!(entries[0].1 % 4, 0);
}

#[test]
fn type_sniffing_follows_the_first_payload_bytes() {
    // a hand-built stream: count 1, offset 12, size 2, payload 0x78 0x9C
    let mut pak = vec![1, 0, 0, 0, 12, 0, 0, 0, 2, 0, 0, 0];
    pak.extend_from_slice(&[0x78, 0x9C]);
    // the filename table would be read later; the sniff alone sees the header
    assert!(Archive::open(pak).expect("open").ty == ArchiveType::Pak);

    let mut kub = vec![1, 0, 0, 0, 12, 0, 0, 0, 2, 0, 0, 0];
    kub.extend_from_slice(&[0x00, 0x00]);
    assert!(Archive::open(kub).expect("open").ty == ArchiveType::Kub);

    let mut other = vec![1, 0, 0, 0, 12, 0, 0, 0, 2, 0, 0, 0];
    other.extend_from_slice(&[0x1F, 0x8B]);
    assert_eq!(Archive::open(other).err(), Some(ArchiveError::Format));
}

#[test]
fn empty_archive_is_refused_and_empty_pack_is_a_bare_header() {
    // packing zero inputs: exactly the four-byte count
    let enc = ArchiveEncoder::new(ArchiveType::Pak);
    assert_eq!(enc.pack(false).expect("pack"), vec![0, 0, 0, 0]);
    let enc = ArchiveEncoder::new(ArchiveType::Kub);
    assert_eq!(enc.pack(false).expect("pack"), vec![0, 0, 0, 0]);
    // with the shared empty name cell it is the count plus one zero word
    let enc = ArchiveEncoder::new(ArchiveType::Pak);
    assert_eq!(enc.pack(true).expect("pack"), vec![0, 0, 0, 0, 0, 0, 0, 0]);
    // decoding an empty archive fails with the format error
    assert_eq!(
        Archive::open(vec![0, 0, 0, 0]).err(),
        Some(ArchiveError::Format)
    );
}

#[test]
fn truncated_streams_are_bounds_errors() {
    // too short for the count
    assert_eq!(Archive::open(vec![1, 0]).err(), Some(ArchiveError::Bounds));
    // count but no first offset
    assert_eq!(
        Archive::open(vec![1, 0, 0, 0]).err(),
        Some(ArchiveError::Bounds)
    );
    // first offset beyond the end of the stream
    assert_eq!(
        Archive::open(vec![1, 0, 0, 0, 99, 0, 0, 0]).err(),
        Some(ArchiveError::Bounds)
    );
}

#[test]
fn entry_beyond_stream_length_aborts_enumeration() {
    // a kub stream that claims a payload larger than the stream
    let mut data = vec![1, 0, 0, 0, 12, 0, 0, 0, 200, 0, 0, 0];
    data.extend_from_slice(&[0x00, 0x00]);
    let mut archive = Archive::open(data).expect("open");
    assert!(archive.entries().is_err());
}

#[test]
fn corrupted_pak_payload_is_a_codec_failure() {
    // sniffs as pak but the payload is not a valid zlib stream
    let mut data = vec![1, 0, 0, 0, 16, 0, 0, 0, 4, 0, 0, 0, 16, 0, 0, 0];
    data.extend_from_slice(&[0x78, 0x9C, 0xFF, 0xFF]);
    let mut archive = Archive::open(data).expect("open");
    let mut it = archive.entries().expect("entries");
    let e = it.next().expect("entry");
    assert_eq!(e.unpack().err(), Some(ArchiveError::Codec));
}

#[test]
fn compression_actually_transforms_the_bytes() {
    let raw = b"some raw body that zlib will reframe".to_vec();
    let stream = pack_pak(&[("f", &raw)], false);
    let mut archive = Archive::open(stream).expect("open");
    let entries = collect(&mut archive);
    // stored payload differs from the raw input and carries the zlib header
    assert_ne!(entries[0].3, raw);
    assert_eq!(entries[0].3[0], 0x78);
    assert_eq!(entries[0].3[1], 0x9C);
}

#[test]
fn decoder_accepts_nul_and_newline_terminators_and_trims() {
    // hand-built pak: one entry, name terminated by newline only, with
    // trailing spaces that the decoder strips
    // layout: count(4) table(8) nametable(4) name(8) payload(2) => offset 24
    let mut data = Vec::new();
    data.extend_from_slice(&[1, 0, 0, 0]); // count
    data.extend_from_slice(&[24, 0, 0, 0]); // offset
    data.extend_from_slice(&[2, 0, 0, 0]); // size
    data.extend_from_slice(&[16, 0, 0, 0]); // name offset
    data.extend_from_slice(b"nm  \n\0\0\0"); // name with trailing blanks, padding
    data.extend_from_slice(&[0x78, 0x9C]); // payload
    let mut archive = Archive::open(data).expect("open");
    let entries = collect(&mut archive);
    assert_eq!(entries[0].0.as_deref(), Some(&b"nm"[..]));
}

#[test]
fn stored_names_lose_trailing_whitespace_on_decode() {
    // the decoder strips trailing whitespace, so a name packed with a
    // trailing blank comes back without it
    let stream = pack_pak(&[("name ", b"data")], false);
    let mut archive = Archive::open(stream).expect("open");
    let entries = collect(&mut archive);
    assert_eq!(entries[0].0.as_deref(), Some(&b"name"[..]));
}

#[test]
fn empty_name_and_empty_payload_roundtrip() {
    let stream = pack_pak(&[("", b""), ("b", b"x")], false);
    let mut archive = Archive::open(stream).expect("open");
    let entries = collect(&mut archive);
    assert_eq!(entries.len(), 2);
    assert_eq!(entries[0].0.as_deref(), Some(&b""[..]));
    let mut it_archive = Archive::open(pack_pak(&[("", b""), ("b", b"x")], false)).expect("open");
    let mut it = it_archive.entries().expect("entries");
    match it.next().expect("entry").unpack().expect("unpack") {
        Unpacked::Data(bytes) => assert!(bytes.is_empty()),
        Unpacked::External(_) => panic!("pak entry must decompress in place"),
    }
}
