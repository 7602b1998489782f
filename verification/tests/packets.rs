use oxide_network::codec::{ByteReader, CodecError, ErrorClass};
use oxide_network::packets::{
    identity_length, split_connect_uuid, write_identity, Connect, ConnectPacket, Disconnect,
    KickReason, Packet, StreamBegin, StreamChunk,
};

fn connect(uuid: &str) -> ConnectPacket {
    ConnectPacket {
        version: 160,
        version_type: "official".to_string(),
        name: "Zoë".to_string(),
        locale: "en".to_string(),
        usid: "usid==".to_string(),
        uuid: uuid.to_string(),
        mobile: true,
        color: -559_038_737,
        mods: vec!["first:1.0".to_string(), "second:2.1".to_string()],
    }
}

fn written(packet: &Packet) -> Vec<u8> {
    let mut bytes = Vec::new();
    packet.write(&mut bytes).unwrap();
    bytes
}

#[test]
fn connect_packets_come_back() {
    // "AAECAwQFBgc=" is the bytes 0 to 7.
    for uuid in ["AAECAwQFBgc=", "AAECAwQFBgcICQoLDA0ODw=="] {
        let bytes = written(&Packet::ConnectPacket(connect(uuid)));
        match Packet::read(&mut ByteReader::new(&bytes), 3).unwrap() {
            Packet::ConnectPacket(p) => {
                assert_eq!(format!("{p:?}"), format!("{:?}", connect(uuid)));
            }
            other => panic!("unexpected packet: {other:?}"),
        }
    }
}

#[test]
fn connect_identity_is_followed_by_its_checksum() {
    let bytes = written(&Packet::ConnectPacket(connect("AAECAwQFBgc=")));
    let identity = [0u8, 1, 2, 3, 4, 5, 6, 7];
    // CRC-32 of the bytes 0 to 7.
    let crc = 0x88AA_689F_u64;
    let mut field = identity.to_vec();
    field.extend_from_slice(&crc.to_be_bytes());
    assert!(bytes.windows(16).any(|window| window == field.as_slice()));
    let (uuid, rest) = split_connect_uuid(&field).unwrap();
    assert_eq!(uuid, "AAECAwQFBgc=");
    assert!(rest.is_empty());
}

#[test]
fn identity_length_follows_the_checksums() {
    let mut data = vec![7u8; 8];
    data.extend_from_slice(&500u64.to_be_bytes());
    data.extend_from_slice(&900u64.to_be_bytes());
    assert_eq!(identity_length(&data, 500, 900), Some(8));
    assert_eq!(identity_length(&data, 501, 900), Some(16));
    assert_eq!(identity_length(&data, 501, 901), None);
    assert_eq!(identity_length(&data[..15], 500, 900), None);
    assert_eq!(identity_length(&data[..16], 500, 900), Some(8));
    assert_eq!(identity_length(&data[..23], 501, 900), None);
    // A sum that needs more than 32 bits never matches.
    let mut wide = vec![7u8; 8];
    wide.extend_from_slice(&0x1_0000_01F4u64.to_be_bytes());
    assert_eq!(identity_length(&wide, 500, 900), None);
}

#[test]
fn identities_of_other_lengths_are_refused() {
    let mut out = vec![9];
    assert_eq!(write_identity(&mut out, &[1; 8], 0x0102_0304), Ok(()));
    assert_eq!(out, vec![9, 1, 1, 1, 1, 1, 1, 1, 1, 0, 0, 0, 0, 1, 2, 3, 4]);
    assert_eq!(write_identity(&mut out, &[1; 9], 1), Err(CodecError::UuidLength));
    assert_eq!(out.len(), 17);
    let mut bytes = Vec::new();
    assert_eq!(
        Packet::ConnectPacket(connect("AAECAwQFBg==")).write(&mut bytes),
        Err(CodecError::UuidLength)
    );
    for broken in ["not base64!", "AAECAwQFBgc", "AAECAwQFBgd="] {
        let mut bytes = Vec::new();
        assert_eq!(
            Packet::ConnectPacket(connect(broken)).write(&mut bytes),
            Err(CodecError::UuidNotBase64)
        );
    }
    assert!(matches!(split_connect_uuid(&[0; 40]), Err(CodecError::UuidChecksum)));
}

#[test]
fn mods_are_counted_and_never_null() {
    let mut packet = connect("AAECAwQFBgc=");
    packet.mods = vec!["m".to_string(); 256];
    let mut bytes = Vec::new();
    assert_eq!(
        Packet::ConnectPacket(packet).write(&mut bytes),
        Err(CodecError::TooManyMods)
    );
    let mut packet = connect("AAECAwQFBgc=");
    packet.mods = vec!["m".to_string()];
    let mut bytes = written(&Packet::ConnectPacket(packet));
    // The tag of the only mod name.
    let tag = bytes.len() - 4;
    assert_eq!(bytes[tag], 1);
    bytes[tag] = 0;
    assert!(matches!(
        Packet::read(&mut ByteReader::new(&bytes), 3),
        Err(CodecError::NullModName)
    ));
}

#[test]
fn null_strings_of_a_connect_packet_are_empty() {
    let mut bytes = 160i32.to_be_bytes().to_vec();
    bytes.extend_from_slice(&[0, 0, 0, 0]);
    bytes.extend_from_slice(&[0, 1, 2, 3, 4, 5, 6, 7]);
    bytes.extend_from_slice(&0x88AA_689F_u64.to_be_bytes());
    bytes.extend_from_slice(&[2, 0, 0, 0, 5, 0]);
    match Packet::read(&mut ByteReader::new(&bytes), 3).unwrap() {
        Packet::ConnectPacket(p) => {
            assert_eq!((p.name.as_str(), p.usid.as_str()), ("", ""));
            assert!(!p.mobile, "only 1 is true");
            assert_eq!(p.color, 5);
            assert!(p.mods.is_empty());
        }
        other => panic!("unexpected packet: {other:?}"),
    }
    bytes.pop();
    assert!(matches!(
        Packet::read(&mut ByteReader::new(&bytes), 3),
        Err(CodecError::UnexpectedEof)
    ));
}

#[test]
fn framework_packets_come_back() {
    let chunk = Packet::StreamChunk(StreamChunk { id: 77, data: vec![1, 2, 3] });
    let bytes = written(&chunk);
    assert_eq!(bytes, vec![0, 0, 0, 77, 0, 3, 1, 2, 3]);
    let mut reader = ByteReader::new(&bytes);
    assert!(matches!(
        Packet::read(&mut reader, 1),
        Ok(Packet::StreamChunk(StreamChunk { id: 77, data })) if data == vec![1, 2, 3]
    ));
    assert_eq!(reader.remaining(), 0);
    assert!(matches!(
        Packet::read(&mut ByteReader::new(&[]), 0),
        Ok(Packet::StreamBegin(StreamBegin {}))
    ));
    assert!(matches!(Packet::read(&mut ByteReader::new(&[]), 2), Ok(Packet::WorldStream(_))));
    assert!(matches!(
        Packet::read(&mut ByteReader::new(&[]), 4),
        Ok(Packet::AssetRequirementStream(_))
    ));
    assert!(matches!(Packet::read(&mut ByteReader::new(&[]), 5), Ok(Packet::AssetStream(_))));
    assert!(matches!(
        Packet::read(&mut ByteReader::new(&[4, 5]), 200),
        Ok(Packet::Unknown { id: 200, payload }) if payload == vec![4, 5]
    ));
    assert!(written(&Packet::StreamBegin(StreamBegin {})).is_empty());
    let connect = Packet::Connect(Connect {
        uuid: "a".to_string(),
        usid: "".to_string(),
        address: "b".to_string(),
    });
    assert_eq!(written(&connect), vec![1, 0, 1, b'a', 1, 0, 0, 1, 0, 1, b'b']);
    // The length of a chunk is written modulo two to the sixteenth.
    let long = Packet::StreamChunk(StreamChunk { id: 0, data: vec![0; 65_537] });
    assert_eq!(&written(&long)[4..6], &[0, 1]);
}

#[test]
fn kick_reasons_come_back() {
    for code in 0..16u8 {
        let bytes = [code, 99];
        let mut reader = ByteReader::new(&bytes);
        let reason = KickReason::read(&mut reader).unwrap();
        assert_eq!(reader.remaining(), 1);
        assert_eq!(reason.code(), code);
        let mut out = Vec::new();
        reason.write(&mut out).unwrap();
        assert_eq!(out, vec![code]);
    }
    let custom = KickReason::Custom("näh".to_string());
    let mut out = Vec::new();
    Packet::Disconnect(Disconnect { reason: custom }).write(&mut out).unwrap();
    assert_eq!(out, vec![16, 0, 4, b'n', 0xC3, 0xA4, b'h']);
    assert!(matches!(
        KickReason::read(&mut ByteReader::new(&out)),
        Ok(KickReason::Custom(text)) if text == "näh"
    ));
    assert!(matches!(
        KickReason::read(&mut ByteReader::new(&[17])),
        Err(CodecError::UnknownKickReason)
    ));
    assert!(matches!(
        KickReason::read(&mut ByteReader::new(&[])),
        Err(CodecError::UnexpectedEof)
    ));
    assert!(matches!(
        KickReason::read(&mut ByteReader::new(&[16, 0, 1, 0xFF])),
        Err(CodecError::InvalidUtf8)
    ));
    let mut out = Vec::new();
    assert_eq!(
        KickReason::Custom("x".repeat(65_536)).write(&mut out),
        Err(CodecError::StringTooLong)
    );
    assert_eq!(out, vec![16]);
}

#[test]
fn errors_have_classes() {
    assert_eq!(CodecError::UnexpectedEof.class(), ErrorClass::UnexpectedEof);
    assert_eq!(CodecError::UuidChecksum.class(), ErrorClass::InvalidData);
    assert_eq!(CodecError::TooManyMods.class(), ErrorClass::InvalidInput);
    assert_eq!(CodecError::ConfigUnsupported.class(), ErrorClass::Unsupported);
}
