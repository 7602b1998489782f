use oxide_network::codec::{ByteReader, CodecError};
use oxide_network::rpc::{
    pack_tile, unpack_tile, RpcPacket, CONSTRUCT_FINISH_PACKET_ID, DECONSTRUCT_FINISH_PACKET_ID,
    SEND_CHAT_MESSAGE_PACKET_ID, SET_RULES_PACKET_ID, STREAM_CHUNK_PACKET_ID, TILE_TAP_NO_PLAYER,
    TILE_TAP_PACKET_ID, WORLD_DATA_BEGIN_PACKET_ID,
};

fn read(bytes: &[u8], id: u8) -> Result<RpcPacket, CodecError> {
    RpcPacket::read(&mut ByteReader::new(bytes), id)
}

#[test]
fn official_generated_call_ids_are_not_legacy_synthetic_indices() {
    assert_eq!(
        RpcPacket::ConstructFinish {
            tile_x: 1,
            tile_y: 2,
            block_id: 10,
            builder_id: -1,
            rotation: 0,
            team: 1,
        }
        .id(),
        CONSTRUCT_FINISH_PACKET_ID
    );
    assert_eq!(
        RpcPacket::DeconstructFinish {
            tile_x: 1,
            tile_y: 2,
            block_id: 10,
            builder_id: -1,
        }
        .id(),
        DECONSTRUCT_FINISH_PACKET_ID
    );
    assert_eq!(
        RpcPacket::SendChatMessage {
            player_id: 42,
            message: "hello".to_string(),
        }
        .id(),
        SEND_CHAT_MESSAGE_PACKET_ID
    );
    assert_eq!(
        RpcPacket::SetRules {
            rules_json: "{}".to_string(),
        }
        .id(),
        SET_RULES_PACKET_ID
    );
    assert_eq!(RpcPacket::WorldSyncBegin.id(), WORLD_DATA_BEGIN_PACKET_ID);
    assert_eq!(
        RpcPacket::StreamChunk {
            id: 1,
            data: vec![2],
        }
        .id(),
        STREAM_CHUNK_PACKET_ID
    );
    assert_eq!(RpcPacket::WorldSyncChunk.id(), u8::MAX);
    assert_eq!(
        RpcPacket::PlayerInfoSync {
            player_id: 1,
            name: "x".to_string(),
            x: 0.0f32.to_bits(),
            y: 0.0f32.to_bits(),
            unit_id: 2,
        }
        .id(),
        u8::MAX
    );
}

#[test]
fn official_simple_rpc_layouts_use_typeio_fields() {
    let chat = RpcPacket::SendChatMessage {
        player_id: 7,
        message: "hello".to_string(),
    };
    let mut bytes = Vec::new();
    chat.write(&mut bytes).unwrap();
    assert_eq!(bytes[0], 1); // present string
    assert_eq!(
        read(&bytes, SEND_CHAT_MESSAGE_PACKET_ID).unwrap().id(),
        SEND_CHAT_MESSAGE_PACKET_ID
    );

    let rules = RpcPacket::SetRules {
        rules_json: "{\"pvp\":true}".to_string(),
    };
    let mut bytes = Vec::new();
    rules.write(&mut bytes).unwrap();
    assert_eq!(i32::from_be_bytes(bytes[..4].try_into().unwrap()), 12);
    assert_eq!(&bytes[4..], b"{\"pvp\":true}");

    let stream = RpcPacket::StreamChunk {
        id: 77,
        data: vec![1, 2, 3],
    };
    let mut bytes = Vec::new();
    stream.write(&mut bytes).unwrap();
    assert_eq!(&bytes[..4], &77i32.to_be_bytes());
    assert_eq!(&bytes[4..6], &3u16.to_be_bytes());
    assert_eq!(&bytes[6..], &[1, 2, 3]);
    assert!(matches!(
        read(&bytes, STREAM_CHUNK_PACKET_ID).unwrap(),
        RpcPacket::StreamChunk { id: 77, data } if data == vec![1, 2, 3]
    ));

    let construct = RpcPacket::ConstructFinish {
        tile_x: -2,
        tile_y: 300,
        block_id: 257,
        builder_id: -1,
        rotation: 1,
        team: 5,
    };
    let mut bytes = Vec::new();
    construct.write(&mut bytes).unwrap();
    assert_eq!(&bytes[..4], &((-2i32 << 16) | 300).to_be_bytes());
    assert_eq!(&bytes[4..6], &257i16.to_be_bytes());
    assert_eq!(bytes[6], 0); // no unit
    assert_eq!(bytes[11], 1); // rotation behind the unit
    assert_eq!(bytes[12], 5); // team
    assert_eq!(bytes[13], 0); // no configuration
    assert!(matches!(
        read(&bytes, CONSTRUCT_FINISH_PACKET_ID),
        Ok(RpcPacket::ConstructFinish {
            tile_x: -2,
            tile_y: 300,
            block_id: 257,
            builder_id: -1,
            rotation: 1,
            team: 5,
        })
    ));
}

#[test]
fn tile_tap_client_layout_matches_typeio_write_tile() {
    let packet = RpcPacket::TileTap {
        player_id: TILE_TAP_NO_PLAYER,
        x: -2,
        y: 300,
    };
    assert_eq!(packet.id(), TILE_TAP_PACKET_ID);

    let packed = ((-2i32) << 16) | 300i32;
    let mut bytes = Vec::new();
    packet.write_client(&mut bytes).unwrap();
    assert_eq!(bytes, packed.to_be_bytes());

    let decoded = RpcPacket::read_client(&mut ByteReader::new(&bytes)).unwrap();
    match decoded {
        RpcPacket::TileTap { player_id, x, y } => {
            assert_eq!(player_id, TILE_TAP_NO_PLAYER);
            assert_eq!((x, y), (-2, 300));
        }
        other => panic!("unexpected packet: {other:?}"),
    }
}

#[test]
fn tile_tap_server_layout_matches_typeio_write_entity_then_tile() {
    let packet = RpcPacket::TileTap {
        player_id: 42,
        x: 45,
        y: 100,
    };
    let mut bytes = Vec::new();
    packet.write_server(&mut bytes).unwrap();

    let mut expected = 42i32.to_be_bytes().to_vec();
    expected.extend_from_slice(&(((45i32) << 16) | 100i32).to_be_bytes());
    assert_eq!(bytes, expected);

    let decoded = RpcPacket::read_server(&mut ByteReader::new(&bytes)).unwrap();
    assert!(matches!(
        decoded,
        RpcPacket::TileTap {
            player_id: 42,
            x: 45,
            y: 100
        }
    ));
}

#[test]
fn tile_tap_directionless_compatibility_path_is_server_form_only() {
    let packet = RpcPacket::TileTap {
        player_id: 7,
        x: 1,
        y: 2,
    };
    let mut bytes = Vec::new();
    packet.write(&mut bytes).unwrap();
    assert_eq!(
        read(&bytes, TILE_TAP_PACKET_ID).unwrap().id(),
        TILE_TAP_PACKET_ID
    );

    // The client reader rejects the server form instead of guessing by its length.
    let mut server_bytes = Vec::new();
    packet.write_server(&mut server_bytes).unwrap();
    assert!(RpcPacket::read_client(&mut ByteReader::new(&server_bytes)).is_err());
}

#[test]
fn tile_taps_of_the_wrong_length_are_refused() {
    assert!(matches!(
        RpcPacket::read_client(&mut ByteReader::new(&[0, 0, 0])),
        Err(CodecError::TileTapLength)
    ));
    assert!(matches!(
        RpcPacket::read_client(&mut ByteReader::new(&[0; 5])),
        Err(CodecError::TileTapTooLong)
    ));
    assert!(matches!(
        RpcPacket::read_server(&mut ByteReader::new(&[0; 4])),
        Err(CodecError::TileTapLength)
    ));
    assert!(matches!(
        RpcPacket::decode_tile_tap(&[0; 9], true),
        Err(CodecError::TileTapLength)
    ));
}

#[test]
fn tiles_pack_and_unpack() {
    for (x, y) in [(0, 0), (-1, -1), (i16::MIN, i16::MAX), (i16::MAX, i16::MIN), (45, 100)] {
        let packed = pack_tile(x, y);
        assert_eq!(packed, ((x as i32) << 16) | (y as u16 as i32));
        assert_eq!(unpack_tile(packed), (x, y));
    }
}

#[test]
fn calls_come_back_under_their_own_number() {
    let calls = vec![
        RpcPacket::TileTap { player_id: 9, x: 4, y: -5 },
        RpcPacket::DeconstructFinish { tile_x: 3, tile_y: 4, block_id: 65535, builder_id: 12 },
        RpcPacket::SetRules { rules_json: "{\"ä\":1}".to_string() },
        RpcPacket::WorldSyncBegin,
        RpcPacket::StreamChunk { id: -3, data: vec![9; 300] },
    ];
    for call in calls {
        let mut bytes = Vec::new();
        call.write(&mut bytes).unwrap();
        let back = read(&bytes, call.id()).unwrap();
        assert_eq!(format!("{back:?}"), format!("{call:?}"));
    }
    // A chat message loses its sender, a negative builder is nobody.
    let mut bytes = Vec::new();
    RpcPacket::SendChatMessage { player_id: 8, message: "hi".to_string() }
        .write(&mut bytes)
        .unwrap();
    assert!(matches!(
        read(&bytes, SEND_CHAT_MESSAGE_PACKET_ID),
        Ok(RpcPacket::SendChatMessage { player_id: -1, message }) if message == "hi"
    ));
    let mut bytes = Vec::new();
    RpcPacket::DeconstructFinish { tile_x: 0, tile_y: 0, block_id: 1, builder_id: -77 }
        .write(&mut bytes)
        .unwrap();
    assert!(matches!(
        read(&bytes, DECONSTRUCT_FINISH_PACKET_ID),
        Ok(RpcPacket::DeconstructFinish { builder_id: -1, .. })
    ));
}

#[test]
fn bad_calls_are_refused() {
    assert!(matches!(read(&[], 250), Err(CodecError::UnknownRpcId)));
    assert!(matches!(read(&[0, 0], STREAM_CHUNK_PACKET_ID), Err(CodecError::UnexpectedEof)));
    // A configuration object behind a construction.
    let mut bytes = Vec::new();
    RpcPacket::ConstructFinish {
        tile_x: 1,
        tile_y: 2,
        block_id: 10,
        builder_id: 5,
        rotation: 0,
        team: 1,
    }
    .write(&mut bytes)
    .unwrap();
    assert_eq!(bytes[6], 2);
    assert_eq!(&bytes[7..11], &5i32.to_be_bytes());
    let last = bytes.len() - 1;
    bytes[last] = 3;
    assert!(matches!(
        read(&bytes, CONSTRUCT_FINISH_PACKET_ID),
        Err(CodecError::ConfigUnsupported)
    ));
    // Rules.
    assert!(matches!(
        read(&100_001i32.to_be_bytes(), SET_RULES_PACKET_ID),
        Err(CodecError::RulesLength)
    ));
    assert!(matches!(
        read(&(-1i32).to_be_bytes(), SET_RULES_PACKET_ID),
        Err(CodecError::RulesLength)
    ));
    let mut bytes = 1i32.to_be_bytes().to_vec();
    bytes.push(0xFF);
    assert!(matches!(read(&bytes, SET_RULES_PACKET_ID), Err(CodecError::RulesNotUtf8)));
    // Variants without a packet.
    let mut out = vec![1];
    assert!(matches!(
        RpcPacket::WorldSyncChunk.write(&mut out),
        Err(CodecError::CompatibilityMarker)
    ));
    assert!(matches!(
        RpcPacket::WorldSyncChunk.try_id(),
        Err(CodecError::CompatibilityMarker)
    ));
    let info = RpcPacket::PlayerInfoSync {
        player_id: 1,
        name: "x".to_string(),
        x: 0,
        y: 0,
        unit_id: 2,
    };
    assert!(matches!(info.write(&mut out), Err(CodecError::NoOfficialPacket)));
    assert!(matches!(info.try_id(), Err(CodecError::NoOfficialPacket)));
    assert!(matches!(
        RpcPacket::WorldSyncBegin.write_client(&mut out),
        Err(CodecError::ClientFormOnlyTileTap)
    ));
    assert!(matches!(
        RpcPacket::WorldSyncBegin.write_server(&mut out),
        Err(CodecError::ServerFormOnlyTileTap)
    ));
    assert!(matches!(
        RpcPacket::StreamChunk { id: 1, data: vec![0; 65_536] }.write(&mut out),
        Err(CodecError::ChunkTooLong)
    ));
    assert_eq!(out, vec![1]);
}

#[test]
fn bounded_reads_take_no_more_than_they_need() {
    let bytes = [7u8; 20];
    let mut r = ByteReader::new(&bytes);
    assert!(RpcPacket::read_bounded(&mut r, 4).is_err());
    assert_eq!(r.remaining(), 15);
    let mut r = ByteReader::new(&bytes[..4]);
    assert_eq!(RpcPacket::read_bounded(&mut r, 4).unwrap(), vec![7; 4]);
    assert_eq!(r.remaining(), 0);
    let mut r = ByteReader::new(&bytes);
    assert!(RpcPacket::read_server(&mut r).is_err());
    assert_eq!(r.remaining(), 11);
    let mut r = ByteReader::new(&bytes[..3]);
    assert!(RpcPacket::read_client(&mut r).is_err());
    assert_eq!(r.remaining(), 0);
}
