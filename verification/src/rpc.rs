//! Remote calls whose layouts the server knows.

use crate::codec::{
    be16, be32, lemma_be16_round_trip, lemma_i32_round_trip, signed16, signed32, take_bytes,
    take_i32, take_typeio_text, take_u16, take_u8, to_signed16, to_unsigned16, to_unsigned32,
    unsigned16, unsigned32, write_all, write_b, write_i, write_typeio_string, write_us, ByteReader,
    CodecError,
};
use crate::packets::{raw, text_written, wrote, Written};
use vstd::prelude::*;
use vstd::utf8::{decode_utf8, encode_utf8, valid_utf8};

verus! {

/// Generated `TileTapCallPacket` number in desktop build 159.7.
pub const TILE_TAP_PACKET_ID: u8 = 140;

/// Generated `ConstructFinishCallPacket` number in desktop build 159.7.
pub const CONSTRUCT_FINISH_PACKET_ID: u8 = 34;

/// Generated `DeconstructFinishCallPacket` number in desktop build 159.7.
pub const DECONSTRUCT_FINISH_PACKET_ID: u8 = 41;

/// Generated `SendChatMessageCallPacket` number in desktop build 159.7.
pub const SEND_CHAT_MESSAGE_PACKET_ID: u8 = 97;

/// Generated `SetRulesCallPacket` number in desktop build 159.7.
pub const SET_RULES_PACKET_ID: u8 = 119;

/// Generated `WorldDataBeginCallPacket` number in desktop build 159.7.
pub const WORLD_DATA_BEGIN_PACKET_ID: u8 = 164;

/// Framework stream chunk number (not a generated call).
pub const STREAM_CHUNK_PACKET_ID: u8 = 1;

/// The null entity. A tile tap goes both ways: a client sends the tile alone, the
/// server sends the player entity and then the tile.
pub const TILE_TAP_NO_PLAYER: i32 = -1;

/// The longest rules text that is read, in bytes.
pub const MAX_RULES_LENGTH: i32 = 100_000;

#[derive(Debug, Clone)]
pub enum RpcPacket {
    TileTap { player_id: i32, x: i16, y: i16 },
    ConstructFinish {
        tile_x: i16,
        tile_y: i16,
        block_id: u16,
        builder_id: i32,
        rotation: u8,
        team: u8,
    },
    DeconstructFinish { tile_x: i16, tile_y: i16, block_id: u16, builder_id: i32 },
    SendChatMessage { player_id: i32, message: String },
    /// `x` and `y` are the bits of single-precision coordinates.
    PlayerInfoSync { player_id: i32, name: String, x: u32, y: u32, unit_id: i32 },
    SetRules { rules_json: String },
    WorldSyncBegin,
    /// Compatibility-only marker; use `StreamChunk` for the actual framework packet.
    WorldSyncChunk,
    StreamChunk { id: i32, data: Vec<u8> },
}

/// The contents of an [`RpcPacket`].
pub enum RpcView {
    TileTap { player_id: i32, x: i16, y: i16 },
    ConstructFinish {
        tile_x: i16,
        tile_y: i16,
        block_id: u16,
        builder_id: i32,
        rotation: u8,
        team: u8,
    },
    DeconstructFinish { tile_x: i16, tile_y: i16, block_id: u16, builder_id: i32 },
    SendChatMessage { player_id: i32, message: Seq<char> },
    PlayerInfoSync { player_id: i32, name: Seq<char>, x: u32, y: u32, unit_id: i32 },
    SetRules { rules_json: Seq<char> },
    WorldSyncBegin,
    WorldSyncChunk,
    StreamChunk { id: i32, data: Seq<u8> },
}

impl View for RpcPacket {
    type V = RpcView;

    open spec fn view(&self) -> RpcView {
        match self {
            RpcPacket::TileTap { player_id, x, y } => RpcView::TileTap {
                player_id: *player_id,
                x: *x,
                y: *y,
            },
            RpcPacket::ConstructFinish { tile_x, tile_y, block_id, builder_id, rotation, team } =>
                RpcView::ConstructFinish {
                    tile_x: *tile_x,
                    tile_y: *tile_y,
                    block_id: *block_id,
                    builder_id: *builder_id,
                    rotation: *rotation,
                    team: *team,
                },
            RpcPacket::DeconstructFinish { tile_x, tile_y, block_id, builder_id } =>
                RpcView::DeconstructFinish {
                    tile_x: *tile_x,
                    tile_y: *tile_y,
                    block_id: *block_id,
                    builder_id: *builder_id,
                },
            RpcPacket::SendChatMessage { player_id, message } => RpcView::SendChatMessage {
                player_id: *player_id,
                message: message@,
            },
            RpcPacket::PlayerInfoSync { player_id, name, x, y, unit_id } =>
                RpcView::PlayerInfoSync {
                    player_id: *player_id,
                    name: name@,
                    x: *x,
                    y: *y,
                    unit_id: *unit_id,
                },
            RpcPacket::SetRules { rules_json } => RpcView::SetRules { rules_json: rules_json@ },
            RpcPacket::WorldSyncBegin => RpcView::WorldSyncBegin,
            RpcPacket::WorldSyncChunk => RpcView::WorldSyncChunk,
            RpcPacket::StreamChunk { id, data } => RpcView::StreamChunk { id: *id, data: data@ },
        }
    }
}

// ---------------------------------------------------------------------------
// Tiles.

/// A tile as one number: the column in the high half, the row in the low half.
pub open spec fn packed_tile(x: i16, y: i16) -> i32 {
    (x * 0x1_0000 + unsigned16(y)) as i32
}

/// The column of a packed tile.
pub open spec fn tile_column(position: i32) -> i16 {
    signed16((unsigned32(position) / 0x1_0000) as u16)
}

/// The row of a packed tile.
pub open spec fn tile_row(position: i32) -> i16 {
    signed16((unsigned32(position) % 0x1_0000) as u16)
}

/// Packing loses nothing: the column and the row come back.
pub proof fn law_tile_unpacks(x: i16, y: i16)
    ensures
        tile_column(packed_tile(x, y)) == x,
        tile_row(packed_tile(x, y)) == y,
{
}

/// Every number is the packed form of exactly the tile that it unpacks to.
pub proof fn law_tile_packs(position: i32)
    ensures
        packed_tile(tile_column(position), tile_row(position)) == position,
{
}

/// Packs a tile.
pub fn pack_tile(x: i16, y: i16) -> (position: i32)
    ensures
        position == packed_tile(x, y),
{
    x as i32 * 0x1_0000 + to_unsigned16(y) as i32
}

/// Unpacks a tile into its column and row.
pub fn unpack_tile(position: i32) -> (r: (i16, i16))
    ensures
        r == (tile_column(position), tile_row(position)),
{
    let bits: u32 = to_unsigned32(position);
    (to_signed16((bits / 0x1_0000) as u16), to_signed16((bits % 0x1_0000) as u16))
}

// ---------------------------------------------------------------------------
// Layouts.

/// A unit reference: nobody is kind 0 with number 0, a unit is kind 2 with its number.
pub open spec fn unit_bytes(builder_id: i32) -> Seq<u8> {
    if builder_id < 0 {
        seq![0u8] + be32(0)
    } else {
        seq![2u8] + be32(unsigned32(builder_id))
    }
}

/// The client form of a tile tap.
pub open spec fn client_tap_bytes(x: i16, y: i16) -> Seq<u8> {
    be32(unsigned32(packed_tile(x, y)))
}

/// The server form of a tile tap.
pub open spec fn server_tap_bytes(player_id: i32, x: i16, y: i16) -> Seq<u8> {
    be32(unsigned32(player_id)) + client_tap_bytes(x, y)
}

/// A tile, a block and a builder.
pub open spec fn site_bytes(tile_x: i16, tile_y: i16, block_id: u16, builder_id: i32) -> Seq<u8> {
    be32(unsigned32(packed_tile(tile_x, tile_y))) + (be16(block_id) + unit_bytes(builder_id))
}

impl RpcView {
    /// What the directionless writer appends.
    pub open spec fn written(self) -> Written {
        match self {
            RpcView::TileTap { player_id, x, y } => raw(server_tap_bytes(player_id, x, y)),
            RpcView::ConstructFinish { tile_x, tile_y, block_id, builder_id, rotation, team } =>
                raw(site_bytes(tile_x, tile_y, block_id, builder_id) + seq![rotation, team, 0u8]),
            RpcView::DeconstructFinish { tile_x, tile_y, block_id, builder_id } => raw(
                site_bytes(tile_x, tile_y, block_id, builder_id),
            ),
            RpcView::SendChatMessage { message, .. } => text_written(message),
            RpcView::PlayerInfoSync { .. } => (Seq::empty(), Some(CodecError::NoOfficialPacket)),
            RpcView::SetRules { rules_json } => {
                let bytes = encode_utf8(rules_json);
                if bytes.len() > i32::MAX {
                    (Seq::empty(), Some(CodecError::RulesTooLong))
                } else {
                    raw(be32(bytes.len() as u32) + bytes)
                }
            },
            RpcView::WorldSyncBegin => raw(Seq::empty()),
            RpcView::WorldSyncChunk => (Seq::empty(), Some(CodecError::CompatibilityMarker)),
            RpcView::StreamChunk { id, data } => if data.len() > 0xFFFF {
                (Seq::empty(), Some(CodecError::ChunkTooLong))
            } else {
                raw(be32(unsigned32(id)) + be16(data.len() as u16) + data)
            },
        }
    }

    /// What the client-form writer appends.
    pub open spec fn client_written(self) -> Written {
        match self {
            RpcView::TileTap { x, y, .. } => raw(client_tap_bytes(x, y)),
            _ => (Seq::empty(), Some(CodecError::ClientFormOnlyTileTap)),
        }
    }

    /// What the server-form writer appends.
    pub open spec fn server_written(self) -> Written {
        match self {
            RpcView::TileTap { player_id, x, y } => raw(server_tap_bytes(player_id, x, y)),
            _ => (Seq::empty(), Some(CodecError::ServerFormOnlyTileTap)),
        }
    }

    /// The packet number, where the variant has one.
    pub open spec fn number(self) -> Result<u8, CodecError> {
        match self {
            RpcView::TileTap { .. } => Ok(TILE_TAP_PACKET_ID),
            RpcView::ConstructFinish { .. } => Ok(CONSTRUCT_FINISH_PACKET_ID),
            RpcView::DeconstructFinish { .. } => Ok(DECONSTRUCT_FINISH_PACKET_ID),
            RpcView::SendChatMessage { .. } => Ok(SEND_CHAT_MESSAGE_PACKET_ID),
            RpcView::PlayerInfoSync { .. } => Err(CodecError::NoOfficialPacket),
            RpcView::SetRules { .. } => Ok(SET_RULES_PACKET_ID),
            RpcView::WorldSyncBegin => Ok(WORLD_DATA_BEGIN_PACKET_ID),
            RpcView::WorldSyncChunk => Err(CodecError::CompatibilityMarker),
            RpcView::StreamChunk { .. } => Ok(STREAM_CHUNK_PACKET_ID),
        }
    }
}

/// A tile tap that is the whole of `s`: four bytes, or eight with the player.
pub open spec fn whole_tile_tap(s: Seq<u8>, with_player: bool) -> Result<RpcView, CodecError> {
    let expected: nat = if with_player { 8 } else { 4 };
    if s.len() > expected {
        Err(CodecError::TileTapTooLong)
    } else if s.len() < expected {
        Err(CodecError::TileTapLength)
    } else {
        let position = signed32(crate::codec::of_be32(if with_player { s.skip(4) } else { s }));
        Ok(
            RpcView::TileTap {
                player_id: if with_player {
                    signed32(crate::codec::of_be32(s))
                } else {
                    TILE_TAP_NO_PLAYER
                },
                x: tile_column(position),
                y: tile_row(position),
            },
        )
    }
}

/// The fields that both construction calls begin with.
#[verifier::opaque]
pub open spec fn take_site(s: Seq<u8>) -> Result<((i16, i16, u16, i32), Seq<u8>), CodecError> {
    match take_i32(s) {
        Err(e) => Err(e),
        Ok((tile, s)) => match take_u16(s) {
            Err(e) => Err(e),
            Ok((block, s)) => match take_u8(s) {
                Err(e) => Err(e),
                Ok((kind, s)) => match take_i32(s) {
                    Err(e) => Err(e),
                    Ok((unit, s)) => Ok(
                        (
                            (
                                tile_column(tile),
                                tile_row(tile),
                                block,
                                if kind == 0 { -1i32 } else { unit },
                            ),
                            s,
                        ),
                    ),
                },
            },
        },
    }
}

/// A finished construction; a configuration object is refused.
#[verifier::opaque]
pub open spec fn take_construct(s: Seq<u8>) -> Result<(RpcView, Seq<u8>), CodecError> {
    match take_site(s) {
        Err(e) => Err(e),
        Ok(((tile_x, tile_y, block_id, builder_id), s)) => match take_u8(s) {
            Err(e) => Err(e),
            Ok((rotation, s)) => match take_u8(s) {
                Err(e) => Err(e),
                Ok((team, s)) => match take_u8(s) {
                    Err(e) => Err(e),
                    Ok((config, s)) => if config != 0 {
                        Err(CodecError::ConfigUnsupported)
                    } else {
                        Ok(
                            (
                                RpcView::ConstructFinish {
                                    tile_x,
                                    tile_y,
                                    block_id,
                                    builder_id,
                                    rotation,
                                    team,
                                },
                                s,
                            ),
                        )
                    },
                },
            },
        },
    }
}

/// A rules text behind a four-byte length of bounded size.
#[verifier::opaque]
pub open spec fn take_rules(s: Seq<u8>) -> Result<(RpcView, Seq<u8>), CodecError> {
    match take_i32(s) {
        Err(e) => Err(e),
        Ok((len, s)) => if !(0 <= len <= MAX_RULES_LENGTH) {
            Err(CodecError::RulesLength)
        } else {
            match take_bytes(s, len as nat) {
                Err(e) => Err(e),
                Ok((bytes, s)) => if valid_utf8(bytes) {
                    Ok((RpcView::SetRules { rules_json: decode_utf8(bytes) }, s))
                } else {
                    Err(CodecError::RulesNotUtf8)
                },
            }
        },
    }
}

/// A stream chunk behind its number and length.
#[verifier::opaque]
pub open spec fn take_chunk(s: Seq<u8>) -> Result<(RpcView, Seq<u8>), CodecError> {
    match take_i32(s) {
        Err(e) => Err(e),
        Ok((id, s)) => match take_u16(s) {
            Err(e) => Err(e),
            Ok((len, s)) => match take_bytes(s, len as nat) {
                Err(e) => Err(e),
                Ok((data, s)) => Ok((RpcView::StreamChunk { id, data }, s)),
            },
        },
    }
}

/// The call with number `id` at the head of `s`, and what it leaves. A tile tap is
/// read in its server form and takes everything.
pub open spec fn take_rpc(s: Seq<u8>, id: u8) -> Result<(RpcView, Seq<u8>), CodecError> {
    if id == TILE_TAP_PACKET_ID {
        match whole_tile_tap(s, true) {
            Err(e) => Err(e),
            Ok(tap) => Ok((tap, Seq::empty())),
        }
    } else if id == STREAM_CHUNK_PACKET_ID {
        take_chunk(s)
    } else if id == CONSTRUCT_FINISH_PACKET_ID {
        take_construct(s)
    } else if id == DECONSTRUCT_FINISH_PACKET_ID {
        match take_site(s) {
            Err(e) => Err(e),
            Ok(((tile_x, tile_y, block_id, builder_id), s)) => Ok(
                (RpcView::DeconstructFinish { tile_x, tile_y, block_id, builder_id }, s),
            ),
        }
    } else if id == SEND_CHAT_MESSAGE_PACKET_ID {
        match take_typeio_text(s) {
            Err(e) => Err(e),
            Ok((message, s)) => Ok(
                (RpcView::SendChatMessage { player_id: TILE_TAP_NO_PLAYER, message }, s),
            ),
        }
    } else if id == SET_RULES_PACKET_ID {
        take_rules(s)
    } else if id == WORLD_DATA_BEGIN_PACKET_ID {
        Ok((RpcView::WorldSyncBegin, s))
    } else {
        Err(CodecError::UnknownRpcId)
    }
}

// ---------------------------------------------------------------------------
// Reading and writing.

fn read_chunk(r: &mut ByteReader) -> (res: Result<RpcPacket, CodecError>)
    ensures
        match take_chunk(old(r)@) {
            Ok((v, rest)) => res matches Ok(p) && p@ == v && final(r)@ == rest,
            Err(e) => res == Err::<RpcPacket, CodecError>(e),
        },
{
    reveal(take_chunk);
    let id: i32 = match r.read_i() {
        Ok(v) => v,
        Err(e) => return Err(e),
    };
    let len: u16 = match r.read_us() {
        Ok(v) => v,
        Err(e) => return Err(e),
    };
    match r.read_bytes(len as usize) {
        Ok(data) => Ok(RpcPacket::StreamChunk { id, data }),
        Err(e) => Err(e),
    }
}

fn read_construct(r: &mut ByteReader) -> (res: Result<RpcPacket, CodecError>)
    ensures
        match take_construct(old(r)@) {
            Ok((v, rest)) => res matches Ok(p) && p@ == v && final(r)@ == rest,
            Err(e) => res == Err::<RpcPacket, CodecError>(e),
        },
{
    reveal(take_construct);
    let (tile_x, tile_y, block_id, builder_id) = match read_site(r) {
        Ok(v) => v,
        Err(e) => return Err(e),
    };
    let rotation: u8 = match r.read_b() {
        Ok(v) => v,
        Err(e) => return Err(e),
    };
    let team: u8 = match r.read_b() {
        Ok(v) => v,
        Err(e) => return Err(e),
    };
    // A configuration object stands behind the team. Only the null one is known; any
    // other is refused rather than left unread.
    let config_tag: u8 = match r.read_b() {
        Ok(v) => v,
        Err(e) => return Err(e),
    };
    if config_tag != 0 {
        return Err(CodecError::ConfigUnsupported);
    }
    Ok(RpcPacket::ConstructFinish { tile_x, tile_y, block_id, builder_id, rotation, team })
}

fn read_rules(r: &mut ByteReader) -> (res: Result<RpcPacket, CodecError>)
    ensures
        match take_rules(old(r)@) {
            Ok((v, rest)) => res matches Ok(p) && p@ == v && final(r)@ == rest,
            Err(e) => res == Err::<RpcPacket, CodecError>(e),
        },
{
    reveal(take_rules);
    let len: i32 = match r.read_i() {
        Ok(v) => v,
        Err(e) => return Err(e),
    };
    if len < 0 || len > MAX_RULES_LENGTH {
        return Err(CodecError::RulesLength);
    }
    let bytes = match r.read_bytes(len as usize) {
        Ok(v) => v,
        Err(e) => return Err(e),
    };
    match crate::codec::string_from_utf8(bytes) {
        Some(rules_json) => Ok(RpcPacket::SetRules { rules_json }),
        None => Err(CodecError::RulesNotUtf8),
    }
}

fn read_site(r: &mut ByteReader) -> (res: Result<(i16, i16, u16, i32), CodecError>)
    ensures
        match take_site(old(r)@) {
            Ok((v, rest)) => res == Ok::<(i16, i16, u16, i32), CodecError>(v) && final(r)@ == rest,
            Err(e) => res == Err::<(i16, i16, u16, i32), CodecError>(e),
        },
{
    reveal(take_site);
    let tile: i32 = match r.read_i() {
        Ok(v) => v,
        Err(e) => return Err(e),
    };
    let block_id: u16 = match r.read_us() {
        Ok(v) => v,
        Err(e) => return Err(e),
    };
    let unit_kind: u8 = match r.read_b() {
        Ok(v) => v,
        Err(e) => return Err(e),
    };
    let unit_id: i32 = match r.read_i() {
        Ok(v) => v,
        Err(e) => return Err(e),
    };
    let builder_id: i32 = if unit_kind == 0 { -1 } else { unit_id };
    let (tile_x, tile_y) = unpack_tile(tile);
    Ok((tile_x, tile_y, block_id, builder_id))
}

fn write_site(w: &mut Vec<u8>, tile_x: i16, tile_y: i16, block_id: u16, builder_id: i32)
    ensures
        final(w)@ == old(w)@ + site_bytes(tile_x, tile_y, block_id, builder_id),
{
    let ghost before = w@;
    write_i(w, pack_tile(tile_x, tile_y));
    write_us(w, block_id);
    if builder_id < 0 {
        write_b(w, 0);
        write_i(w, 0);
    } else {
        // An ordinary unit, not a block unit.
        write_b(w, 2);
        write_i(w, builder_id);
    }
    assert(w@ =~= before + site_bytes(tile_x, tile_y, block_id, builder_id));
}

/// What a bounded read leaves: nothing where all of it fits, else all but the bound and one
/// more byte.
pub open spec fn beyond_bound(s: Seq<u8>, max: int) -> Seq<u8> {
    if s.len() > max { s.skip(max + 1) } else { Seq::empty() }
}

impl RpcPacket {
    /// At most `max` bytes: everything that is left, or an error when that is more. However
    /// much is left, no more than one byte beyond the bound is taken.
    pub fn read_bounded(r: &mut ByteReader, max: usize) -> (res: Result<Vec<u8>, CodecError>)
        requires
            max < usize::MAX,
        ensures
            if old(r)@.len() > max {
                res == Err::<Vec<u8>, CodecError>(CodecError::TileTapTooLong)
            } else {
                res matches Ok(v) && v@ == old(r)@
            },
            final(r)@ == beyond_bound(old(r)@, max as int),
    {
        let left: usize = r.remaining();
        let limit: usize = if left > max { max + 1 } else { left };
        let payload = match r.read_bytes(limit) {
            Ok(payload) => payload,
            Err(e) => return Err(e),
        };
        if payload.len() > max {
            return Err(CodecError::TileTapTooLong);
        }
        assert(payload@ =~= old(r)@);
        assert(r@ =~= Seq::<u8>::empty());
        Ok(payload)
    }

    /// Decodes a payload that must be exactly one tile tap.
    pub fn decode_tile_tap(payload: &[u8], with_player: bool) -> (res: Result<
        RpcPacket,
        CodecError,
    >)
        ensures
            ({
                let expected: nat = if with_player { 8 } else { 4 };
                if payload@.len() != expected {
                    res == Err::<RpcPacket, CodecError>(CodecError::TileTapLength)
                } else {
                    res matches Ok(p) && whole_tile_tap(payload@, with_player) == Ok::<
                        RpcView,
                        CodecError,
                    >(p@)
                }
            }),
    {
        let expected: usize = if with_player { 8 } else { 4 };
        if payload.len() != expected {
            return Err(CodecError::TileTapLength);
        }
        let mut r = ByteReader::new(payload);
        let mut player_id: i32 = TILE_TAP_NO_PLAYER;
        if with_player {
            player_id = match r.read_i() {
                Ok(v) => v,
                Err(e) => return Err(e),
            };
        }
        let position: i32 = match r.read_i() {
            Ok(v) => v,
            Err(e) => return Err(e),
        };
        let (x, y) = unpack_tile(position);
        Ok(RpcPacket::TileTap { player_id, x, y })
    }

    /// Decodes the client-to-server tile tap: the tile alone.
    pub fn read_client(r: &mut ByteReader) -> (res: Result<RpcPacket, CodecError>)
        ensures
            match whole_tile_tap(old(r)@, false) {
                Ok(v) => res matches Ok(p) && p@ == v,
                Err(e) => res == Err::<RpcPacket, CodecError>(e),
            },
            final(r)@ == beyond_bound(old(r)@, 4),
    {
        match Self::read_bounded(r, 4) {
            Ok(payload) => Self::decode_tile_tap(payload.as_slice(), false),
            Err(e) => Err(e),
        }
    }

    /// Decodes the server-to-client tile tap: the player entity and the tile.
    pub fn read_server(r: &mut ByteReader) -> (res: Result<RpcPacket, CodecError>)
        ensures
            match whole_tile_tap(old(r)@, true) {
                Ok(v) => res matches Ok(p) && p@ == v,
                Err(e) => res == Err::<RpcPacket, CodecError>(e),
            },
            final(r)@ == beyond_bound(old(r)@, 8),
    {
        match Self::read_bounded(r, 8) {
            Ok(payload) => Self::decode_tile_tap(payload.as_slice(), true),
            Err(e) => Err(e),
        }
    }

    /// Encodes the client-to-server tile tap. The player is left out.
    pub fn write_client(&self, w: &mut Vec<u8>) -> (r: Result<(), CodecError>)
        ensures
            wrote(old(w)@, final(w)@, r, self@.client_written()),
    {
        let ghost before = w@;
        match self {
            RpcPacket::TileTap { x, y, .. } => {
                write_i(w, pack_tile(*x, *y));
                Ok(())
            },
            _ => {
                assert(w@ =~= before + Seq::<u8>::empty());
                Err(CodecError::ClientFormOnlyTileTap)
            },
        }
    }

    /// Encodes the server-to-client tile tap: the player entity and the tile.
    pub fn write_server(&self, w: &mut Vec<u8>) -> (r: Result<(), CodecError>)
        ensures
            wrote(old(w)@, final(w)@, r, self@.server_written()),
    {
        let ghost before = w@;
        match self {
            RpcPacket::TileTap { player_id, x, y } => {
                write_i(w, *player_id);
                write_i(w, pack_tile(*x, *y));
                assert(w@ =~= before + server_tap_bytes(*player_id, *x, *y));
                Ok(())
            },
            _ => {
                assert(w@ =~= before + Seq::<u8>::empty());
                Err(CodecError::ServerFormOnlyTileTap)
            },
        }
    }

    /// Reads the call with number `id`. There is no direction here: a tile tap is read
    /// in its server form. Where the direction is known, use `read_client` or
    /// `read_server`.
    pub fn read(r: &mut ByteReader, id: u8) -> (res: Result<RpcPacket, CodecError>)
        ensures
            match take_rpc(old(r)@, id) {
                Ok((v, rest)) => res matches Ok(p) && p@ == v && final(r)@ == rest,
                Err(e) => res == Err::<RpcPacket, CodecError>(e),
            },
    {
        match id {
            TILE_TAP_PACKET_ID => Self::read_server(r),
            STREAM_CHUNK_PACKET_ID => read_chunk(r),
            CONSTRUCT_FINISH_PACKET_ID => read_construct(r),
            DECONSTRUCT_FINISH_PACKET_ID => {
                match read_site(r) {
                    Ok((tile_x, tile_y, block_id, builder_id)) => Ok(
                        RpcPacket::DeconstructFinish { tile_x, tile_y, block_id, builder_id },
                    ),
                    Err(e) => Err(e),
                }
            },
            SEND_CHAT_MESSAGE_PACKET_ID => {
                match r.read_typeio_text() {
                    Ok(message) => Ok(
                        RpcPacket::SendChatMessage { player_id: TILE_TAP_NO_PLAYER, message },
                    ),
                    Err(e) => Err(e),
                }
            },
            SET_RULES_PACKET_ID => read_rules(r),
            WORLD_DATA_BEGIN_PACKET_ID => Ok(RpcPacket::WorldSyncBegin),
            _ => Err(CodecError::UnknownRpcId),
        }
    }

    /// Writes the call. A tile tap is written in its server form; a client uses
    /// `write_client`.
    pub fn write(&self, w: &mut Vec<u8>) -> (r: Result<(), CodecError>)
        ensures
            wrote(old(w)@, final(w)@, r, self@.written()),
    {
        let ghost before = w@;
        assert(before =~= before + Seq::<u8>::empty());
        match self {
            RpcPacket::TileTap { .. } => self.write_server(w),
            RpcPacket::ConstructFinish { tile_x, tile_y, block_id, builder_id, rotation, team } => {
                write_site(w, *tile_x, *tile_y, *block_id, *builder_id);
                write_b(w, *rotation);
                write_b(w, *team);
                // The null configuration object.
                write_b(w, 0);
                assert(w@ =~= before + (site_bytes(*tile_x, *tile_y, *block_id, *builder_id)
                    + seq![*rotation, *team, 0u8]));
                Ok(())
            },
            RpcPacket::DeconstructFinish { tile_x, tile_y, block_id, builder_id } => {
                write_site(w, *tile_x, *tile_y, *block_id, *builder_id);
                Ok(())
            },
            RpcPacket::SendChatMessage { message, .. } => write_typeio_string(
                w,
                message.as_str(),
            ),
            RpcPacket::PlayerInfoSync { .. } => Err(CodecError::NoOfficialPacket),
            RpcPacket::SetRules { rules_json } => {
                let bytes = rules_json.as_str().as_bytes();
                if bytes.len() > 0x7FFF_FFFF {
                    return Err(CodecError::RulesTooLong);
                }
                write_i(w, bytes.len() as i32);
                write_all(w, bytes);
                assert(w@ =~= before + (be32(bytes@.len() as u32) + bytes@));
                Ok(())
            },
            RpcPacket::WorldSyncBegin => Ok(()),
            RpcPacket::WorldSyncChunk => Err(CodecError::CompatibilityMarker),
            RpcPacket::StreamChunk { id, data } => {
                if data.len() > 0xFFFF {
                    return Err(CodecError::ChunkTooLong);
                }
                write_i(w, *id);
                write_us(w, data.len() as u16);
                write_all(w, data.as_slice());
                assert(w@ =~= before + (be32(unsigned32(*id)) + be16(data@.len() as u16)
                    + data@));
                Ok(())
            },
        }
    }

    /// The packet number, or an error for the two variants that no packet stands for.
    pub fn try_id(&self) -> (r: Result<u8, CodecError>)
        ensures
            r == self@.number(),
    {
        match self {
            RpcPacket::TileTap { .. } => Ok(TILE_TAP_PACKET_ID),
            RpcPacket::ConstructFinish { .. } => Ok(CONSTRUCT_FINISH_PACKET_ID),
            RpcPacket::DeconstructFinish { .. } => Ok(DECONSTRUCT_FINISH_PACKET_ID),
            RpcPacket::SendChatMessage { .. } => Ok(SEND_CHAT_MESSAGE_PACKET_ID),
            RpcPacket::PlayerInfoSync { .. } => Err(CodecError::NoOfficialPacket),
            RpcPacket::SetRules { .. } => Ok(SET_RULES_PACKET_ID),
            RpcPacket::WorldSyncBegin => Ok(WORLD_DATA_BEGIN_PACKET_ID),
            RpcPacket::WorldSyncChunk => Err(CodecError::CompatibilityMarker),
            RpcPacket::StreamChunk { .. } => Ok(STREAM_CHUNK_PACKET_ID),
        }
    }

    /// The packet number, or 255 where there is none. Prefer `try_id` for packets that
    /// came from outside.
    pub fn id(&self) -> (n: u8)
        ensures
            n == match self@.number() {
                Ok(n) => n,
                Err(_) => 255u8,
            },
    {
        match self.try_id() {
            Ok(n) => n,
            Err(_) => 255,
        }
    }
}

// ---------------------------------------------------------------------------
// Laws.

proof fn lemma_server_tap(player_id: i32, x: i16, y: i16)
    ensures
        server_tap_bytes(player_id, x, y).len() == 8,
        whole_tile_tap(server_tap_bytes(player_id, x, y), true) == Ok::<RpcView, CodecError>(
            RpcView::TileTap { player_id, x, y },
        ),
{
    let tile = client_tap_bytes(x, y);
    let all = server_tap_bytes(player_id, x, y);
    lemma_i32_round_trip(player_id, tile);
    lemma_i32_round_trip(packed_tile(x, y), Seq::empty());
    assert(tile + Seq::<u8>::empty() =~= tile);
    assert(all.skip(4) =~= tile);
    law_tile_unpacks(x, y);
}

/// A client's tile tap is read back with the null player, and only the client reader
/// takes it: the server reader refuses it.
pub proof fn law_client_tile_tap(player_id: i32, x: i16, y: i16)
    ensures
        ({
            let sent = RpcView::TileTap { player_id, x, y }.client_written().0;
            &&& whole_tile_tap(sent, false) == Ok::<RpcView, CodecError>(
                RpcView::TileTap { player_id: TILE_TAP_NO_PLAYER, x, y },
            )
            &&& whole_tile_tap(sent, true) == Err::<RpcView, CodecError>(CodecError::TileTapLength)
        }),
{
    let tile = client_tap_bytes(x, y);
    lemma_i32_round_trip(packed_tile(x, y), Seq::empty());
    assert(tile + Seq::<u8>::empty() =~= tile);
    law_tile_unpacks(x, y);
}

/// The server's tile tap is read back with its player, and the client reader refuses
/// it instead of guessing by its length.
pub proof fn law_server_tile_tap(player_id: i32, x: i16, y: i16)
    ensures
        ({
            let tap = RpcView::TileTap { player_id, x, y };
            let sent = tap.server_written().0;
            &&& whole_tile_tap(sent, true) == Ok::<RpcView, CodecError>(tap)
            &&& whole_tile_tap(sent, false) == Err::<RpcView, CodecError>(
                CodecError::TileTapTooLong,
            )
        }),
{
    lemma_server_tap(player_id, x, y);
}

proof fn lemma_site_round_trip(
    tile_x: i16,
    tile_y: i16,
    block_id: u16,
    builder_id: i32,
    tail: Seq<u8>,
)
    ensures
        take_site(site_bytes(tile_x, tile_y, block_id, builder_id) + tail) == Ok::<
            ((i16, i16, u16, i32), Seq<u8>),
            CodecError,
        >(
            (
                (tile_x, tile_y, block_id, if builder_id < 0 { -1i32 } else { builder_id }),
                tail,
            ),
        ),
{
    reveal(take_site);
    let unit = unit_bytes(builder_id) + tail;
    let block = be16(block_id) + unit;
    let tile = packed_tile(tile_x, tile_y);
    let number: i32 = if builder_id < 0 { 0 } else { builder_id };
    assert(site_bytes(tile_x, tile_y, block_id, builder_id) + tail =~= be32(unsigned32(tile))
        + block);
    lemma_i32_round_trip(tile, block);
    lemma_be16_round_trip(block_id, unit);
    assert(block.skip(2) =~= unit);
    assert(unit.skip(1) =~= be32(unsigned32(number)) + tail);
    lemma_i32_round_trip(number, tail);
    law_tile_unpacks(tile_x, tile_y);
}

proof fn lemma_construct_round_trip(
    tile_x: i16,
    tile_y: i16,
    block_id: u16,
    builder_id: i32,
    rotation: u8,
    team: u8,
)
    ensures
        take_construct(
            site_bytes(tile_x, tile_y, block_id, builder_id) + seq![rotation, team, 0u8],
        ) == Ok::<(RpcView, Seq<u8>), CodecError>(
            (
                RpcView::ConstructFinish {
                    tile_x,
                    tile_y,
                    block_id,
                    builder_id: if builder_id < 0 { -1i32 } else { builder_id },
                    rotation,
                    team,
                },
                Seq::empty(),
            ),
        ),
{
    reveal(take_construct);
    let tail = seq![rotation, team, 0u8];
    lemma_site_round_trip(tile_x, tile_y, block_id, builder_id, tail);
    assert(tail.skip(1).skip(1).skip(1) =~= Seq::empty());
}

proof fn lemma_rules_round_trip(rules_json: Seq<char>)
    requires
        encode_utf8(rules_json).len() <= MAX_RULES_LENGTH,
    ensures
        take_rules(be32(encode_utf8(rules_json).len() as u32) + encode_utf8(rules_json)) == Ok::<
            (RpcView, Seq<u8>),
            CodecError,
        >((RpcView::SetRules { rules_json }, Seq::empty())),
{
    broadcast use vstd::utf8::encode_utf8_valid_utf8, vstd::utf8::encode_utf8_decode_utf8;

    reveal(take_rules);
    let bytes = encode_utf8(rules_json);
    lemma_i32_round_trip(bytes.len() as i32, bytes);
    assert(bytes.take(bytes.len() as int) =~= bytes);
    assert(bytes.skip(bytes.len() as int) =~= Seq::empty());
}

proof fn lemma_chunk_round_trip(id: i32, data: Seq<u8>)
    requires
        data.len() <= 0xFFFF,
    ensures
        take_chunk(be32(unsigned32(id)) + be16(data.len() as u16) + data) == Ok::<
            (RpcView, Seq<u8>),
            CodecError,
        >((RpcView::StreamChunk { id, data }, Seq::empty())),
{
    reveal(take_chunk);
    let s = be16(data.len() as u16) + data;
    lemma_i32_round_trip(id, s);
    lemma_be16_round_trip(data.len() as u16, data);
    assert(be32(unsigned32(id)) + be16(data.len() as u16) + data =~= be32(unsigned32(id)) + s);
    assert(s.skip(2) =~= data);
    assert(data.take(data.len() as int) =~= data);
    assert(data.skip(data.len() as int) =~= Seq::empty());
}

/// What comes back when a call is written and then read under its own number: the
/// call itself, except that a chat message loses its sender and that every negative
/// builder is nobody.
pub open spec fn read_back(p: RpcView) -> RpcView {
    match p {
        RpcView::SendChatMessage { message, .. } => RpcView::SendChatMessage {
            player_id: TILE_TAP_NO_PLAYER,
            message,
        },
        RpcView::ConstructFinish { tile_x, tile_y, block_id, builder_id, rotation, team } =>
            RpcView::ConstructFinish {
                tile_x,
                tile_y,
                block_id,
                builder_id: if builder_id < 0 { -1i32 } else { builder_id },
                rotation,
                team,
            },
        RpcView::DeconstructFinish { tile_x, tile_y, block_id, builder_id } =>
            RpcView::DeconstructFinish {
                tile_x,
                tile_y,
                block_id,
                builder_id: if builder_id < 0 { -1i32 } else { builder_id },
            },
        _ => p,
    }
}

/// Every call that can be written and has a number is read back under that number,
/// with nothing left over. A rules text must be short enough to be read.
pub proof fn law_rpc_round_trip(p: RpcView)
    requires
        p.written().1 is None,
        p matches RpcView::SetRules { rules_json } ==> encode_utf8(rules_json).len()
            <= MAX_RULES_LENGTH,
    ensures
        p.number() is Ok,
        take_rpc(p.written().0, p.number()->Ok_0) == Ok::<(RpcView, Seq<u8>), CodecError>(
            (read_back(p), Seq::empty()),
        ),
{
    let all = p.written().0;
    match p {
        RpcView::TileTap { player_id, x, y } => lemma_server_tap(player_id, x, y),
        RpcView::ConstructFinish { tile_x, tile_y, block_id, builder_id, rotation, team } =>
            lemma_construct_round_trip(tile_x, tile_y, block_id, builder_id, rotation, team),
        RpcView::DeconstructFinish { tile_x, tile_y, block_id, builder_id } => {
            lemma_site_round_trip(tile_x, tile_y, block_id, builder_id, Seq::empty());
            assert(all + Seq::<u8>::empty() =~= all);
        },
        RpcView::SendChatMessage { message, .. } => {
            crate::codec::law_typeio_round_trip(message, Seq::empty());
            assert(all + Seq::<u8>::empty() =~= all);
        },
        RpcView::SetRules { rules_json } => lemma_rules_round_trip(rules_json),
        RpcView::StreamChunk { id, data } => lemma_chunk_round_trip(id, data),
        _ => {},
    }
}

} // verus!
