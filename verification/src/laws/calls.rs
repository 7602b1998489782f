//! Calls and packets, field by field.

use crate::codec::{
    be16, be32, be64, law_typeio_round_trip, of_be32, of_be64, take_i32, take_typeio_string,
    typeio_bytes, unsigned16, unsigned32, utf_bytes, utf_fits, CodecError,
};
use crate::laws::frames::{lemma_of_quad, lemma_quad, lemma_quad_part, pair_at, quad_at};
use crate::packets::{
    base64_decoded, base64_encoded, connect_head_written, connect_tail_written, crc32_of,
    split_identity, take_kick_reason, take_mods, take_packet, texts_written, uuid_written,
    ConnectPacketView, KickReasonView, PacketView,
};
use crate::rpc::{
    packed_tile, take_chunk, take_construct, take_rpc, take_rules, take_site, whole_tile_tap,
    RpcView,
};
use vstd::prelude::*;
use vstd::utf8::{decode_utf8, encode_utf8, valid_utf8};

verus! {

// ---------------------------------------------------------------------------
// Calls.

proof fn lemma_tile_bytes(x: i16, y: i16)
    ensures
        ({
            let b = be32(unsigned32(packed_tile(x, y)));
            b.len() == 4 && pair_at(b, 0) == unsigned16(x) && pair_at(b, 2) == unsigned16(y)
        }),
{
    let v = unsigned32(packed_tile(x, y));
    assert(v == unsigned16(x) * 0x1_0000 + unsigned16(y));
    assert(v / 0x1_0000 == unsigned16(x));
    assert(v % 0x1_0000 == unsigned16(y));
}

/// A tap is written as the player and the tile, the column before the row; in the form of
/// the clients without the player. Only a tap has these forms.
pub proof fn law_tap_byte_by_byte(player_id: i32, x: i16, y: i16, other: RpcView)
    ensures
        ({
            let tap = RpcView::TileTap { player_id, x, y };
            let s = tap.written().0;
            let c = tap.client_written().0;
            &&& tap.written().1 is None && tap.client_written().1 is None
            &&& tap.server_written() == tap.written()
            &&& s.len() == 8
            &&& quad_at(s, 0) == unsigned32(player_id)
            &&& pair_at(s, 4) == unsigned16(x)
            &&& pair_at(s, 6) == unsigned16(y)
            &&& c.len() == 4
            &&& pair_at(c, 0) == unsigned16(x)
            &&& pair_at(c, 2) == unsigned16(y)
        }),
        other.client_written().1 is None <==> other is TileTap,
        other.server_written().1 is None <==> other is TileTap,
{
    let s = (RpcView::TileTap { player_id, x, y }).written().0;
    lemma_tile_bytes(x, y);
    lemma_quad(unsigned32(player_id));
    let b = be32(unsigned32(packed_tile(x, y)));
    assert(s =~= be32(unsigned32(player_id)) + b);
    assert(s.subrange(0, 4) =~= be32(unsigned32(player_id)));
    lemma_quad_part(s, 0, unsigned32(player_id));
    assert(s[4] == b[0] && s[5] == b[1] && s[6] == b[2] && s[7] == b[3]);
}

/// A finished building is written as its tile, its block, who built it, its rotation, its
/// team and no configuration; one taken down without the last three. Nobody is a zero with
/// nothing behind it, a unit a two with its number.
pub proof fn law_building_byte_by_byte(
    tile_x: i16,
    tile_y: i16,
    block_id: u16,
    builder_id: i32,
    rotation: u8,
    team: u8,
)
    ensures
        ({
            let up = RpcView::ConstructFinish {
                tile_x,
                tile_y,
                block_id,
                builder_id,
                rotation,
                team,
            };
            let down = RpcView::DeconstructFinish { tile_x, tile_y, block_id, builder_id };
            let s = up.written().0;
            &&& up.written().1 is None && down.written().1 is None
            &&& s.len() == 14
            &&& pair_at(s, 0) == unsigned16(tile_x)
            &&& pair_at(s, 2) == unsigned16(tile_y)
            &&& pair_at(s, 4) == block_id
            &&& builder_id < 0 ==> s[6] == 0 && quad_at(s, 7) == 0
            &&& builder_id >= 0 ==> s[6] == 2 && quad_at(s, 7) == builder_id
            &&& s[11] == rotation
            &&& s[12] == team
            &&& s[13] == 0
            &&& down.written().0 == s.take(11)
        }),
{
    let s = (RpcView::ConstructFinish { tile_x, tile_y, block_id, builder_id, rotation, team }).written().0;
    let tile = be32(unsigned32(packed_tile(tile_x, tile_y)));
    lemma_tile_bytes(tile_x, tile_y);
    let who: u32 = if builder_id < 0 { 0 } else { builder_id as u32 };
    let kind: u8 = if builder_id < 0 { 0 } else { 2 };
    lemma_quad(who);
    let site = tile + (be16(block_id) + (seq![kind] + be32(who)));
    assert(s =~= site + seq![rotation, team, 0u8]);
    assert(s.subrange(7, 11) =~= be32(who));
    lemma_quad_part(s, 7, who);
    assert(s[0] == tile[0] && s[1] == tile[1] && s[2] == tile[2] && s[3] == tile[3]);
    assert(s[4] == be16(block_id)[0] && s[5] == be16(block_id)[1]);
    assert(s.take(11) =~= site);
}

/// Rules are written as the number of their bytes and the bytes, a chunk as its stream, the
/// number of its bytes and the bytes; a chunk whose number of bytes does not fit is refused.
/// A chat message is written as its text. The start of a world is empty, and two calls are
/// never written.
pub proof fn law_other_calls_byte_by_byte(
    rules: Seq<char>,
    id: i32,
    data: Seq<u8>,
    player_id: i32,
    message: Seq<char>,
    other: RpcView,
)
    ensures
        encode_utf8(rules).len() <= i32::MAX ==> {
            let w = (RpcView::SetRules { rules_json: rules }).written();
            &&& w.1 is None
            &&& quad_at(w.0, 0) == encode_utf8(rules).len()
            &&& w.0.skip(4) == encode_utf8(rules)
        },
        data.len() <= 0xFFFF ==> {
            let w = (RpcView::StreamChunk { id, data }).written();
            &&& w.1 is None
            &&& quad_at(w.0, 0) == unsigned32(id)
            &&& pair_at(w.0, 4) == data.len()
            &&& w.0.skip(6) == data
        },
        data.len() > 0xFFFF ==> (RpcView::StreamChunk { id, data }).written().1 == Some(
            CodecError::ChunkTooLong,
        ),
        utf_fits(message) ==> (RpcView::SendChatMessage { player_id, message }).written() == (
            typeio_bytes(message),
            None::<CodecError>,
        ),
        RpcView::WorldSyncBegin.written() == (Seq::<u8>::empty(), None::<CodecError>),
        other is PlayerInfoSync ==> other.written().1 == Some(CodecError::NoOfficialPacket)
            && other.number() is Err,
        other is WorldSyncChunk ==> other.written().1 == Some(CodecError::CompatibilityMarker)
            && other.number() is Err,
        other !is PlayerInfoSync && other !is WorldSyncChunk ==> other.number() is Ok,
{
    let bytes = encode_utf8(rules);
    if bytes.len() <= i32::MAX {
        let s = (RpcView::SetRules { rules_json: rules }).written().0;
        let n = bytes.len() as u32;
        lemma_quad(n);
        assert(s.subrange(0, 4) =~= be32(n));
        lemma_quad_part(s, 0, n);
        assert(s.skip(4) =~= bytes);
    }
    if data.len() <= 0xFFFF {
        let s = (RpcView::StreamChunk { id, data }).written().0;
        lemma_quad(unsigned32(id));
        assert(s.subrange(0, 4) =~= be32(unsigned32(id)));
        lemma_quad_part(s, 0, unsigned32(id));
        assert(s[4] == be16(data.len() as u16)[0] && s[5] == be16(data.len() as u16)[1]);
        assert(s.skip(6) =~= data);
    }
}

/// Calls of different kinds have different numbers, and calls of one kind the same.
pub proof fn law_calls_have_their_own_numbers(a: RpcView, b: RpcView)
    requires
        a.number() is Ok,
        a.number() == b.number(),
    ensures
        a is TileTap <==> b is TileTap,
        a is ConstructFinish <==> b is ConstructFinish,
        a is DeconstructFinish <==> b is DeconstructFinish,
        a is SendChatMessage <==> b is SendChatMessage,
        a is SetRules <==> b is SetRules,
        a is WorldSyncBegin <==> b is WorldSyncBegin,
        a is StreamChunk <==> b is StreamChunk,
{
}

/// Seven numbers are those of calls; every other one is refused.
pub proof fn law_unknown_calls_are_refused(s: Seq<u8>, id: u8)
    requires
        id != 140 && id != 34 && id != 41 && id != 97 && id != 119 && id != 164 && id != 1,
    ensures
        take_rpc(s, id) == Err::<(RpcView, Seq<u8>), CodecError>(CodecError::UnknownRpcId),
{
}

/// A call is read as one of its kind; the start of a world takes nothing.
pub proof fn law_calls_are_read_as_their_kind(s: Seq<u8>, id: u8)
    ensures
        take_rpc(s, id) matches Ok((p, _)) ==> (p.number() matches Ok(n) && n == id),
        take_rpc(s, 164) == Ok::<(RpcView, Seq<u8>), CodecError>((RpcView::WorldSyncBegin, s)),
{
    reveal(take_chunk);
    reveal(take_construct);
    reveal(take_rules);
}

/// A tap is read whole: eight bytes with a player, four without, and no other number of
/// bytes.
pub proof fn law_tap_is_read_whole(s: Seq<u8>, with_player: bool)
    ensures
        whole_tile_tap(s, with_player) is Ok <==> s.len() == if with_player { 8int } else { 4int },
        s.len() > (if with_player { 8int } else { 4int }) ==> whole_tile_tap(s, with_player) == Err::<
            RpcView,
            CodecError,
        >(CodecError::TileTapTooLong),
        whole_tile_tap(s, with_player) matches Ok(tap) ==> {
            let at: int = if with_player { 4 } else { 0 };
            &&& tap is TileTap
            &&& unsigned16(tap->TileTap_x) == pair_at(s, at)
            &&& unsigned16(tap->TileTap_y) == pair_at(s, at + 2)
            &&& with_player ==> unsigned32(tap->TileTap_player_id) == quad_at(s, 0)
            &&& !with_player ==> tap->TileTap_player_id == -1
        },
{
    if s.len() == (if with_player { 8int } else { 4int }) {
        let at: int = if with_player { 4 } else { 0 };
        let t = if with_player { s.skip(4) } else { s };
        lemma_of_quad(t);
        if with_player {
            lemma_of_quad(s);
        }
        assert(t[0] == s[at] && t[1] == s[at + 1] && t[2] == s[at + 2] && t[3] == s[at + 3]);
        assert(of_be32(t) / 0x1_0000 == pair_at(s, at));
        assert(of_be32(t) % 0x1_0000 == pair_at(s, at + 2));
    }
}

/// Rules are read up to a hundred thousand bytes that are text; a length beyond that, a
/// negative one, and bytes that are no text are refused, each for its own reason.
pub proof fn law_rules_are_bounded(s: Seq<u8>, rest: Seq<u8>, n: i32)
    requires
        take_i32(s) == Ok::<(i32, Seq<u8>), CodecError>((n, rest)),
    ensures
        n < 0 || n > 100_000 ==> take_rules(s) == Err::<(RpcView, Seq<u8>), CodecError>(
            CodecError::RulesLength,
        ),
        0 <= n <= 100_000 && rest.len() < n ==> take_rules(s) == Err::<
            (RpcView, Seq<u8>),
            CodecError,
        >(CodecError::UnexpectedEof),
        0 <= n <= 100_000 && rest.len() >= n && !valid_utf8(rest.take(n as int)) ==> take_rules(s)
            == Err::<(RpcView, Seq<u8>), CodecError>(CodecError::RulesNotUtf8),
        0 <= n <= 100_000 && rest.len() >= n && valid_utf8(rest.take(n as int)) ==> take_rules(s)
            == Ok::<(RpcView, Seq<u8>), CodecError>(
            (
                RpcView::SetRules { rules_json: decode_utf8(rest.take(n as int)) },
                rest.skip(n as int),
            ),
        ),
{
    reveal(take_rules);
}

/// A finished building is read from its fourteen bytes; where nobody is named, nobody built
/// it, and a configuration is refused.
pub proof fn law_building_is_read(s: Seq<u8>)
    requires
        s.len() >= 14,
    ensures
        s[13] != 0 ==> take_construct(s) == Err::<(RpcView, Seq<u8>), CodecError>(
            CodecError::ConfigUnsupported,
        ),
        s[13] == 0 ==> match take_construct(s) {
            Ok((p, rest)) => {
                &&& rest == s.skip(14)
                &&& p is ConstructFinish
                &&& unsigned16(p->ConstructFinish_tile_x) == pair_at(s, 0)
                &&& unsigned16(p->ConstructFinish_tile_y) == pair_at(s, 2)
                &&& p->ConstructFinish_block_id == pair_at(s, 4)
                &&& s[6] == 0 ==> p->ConstructFinish_builder_id == -1
                &&& s[6] != 0 ==> unsigned32(p->ConstructFinish_builder_id) == quad_at(s, 7)
                &&& p->rotation == s[11]
                &&& p->team == s[12]
            },
            Err(_) => false,
        },
{
    reveal(take_construct);
    reveal(take_site);
    lemma_of_quad(s);
    let a = s.skip(4);
    let b = a.skip(2);
    let c = b.skip(1);
    let d = c.skip(4);
    let e = d.skip(1);
    let f = e.skip(1);
    lemma_of_quad(c);
    assert(a[0] == s[4] && a[1] == s[5]);
    assert(b[0] == s[6]);
    assert(c[0] == s[7] && c[1] == s[8] && c[2] == s[9] && c[3] == s[10]);
    assert(d[0] == s[11] && e[0] == s[12] && f[0] == s[13]);
    assert(f.skip(1) =~= s.skip(14));
    assert(of_be32(s) / 0x1_0000 == pair_at(s, 0));
    assert(of_be32(s) % 0x1_0000 == pair_at(s, 2));
}

// ---------------------------------------------------------------------------
// Packets.

/// Packets of six kinds are read by their number; every other number is kept with all
/// its bytes. The kinds without contents leave the bytes alone.
pub proof fn law_packets_by_number(s: Seq<u8>, id: u8)
    ensures
        id == 0 ==> take_packet(s, id) == Ok::<(PacketView, Seq<u8>), CodecError>(
            (PacketView::StreamBegin, s),
        ),
        id == 2 ==> take_packet(s, id) == Ok::<(PacketView, Seq<u8>), CodecError>(
            (PacketView::WorldStream, s),
        ),
        id == 4 ==> take_packet(s, id) == Ok::<(PacketView, Seq<u8>), CodecError>(
            (PacketView::AssetRequirementStream, s),
        ),
        id == 5 ==> take_packet(s, id) == Ok::<(PacketView, Seq<u8>), CodecError>(
            (PacketView::AssetStream, s),
        ),
        id > 5 ==> take_packet(s, id) == Ok::<(PacketView, Seq<u8>), CodecError>(
            (PacketView::Unknown { id, payload: s }, Seq::empty()),
        ),
        id == 1 ==> (take_packet(s, id) matches Ok((p, _)) ==> p is StreamChunk),
        id == 3 ==> (take_packet(s, id) matches Ok((p, _)) ==> p is ConnectPacket),
{
}

/// A chunk is its stream, the number of its bytes and the bytes, written and read.
pub proof fn law_chunk_byte_by_byte(id: i32, data: Seq<u8>, s: Seq<u8>)
    ensures
        data.len() <= 0xFFFF ==> {
            let w = (PacketView::StreamChunk { id, data }).written();
            &&& w.1 is None
            &&& quad_at(w.0, 0) == unsigned32(id)
            &&& pair_at(w.0, 4) == data.len()
            &&& w.0.skip(6) == data
        },
        s.len() < 6 || s.len() < 6 + pair_at(s, 4) ==> take_packet(s, 1) == Err::<
            (PacketView, Seq<u8>),
            CodecError,
        >(CodecError::UnexpectedEof),
        s.len() >= 6 && s.len() >= 6 + pair_at(s, 4) ==> match take_packet(s, 1) {
            Ok((p, rest)) => {
                &&& p is StreamChunk
                &&& unsigned32(p->StreamChunk_id) == quad_at(s, 0)
                &&& p->data == s.subrange(6, 6 + pair_at(s, 4))
                &&& rest == s.skip(6 + pair_at(s, 4))
            },
            Err(_) => false,
        },
{
    if data.len() <= 0xFFFF {
        let w = (PacketView::StreamChunk { id, data }).written().0;
        lemma_quad(unsigned32(id));
        assert(w.subrange(0, 4) =~= be32(unsigned32(id)));
        lemma_quad_part(w, 0, unsigned32(id));
        assert(w[4] == be16(data.len() as u16)[0] && w[5] == be16(data.len() as u16)[1]);
        assert(w.skip(6) =~= data);
    }
    if s.len() >= 6 {
        lemma_of_quad(s);
        let a = s.skip(4);
        assert(a[0] == s[4] && a[1] == s[5]);
        let n = pair_at(s, 4);
        let b = a.skip(2);
        assert(b =~= s.skip(6));
        if s.len() >= 6 + n {
            assert(b.take(n) =~= s.subrange(6, 6 + n));
            assert(b.skip(n) =~= s.skip(6 + n));
        }
    }
}

/// The introduction of a player begins with the version and has, in this order: the kind of
/// version, the name, the language and the key of the server; then the identity with its
/// checksum in eight bytes; then whether the client is a mobile one, the color, the number of
/// mods and their names.
pub proof fn law_introduction_in_order(p: ConnectPacketView, identity: Seq<u8>)
    requires
        base64_decoded(p.uuid) == Some(identity),
        identity.len() == 8 || identity.len() == 16,
        utf_fits(p.version_type),
        utf_fits(p.name),
        utf_fits(p.locale),
        utf_fits(p.usid),
        p.mods.len() <= 255,
    ensures
        p.written().0.len() > 0,
        quad_at(p.written().0, 0) == unsigned32(p.version),
        ({
            let mods = texts_written(p.mods);
            let tail = identity + be64(crc32_of(identity) as u64) + seq![
                if p.mobile { 1u8 } else { 0u8 },
            ] + be32(unsigned32(p.color)) + seq![p.mods.len() as u8] + mods.0;
            &&& p.written().1 == mods.1
            &&& match take_typeio_string(p.written().0.skip(4)) {
                Err(_) => false,
                Ok((version_type, s)) => match take_typeio_string(s) {
                    Err(_) => false,
                    Ok((name, s)) => match take_typeio_string(s) {
                        Err(_) => false,
                        Ok((locale, s)) => match take_typeio_string(s) {
                            Err(_) => false,
                            Ok((usid, s)) => {
                                &&& version_type == Some(p.version_type)
                                &&& name == Some(p.name)
                                &&& locale == Some(p.locale)
                                &&& usid == Some(p.usid)
                                &&& s == tail
                            },
                        },
                    },
                },
            }
        }),
{
    let mods = texts_written(p.mods);
    let tail = identity + be64(crc32_of(identity) as u64) + seq![
        if p.mobile { 1u8 } else { 0u8 },
    ] + be32(unsigned32(p.color)) + seq![p.mods.len() as u8] + mods.0;
    lemma_introduction(p, identity);
    let s = p.written().0;
    let d = typeio_bytes(p.usid) + tail;
    let c = typeio_bytes(p.locale) + d;
    let b = typeio_bytes(p.name) + c;
    let a = typeio_bytes(p.version_type) + b;
    lemma_quad(unsigned32(p.version));
    lemma_after_number(unsigned32(p.version), a);
    law_typeio_round_trip(p.version_type, b);
    law_typeio_round_trip(p.name, c);
    law_typeio_round_trip(p.locale, d);
    law_typeio_round_trip(p.usid, tail);
}

proof fn lemma_after_number(v: u32, rest: Seq<u8>)
    ensures
        (be32(v) + rest).len() > 0,
        quad_at(be32(v) + rest, 0) == v,
        (be32(v) + rest).skip(4) == rest,
{
    lemma_quad(v);
    let s = be32(v) + rest;
    assert(s.subrange(0, 4) =~= be32(v));
    lemma_quad_part(s, 0, v);
    assert(s.skip(4) =~= rest);
}

proof fn lemma_introduction(p: ConnectPacketView, identity: Seq<u8>)
    requires
        base64_decoded(p.uuid) == Some(identity),
        identity.len() == 8 || identity.len() == 16,
        utf_fits(p.version_type),
        utf_fits(p.name),
        utf_fits(p.locale),
        utf_fits(p.usid),
        p.mods.len() <= 255,
    ensures
        ({
            let mods = texts_written(p.mods);
            let tail = identity + be64(crc32_of(identity) as u64) + seq![
                if p.mobile { 1u8 } else { 0u8 },
            ] + be32(unsigned32(p.color)) + seq![p.mods.len() as u8] + mods.0;
            &&& p.written().1 == mods.1
            &&& p.written().0 == be32(unsigned32(p.version)) + (typeio_bytes(p.version_type) + (
            typeio_bytes(p.name) + (typeio_bytes(p.locale) + (typeio_bytes(p.usid) + tail))))
        }),
{
    reveal(ConnectPacketView::written);
    let mods = texts_written(p.mods);
    let v = be32(unsigned32(p.version));
    let head = connect_head_written(p).0;
    let (a, b, c, d) = (
        typeio_bytes(p.version_type),
        typeio_bytes(p.name),
        typeio_bytes(p.locale),
        typeio_bytes(p.usid),
    );
    assert(head == v + a + b + c + d);
    let i = identity + be64(crc32_of(identity) as u64);
    let m = seq![if p.mobile { 1u8 } else { 0u8 }];
    let k = be32(unsigned32(p.color));
    let n = seq![p.mods.len() as u8];
    assert(uuid_written(p.uuid).0 == i);
    assert(connect_tail_written(p).0 == m + k + (n + mods.0));
    assert(p.written().0 == v + a + b + c + d + i + (m + k + (n + mods.0)));
    lemma_regroup(v, a, b, c, d, i, m, k, n, mods.0);
}

proof fn lemma_regroup(
    v: Seq<u8>,
    a: Seq<u8>,
    b: Seq<u8>,
    c: Seq<u8>,
    d: Seq<u8>,
    i: Seq<u8>,
    m: Seq<u8>,
    k: Seq<u8>,
    n: Seq<u8>,
    o: Seq<u8>,
)
    ensures
        v + a + b + c + d + i + (m + k + (n + o)) == v + (a + (b + (c + (d + (i + m + k + n
            + o))))),
{
    assert(m + k + (n + o) =~= m + k + n + o);
    let t = m + k + n + o;
    assert(i + t =~= i + m + k + n + o);
    let u = i + t;
    assert(v + a + b + c + d + i + t =~= v + a + b + c + d + u);
    assert(v + a + b + c + d + u =~= v + (a + (b + (c + (d + u)))));
}

/// An introduction is refused where the identity is no base64, or neither eight nor sixteen
/// bytes; more than 255 mods are refused too.
pub proof fn law_introduction_refusals(p: ConnectPacketView)
    requires
        utf_fits(p.version_type),
        utf_fits(p.name),
        utf_fits(p.locale),
        utf_fits(p.usid),
    ensures
        base64_decoded(p.uuid) is None ==> p.written().1 == Some(CodecError::UuidNotBase64),
        (base64_decoded(p.uuid) matches Some(i) && i.len() != 8 && i.len() != 16)
            ==> p.written().1 == Some(CodecError::UuidLength),
        (base64_decoded(p.uuid) matches Some(i) && (i.len() == 8 || i.len() == 16))
            && p.mods.len() > 255 ==> p.written().1 == Some(CodecError::TooManyMods),
{
    reveal(ConnectPacketView::written);
}

/// Mods are written one after the other.
pub proof fn law_mods_in_order(mods: Seq<Seq<char>>, name: Seq<char>)
    requires
        texts_written(mods).1 is None,
        utf_fits(name),
    ensures
        texts_written(mods.push(name)) == (
            texts_written(mods).0 + typeio_bytes(name),
            None::<CodecError>,
        ),
        texts_written(Seq::empty()) == (Seq::<u8>::empty(), None::<CodecError>),
{
    assert(mods.push(name).drop_last() =~= mods);
}

/// Mods are read one after the other, as many as are announced; one without a name is
/// refused.
pub proof fn law_mods_are_read_in_order(name: Seq<char>, rest: Seq<u8>, n: nat)
    requires
        utf_fits(name),
        n > 0,
    ensures
        take_mods(rest, 0) == Ok::<(Seq<Seq<char>>, Seq<u8>), CodecError>((Seq::empty(), rest)),
        take_mods(seq![0u8] + rest, n) == Err::<(Seq<Seq<char>>, Seq<u8>), CodecError>(
            CodecError::NullModName,
        ),
        match take_mods(rest, (n - 1) as nat) {
            Ok((more, left)) => take_mods(typeio_bytes(name) + rest, n) == Ok::<
                (Seq<Seq<char>>, Seq<u8>),
                CodecError,
            >((seq![name] + more, left)),
            Err(e) => take_mods(typeio_bytes(name) + rest, n) == Err::<
                (Seq<Seq<char>>, Seq<u8>),
                CodecError,
            >(e),
        },
{
    law_typeio_round_trip(name, rest);
}

/// An identity of eight bytes is taken where the eight bytes behind it are its checksum, and
/// one of sixteen where that is not so and the eight bytes behind those are; the checksum is
/// passed over. Without either the identity is refused.
pub proof fn law_identity_is_proved_by_its_checksum(s: Seq<u8>)
    ensures
        ({
            let short = s.len() >= 16 && of_be64(s.subrange(8, 16)) == crc32_of(s.take(8));
            let long = s.len() >= 24 && of_be64(s.subrange(16, 24)) == crc32_of(s.take(16));
            &&& short ==> split_identity(s) == Ok::<(Seq<char>, Seq<u8>), CodecError>(
                (base64_encoded(s.take(8)), s.skip(16)),
            )
            &&& !short && long ==> split_identity(s) == Ok::<(Seq<char>, Seq<u8>), CodecError>(
                (base64_encoded(s.take(16)), s.skip(24)),
            )
            &&& !short && !long ==> split_identity(s) == Err::<(Seq<char>, Seq<u8>), CodecError>(
                CodecError::UuidChecksum,
            )
        }),
{
}

/// A connection is written as its three texts, a disconnection as its reason, and what is
/// unknown as it came.
pub proof fn law_other_packets(
    uuid: Seq<char>,
    usid: Seq<char>,
    address: Seq<char>,
    reason: KickReasonView,
    id: u8,
    payload: Seq<u8>,
)
    ensures
        utf_fits(uuid) && utf_fits(usid) && utf_fits(address) ==> (PacketView::Connect {
            uuid,
            usid,
            address,
        }).written() == (
            typeio_bytes(uuid) + typeio_bytes(usid) + typeio_bytes(address),
            None::<CodecError>,
        ),
        PacketView::Disconnect(reason).written() == reason.written(),
        (PacketView::Unknown { id, payload }).written() == (payload, None::<CodecError>),
        PacketView::KeepAlive.written() == (Seq::<u8>::empty(), None::<CodecError>),
{
}

/// A reason is its number, and for the seventeenth a text behind it; a number beyond is
/// refused.
pub proof fn law_reason_byte_by_byte(reason: KickReasonView, s: Seq<u8>)
    ensures
        reason.wf() && reason.code < 16 ==> reason.written() == (
            seq![reason.code],
            None::<CodecError>,
        ),
        reason.wf() && reason.code == 16 && utf_fits(reason.text.unwrap()) ==> reason.written() == (
            seq![16u8] + utf_bytes(reason.text.unwrap()),
            None::<CodecError>,
        ),
        s.len() > 0 && s[0] < 16 ==> take_kick_reason(s) == Ok::<
            (KickReasonView, Seq<u8>),
            CodecError,
        >((KickReasonView { code: s[0], text: None }, s.skip(1))),
        s.len() > 0 && s[0] > 16 ==> take_kick_reason(s) == Err::<
            (KickReasonView, Seq<u8>),
            CodecError,
        >(CodecError::UnknownKickReason),
        s.len() == 0 ==> take_kick_reason(s) == Err::<(KickReasonView, Seq<u8>), CodecError>(
            CodecError::UnexpectedEof,
        ),
{
}

} // verus!
