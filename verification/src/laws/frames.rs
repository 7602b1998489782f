//! Bytes on the wire, said byte by byte.

use crate::codec::{
    be16, be32, be64, law_typeio_round_trip, of_be16, of_be32, of_be64, signed16, signed32,
    take_bytes, take_i32, take_typeio_string, take_typeio_text, take_u16, take_u8, typeio_bytes,
    unsigned16, unsigned32, unsigned64, utf_bytes, utf_fits, CodecError, ErrorClass,
};
use crate::protocol::{spec_core_unit_sync_ids, unreliable_packets};
use crate::text::hex6;
use crate::wire::{
    boundary_before, chat_line, chat_payload, colored_name, counts_as_spam, discovery_bytes,
    discovery_length, elapsed, entity, entity_bytes, framed, framework_ping, law_discovery_field,
    limit_reached, mode_number, noop_payload, server_info_bytes, silent_for, text_frame,
    text_input_result, DiscoveryState, GameMode, ServerInfo, SessionPlayer,
};
use vstd::prelude::*;
use vstd::utf8::{encode_utf8, is_char_boundary};

verus! {

/// The two bytes at a place as one number, the first the higher.
pub open spec fn pair_at(s: Seq<u8>, at: int) -> int {
    s[at] * 0x100 + s[at + 1]
}

/// The four bytes at a place as one number, the first the highest.
pub open spec fn quad_at(s: Seq<u8>, at: int) -> int {
    s[at] * 0x100_0000 + s[at + 1] * 0x1_0000 + s[at + 2] * 0x100 + s[at + 3]
}

// ---------------------------------------------------------------------------
// Numbers.

/// Signed and unsigned numbers with the same bits differ by whole turns.
pub proof fn law_same_bits(a: i16, b: u16, c: i32, d: u32, e: i64)
    ensures
        (unsigned16(a) - a) % 0x1_0000 == 0,
        (signed16(b) - b) % 0x1_0000 == 0,
        (unsigned32(c) - c) % 0x1_0000_0000 == 0,
        (signed32(d) - d) % 0x1_0000_0000 == 0,
        (unsigned64(e) - e) % 0x1_0000_0000_0000_0000 == 0,
{
}

/// Numbers are written with their highest byte first, and read so.
pub proof fn law_highest_byte_first(v: u16, w: u32, x: u64, s: Seq<u8>)
    ensures
        be16(v).len() == 2 && pair_at(be16(v), 0) == v,
        be32(w).len() == 4 && quad_at(be32(w), 0) == w,
        be64(x).len() == 8 && quad_at(be64(x), 0) * 0x1_0000_0000 + quad_at(be64(x), 4) == x,
        s.len() >= 2 ==> of_be16(s) == pair_at(s, 0),
        s.len() >= 4 ==> of_be32(s) == quad_at(s, 0),
        s.len() >= 8 ==> of_be64(s) == quad_at(s, 0) * 0x1_0000_0000 + quad_at(s, 4),
{
    lemma_quad(w);
    let (hi, lo) = ((x / 0x1_0000_0000) as u32, (x % 0x1_0000_0000) as u32);
    lemma_quad(hi);
    lemma_quad(lo);
    let b = be64(x);
    assert(b[0] == be32(hi)[0] && b[1] == be32(hi)[1] && b[2] == be32(hi)[2] && b[3] == be32(
        hi,
    )[3]);
    assert(b[4] == be32(lo)[0] && b[5] == be32(lo)[1] && b[6] == be32(lo)[2] && b[7] == be32(
        lo,
    )[3]);
    if s.len() >= 4 {
        lemma_of_quad(s);
    }
    if s.len() >= 8 {
        lemma_of_quad(s.skip(4));
        assert(quad_at(s.skip(4), 0) == quad_at(s, 4));
    }
}

pub proof fn lemma_quad(w: u32)
    ensures
        be32(w).len() == 4,
        quad_at(be32(w), 0) == w,
{
    let hi = (w / 0x1_0000) as u16;
    let lo = (w % 0x1_0000) as u16;
    let b = be32(w);
    assert(b[0] == (hi / 0x100) as u8 && b[1] == (hi % 0x100) as u8);
    assert(b[2] == (lo / 0x100) as u8 && b[3] == (lo % 0x100) as u8);
}

pub proof fn lemma_of_quad(s: Seq<u8>)
    requires
        s.len() >= 4,
    ensures
        of_be32(s) == quad_at(s, 0),
{
    assert(s.skip(2)[0] == s[2] && s.skip(2)[1] == s[3]);
}

/// A reader takes what is there from the front and leaves the rest; where too little is left
/// it says so and finds nothing.
pub proof fn law_readers_take_from_the_front(s: Seq<u8>, n: nat)
    ensures
        s.len() < 1 <==> take_u8(s) == Err::<(u8, Seq<u8>), CodecError>(CodecError::UnexpectedEof),
        s.len() >= 1 ==> take_u8(s) == Ok::<(u8, Seq<u8>), CodecError>((s[0], s.skip(1))),
        s.len() < 2 <==> take_u16(s) == Err::<(u16, Seq<u8>), CodecError>(
            CodecError::UnexpectedEof,
        ),
        s.len() >= 2 ==> take_u16(s) == Ok::<(u16, Seq<u8>), CodecError>(
            (pair_at(s, 0) as u16, s.skip(2)),
        ),
        s.len() < 4 <==> take_i32(s) == Err::<(i32, Seq<u8>), CodecError>(
            CodecError::UnexpectedEof,
        ),
        s.len() >= 4 ==> (take_i32(s) matches Ok((v, rest)) && (v - quad_at(s, 0)) % 0x1_0000_0000
            == 0 && rest == s.skip(4)),
        s.len() < n <==> take_bytes(s, n) == Err::<(Seq<u8>, Seq<u8>), CodecError>(
            CodecError::UnexpectedEof,
        ),
        s.len() >= n ==> take_bytes(s, n) == Ok::<(Seq<u8>, Seq<u8>), CodecError>(
            (s.take(n as int), s.skip(n as int)),
        ),
{
    if s.len() >= 4 {
        lemma_of_quad(s);
    }
}

/// A text is written as the number of its bytes and the bytes; where a text may be missing, a
/// one stands before it, and a zero in the place of none.
pub proof fn law_texts_on_the_wire(text: Seq<char>, rest: Seq<u8>)
    requires
        utf_fits(text),
    ensures
        pair_at(utf_bytes(text), 0) == encode_utf8(text).len(),
        utf_bytes(text).skip(2) == encode_utf8(text),
        typeio_bytes(text)[0] == 1,
        typeio_bytes(text).skip(1) == utf_bytes(text),
        take_typeio_string(seq![0u8] + rest) == Ok::<(Option<Seq<char>>, Seq<u8>), CodecError>(
            (None, rest),
        ),
        take_typeio_text(seq![0u8] + rest) == Ok::<(Seq<char>, Seq<u8>), CodecError>(
            (Seq::empty(), rest),
        ),
        take_typeio_text(typeio_bytes(text) + rest) == Ok::<(Seq<char>, Seq<u8>), CodecError>(
            (text, rest),
        ),
{
    assert(utf_bytes(text).skip(2) =~= encode_utf8(text));
    assert(typeio_bytes(text).skip(1) =~= utf_bytes(text));
    assert((seq![0u8] + rest).skip(1) =~= rest);
    law_typeio_round_trip(text, rest);
}

/// A text has at most 65535 bytes on the wire.
pub proof fn law_longest_text(text: Seq<char>)
    ensures
        utf_fits(text) <==> encode_utf8(text).len() < 0x1_0000,
{
}

/// Too few bytes are their own kind of error, and what is refused when it is written is one
/// of the input.
pub proof fn law_error_kinds(e: CodecError)
    ensures
        e.spec_class() == ErrorClass::UnexpectedEof <==> e == CodecError::UnexpectedEof,
        e.spec_class() == ErrorClass::Unsupported <==> e == CodecError::ConfigUnsupported || e
            == CodecError::NoOfficialPacket || e == CodecError::CompatibilityMarker,
        e.spec_class() == ErrorClass::InvalidInput <==> e == CodecError::StringTooLong || e
            == CodecError::UuidNotBase64 || e == CodecError::UuidLength || e
            == CodecError::TooManyMods || e == CodecError::RulesTooLong || e
            == CodecError::ChunkTooLong || e == CodecError::FrameTooLong || e
            == CodecError::ClientFormOnlyTileTap || e == CodecError::ServerFormOnlyTileTap,
{
}

// ---------------------------------------------------------------------------
// Frames.

/// A call is framed by the number of bytes that follow, its packet number, the number of
/// bytes of its payload and a zero for no compression; the payload follows as it is. One that
/// is too long for the number of bytes is refused, and no other.
pub proof fn law_frame_byte_by_byte(id: u8, payload: Seq<u8>)
    ensures
        framed(id, payload) is Ok <==> payload.len() <= 0xFFFF - 4,
        framed(id, payload) is Err ==> framed(id, payload) == Err::<Seq<u8>, CodecError>(
            CodecError::FrameTooLong,
        ),
        framed(id, payload) matches Ok(frame) ==> {
            &&& frame.len() == payload.len() + 6
            &&& pair_at(frame, 0) == frame.len() - 2
            &&& frame[2] == id
            &&& pair_at(frame, 3) == payload.len()
            &&& frame[5] == 0
            &&& frame.skip(6) == payload
        },
{
    if let Ok(frame) = framed(id, payload) {
        assert(frame.skip(6) =~= payload);
    }
}

/// A framed text is there to be read behind the head of the frame, all of it and nothing
/// else.
pub proof fn law_framed_text_is_read_back(id: u8, text: Seq<char>)
    ensures
        text_frame(id, text) is Ok <==> encode_utf8(text).len() + 7 <= 0xFFFF,
        text_frame(id, text) matches Ok(frame) ==> {
            &&& frame[2] == id
            &&& take_typeio_string(frame.skip(6)) == Ok::<
                (Option<Seq<char>>, Seq<u8>),
                CodecError,
            >((Some(text), Seq::empty()))
        },
{
    if utf_fits(text) {
        let payload = typeio_bytes(text);
        assert(payload.len() == 3 + encode_utf8(text).len());
        law_frame_byte_by_byte(id, payload);
        law_typeio_round_trip(text, Seq::empty());
        assert(payload + Seq::<u8>::empty() =~= payload);
    }
}

/// A player is written as number, kind, whether admin and boosting, color, the place of the
/// mouse and the name; behind it no block in hand, whether shooting, the first team, not
/// typing, and the unit and its place.
pub proof fn law_player_byte_by_byte(p: SessionPlayer, x: u32, y: u32, shooting: bool)
    ensures
        entity(p, x, y, shooting) is Ok <==> utf_fits(p.name@),
        entity(p, x, y, shooting) matches Ok(s) ==> {
            let t = s.skip(22 + encode_utf8(p.name@).len() as int);
            &&& quad_at(s, 0) == unsigned32(p.id)
            &&& s[4] == 12
            &&& s[5] == if p.admin { 1u8 } else { 0u8 }
            &&& s[6] == if p.boosting { 1u8 } else { 0u8 }
            &&& quad_at(s, 7) == unsigned32(p.color)
            &&& quad_at(s, 11) == p.mouse_x
            &&& quad_at(s, 15) == p.mouse_y
            &&& take_typeio_string(s.skip(19)) == Ok::<(Option<Seq<char>>, Seq<u8>), CodecError>(
                (Some(p.name@), t),
            )
            &&& t.len() == 22
            &&& pair_at(t, 0) == 0xFFFF
            &&& quad_at(t, 2) == 0
            &&& t[6] == if shooting { 1u8 } else { 0u8 }
            &&& t[7] == 1 && t[8] == 0 && t[9] == 2
            &&& quad_at(t, 10) == unsigned32(p.unit_id)
            &&& quad_at(t, 14) == x
            &&& quad_at(t, 18) == y
        },
{
    if utf_fits(p.name@) {
        let s = entity_bytes(p, x, y, shooting);
        let name = typeio_bytes(p.name@);
        let (admin, boosting, shoots) = (
            crate::wire::flag(p.admin),
            crate::wire::flag(p.boosting),
            crate::wire::flag(shooting),
        );
        let n = 22 + encode_utf8(p.name@).len() as int;
        assert(name.len() == n - 19);
        let (head, t) = lemma_player_whole(
            unsigned32(p.id),
            admin,
            boosting,
            unsigned32(p.color),
            p.mouse_x,
            p.mouse_y,
            name,
            shoots,
            unsigned32(p.unit_id),
            x,
            y,
        );
        assert(s == head + (name + t));
        lemma_player_split(head, name, t);
        lemma_same_front(head, name + t);
        law_typeio_round_trip(p.name@, t);
    }
}

proof fn lemma_player_whole(
    id: u32,
    admin: u8,
    boosting: u8,
    color: u32,
    mouse_x: u32,
    mouse_y: u32,
    name: Seq<u8>,
    shooting: u8,
    unit: u32,
    x: u32,
    y: u32,
) -> (parts: (Seq<u8>, Seq<u8>))
    ensures
        be32(id) + seq![12u8, admin, boosting] + be32(color) + be32(mouse_x) + be32(mouse_y) + name
            + be16(0xFFFF) + be32(0) + seq![shooting, 1u8, 0u8, 2u8] + be32(unit) + be32(x) + be32(
            y,
        ) == parts.0 + (name + parts.1),
        player_head(parts.0, id, admin, boosting, color, mouse_x, mouse_y),
        player_tail(parts.1, shooting, unit, x, y),
{
    let head = be32(id) + seq![12u8, admin, boosting] + be32(color) + be32(mouse_x) + be32(
        mouse_y,
    );
    let tail = be16(0xFFFF) + be32(0) + seq![shooting, 1u8, 0u8, 2u8] + be32(unit) + be32(x)
        + be32(y);
    lemma_player_parts(
        head,
        name,
        be16(0xFFFF),
        be32(0),
        seq![shooting, 1u8, 0u8, 2u8],
        be32(unit),
        be32(x),
        be32(y),
    );
    lemma_player_head(id, admin, boosting, color, mouse_x, mouse_y);
    lemma_player_tail(shooting, unit, x, y);
    (head, tail)
}

spec fn player_head(
    s: Seq<u8>,
    id: u32,
    admin: u8,
    boosting: u8,
    color: u32,
    mouse_x: u32,
    mouse_y: u32,
) -> bool {
    &&& s.len() == 19
    &&& quad_at(s, 0) == id
    &&& s[4] == 12
    &&& s[5] == admin
    &&& s[6] == boosting
    &&& quad_at(s, 7) == color
    &&& quad_at(s, 11) == mouse_x
    &&& quad_at(s, 15) == mouse_y
}

spec fn player_tail(t: Seq<u8>, shooting: u8, unit: u32, x: u32, y: u32) -> bool {
    &&& t.len() == 22
    &&& pair_at(t, 0) == 0xFFFF
    &&& quad_at(t, 2) == 0
    &&& t[6] == shooting
    &&& t[7] == 1 && t[8] == 0 && t[9] == 2
    &&& quad_at(t, 10) == unit
    &&& quad_at(t, 14) == x
    &&& quad_at(t, 18) == y
}

proof fn lemma_player_split(head: Seq<u8>, name: Seq<u8>, t: Seq<u8>)
    requires
        head.len() == 19,
    ensures
        (head + (name + t)).skip(19) == name + t,
        (head + (name + t)).skip(19 + name.len() as int) == t,
{
    assert((head + (name + t)).skip(19) =~= name + t);
    assert((head + (name + t)).skip(19 + name.len() as int) =~= t);
}

proof fn lemma_same_front(head: Seq<u8>, rest: Seq<u8>)
    requires
        head.len() == 19,
    ensures
        forall|i: int| 0 <= i < 19 ==> #[trigger] (head + rest)[i] == head[i],
        quad_at(head + rest, 0) == quad_at(head, 0),
        quad_at(head + rest, 7) == quad_at(head, 7),
        quad_at(head + rest, 11) == quad_at(head, 11),
        quad_at(head + rest, 15) == quad_at(head, 15),
{
}

proof fn lemma_player_parts(
    head: Seq<u8>,
    name: Seq<u8>,
    a: Seq<u8>,
    b: Seq<u8>,
    c: Seq<u8>,
    d: Seq<u8>,
    e: Seq<u8>,
    f: Seq<u8>,
)
    ensures
        head + name + a + b + c + d + e + f == head + (name + (a + b + c + d + e + f)),
{
    let t = a + b + c + d + e + f;
    assert(head + name + a + b + c + d + e + f =~= head + name + t);
    assert(head + name + t =~= head + (name + t));
}

proof fn lemma_player_head(
    id: u32,
    admin: u8,
    boosting: u8,
    color: u32,
    mouse_x: u32,
    mouse_y: u32,
)
    ensures
        player_head(
            be32(id) + seq![12u8, admin, boosting] + be32(color) + be32(mouse_x) + be32(mouse_y),
            id,
            admin,
            boosting,
            color,
            mouse_x,
            mouse_y,
        ),
{
    let s = be32(id) + seq![12u8, admin, boosting] + be32(color) + be32(mouse_x) + be32(mouse_y);
    assert(s.subrange(0, 4) =~= be32(id));
    lemma_quad_part(s, 0, id);
    assert(s.subrange(7, 11) =~= be32(color));
    lemma_quad_part(s, 7, color);
    assert(s.subrange(11, 15) =~= be32(mouse_x));
    lemma_quad_part(s, 11, mouse_x);
    assert(s.subrange(15, 19) =~= be32(mouse_y));
    lemma_quad_part(s, 15, mouse_y);
}

proof fn lemma_player_tail(shooting: u8, unit: u32, x: u32, y: u32)
    ensures
        player_tail(
            be16(0xFFFF) + be32(0) + seq![shooting, 1u8, 0u8, 2u8] + be32(unit) + be32(x) + be32(
                y,
            ),
            shooting,
            unit,
            x,
            y,
        ),
{
    let t = be16(0xFFFF) + be32(0) + seq![shooting, 1u8, 0u8, 2u8] + be32(unit) + be32(x) + be32(
        y,
    );
    assert(t.subrange(2, 6) =~= be32(0));
    lemma_quad_part(t, 2, 0);
    assert(t.subrange(10, 14) =~= be32(unit));
    lemma_quad_part(t, 10, unit);
    assert(t.subrange(14, 18) =~= be32(x));
    lemma_quad_part(t, 14, x);
    assert(t.subrange(18, 22) =~= be32(y));
    lemma_quad_part(t, 18, y);
    assert(t[0] == be16(0xFFFF)[0] && t[1] == be16(0xFFFF)[1]);
}

pub proof fn lemma_quad_part(s: Seq<u8>, at: int, v: u32)
    requires
        0 <= at,
        at + 4 <= s.len(),
        s.subrange(at, at + 4) == be32(v),
    ensures
        quad_at(s, at) == v,
{
    lemma_quad(v);
    let b = s.subrange(at, at + 4);
    assert(b[0] == s[at] && b[1] == s[at + 1] && b[2] == s[at + 2] && b[3] == s[at + 3]);
}

/// A chat line ends with the message and names the sender in their color, of which the last
/// three bytes are written out. A chat message is the line, the message as it was written,
/// and the sender, in this order.
pub proof fn law_chat_message_in_order(p: SessionPlayer, message: Seq<char>)
    ensures
        chat_line(p, message).len() >= message.len(),
        chat_line(p, message).skip(chat_line(p, message).len() - message.len()) == message,
        colored_name(p) == "[#"@ + hex6(unsigned32(p.color) as int % 0x100_0000) + "]"@ + p.name@,
        chat_line(p, message) == "[coral][["@ + colored_name(p) + "[coral]]:[white] "@ + message,
        chat_payload(p, message) is Ok <==> utf_fits(chat_line(p, message)) && utf_fits(message)
            && utf_fits(p.name@),
        chat_payload(p, message) matches Ok(s) ==> {
            match take_typeio_string(s) {
                Ok((line, rest)) => {
                    &&& line == Some(chat_line(p, message))
                    &&& match take_typeio_string(rest) {
                        Ok((said, rest)) => said == Some(message) && entity(p, p.x, p.y, false)
                            == Ok::<Seq<u8>, CodecError>(rest),
                        Err(_) => false,
                    }
                },
                Err(_) => false,
            }
        },
{
    let line = chat_line(p, message);
    assert(line.skip(line.len() - message.len()) =~= message);
    if let Ok(s) = chat_payload(p, message) {
        let sender = entity_bytes(p, p.x, p.y, false);
        assert(s =~= typeio_bytes(line) + (typeio_bytes(message) + sender));
        law_typeio_round_trip(line, typeio_bytes(message) + sender);
        law_typeio_round_trip(message, sender);
    }
}

/// A ping is a framework packet with its number and whether it is an answer.
pub proof fn law_ping_byte_by_byte(data: Seq<u8>)
    ensures
        framework_ping(data) is Some <==> data.len() >= 7 && data[0] == 0xFE && data[1] == 0,
        framework_ping(data) matches Some((id, answer)) ==> (id - quad_at(data, 2)) % 0x1_0000_0000
            == 0 && (answer <==> data[6] != 0),
{
    if data.len() >= 7 {
        lemma_of_quad(data.skip(2));
        assert(quad_at(data.skip(2), 0) == quad_at(data, 2));
    }
}

/// The answer to a text input is five bytes without a text, the last of them a zero, or a one
/// in its place, the number of bytes of the text and the bytes.
pub proof fn law_text_input_byte_by_byte(payload: Seq<u8>)
    ensures
        text_input_result(payload) <==> {
            ||| payload.len() == 5 && payload[4] == 0
            ||| payload.len() >= 7 && payload[4] == 1 && payload.len() == 7 + pair_at(payload, 5)
        },
{
    if payload.len() >= 7 {
        assert(payload.skip(5)[0] == payload[5] && payload.skip(5)[1] == payload[6]);
    }
}

/// Of the packets without effect, a tap on a tile has four bytes, a request for the debug
/// state none and a choice in a menu eight; a text input has its own form, and no other
/// packet is one of them.
pub proof fn law_packets_without_effect(id: u8, payload: Seq<u8>)
    ensures
        noop_payload(id, payload) <==> {
            ||| id == 148 && payload.len() == 4
            ||| id == 97 && payload.len() == 0
            ||| id == 79 && payload.len() == 8
            ||| id == 146 && text_input_result(payload)
        },
{
}

// ---------------------------------------------------------------------------
// Time and limits.

/// The time since a moment is what has gone by, and nothing for a moment that is still to
/// come.
pub proof fn law_time_gone_by(last: u64, now: u64)
    ensures
        last <= now ==> last + elapsed(last, now) == now,
        now <= last ==> elapsed(last, now) == 0,
{
}

/// A silence lasts too long from the moment on at which its limit is over.
pub proof fn law_silence(last: u64, now: u64, limit: u64)
    requires
        limit > 0,
    ensures
        silent_for(last, now, limit) <==> last + limit <= now,
{
}

/// The two keepalives and the timeout come after eight, nineteen and twelve seconds.
pub proof fn law_keepalive_times(last: u64, now: u64)
    ensures
        silent_for(last, now, crate::wire::TCP_KEEPALIVE) <==> last + 8_000_000_000 <= now,
        silent_for(last, now, crate::wire::UDP_KEEPALIVE) <==> last + 19_000_000_000 <= now,
        silent_for(last, now, crate::wire::TCP_TIMEOUT) <==> last + 12_000_000_000 <= now,
{
}

/// No limit blocks nobody; a limit blocks from the connection on that would be beyond it.
pub proof fn law_limit(limit: u32, connections: usize)
    ensures
        !limit_reached(0, connections),
        limit > 0 ==> (limit_reached(limit, connections) <==> connections + 1 > limit),
{
}

/// Every packet counts against the limit but an empty one and those of the framework.
pub proof fn law_what_counts_as_spam(packet: Seq<u8>)
    ensures
        counts_as_spam(packet) <==> packet.len() > 0 && packet[0] != 0xFE,
{
}

// ---------------------------------------------------------------------------
// Discovery.

proof fn lemma_last_boundary(bytes: Seq<u8>, end: int, e: int)
    requires
        boundary_before(bytes, end) < e <= end,
    ensures
        !is_char_boundary(bytes, e),
    decreases end,
{
    if !(end <= 0 || is_char_boundary(bytes, end)) && e < end {
        lemma_last_boundary(bytes, end - 1, e);
    }
}

/// A field of the discovery answer is the number of its bytes and as much of the text as
/// fits: all of it, or up to the last whole character within the limit.
pub proof fn law_discovery_field_is_as_long_as_it_may(text: Seq<char>, max: nat, e: int)
    ensures
        ({
            let bytes = encode_utf8(text);
            let field = discovery_bytes(text, max);
            let limit: int = if max < 255 { max as int } else { 255 };
            &&& field.len() == field[0] + 1
            &&& field[0] <= limit
            &&& field.skip(1) == bytes.take(field[0] as int)
            &&& bytes.len() <= limit ==> field[0] == bytes.len()
            &&& field[0] < e <= limit && e <= bytes.len() ==> !is_char_boundary(bytes, e)
        }),
{
    law_discovery_field(text, max);
    let bytes = encode_utf8(text);
    let n = discovery_length(text, max);
    let limit: int = if max < 255 { max as int } else { 255 };
    let start = if bytes.len() < limit { bytes.len() as int } else { limit };
    let field = discovery_bytes(text, max);
    assert(n <= bytes.len()) by {
        vstd::utf8::encode_utf8_valid_utf8(text);
        lemma_boundary_below(bytes, start);
    }
    assert(field.skip(1) =~= bytes.take(n));
    if n < e <= start {
        lemma_last_boundary(bytes, start, e);
    }
}

proof fn lemma_boundary_below(bytes: Seq<u8>, end: int)
    requires
        0 <= end,
    ensures
        boundary_before(bytes, end) <= end,
    decreases end,
{
    if !(end <= 0 || is_char_boundary(bytes, end)) {
        lemma_boundary_below(bytes, end - 1);
    }
}

/// What is left behind a field of the discovery answer.
pub open spec fn behind_field(s: Seq<u8>) -> Seq<u8> {
    s.skip(1 + s[0])
}

/// The discovery answer gives, in this order: the name of the server, that of the map, the
/// players, the wave, the build, the kind of version, the mode, the limit of players, the
/// description, an empty name for the mode, and the port.
pub proof fn law_discovery_answer_in_order(info: ServerInfo, state: DiscoveryState, port: u16)
    ensures
        ({
            let s = server_info_bytes(info, state, port);
            let a = behind_field(s);
            let b = behind_field(a);
            let c = behind_field(b.skip(12));
            let d = behind_field(c.skip(5));
            &&& s.take(1 + s[0]) == discovery_bytes(info.name@, 100)
            &&& a.take(1 + a[0]) == discovery_bytes(state.map_name@, 64)
            &&& quad_at(b, 0) == unsigned32(state.players)
            &&& quad_at(b, 4) == unsigned32(state.wave)
            &&& quad_at(b, 8) == unsigned32(info.build)
            &&& b.skip(12).take(1 + b.skip(12)[0]) == discovery_bytes(info.version_type@, 255)
            &&& c[0] == match state.mode {
                GameMode::Survival => 0u8,
                GameMode::Sandbox => 1u8,
                GameMode::Attack => 2u8,
                GameMode::Pvp => 3u8,
            }
            &&& quad_at(c, 1) == state.player_limit
            &&& c.skip(5).take(1 + c.skip(5)[0]) == discovery_bytes(info.description@, 100)
            &&& d[0] == 0
            &&& d.len() == 3
            &&& pair_at(d, 1) == port
        }),
{
    law_discovery_field_is_as_long_as_it_may(info.name@, 100, 0);
    law_discovery_field_is_as_long_as_it_may(state.map_name@, 64, 0);
    law_discovery_field_is_as_long_as_it_may(info.version_type@, 255, 0);
    law_discovery_field_is_as_long_as_it_may(info.description@, 100, 0);
    law_discovery_field_is_as_long_as_it_may(Seq::empty(), 50, 0);
    assert(encode_utf8(Seq::<char>::empty()).len() == 0);
    lemma_answer_in_order(
        discovery_bytes(info.name@, 100),
        discovery_bytes(state.map_name@, 64),
        discovery_bytes(info.version_type@, 255),
        discovery_bytes(info.description@, 100),
        discovery_bytes(Seq::empty(), 50),
        unsigned32(state.players),
        unsigned32(state.wave),
        unsigned32(info.build),
        mode_number(state.mode),
        state.player_limit,
        port,
    );
}

proof fn lemma_field(field: Seq<u8>, rest: Seq<u8>)
    requires
        field.len() == field[0] + 1,
    ensures
        behind_field(field + rest) == rest,
        (field + rest).take(1 + (field + rest)[0]) == field,
{
    assert((field + rest)[0] == field[0]);
    assert((field + rest).skip(field.len() as int) =~= rest);
    assert((field + rest).take(field.len() as int) =~= field);
}

proof fn lemma_answer_in_order(
    name: Seq<u8>,
    place: Seq<u8>,
    kind: Seq<u8>,
    about: Seq<u8>,
    none: Seq<u8>,
    players: u32,
    wave: u32,
    build: u32,
    mode: u8,
    limit: u32,
    port: u16,
)
    requires
        name.len() == name[0] + 1,
        place.len() == place[0] + 1,
        kind.len() == kind[0] + 1,
        about.len() == about[0] + 1,
        none.len() == 1,
        none[0] == 0,
    ensures
        ({
            let s = name + place + be32(players) + be32(wave) + be32(build) + kind + seq![mode]
                + be32(limit) + about + none + be16(port);
            let a = behind_field(s);
            let b = behind_field(a);
            let c = behind_field(b.skip(12));
            let d = behind_field(c.skip(5));
            &&& s.take(1 + s[0]) == name
            &&& a.take(1 + a[0]) == place
            &&& quad_at(b, 0) == players
            &&& quad_at(b, 4) == wave
            &&& quad_at(b, 8) == build
            &&& b.skip(12).take(1 + b.skip(12)[0]) == kind
            &&& c[0] == mode
            &&& quad_at(c, 1) == limit
            &&& c.skip(5).take(1 + c.skip(5)[0]) == about
            &&& d[0] == 0
            &&& d.len() == 3
            &&& pair_at(d, 1) == port
        }),
{
    let s = name + place + be32(players) + be32(wave) + be32(build) + kind + seq![mode] + be32(
        limit,
    ) + about + none + be16(port);
    let d = none + be16(port);
    let c = seq![mode] + be32(limit) + (about + d);
    let b = be32(players) + be32(wave) + be32(build) + (kind + c);
    let a = place + b;
    assert(s =~= name + a);
    lemma_field(name, a);
    lemma_field(place, b);
    lemma_field(kind, c);
    lemma_field(about, d);
    assert(b.skip(12) =~= kind + c);
    assert(c.skip(5) =~= about + d);
    assert(b.subrange(0, 4) =~= be32(players));
    lemma_quad_part(b, 0, players);
    assert(b.subrange(4, 8) =~= be32(wave));
    lemma_quad_part(b, 4, wave);
    assert(b.subrange(8, 12) =~= be32(build));
    lemma_quad_part(b, 8, build);
    assert(c.subrange(1, 5) =~= be32(limit));
    lemma_quad_part(c, 1, limit);
    assert(d[1] == be16(port)[0] && d[2] == be16(port)[1]);
}

// ---------------------------------------------------------------------------
// Numbers of the protocol.

/// These twelve packets may get lost on the way, and no other.
pub proof fn law_packets_that_may_get_lost(id: u8)
    ensures
        unreliable_packets().contains(id) <==> id == 49 || id == 141 || id == 14 || id == 37 || id
            == 165 || id == 143 || id == 152 || id == 29 || id == 27 || id == 95 || id == 148
            || id == 41,
{
}

/// The units of the five other cores are synchronised as what they are, with the number of
/// their kind; every other number counts as the smallest core unit.
pub proof fn law_core_units(content: i16)
    ensures
        content == 36 || content == 37 || 58 <= content <= 60 ==> spec_core_unit_sync_ids(
            content,
        ).1 == content,
        !(content == 36 || content == 37 || 58 <= content <= 60) ==> spec_core_unit_sync_ids(
            content,
        ) == (0u8, 35i16),
        spec_core_unit_sync_ids(36).0 == 30,
        spec_core_unit_sync_ids(37).0 == 31,
        58 <= content <= 60 ==> spec_core_unit_sync_ids(content).0 == 5,
{
}

} // verus!
