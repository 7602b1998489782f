//! Frames: generated calls, the framework messages, discovery answers, and the clocks of
//! a connection.

use crate::codec::{
    be16, be32, of_be16, of_be32, signed32, to_signed32, to_unsigned32, typeio_bytes, unsigned32,
    utf_fits, write_all, write_b, write_i, write_s, write_typeio_string, write_ui, write_us,
    CodecError,
};
use crate::protocol::{
    KEEP_ALIVE, KICK_2_PACKET_ID, KICK_PACKET_ID, MENU_CHOOSE_PACKET_ID, PLAYER_CLASS_ID,
    REQUEST_DEBUG_STATUS_PACKET_ID, SEND_MESSAGE_2_PACKET_ID, TEXT_INPUT_RESULT_PACKET_ID,
    TILE_TAP_PACKET_ID,
};
use crate::text::{hex6, to_hex6};
use vstd::prelude::*;
use vstd::string::*;
use vstd::utf8::{encode_utf8, is_char_boundary, valid_utf8};

verus! {

// ---------------------------------------------------------------------------
// Generated calls.

/// The frame of a call: the length of what follows, the packet number, the payload length,
/// a zero for "not compressed", and the payload.
pub open spec fn framed(id: u8, payload: Seq<u8>) -> Result<Seq<u8>, CodecError> {
    if payload.len() + 4 > 0xFFFF {
        Err(CodecError::FrameTooLong)
    } else {
        Ok(
            be16((payload.len() + 4) as u16) + (seq![id] + be16(payload.len() as u16) + seq![0u8]
                + payload),
        )
    }
}

/// A present string as the only field.
pub open spec fn text_payload(text: Seq<char>) -> Result<Seq<u8>, CodecError> {
    if utf_fits(text) { Ok(typeio_bytes(text)) } else { Err(CodecError::StringTooLong) }
}

/// The frame of a call whose only field is a string.
pub open spec fn text_frame(id: u8, text: Seq<char>) -> Result<Seq<u8>, CodecError> {
    match text_payload(text) {
        Ok(payload) => framed(id, payload),
        Err(e) => Err(e),
    }
}

/// Whether a returned buffer is what `w` says.
pub open spec fn gives(r: Result<Vec<u8>, CodecError>, w: Result<Seq<u8>, CodecError>) -> bool {
    match w {
        Ok(bytes) => r matches Ok(out) && out@ == bytes,
        Err(e) => r == Err::<Vec<u8>, CodecError>(e),
    }
}

/// Frames an uncompressed call.
pub fn frame_generated_packet(id: u8, payload: &Vec<u8>) -> (r: Result<Vec<u8>, CodecError>)
    ensures
        gives(r, framed(id, payload@)),
{
    if payload.len() > 0xFFFB {
        return Err(CodecError::FrameTooLong);
    }
    let mut out: Vec<u8> = Vec::new();
    write_us(&mut out, (payload.len() + 4) as u16);
    write_b(&mut out, id);
    write_us(&mut out, payload.len() as u16);
    write_b(&mut out, 0);
    write_all(&mut out, payload.as_slice());
    assert(out@ =~= be16((payload@.len() + 4) as u16) + (seq![id] + be16(payload@.len() as u16)
        + seq![0u8] + payload@));
    Ok(out)
}

/// A present string as the only field.
pub fn encode_typeio_string(text: &str) -> (r: Result<Vec<u8>, CodecError>)
    ensures
        gives(r, text_payload(text@)),
{
    let mut out: Vec<u8> = Vec::new();
    match write_typeio_string(&mut out, text) {
        Ok(()) => {
            assert(out@ =~= typeio_bytes(text@));
            Ok(out)
        },
        Err(e) => Err(e),
    }
}

/// The frame of a call whose only field is a string.
pub fn encode_text_frame(id: u8, text: &str) -> (r: Result<Vec<u8>, CodecError>)
    ensures
        gives(r, text_frame(id, text@)),
{
    match encode_typeio_string(text) {
        Ok(payload) => frame_generated_packet(id, &payload),
        Err(e) => Err(e),
    }
}

/// A kick with one of the numbered reasons.
pub fn kick_reason_frame(reason: u8) -> (r: Result<Vec<u8>, CodecError>)
    ensures
        gives(r, framed(KICK_2_PACKET_ID, seq![reason])),
        r is Ok,
{
    let mut payload: Vec<u8> = Vec::new();
    payload.push(reason);
    assert(payload@ =~= seq![reason]);
    frame_generated_packet(KICK_2_PACKET_ID, &payload)
}

/// A kick with a message.
pub fn kick_message_frame(message: &str) -> (r: Result<Vec<u8>, CodecError>)
    ensures
        gives(r, text_frame(KICK_PACKET_ID, message@)),
{
    encode_text_frame(KICK_PACKET_ID, message)
}

// ---------------------------------------------------------------------------
// Players.

/// A player in the game. Coordinates are the bits of single-precision numbers; `last_shot`
/// is in nanoseconds of the server's clock.
pub struct SessionPlayer {
    pub id: i32,
    pub unit_id: i32,
    pub name: String,
    pub uuid: String,
    pub admin: bool,
    pub boosting: bool,
    pub color: i32,
    pub mouse_x: u32,
    pub mouse_y: u32,
    pub x: u32,
    pub y: u32,
    pub last_shot: u64,
}

pub open spec fn flag(b: bool) -> u8 {
    if b { 1 } else { 0 }
}

/// The player entity: sync number and class, flags, colour, cursor and name; nothing
/// selected; whether it shoots; the first team, not typing; its unit and its place.
pub open spec fn entity_bytes(p: SessionPlayer, x: u32, y: u32, shooting: bool) -> Seq<u8> {
    be32(unsigned32(p.id)) + seq![PLAYER_CLASS_ID, flag(p.admin), flag(p.boosting)] + be32(
        unsigned32(p.color),
    ) + be32(p.mouse_x) + be32(p.mouse_y) + typeio_bytes(p.name@) + be16(0xFFFF) + be32(0)
        + seq![flag(shooting), 1u8, 0u8, 2u8] + be32(unsigned32(p.unit_id)) + be32(x) + be32(y)
}

pub open spec fn entity(p: SessionPlayer, x: u32, y: u32, shooting: bool) -> Result<
    Seq<u8>,
    CodecError,
> {
    if utf_fits(p.name@) {
        Ok(entity_bytes(p, x, y, shooting))
    } else {
        Err(CodecError::StringTooLong)
    }
}

fn flag_byte(b: bool) -> (r: u8)
    ensures
        r == flag(b),
{
    if b { 1 } else { 0 }
}

/// The player entity as snapshots and chat messages carry it.
pub fn encode_player_entity(player: &SessionPlayer, x: u32, y: u32, shooting: bool) -> (r: Result<
    Vec<u8>,
    CodecError,
>)
    ensures
        gives(r, entity(*player, x, y, shooting)),
{
    let mut out: Vec<u8> = Vec::new();
    write_i(&mut out, player.id);
    write_b(&mut out, PLAYER_CLASS_ID);
    write_b(&mut out, flag_byte(player.admin));
    write_b(&mut out, flag_byte(player.boosting));
    write_i(&mut out, player.color);
    write_ui(&mut out, player.mouse_x);
    write_ui(&mut out, player.mouse_y);
    match write_typeio_string(&mut out, player.name.as_str()) {
        Ok(()) => {},
        Err(e) => return Err(e),
    }
    write_s(&mut out, -1);  // selected block
    write_i(&mut out, 0);  // selected rotation
    write_b(&mut out, flag_byte(shooting));
    write_b(&mut out, 1);  // team
    write_b(&mut out, 0);  // typing
    write_b(&mut out, 2);  // normal unit reference
    write_i(&mut out, player.unit_id);
    write_ui(&mut out, x);
    write_ui(&mut out, y);
    assert(out@ =~= entity_bytes(*player, x, y, shooting));
    Ok(out)
}

/// The name of a player in its colour.
pub open spec fn colored_name(p: SessionPlayer) -> Seq<char> {
    "[#"@ + hex6(unsigned32(p.color) as int % 0x100_0000) + "]"@ + p.name@
}

/// A chat line as every client shows it.
pub open spec fn chat_line(p: SessionPlayer, message: Seq<char>) -> Seq<char> {
    "[coral][["@ + colored_name(p) + "[coral]]:[white] "@ + message
}

/// The payload of a chat message: the formatted line, the bare text, and the sender.
pub open spec fn chat_payload(p: SessionPlayer, message: Seq<char>) -> Result<
    Seq<u8>,
    CodecError,
> {
    if utf_fits(chat_line(p, message)) && utf_fits(message) && utf_fits(p.name@) {
        Ok(
            typeio_bytes(chat_line(p, message)) + typeio_bytes(message) + entity_bytes(
                p,
                p.x,
                p.y,
                false,
            ),
        )
    } else {
        Err(CodecError::StringTooLong)
    }
}

fn format_chat_line(sender: &SessionPlayer, message: &str) -> (r: String)
    ensures
        r@ == chat_line(*sender, message@),
{
    let mut line = "[coral][[".to_owned();
    line.append("[#");
    let digits = to_hex6(to_unsigned32(sender.color) % 0x100_0000);
    line.append(digits.as_str());
    line.append("]");
    line.append(sender.name.as_str());
    line.append("[coral]]:[white] ");
    line.append(message);
    assert(line@ =~= chat_line(*sender, message@));
    line
}

/// A chat message with its sender.
pub fn encode_chat_message2_frame(sender: &SessionPlayer, message: &str) -> (r: Result<
    Vec<u8>,
    CodecError,
>)
    ensures
        gives(
            r,
            match chat_payload(*sender, message@) {
                Ok(payload) => framed(SEND_MESSAGE_2_PACKET_ID, payload),
                Err(e) => Err(e),
            },
        ),
{
    let line = format_chat_line(sender, message);
    let mut payload: Vec<u8> = Vec::new();
    match write_typeio_string(&mut payload, line.as_str()) {
        Ok(()) => {},
        Err(e) => return Err(e),
    }
    match write_typeio_string(&mut payload, message) {
        Ok(()) => {},
        Err(e) => return Err(e),
    }
    let sender_bytes = match encode_player_entity(sender, sender.x, sender.y, false) {
        Ok(bytes) => bytes,
        Err(e) => return Err(e),
    };
    write_all(&mut payload, sender_bytes.as_slice());
    assert(payload@ =~= typeio_bytes(chat_line(*sender, message@)) + typeio_bytes(message@)
        + entity_bytes(*sender, sender.x, sender.y, false));
    frame_generated_packet(SEND_MESSAGE_2_PACKET_ID, &payload)
}

// ---------------------------------------------------------------------------
// Framework messages.

/// The byte that marks a framework message: -2.
pub const FRAMEWORK_MESSAGE: u8 = 0xFE;

/// A registration over TCP: its length, the marker, the kind and the connection number.
pub fn framework_registration(kind: u8, connection_id: i32) -> (frame: [u8; 8])
    ensures
        frame@ == be16(6) + seq![FRAMEWORK_MESSAGE, kind] + be32(unsigned32(connection_id)),
{
    let bits: u32 = to_unsigned32(connection_id);
    let hi: u16 = (bits / 0x1_0000) as u16;
    let lo: u16 = (bits % 0x1_0000) as u16;
    let frame = [
        0u8,
        6u8,
        FRAMEWORK_MESSAGE,
        kind,
        (hi / 0x100) as u8,
        (hi % 0x100) as u8,
        (lo / 0x100) as u8,
        (lo % 0x100) as u8,
    ];
    assert(frame@ =~= be16(6) + seq![FRAMEWORK_MESSAGE, kind] + be32(unsigned32(connection_id)));
    frame
}

/// A keep-alive over TCP.
pub fn framework_keepalive() -> (frame: [u8; 4])
    ensures
        frame@ == be16(2) + seq![FRAMEWORK_MESSAGE, KEEP_ALIVE],
{
    let frame = [0u8, 2u8, FRAMEWORK_MESSAGE, KEEP_ALIVE];
    assert(frame@ =~= be16(2) + seq![FRAMEWORK_MESSAGE, KEEP_ALIVE]);
    frame
}

/// A keep-alive over UDP: the same message without the length.
pub fn framework_keepalive_udp() -> (frame: [u8; 2])
    ensures
        frame@ == seq![FRAMEWORK_MESSAGE, KEEP_ALIVE],
{
    let frame = [FRAMEWORK_MESSAGE, KEEP_ALIVE];
    assert(frame@ =~= seq![FRAMEWORK_MESSAGE, KEEP_ALIVE]);
    frame
}

/// The number of a ping and whether it is a reply: the marker, a zero, four bytes and a
/// flag, and perhaps more behind them.
pub open spec fn framework_ping(data: Seq<u8>) -> Option<(i32, bool)> {
    if data.len() >= 7 && data[0] == FRAMEWORK_MESSAGE && data[1] == 0 {
        Some((signed32(of_be32(data.skip(2))), data[6] != 0))
    } else {
        None
    }
}

/// Reads a ping.
pub fn parse_framework_ping(packet_data: &[u8]) -> (r: Option<(i32, bool)>)
    ensures
        r == framework_ping(packet_data@),
{
    if packet_data.len() >= 7 && packet_data[0] == FRAMEWORK_MESSAGE && packet_data[1] == 0 {
        let hi: u16 = packet_data[2] as u16 * 0x100 + packet_data[3] as u16;
        let lo: u16 = packet_data[4] as u16 * 0x100 + packet_data[5] as u16;
        let bits: u32 = hi as u32 * 0x1_0000 + lo as u32;
        assert(bits == of_be32(packet_data@.skip(2)));
        Some((to_signed32(bits), packet_data[6] != 0))
    } else {
        None
    }
}

// ---------------------------------------------------------------------------
// Calls from clients that need no answer.

/// A text input result: four bytes, then a string tag, and for a present string exactly as
/// many bytes as its length says.
pub open spec fn text_input_result(payload: Seq<u8>) -> bool {
    payload.len() >= 5 && if payload[4] == 0 {
        payload.len() == 5
    } else {
        payload[4] == 1 && payload.len() >= 7 && payload.len() == 7 + of_be16(payload.skip(5))
    }
}

/// Checks the variable tail of a text input result. The check reads the payload of one
/// packet only.
pub fn valid_text_input_result_payload(payload: &[u8]) -> (r: bool)
    ensures
        r == text_input_result(payload@),
{
    if payload.len() < 5 {
        return false;
    }
    match payload[4] {
        0 => payload.len() == 5,
        1 => {
            if payload.len() < 7 {
                return false;
            }
            let text_len: usize = payload[5] as usize * 0x100 + payload[6] as usize;
            payload.len() == 7 + text_len
        },
        _ => false,
    }
}

/// Whether a packet that has no effect is well formed; see [`valid_client_noop_payload`].
pub open spec fn noop_payload(id: u8, payload: Seq<u8>) -> bool {
    if id == TILE_TAP_PACKET_ID {
        payload.len() == 4
    } else if id == REQUEST_DEBUG_STATUS_PACKET_ID {
        payload.len() == 0
    } else if id == MENU_CHOOSE_PACKET_ID {
        payload.len() == 8
    } else {
        id == TEXT_INPUT_RESULT_PACKET_ID && text_input_result(payload)
    }
}

/// Whether the payload of a call that needs no answer has the shape of that call.
pub fn valid_client_noop_payload(id: u8, payload: &[u8]) -> (r: bool)
    ensures
        r == noop_payload(id, payload@),
{
    match id {
        TILE_TAP_PACKET_ID => payload.len() == 4,
        REQUEST_DEBUG_STATUS_PACKET_ID => payload.len() == 0,
        MENU_CHOOSE_PACKET_ID => payload.len() == 8,
        TEXT_INPUT_RESULT_PACKET_ID => valid_text_input_result_payload(payload),
        _ => false,
    }
}

// ---------------------------------------------------------------------------
// Limits and clocks. Times are nanoseconds of the server's clock.

pub const TCP_KEEPALIVE: u64 = 8_000_000_000;

pub const TCP_TIMEOUT: u64 = 12_000_000_000;

pub const UDP_KEEPALIVE: u64 = 19_000_000_000;

pub const PACKET_SPAM_WINDOW_MS: u64 = 3000;

pub const PACKET_SPAM_LIMIT: u32 = 300;

/// How long ago `last` was; nothing when it lies ahead.
pub open spec fn elapsed(last: u64, now: u64) -> int {
    if now > last { now - last } else { 0 }
}

/// How long ago `last` was; nothing when it lies ahead.
pub fn time_since(last: u64, now: u64) -> (r: u64)
    ensures
        r == elapsed(last, now),
{
    if now > last { now - last } else { 0 }
}

/// Whether a limit, where there is one, is reached.
pub open spec fn limit_reached(limit: u32, connections: usize) -> bool {
    limit > 0 && connections >= limit
}

/// Whether a new connection is turned away: there is a limit and it is reached, by players
/// and by connections that still register.
pub fn connection_limit_blocks_accept(limit: u32, current_connections: usize) -> (r: bool)
    ensures
        r == limit_reached(limit, current_connections),
{
    limit > 0 && current_connections as u64 >= limit as u64
}

/// Whether nothing has come for so long.
pub open spec fn silent_for(last: u64, now: u64, limit: u64) -> bool {
    elapsed(last, now) >= limit
}

/// Whether a connection is dead: only TCP reads count, datagrams do not.
pub fn tcp_idle_timed_out(last_tcp_read: u64, now: u64) -> (r: bool)
    ensures
        r == silent_for(last_tcp_read, now, TCP_TIMEOUT),
{
    time_since(last_tcp_read, now) >= TCP_TIMEOUT
}

pub fn tcp_needs_keepalive(last_tcp_write: u64, now: u64) -> (r: bool)
    ensures
        r == silent_for(last_tcp_write, now, TCP_KEEPALIVE),
{
    time_since(last_tcp_write, now) >= TCP_KEEPALIVE
}

pub fn udp_needs_keepalive(last_udp_comm: u64, now: u64) -> (r: bool)
    ensures
        r == silent_for(last_udp_comm, now, UDP_KEEPALIVE),
{
    time_since(last_udp_comm, now) >= UDP_KEEPALIVE
}

/// Silence that is long enough for the timeout is long enough for a keep-alive: the
/// keep-alive falls due first.
pub proof fn law_keepalive_comes_before_timeout(last: u64, now: u64)
    ensures
        elapsed(last, now) >= TCP_TIMEOUT ==> elapsed(last, now) >= TCP_KEEPALIVE,
        TCP_KEEPALIVE < TCP_TIMEOUT,
{
}

/// Whether a packet counts against the spam limit: empty packets and framework messages do
/// not.
pub open spec fn counts_as_spam(packet: Seq<u8>) -> bool {
    packet.len() > 0 && packet[0] != FRAMEWORK_MESSAGE
}

/// What the rate limiter is to be asked about a packet: how many packets in how many
/// milliseconds are allowed. Of a packet that does not count it is not asked, and the packet is
/// allowed.
pub fn record_inbound_game_packet(packet_data: &[u8]) -> (r: Option<(u64, u32)>)
    ensures
        r == if counts_as_spam(packet_data@) {
            Some((PACKET_SPAM_WINDOW_MS, PACKET_SPAM_LIMIT))
        } else {
            None
        },
{
    if packet_data.len() == 0 || packet_data[0] == FRAMEWORK_MESSAGE {
        None
    } else {
        Some((PACKET_SPAM_WINDOW_MS, PACKET_SPAM_LIMIT))
    }
}

// ---------------------------------------------------------------------------
// Discovery.

#[derive(Clone, Copy, Debug, PartialEq, Eq, Structural)]
pub enum GameMode {
    Survival,
    Sandbox,
    Attack,
    Pvp,
}

/// The number of a mode in discovery answers.
pub open spec fn mode_number(mode: GameMode) -> u8 {
    match mode {
        GameMode::Survival => 0,
        GameMode::Sandbox => 1,
        GameMode::Attack => 2,
        GameMode::Pvp => 3,
    }
}

/// What a server says of itself.
pub struct ServerInfo {
    pub name: String,
    pub description: String,
    pub build: i32,
    pub version_type: String,
}

/// What a server says of its game.
pub struct DiscoveryState {
    pub map_name: String,
    pub players: i32,
    pub wave: i32,
    pub mode: GameMode,
    pub player_limit: u32,
}

/// The last character boundary at or before `end`.
pub open spec fn boundary_before(bytes: Seq<u8>, end: int) -> int
    decreases end,
{
    if end <= 0 || is_char_boundary(bytes, end) { end } else { boundary_before(bytes, end - 1) }
}

/// How many bytes of a text a discovery field of `max` bytes holds.
pub open spec fn discovery_length(text: Seq<char>, max: nat) -> int {
    let bytes = encode_utf8(text);
    let limit = if max < 255 { max as int } else { 255 };
    boundary_before(bytes, if bytes.len() < limit { bytes.len() as int } else { limit })
}

/// A discovery field: a one-byte length and as many bytes of the text.
pub open spec fn discovery_bytes(text: Seq<char>, max: nat) -> Seq<u8> {
    let end = discovery_length(text, max);
    seq![end as u8] + encode_utf8(text).take(end)
}

proof fn lemma_boundary(bytes: Seq<u8>, end: int)
    requires
        valid_utf8(bytes),
        0 <= end <= bytes.len(),
    ensures
        0 <= boundary_before(bytes, end) <= end,
        is_char_boundary(bytes, boundary_before(bytes, end)),
    decreases end,
{
    if end > 0 && !is_char_boundary(bytes, end) {
        lemma_boundary(bytes, end - 1);
    }
}

/// A discovery field keeps the beginning of its text, cut between characters, within its
/// limit; a text that fits is kept whole.
pub proof fn law_discovery_field(text: Seq<char>, max: nat)
    ensures
        0 <= discovery_length(text, max) <= max,
        discovery_length(text, max) <= 255,
        valid_utf8(encode_utf8(text).take(discovery_length(text, max))),
        encode_utf8(text).len() <= max && encode_utf8(text).len() <= 255 ==> discovery_length(
            text,
            max,
        ) == encode_utf8(text).len(),
{
    let bytes = encode_utf8(text);
    vstd::utf8::encode_utf8_valid_utf8(text);
    vstd::utf8::is_char_boundary_start_end_of_seq(bytes);
    let limit = if max < 255 { max as int } else { 255 };
    let start = if bytes.len() < limit { bytes.len() as int } else { limit };
    lemma_boundary(bytes, start);
    let end = boundary_before(bytes, start);
    vstd::utf8::valid_utf8_split(bytes, end);
    assert(bytes.subrange(0, end) =~= bytes.take(end));
}

/// Appends a discovery field.
pub fn write_discovery_string(out: &mut Vec<u8>, value: &str, max: usize)
    ensures
        final(out)@ == old(out)@ + discovery_bytes(value@, max as nat),
{
    let ghost before = out@;
    let bytes = value.as_bytes();
    let limit: usize = if max < 255 { max } else { 255 };
    let mut end: usize = if bytes.len() < limit { bytes.len() } else { limit };
    let ghost start = end as int;
    while end > 0 && !value.is_char_boundary(end)
        invariant
            bytes@ == encode_utf8(value@),
            end <= start <= bytes@.len(),
            start <= 255,
            boundary_before(bytes@, start) == boundary_before(bytes@, end as int),
        decreases end,
    {
        end -= 1;
    }
    out.push(end as u8);
    let (head, _) = bytes.split_at(end);
    write_all(out, head);
    assert(head@ =~= bytes@.take(end as int));
    assert(out@ =~= before + discovery_bytes(value@, max as nat));
}

/// The answer to a discovery request.
pub open spec fn server_info_bytes(info: ServerInfo, state: DiscoveryState, port: u16) -> Seq<u8> {
    discovery_bytes(info.name@, 100) + discovery_bytes(state.map_name@, 64) + be32(
        unsigned32(state.players),
    ) + be32(unsigned32(state.wave)) + be32(unsigned32(info.build)) + discovery_bytes(
        info.version_type@,
        255,
    ) + seq![mode_number(state.mode)] + be32(state.player_limit) + discovery_bytes(
        info.description@,
        100,
    ) + discovery_bytes(Seq::empty(), 50) + be16(port)
}

/// Answers a discovery request.
pub fn encode_server_info(info: &ServerInfo, state: &DiscoveryState, port: u16) -> (out: Vec<u8>)
    ensures
        out@ == server_info_bytes(*info, *state, port),
{
    let mut out: Vec<u8> = Vec::new();
    write_discovery_string(&mut out, info.name.as_str(), 100);
    write_discovery_string(&mut out, state.map_name.as_str(), 64);
    write_i(&mut out, state.players);
    write_i(&mut out, state.wave);
    write_i(&mut out, info.build);
    write_discovery_string(&mut out, info.version_type.as_str(), 255);
    let mode: u8 = match state.mode {
        GameMode::Survival => 0,
        GameMode::Sandbox => 1,
        GameMode::Attack => 2,
        GameMode::Pvp => 3,
    };
    write_b(&mut out, mode);
    write_ui(&mut out, state.player_limit);
    write_discovery_string(&mut out, info.description.as_str(), 100);
    let empty = String::new();
    write_discovery_string(&mut out, empty.as_str(), 50);
    write_us(&mut out, port);
    assert(out@ =~= server_info_bytes(*info, *state, port));
    out
}

} // verus!
