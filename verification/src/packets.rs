//! Framework packets: the join handshake, kick reasons and stream chunks.

use crate::codec::{
    be16, be32, be64, of_be64, take_bytes, take_i32, take_typeio_string, take_typeio_text,
    take_u16, take_u8, take_utf, typeio_bytes, unsigned32, utf_bytes, utf_fits, write_all,
    write_b, write_i, write_l, write_typeio_string, write_us, write_utf, ByteReader, CodecError,
};
use base64::Engine;
use vstd::prelude::*;

verus! {

// ---------------------------------------------------------------------------
// Outside calls.

/// The CRC-32 checksum of a byte string.
pub uninterp spec fn crc32_of(bytes: Seq<u8>) -> u32;

/// The standard base64 text of a byte string.
pub uninterp spec fn base64_encoded(bytes: Seq<u8>) -> Seq<char>;

/// The bytes that a standard base64 text stands for, if it is one.
pub uninterp spec fn base64_decoded(text: Seq<char>) -> Option<Seq<u8>>;

/// Calls `crc32fast::hash`. The checksum depends on the bytes alone; its value is
/// left unsaid.
#[verifier::external_body]
fn crc32(bytes: &[u8]) -> (r: u32)
    ensures
        r == crc32_of(bytes@),
{
    crc32fast::hash(bytes)
}

/// Calls `encode` of `base64::engine::general_purpose::STANDARD`: the base64 text of
/// the bytes, from which decoding gives them back.
#[verifier::external_body]
fn encode_base64(bytes: &[u8]) -> (r: String)
    requires
        bytes@.len() <= 0xFFFF,
    ensures
        r@ == base64_encoded(bytes@),
        base64_decoded(r@) == Some(bytes@),
{
    base64::engine::general_purpose::STANDARD.encode(bytes)
}

/// Calls `decode` of `base64::engine::general_purpose::STANDARD`, which takes
/// canonical texts only: padded, and without stray bits in the last symbol. So the
/// base64 text of what it returns is the text that it was given.
#[verifier::external_body]
fn decode_base64(text: &str) -> (r: Option<Vec<u8>>)
    ensures
        match r {
            Some(bytes) => base64_decoded(text@) == Some(bytes@) && base64_encoded(bytes@)
                == text@,
            None => base64_decoded(text@) is None,
        },
{
    base64::engine::general_purpose::STANDARD.decode(text).ok()
}

// ---------------------------------------------------------------------------
// Fields in sequence.

/// What a writer appends, and the error that stopped it.
pub type Written = (Seq<u8>, Option<CodecError>);

/// Bytes that are written whatever they are.
pub open spec fn raw(bytes: Seq<u8>) -> Written {
    (bytes, None)
}

/// The second writer runs where the first one did not fail.
pub open spec fn followed_by(a: Written, b: Written) -> Written {
    if a.1 is Some { a } else { (a.0 + b.0, b.1) }
}

/// A present string; where it does not fit, only its tag goes out.
pub open spec fn text_written(text: Seq<char>) -> Written {
    if utf_fits(text) {
        raw(typeio_bytes(text))
    } else {
        (seq![1u8], Some(CodecError::StringTooLong))
    }
}

/// Present strings one after the other.
pub open spec fn texts_written(texts: Seq<Seq<char>>) -> Written
    decreases texts.len(),
{
    if texts.len() == 0 {
        raw(Seq::empty())
    } else {
        followed_by(texts_written(texts.drop_last()), text_written(texts.last()))
    }
}

/// Whether a call of a writer did what `w` says.
pub open spec fn wrote(
    before: Seq<u8>,
    after: Seq<u8>,
    r: Result<(), CodecError>,
    w: Written,
) -> bool {
    &&& after == before + w.0
    &&& match w.1 {
        None => r == Ok::<(), CodecError>(()),
        Some(e) => r == Err::<(), CodecError>(e),
    }
}

/// The views of a list of strings.
pub open spec fn texts_of(v: Seq<String>) -> Seq<Seq<char>> {
    Seq::new(v.len(), |i: int| v[i]@)
}

fn write_text(w: &mut Vec<u8>, text: &str) -> (r: Result<(), CodecError>)
    ensures
        wrote(old(w)@, final(w)@, r, text_written(text@)),
{
    write_typeio_string(w, text)
}

// ---------------------------------------------------------------------------
// Kick reasons.

#[derive(Debug, Clone)]
pub enum KickReason {
    Kick,
    ClientOutdated,
    ServerOutdated,
    Banned,
    Gameover,
    RecentKick,
    NameInUse,
    IdInUse,
    NameEmpty,
    CustomClient,
    ServerClose,
    Vote,
    TypeMismatch,
    Whitelist,
    PlayerLimit,
    ServerRestarting,
    Custom(String),
}

/// A kick reason as its wire number and, for the last one, its text.
pub struct KickReasonView {
    pub code: u8,
    pub text: Option<Seq<char>>,
}

impl View for KickReason {
    type V = KickReasonView;

    open spec fn view(&self) -> KickReasonView {
        match self {
            KickReason::Kick => KickReasonView { code: 0, text: None },
            KickReason::ClientOutdated => KickReasonView { code: 1, text: None },
            KickReason::ServerOutdated => KickReasonView { code: 2, text: None },
            KickReason::Banned => KickReasonView { code: 3, text: None },
            KickReason::Gameover => KickReasonView { code: 4, text: None },
            KickReason::RecentKick => KickReasonView { code: 5, text: None },
            KickReason::NameInUse => KickReasonView { code: 6, text: None },
            KickReason::IdInUse => KickReasonView { code: 7, text: None },
            KickReason::NameEmpty => KickReasonView { code: 8, text: None },
            KickReason::CustomClient => KickReasonView { code: 9, text: None },
            KickReason::ServerClose => KickReasonView { code: 10, text: None },
            KickReason::Vote => KickReasonView { code: 11, text: None },
            KickReason::TypeMismatch => KickReasonView { code: 12, text: None },
            KickReason::Whitelist => KickReasonView { code: 13, text: None },
            KickReason::PlayerLimit => KickReasonView { code: 14, text: None },
            KickReason::ServerRestarting => KickReasonView { code: 15, text: None },
            KickReason::Custom(s) => KickReasonView { code: 16, text: Some(s@) },
        }
    }
}

impl KickReasonView {
    /// The views that a reason can have: sixteen bare codes and the custom text.
    pub open spec fn wf(self) -> bool {
        if self.code == 16 { self.text is Some } else { self.code < 16 && self.text is None }
    }

    pub open spec fn written(self) -> Written {
        match self.text {
            None => raw(seq![self.code]),
            Some(text) => if utf_fits(text) {
                raw(seq![16u8] + utf_bytes(text))
            } else {
                (seq![16u8], Some(CodecError::StringTooLong))
            },
        }
    }
}

/// The kick reason at the head of `s`.
pub open spec fn take_kick_reason(s: Seq<u8>) -> Result<(KickReasonView, Seq<u8>), CodecError> {
    match take_u8(s) {
        Err(e) => Err(e),
        Ok((code, rest)) => if code < 16 {
            Ok((KickReasonView { code, text: None }, rest))
        } else if code == 16 {
            match take_utf(rest) {
                Err(e) => Err(e),
                Ok((text, rest)) => Ok((KickReasonView { code, text: Some(text) }, rest)),
            }
        } else {
            Err(CodecError::UnknownKickReason)
        },
    }
}

impl KickReason {
    pub fn read(r: &mut ByteReader) -> (res: Result<KickReason, CodecError>)
        ensures
            match take_kick_reason(old(r)@) {
                Ok((v, rest)) => res matches Ok(out) && out@ == v && final(r)@ == rest,
                Err(e) => res == Err::<KickReason, CodecError>(e),
            },
    {
        let id: u8 = match r.read_b() {
            Ok(id) => id,
            Err(e) => return Err(e),
        };
        match id {
            0 => Ok(KickReason::Kick),
            1 => Ok(KickReason::ClientOutdated),
            2 => Ok(KickReason::ServerOutdated),
            3 => Ok(KickReason::Banned),
            4 => Ok(KickReason::Gameover),
            5 => Ok(KickReason::RecentKick),
            6 => Ok(KickReason::NameInUse),
            7 => Ok(KickReason::IdInUse),
            8 => Ok(KickReason::NameEmpty),
            9 => Ok(KickReason::CustomClient),
            10 => Ok(KickReason::ServerClose),
            11 => Ok(KickReason::Vote),
            12 => Ok(KickReason::TypeMismatch),
            13 => Ok(KickReason::Whitelist),
            14 => Ok(KickReason::PlayerLimit),
            15 => Ok(KickReason::ServerRestarting),
            16 => match r.read_utf() {
                Ok(text) => Ok(KickReason::Custom(text)),
                Err(e) => Err(e),
            },
            _ => Err(CodecError::UnknownKickReason),
        }
    }

    /// The wire number of the reason.
    pub fn code(&self) -> (c: u8)
        ensures
            c == self@.code,
    {
        match self {
            KickReason::Kick => 0,
            KickReason::ClientOutdated => 1,
            KickReason::ServerOutdated => 2,
            KickReason::Banned => 3,
            KickReason::Gameover => 4,
            KickReason::RecentKick => 5,
            KickReason::NameInUse => 6,
            KickReason::IdInUse => 7,
            KickReason::NameEmpty => 8,
            KickReason::CustomClient => 9,
            KickReason::ServerClose => 10,
            KickReason::Vote => 11,
            KickReason::TypeMismatch => 12,
            KickReason::Whitelist => 13,
            KickReason::PlayerLimit => 14,
            KickReason::ServerRestarting => 15,
            KickReason::Custom(_) => 16,
        }
    }

    pub fn write(&self, w: &mut Vec<u8>) -> (r: Result<(), CodecError>)
        ensures
            wrote(old(w)@, final(w)@, r, self@.written()),
    {
        let ghost before = w@;
        write_b(w, self.code());
        match self {
            KickReason::Custom(s) => {
                let r = write_utf(w, s.as_str());
                proof {
                    if utf_fits(s@) {
                        assert(w@ =~= before + (seq![16u8] + utf_bytes(s@)));
                    }
                }
                r
            },
            _ => Ok(()),
        }
    }
}

/// Reading what a reason wrote gives the reason back and leaves what follows.
pub proof fn law_kick_reason_round_trip(k: KickReasonView, tail: Seq<u8>)
    requires
        k.wf(),
        k.written().1 is None,
    ensures
        take_kick_reason(k.written().0 + tail) == Ok::<(KickReasonView, Seq<u8>), CodecError>(
            (k, tail),
        ),
{
    let all = k.written().0 + tail;
    match k.text {
        None => {
            assert(all.skip(1) =~= tail);
        },
        Some(text) => {
            crate::codec::law_utf_round_trip(text, tail);
            assert(all.skip(1) =~= utf_bytes(text) + tail);
        },
    }
}

// ---------------------------------------------------------------------------
// Packets.

#[derive(Debug, Clone)]
pub enum AdminAction {
    Ban,
    Kick,
    Trace,
}

#[derive(Debug, Clone)]
pub struct ConnectPacket {
    pub version: i32,
    pub version_type: String,
    pub name: String,
    pub locale: String,
    pub usid: String,
    pub uuid: String,
    pub mobile: bool,
    pub color: i32,
    pub mods: Vec<String>,
}

#[derive(Debug, Clone)]
pub struct Connect {
    pub uuid: String,
    pub usid: String,
    pub address: String,
}

#[derive(Debug, Clone)]
pub struct Disconnect {
    pub reason: KickReason,
}

#[derive(Debug, Clone)]
pub struct StreamBegin {}

#[derive(Debug, Clone)]
pub struct StreamChunk {
    pub id: i32,
    pub data: Vec<u8>,
}

#[derive(Debug, Clone)]
pub struct WorldStream {}

#[derive(Debug, Clone)]
pub struct AssetRequirementStream {}

#[derive(Debug, Clone)]
pub struct AssetStream {}

#[derive(Debug, Clone)]
pub struct KeepAlive {}

#[derive(Debug, Clone)]
pub struct Ping {}

#[derive(Debug, Clone)]
pub enum Packet {
    ConnectPacket(ConnectPacket),
    Connect(Connect),
    Disconnect(Disconnect),
    StreamBegin(StreamBegin),
    StreamChunk(StreamChunk),
    WorldStream(WorldStream),
    AssetRequirementStream(AssetRequirementStream),
    AssetStream(AssetStream),
    KeepAlive(KeepAlive),
    Ping(Ping),
    /// Generated Call packets are build-dependent. Keeping their raw payload
    /// prevents a newer client packet from killing the transport connection.
    Unknown { id: u8, payload: Vec<u8> },
}

/// The contents of a [`ConnectPacket`].
pub struct ConnectPacketView {
    pub version: i32,
    pub version_type: Seq<char>,
    pub name: Seq<char>,
    pub locale: Seq<char>,
    pub usid: Seq<char>,
    pub uuid: Seq<char>,
    pub mobile: bool,
    pub color: i32,
    pub mods: Seq<Seq<char>>,
}

/// The contents of a [`Packet`].
pub enum PacketView {
    ConnectPacket(ConnectPacketView),
    Connect { uuid: Seq<char>, usid: Seq<char>, address: Seq<char> },
    Disconnect(KickReasonView),
    StreamBegin,
    StreamChunk { id: i32, data: Seq<u8> },
    WorldStream,
    AssetRequirementStream,
    AssetStream,
    KeepAlive,
    Ping,
    Unknown { id: u8, payload: Seq<u8> },
}

impl View for ConnectPacket {
    type V = ConnectPacketView;

    open spec fn view(&self) -> ConnectPacketView {
        ConnectPacketView {
            version: self.version,
            version_type: self.version_type@,
            name: self.name@,
            locale: self.locale@,
            usid: self.usid@,
            uuid: self.uuid@,
            mobile: self.mobile,
            color: self.color,
            mods: texts_of(self.mods@),
        }
    }
}

impl View for Packet {
    type V = PacketView;

    open spec fn view(&self) -> PacketView {
        match self {
            Packet::ConnectPacket(p) => PacketView::ConnectPacket(p@),
            Packet::Connect(p) => PacketView::Connect {
                uuid: p.uuid@,
                usid: p.usid@,
                address: p.address@,
            },
            Packet::Disconnect(p) => PacketView::Disconnect(p.reason@),
            Packet::StreamBegin(_) => PacketView::StreamBegin,
            Packet::StreamChunk(p) => PacketView::StreamChunk { id: p.id, data: p.data@ },
            Packet::WorldStream(_) => PacketView::WorldStream,
            Packet::AssetRequirementStream(_) => PacketView::AssetRequirementStream,
            Packet::AssetStream(_) => PacketView::AssetStream,
            Packet::KeepAlive(_) => PacketView::KeepAlive,
            Packet::Ping(_) => PacketView::Ping,
            Packet::Unknown { id, payload } => PacketView::Unknown { id: *id, payload: payload@ },
        }
    }
}

/// Identity bytes and their checksum as an eight-byte number, where the identity has
/// one of the two accepted lengths.
pub open spec fn identity_written(identity: Seq<u8>, crc: u32) -> Written {
    if identity.len() == 8 || identity.len() == 16 {
        raw(identity + be64(crc as u64))
    } else {
        (Seq::empty(), Some(CodecError::UuidLength))
    }
}

/// The identity of a connect packet, from its base64 text.
pub open spec fn uuid_written(uuid: Seq<char>) -> Written {
    match base64_decoded(uuid) {
        None => (Seq::empty(), Some(CodecError::UuidNotBase64)),
        Some(identity) => identity_written(identity, crc32_of(identity)),
    }
}

/// A count byte and the mod names.
pub open spec fn mods_written(mods: Seq<Seq<char>>) -> Written {
    if mods.len() > 255 {
        (Seq::empty(), Some(CodecError::TooManyMods))
    } else {
        followed_by(raw(seq![mods.len() as u8]), texts_written(mods))
    }
}

/// What stands before the identity.
pub open spec fn connect_head_written(p: ConnectPacketView) -> Written {
    followed_by(
        followed_by(
            followed_by(
                followed_by(raw(be32(unsigned32(p.version))), text_written(p.version_type)),
                text_written(p.name),
            ),
            text_written(p.locale),
        ),
        text_written(p.usid),
    )
}

/// What stands behind the identity.
pub open spec fn connect_tail_written(p: ConnectPacketView) -> Written {
    followed_by(
        raw(seq![if p.mobile { 1u8 } else { 0u8 }] + be32(unsigned32(p.color))),
        mods_written(p.mods),
    )
}

impl ConnectPacketView {
    #[verifier::opaque]
    pub open spec fn written(self) -> Written {
        followed_by(
            followed_by(connect_head_written(self), uuid_written(self.uuid)),
            connect_tail_written(self),
        )
    }
}

impl PacketView {
    /// What the packet appends to a buffer. The length of a stream chunk is written
    /// modulo two to the sixteenth.
    pub open spec fn written(self) -> Written {
        match self {
            PacketView::ConnectPacket(p) => p.written(),
            PacketView::Connect { uuid, usid, address } => followed_by(
                followed_by(text_written(uuid), text_written(usid)),
                text_written(address),
            ),
            PacketView::Disconnect(reason) => reason.written(),
            PacketView::StreamChunk { id, data } => raw(
                be32(unsigned32(id)) + be16((data.len() % 0x1_0000) as u16) + data,
            ),
            PacketView::Unknown { payload, .. } => raw(payload),
            _ => raw(Seq::empty()),
        }
    }
}

/// Appends an identity and its checksum.
pub fn write_identity(w: &mut Vec<u8>, identity: &[u8], crc: u32) -> (r: Result<(), CodecError>)
    ensures
        wrote(old(w)@, final(w)@, r, identity_written(identity@, crc)),
{
    let ghost before = w@;
    // Official desktop identities are 8 decoded bytes; load harnesses also use
    // 16-byte ones.
    if identity.len() != 8 && identity.len() != 16 {
        assert(w@ =~= before + Seq::<u8>::empty());
        return Err(CodecError::UuidLength);
    }
    write_all(w, identity);
    write_l(w, crc as i64);
    assert(w@ =~= before + (identity@ + be64(crc as u64)));
    Ok(())
}

fn write_uuid(w: &mut Vec<u8>, uuid: &str) -> (r: Result<(), CodecError>)
    ensures
        wrote(old(w)@, final(w)@, r, uuid_written(uuid@)),
{
    let ghost before = w@;
    match decode_base64(uuid) {
        None => {
            assert(w@ =~= before + Seq::<u8>::empty());
            Err(CodecError::UuidNotBase64)
        },
        Some(identity) => {
            let crc = crc32(identity.as_slice());
            write_identity(w, identity.as_slice(), crc)
        },
    }
}

fn write_mods(w: &mut Vec<u8>, mods: &Vec<String>) -> (r: Result<(), CodecError>)
    ensures
        wrote(old(w)@, final(w)@, r, mods_written(texts_of(mods@))),
{
    let ghost before = w@;
    let ghost texts = texts_of(mods@);
    if mods.len() > 255 {
        assert(w@ =~= before + Seq::<u8>::empty());
        return Err(CodecError::TooManyMods);
    }
    write_b(w, mods.len() as u8);
    let ghost counted = w@;
    let mut i: usize = 0;
    assert(texts.take(0) =~= Seq::empty());
    assert(w@ =~= counted + texts_written(texts.take(0)).0);
    while i < mods.len()
        invariant
            before == old(w)@,
            i <= mods.len() <= 255,
            texts == texts_of(mods@),
            counted == before + seq![mods.len() as u8],
            w@ == counted + texts_written(texts.take(i as int)).0,
            texts_written(texts.take(i as int)).1 is None,
        decreases mods.len() - i,
    {
        let r = write_text(w, mods[i].as_str());
        let ghost grown = texts.take(i + 1);
        assert(grown.drop_last() =~= texts.take(i as int));
        assert(grown.last() == mods@[i as int]@);
        assert(w@ =~= counted + texts_written(grown).0);
        if r.is_err() {
            proof {
                lemma_texts_written_stops(texts, i + 1);
            }
            assert(w@ =~= before + (seq![mods.len() as u8] + texts_written(texts).0));
            return r;
        }
        i += 1;
    }
    assert(texts.take(i as int) =~= texts);
    assert(w@ =~= before + (seq![mods.len() as u8] + texts_written(texts).0));
    Ok(())
}

/// Once one of the texts fails, the later ones add nothing.
proof fn lemma_texts_written_stops(texts: Seq<Seq<char>>, n: int)
    requires
        0 <= n <= texts.len(),
        texts_written(texts.take(n)).1 is Some,
    ensures
        texts_written(texts) == texts_written(texts.take(n)),
    decreases texts.len(),
{
    if n == texts.len() {
        assert(texts.take(n) =~= texts);
    } else {
        assert(texts.drop_last().take(n) =~= texts.take(n));
        lemma_texts_written_stops(texts.drop_last(), n);
    }
}

proof fn lemma_followed(before: Seq<u8>, a: Written, b: Written)
    ensures
        before + a.0 + b.0 == before + (a.0 + b.0),
        a.1 is None ==> before + followed_by(a, b).0 == before + a.0 + b.0,
{
    assert(before + a.0 + b.0 =~= before + (a.0 + b.0));
}

impl ConnectPacket {
    fn write_head(&self, w: &mut Vec<u8>) -> (r: Result<(), CodecError>)
        ensures
            wrote(old(w)@, final(w)@, r, connect_head_written(self@)),
    {
        let ghost before = w@;
        let ghost w0 = raw(be32(unsigned32(self.version)));
        let ghost w1 = followed_by(w0, text_written(self.version_type@));
        let ghost w2 = followed_by(w1, text_written(self.name@));
        let ghost w3 = followed_by(w2, text_written(self.locale@));
        proof {
            lemma_followed(before, w0, text_written(self.version_type@));
            lemma_followed(before, w1, text_written(self.name@));
            lemma_followed(before, w2, text_written(self.locale@));
            lemma_followed(before, w3, text_written(self.usid@));
        }
        write_i(w, self.version);
        let r = write_text(w, self.version_type.as_str());
        if r.is_err() {
            return r;
        }
        let r = write_text(w, self.name.as_str());
        if r.is_err() {
            return r;
        }
        let r = write_text(w, self.locale.as_str());
        if r.is_err() {
            return r;
        }
        write_text(w, self.usid.as_str())
    }

    fn write(&self, w: &mut Vec<u8>) -> (r: Result<(), CodecError>)
        ensures
            wrote(old(w)@, final(w)@, r, self@.written()),
    {
        reveal(ConnectPacketView::written);
        let ghost before = w@;
        let ghost head = connect_head_written(self@);
        let ghost with_uuid = followed_by(head, uuid_written(self.uuid@));
        let ghost middle = raw(
            seq![if self.mobile { 1u8 } else { 0u8 }] + be32(unsigned32(self.color)),
        );
        proof {
            lemma_followed(before, head, uuid_written(self.uuid@));
            lemma_followed(before, with_uuid, connect_tail_written(self@));
        }
        let r = self.write_head(w);
        if r.is_err() {
            return r;
        }
        let r = write_uuid(w, self.uuid.as_str());
        if r.is_err() {
            return r;
        }
        let ghost at = w@;
        write_b(w, if self.mobile { 1 } else { 0 });
        write_i(w, self.color);
        assert(w@ =~= at + middle.0);
        proof {
            lemma_followed(at, middle, mods_written(self@.mods));
        }
        write_mods(w, &self.mods)
    }
}

impl Packet {
    pub fn write(&self, w: &mut Vec<u8>) -> (r: Result<(), CodecError>)
        ensures
            wrote(old(w)@, final(w)@, r, self@.written()),
    {
        let ghost before = w@;
        match self {
            Packet::ConnectPacket(p) => p.write(w),
            Packet::Connect(p) => {
                let ghost w1 = followed_by(text_written(p.uuid@), text_written(p.usid@));
                proof {
                    lemma_followed(before, text_written(p.uuid@), text_written(p.usid@));
                    lemma_followed(before, w1, text_written(p.address@));
                }
                let r = write_text(w, p.uuid.as_str());
                if r.is_err() {
                    return r;
                }
                let r = write_text(w, p.usid.as_str());
                if r.is_err() {
                    return r;
                }
                write_text(w, p.address.as_str())
            },
            Packet::Disconnect(p) => p.reason.write(w),
            Packet::StreamChunk(p) => {
                write_i(w, p.id);
                write_us(w, (p.data.len() % 0x1_0000) as u16);
                write_all(w, p.data.as_slice());
                assert(w@ =~= before + (be32(unsigned32(p.id)) + be16(
                    (p.data@.len() % 0x1_0000) as u16,
                ) + p.data@));
                Ok(())
            },
            Packet::Unknown { payload, .. } => {
                write_all(w, payload.as_slice());
                Ok(())
            },
            _ => {
                assert(w@ =~= before + Seq::<u8>::empty());
                Ok(())
            },
        }
    }
}

// ---------------------------------------------------------------------------
// Reading packets.

/// How many identity bytes stand at the head of `identity`, given the checksums of
/// its first 8 and first 16 bytes. The shorter form wins where both match.
pub open spec fn spec_identity_length(
    identity: Seq<u8>,
    short_crc: u32,
    long_crc: u32,
) -> Option<usize> {
    if identity.len() >= 16 && of_be64(identity.subrange(8, 16)) == short_crc {
        Some(8)
    } else if identity.len() >= 24 && of_be64(identity.subrange(16, 24)) == long_crc {
        Some(16)
    } else {
        None
    }
}

/// The base64 identity at the head of `s`, and what stands behind its checksum.
pub open spec fn split_identity(s: Seq<u8>) -> Result<(Seq<char>, Seq<u8>), CodecError> {
    match spec_identity_length(s, crc32_of(s.take(8)), crc32_of(s.take(16))) {
        Some(n) => Ok((base64_encoded(s.take(n as int)), s.skip(n + 8))),
        None => Err(CodecError::UuidChecksum),
    }
}

/// `n` mod names, none of them null.
pub open spec fn take_mods(s: Seq<u8>, n: nat) -> Result<(Seq<Seq<char>>, Seq<u8>), CodecError>
    decreases n,
{
    if n == 0 {
        Ok((Seq::empty(), s))
    } else {
        match take_typeio_string(s) {
            Err(e) => Err(e),
            Ok((None, _)) => Err(CodecError::NullModName),
            Ok((Some(name), rest)) => match take_mods(rest, (n - 1) as nat) {
                Err(e) => Err(e),
                Ok((more, rest)) => Ok((seq![name] + more, rest)),
            },
        }
    }
}

/// The fields behind the identity of a connect packet.
pub open spec fn take_connect_tail(s: Seq<u8>) -> Result<
    (bool, i32, Seq<Seq<char>>),
    CodecError,
> {
    match take_u8(s) {
        Err(e) => Err(e),
        Ok((mobile, s)) => match take_i32(s) {
            Err(e) => Err(e),
            Ok((color, s)) => match take_u8(s) {
                Err(e) => Err(e),
                Ok((count, s)) => match take_mods(s, count as nat) {
                    Err(e) => Err(e),
                    Ok((mods, _)) => Ok((mobile == 1, color, mods)),
                },
            },
        },
    }
}

/// A connect packet: it takes all that is left.
#[verifier::opaque]
pub open spec fn take_connect(s: Seq<u8>) -> Result<ConnectPacketView, CodecError> {
    match take_i32(s) {
        Err(e) => Err(e),
        Ok((version, s)) => match take_typeio_text(s) {
            Err(e) => Err(e),
            Ok((version_type, s)) => match take_typeio_text(s) {
                Err(e) => Err(e),
                Ok((name, s)) => match take_typeio_text(s) {
                    Err(e) => Err(e),
                    Ok((locale, s)) => match take_typeio_text(s) {
                        Err(e) => Err(e),
                        Ok((usid, s)) => match split_identity(s) {
                            Err(e) => Err(e),
                            Ok((uuid, s)) => match take_connect_tail(s) {
                                Err(e) => Err(e),
                                Ok((mobile, color, mods)) => Ok(
                                    ConnectPacketView {
                                        version,
                                        version_type,
                                        name,
                                        locale,
                                        usid,
                                        uuid,
                                        mobile,
                                        color,
                                        mods,
                                    },
                                ),
                            },
                        },
                    },
                },
            },
        },
    }
}

/// The packet with number `id` at the head of `s`, and what it leaves.
pub open spec fn take_packet(s: Seq<u8>, id: u8) -> Result<(PacketView, Seq<u8>), CodecError> {
    if id == 0 {
        Ok((PacketView::StreamBegin, s))
    } else if id == 1 {
        match take_i32(s) {
            Err(e) => Err(e),
            Ok((id, s)) => match take_u16(s) {
                Err(e) => Err(e),
                Ok((len, s)) => match take_bytes(s, len as nat) {
                    Err(e) => Err(e),
                    Ok((data, s)) => Ok((PacketView::StreamChunk { id, data }, s)),
                },
            },
        }
    } else if id == 2 {
        Ok((PacketView::WorldStream, s))
    } else if id == 3 {
        match take_connect(s) {
            Err(e) => Err(e),
            Ok(p) => Ok((PacketView::ConnectPacket(p), Seq::empty())),
        }
    } else if id == 4 {
        Ok((PacketView::AssetRequirementStream, s))
    } else if id == 5 {
        Ok((PacketView::AssetStream, s))
    } else {
        Ok((PacketView::Unknown { id, payload: s }, Seq::empty()))
    }
}

/// The eight bytes from `at` as a number.
fn number_at(b: &[u8], at: usize) -> (v: u64)
    requires
        at + 8 <= b@.len(),
    ensures
        v == of_be64(b@.subrange(at as int, at + 8)),
{
    let ghost s = b@.subrange(at as int, at + 8);
    let w0: u16 = b[at] as u16 * 0x100 + b[at + 1] as u16;
    let w1: u16 = b[at + 2] as u16 * 0x100 + b[at + 3] as u16;
    let w2: u16 = b[at + 4] as u16 * 0x100 + b[at + 5] as u16;
    let w3: u16 = b[at + 6] as u16 * 0x100 + b[at + 7] as u16;
    let hi: u32 = w0 as u32 * 0x1_0000 + w1 as u32;
    let lo: u32 = w2 as u32 * 0x1_0000 + w3 as u32;
    assert(hi == crate::codec::of_be32(s));
    assert(lo == crate::codec::of_be32(s.skip(4)));
    hi as u64 * 0x1_0000_0000 + lo as u64
}

/// Picks the identity length from the checksums of the first 8 and 16 bytes.
pub fn identity_length(identity: &[u8], short_crc: u32, long_crc: u32) -> (n: Option<usize>)
    ensures
        n == spec_identity_length(identity@, short_crc, long_crc),
{
    if identity.len() >= 16 && number_at(identity, 8) == short_crc as u64 {
        return Some(8);
    }
    if identity.len() >= 24 && number_at(identity, 16) == long_crc as u64 {
        return Some(16);
    }
    None
}

/// The checksum of the first `n` bytes, where they and eight more are there.
fn prefix_crc(identity: &[u8], n: usize) -> (crc: u32)
    requires
        n <= 16,
    ensures
        identity@.len() >= n + 8 ==> crc == crc32_of(identity@.take(n as int)),
{
    if identity.len() < n + 8 {
        return 0;
    }
    let (head, _) = identity.split_at(n);
    assert(head@ =~= identity@.take(n as int));
    crc32(head)
}

/// Splits the tail of a connect packet behind `usid` into the base64 identity and the
/// remaining body.
pub fn split_connect_uuid(identity: &[u8]) -> (r: Result<(String, &[u8]), CodecError>)
    ensures
        match split_identity(identity@) {
            Ok((uuid, rest)) => r matches Ok((out, body)) && out@ == uuid && body@ == rest,
            Err(e) => r == Err::<(String, &[u8]), CodecError>(e),
        },
{
    let short_crc: u32 = prefix_crc(identity, 8);
    let long_crc: u32 = prefix_crc(identity, 16);
    match identity_length(identity, short_crc, long_crc) {
        None => Err(CodecError::UuidChecksum),
        Some(n) => {
            let (head, _) = identity.split_at(n);
            let (_, body) = identity.split_at(n + 8);
            assert(head@ =~= identity@.take(n as int));
            assert(body@ =~= identity@.skip(n + 8));
            Ok((encode_base64(head), body))
        },
    }
}

fn read_mods(r: &mut ByteReader, count: u8) -> (res: Result<Vec<String>, CodecError>)
    ensures
        match take_mods(old(r)@, count as nat) {
            Ok((v, rest)) => res matches Ok(out) && texts_of(out@) == v && final(r)@ == rest,
            Err(e) => res == Err::<Vec<String>, CodecError>(e),
        },
{
    let ghost start = r@;
    let mut mods: Vec<String> = Vec::new();
    let mut left: u8 = count;
    proof {
        match take_mods(r@, left as nat) {
            Ok((more, _)) => assert(texts_of(mods@) + more =~= more),
            Err(_) => {},
        }
    }
    while left > 0
        invariant
            start == old(r)@,
            left <= count,
            take_mods(start, count as nat) == match take_mods(r@, left as nat) {
                Ok((more, rest)) => Ok::<(Seq<Seq<char>>, Seq<u8>), CodecError>(
                    (texts_of(mods@) + more, rest),
                ),
                Err(e) => Err(e),
            },
        decreases left,
    {
        let ghost at = r@;
        let ghost so_far = mods@;
        let name = match r.read_typeio_string() {
            Err(e) => return Err(e),
            Ok(None) => return Err(CodecError::NullModName),
            Ok(Some(name)) => name,
        };
        let ghost text = name@;
        mods.push(name);
        left -= 1;
        proof {
            assert(texts_of(mods@) =~= texts_of(so_far) + seq![text]);
            match take_mods(r@, left as nat) {
                Ok((more, _)) => assert(texts_of(so_far) + (seq![text] + more) =~= texts_of(mods@)
                    + more),
                Err(_) => {},
            }
        }
    }
    assert(texts_of(mods@) + Seq::<Seq<char>>::empty() =~= texts_of(mods@));
    Ok(mods)
}

impl ConnectPacket {
    fn read(r: &mut ByteReader) -> (res: Result<ConnectPacket, CodecError>)
        ensures
            match take_connect(old(r)@) {
                Ok(v) => res matches Ok(out) && out@ == v && final(r)@ == Seq::<u8>::empty(),
                Err(e) => res == Err::<ConnectPacket, CodecError>(e),
            },
    {
        reveal(take_connect);
        let version: i32 = match r.read_i() {
            Ok(v) => v,
            Err(e) => return Err(e),
        };
        let version_type = match r.read_typeio_text() {
            Ok(v) => v,
            Err(e) => return Err(e),
        };
        let name = match r.read_typeio_text() {
            Ok(v) => v,
            Err(e) => return Err(e),
        };
        let locale = match r.read_typeio_text() {
            Ok(v) => v,
            Err(e) => return Err(e),
        };
        let usid = match r.read_typeio_text() {
            Ok(v) => v,
            Err(e) => return Err(e),
        };
        // The writer emits the identity bytes and their checksum as a long. Desktop
        // identities are 8 bytes long; a fixed 16-byte read would run past the end of
        // what such a client sends.
        let identity = r.read_to_end();
        let (uuid, body) = match split_connect_uuid(identity.as_slice()) {
            Ok(parts) => parts,
            Err(e) => return Err(e),
        };
        let mut tail = ByteReader::new(body);
        let mobile: u8 = match tail.read_b() {
            Ok(v) => v,
            Err(e) => return Err(e),
        };
        let color: i32 = match tail.read_i() {
            Ok(v) => v,
            Err(e) => return Err(e),
        };
        let count: u8 = match tail.read_b() {
            Ok(v) => v,
            Err(e) => return Err(e),
        };
        let mods = match read_mods(&mut tail, count) {
            Ok(v) => v,
            Err(e) => return Err(e),
        };
        Ok(
            ConnectPacket {
                version,
                version_type,
                name,
                locale,
                usid,
                uuid,
                mobile: mobile == 1,
                color,
                mods,
            },
        )
    }
}

impl Packet {
    pub fn read(r: &mut ByteReader, id: u8) -> (res: Result<Packet, CodecError>)
        ensures
            match take_packet(old(r)@, id) {
                Ok((v, rest)) => res matches Ok(out) && out@ == v && final(r)@ == rest,
                Err(e) => res == Err::<Packet, CodecError>(e),
            },
    {
        match id {
            3 => match ConnectPacket::read(r) {
                Ok(p) => Ok(Packet::ConnectPacket(p)),
                Err(e) => Err(e),
            },
            0 => Ok(Packet::StreamBegin(StreamBegin {  })),
            1 => {
                let chunk: i32 = match r.read_i() {
                    Ok(v) => v,
                    Err(e) => return Err(e),
                };
                let len: u16 = match r.read_us() {
                    Ok(v) => v,
                    Err(e) => return Err(e),
                };
                match r.read_bytes(len as usize) {
                    Ok(data) => Ok(Packet::StreamChunk(StreamChunk { id: chunk, data })),
                    Err(e) => Err(e),
                }
            },
            2 => Ok(Packet::WorldStream(WorldStream {  })),
            4 => Ok(Packet::AssetRequirementStream(AssetRequirementStream {  })),
            5 => Ok(Packet::AssetStream(AssetStream {  })),
            _ => Ok(Packet::Unknown { id, payload: r.read_to_end() }),
        }
    }
}

// ---------------------------------------------------------------------------
// Round trips.

/// The number under which a packet of this kind is read back. Connections,
/// disconnections, keep-alives and pings have none.
pub open spec fn read_number(p: PacketView) -> Option<u8> {
    match p {
        PacketView::StreamBegin => Some(0),
        PacketView::StreamChunk { .. } => Some(1),
        PacketView::WorldStream => Some(2),
        PacketView::ConnectPacket(_) => Some(3),
        PacketView::AssetRequirementStream => Some(4),
        PacketView::AssetStream => Some(5),
        PacketView::Unknown { id, .. } => if id > 5 { Some(id) } else { None },
        _ => None,
    }
}

/// A 16-byte identity whose second half reads as the checksum of its first half: on
/// the wire it cannot be told from an 8-byte one.
pub open spec fn ambiguous_identity(identity: Seq<u8>) -> bool {
    identity.len() == 16 && of_be64(identity.skip(8)) == crc32_of(identity.take(8))
}

/// The base64 identities that are read back.
pub open spec fn identity_readable(uuid: Seq<char>) -> bool {
    match base64_decoded(uuid) {
        Some(identity) => base64_encoded(identity) == uuid && !ambiguous_identity(identity),
        None => false,
    }
}

proof fn lemma_text_round_trip(text: Seq<char>, tail: Seq<u8>)
    requires
        text_written(text).1 is None,
    ensures
        take_typeio_text(text_written(text).0 + tail) == Ok::<(Seq<char>, Seq<u8>), CodecError>(
            (text, tail),
        ),
        take_typeio_string(text_written(text).0 + tail) == Ok::<
            (Option<Seq<char>>, Seq<u8>),
            CodecError,
        >((Some(text), tail)),
{
    crate::codec::law_typeio_round_trip(text, tail);
}

proof fn lemma_mods_round_trip(mods: Seq<Seq<char>>, tail: Seq<u8>)
    requires
        texts_written(mods).1 is None,
    ensures
        take_mods(texts_written(mods).0 + tail, mods.len()) == Ok::<
            (Seq<Seq<char>>, Seq<u8>),
            CodecError,
        >((mods, tail)),
    decreases mods.len(),
{
    if mods.len() == 0 {
        assert(texts_written(mods).0 + tail =~= tail);
        assert(mods =~= Seq::empty());
    } else {
        lemma_texts_written_front(mods);
        let first = mods.first();
        let rest = mods.drop_first();
        let after = texts_written(rest).0 + tail;
        lemma_text_round_trip(first, after);
        assert(texts_written(mods).0 + tail =~= text_written(first).0 + after);
        lemma_mods_round_trip(rest, tail);
        assert(seq![first] + rest =~= mods);
    }
}

/// The first text can be split off instead of the last one.
proof fn lemma_texts_written_front(texts: Seq<Seq<char>>)
    requires
        texts.len() > 0,
    ensures
        texts_written(texts) == followed_by(
            text_written(texts.first()),
            texts_written(texts.drop_first()),
        ),
    decreases texts.len(),
{
    if texts.len() == 1 {
        assert(texts.drop_last() =~= Seq::empty());
        assert(texts.drop_first() =~= Seq::empty());
        assert(Seq::<u8>::empty() + text_written(texts.last()).0 =~= text_written(
            texts.first(),
        ).0 + Seq::<u8>::empty());
    } else {
        lemma_texts_written_front(texts.drop_last());
        assert(texts.drop_last().drop_first() =~= texts.drop_first().drop_last());
        let a = text_written(texts.first());
        let b = texts_written(texts.drop_first().drop_last());
        let c = text_written(texts.last());
        assert(a.0 + b.0 + c.0 =~= a.0 + (b.0 + c.0));
    }
}

proof fn lemma_identity_round_trip(uuid: Seq<char>, tail: Seq<u8>)
    requires
        uuid_written(uuid).1 is None,
        identity_readable(uuid),
    ensures
        split_identity(uuid_written(uuid).0 + tail) == Ok::<(Seq<char>, Seq<u8>), CodecError>(
            (uuid, tail),
        ),
{
    let identity = base64_decoded(uuid).unwrap();
    let crc = crc32_of(identity);
    let body = uuid_written(uuid).0 + tail;
    crate::codec::lemma_be64_round_trip(crc as u64, Seq::empty());
    assert(be64(crc as u64) + Seq::<u8>::empty() =~= be64(crc as u64));
    let n = identity.len() as int;
    assert(body.take(n) =~= identity);
    assert(body.subrange(n, n + 8) =~= be64(crc as u64));
    assert(body.skip(n + 8) =~= tail);
    if n == 16 {
        assert(body.take(8) =~= identity.take(8));
        assert(body.subrange(8, 16) =~= identity.skip(8));
    }
}

proof fn lemma_tail_round_trip(p: ConnectPacketView)
    requires
        connect_tail_written(p).1 is None,
    ensures
        take_connect_tail(connect_tail_written(p).0) == Ok::<
            (bool, i32, Seq<Seq<char>>),
            CodecError,
        >((p.mobile, p.color, p.mods)),
{
    let tail = connect_tail_written(p).0;
    let flag = if p.mobile { 1u8 } else { 0u8 };
    let count = seq![p.mods.len() as u8];
    let names = texts_written(p.mods).0;
    let t2 = count + names;
    let t1 = be32(unsigned32(p.color)) + t2;
    assert(tail =~= seq![flag] + t1);
    assert((seq![flag] + t1).skip(1) =~= t1);
    crate::codec::lemma_i32_round_trip(p.color, t2);
    assert(t2.skip(1) =~= names);
    lemma_mods_round_trip(p.mods, Seq::empty());
    assert(names + Seq::<u8>::empty() =~= names);
}

/// The five fields before the identity, in the order in which they stand.
proof fn lemma_connect_layout(p: ConnectPacketView)
    requires
        p.written().1 is None,
    ensures
        text_written(p.version_type).1 is None,
        text_written(p.name).1 is None,
        text_written(p.locale).1 is None,
        text_written(p.usid).1 is None,
        uuid_written(p.uuid).1 is None,
        connect_tail_written(p).1 is None,
        p.written().0 == be32(unsigned32(p.version)) + (text_written(p.version_type).0 + (
        text_written(p.name).0 + (text_written(p.locale).0 + (text_written(p.usid).0 + (
        uuid_written(p.uuid).0 + connect_tail_written(p).0))))),
{
    reveal(ConnectPacketView::written);
    let a = be32(unsigned32(p.version));
    let b = text_written(p.version_type).0;
    let c = text_written(p.name).0;
    let d = text_written(p.locale).0;
    let e = text_written(p.usid).0;
    let f = uuid_written(p.uuid).0;
    let g = connect_tail_written(p).0;
    assert(p.written().0 == a + b + c + d + e + f + g);
    lemma_six_sums(a, b, c, d, e, f, g);
}

proof fn lemma_six_sums(
    a: Seq<u8>,
    b: Seq<u8>,
    c: Seq<u8>,
    d: Seq<u8>,
    e: Seq<u8>,
    f: Seq<u8>,
    g: Seq<u8>,
)
    ensures
        a + b + c + d + e + f + g == a + (b + (c + (d + (e + (f + g))))),
{
    assert(a + b + c + d + e + f + g =~= a + (b + (c + (d + (e + (f + g))))));
}

proof fn lemma_connect_round_trip(p: ConnectPacketView)
    requires
        p.written().1 is None,
        identity_readable(p.uuid),
    ensures
        take_connect(p.written().0) == Ok::<ConnectPacketView, CodecError>(p),
{
    reveal(take_connect);
    lemma_connect_layout(p);
    let tail = connect_tail_written(p).0;
    let body = uuid_written(p.uuid).0 + tail;
    let s4 = text_written(p.usid).0 + body;
    let s3 = text_written(p.locale).0 + s4;
    let s2 = text_written(p.name).0 + s3;
    let s1 = text_written(p.version_type).0 + s2;
    crate::codec::lemma_i32_round_trip(p.version, s1);
    lemma_text_round_trip(p.version_type, s2);
    lemma_text_round_trip(p.name, s3);
    lemma_text_round_trip(p.locale, s4);
    lemma_text_round_trip(p.usid, body);
    lemma_identity_round_trip(p.uuid, tail);
    lemma_tail_round_trip(p);
}

/// Reading what a packet wrote gives the packet back, for every packet that has a read
/// number: the identity must be canonical base64 and not ambiguous, and a stream chunk
/// must fit its length field.
pub proof fn law_packet_round_trip(p: PacketView)
    requires
        read_number(p) is Some,
        p.written().1 is None,
        p matches PacketView::ConnectPacket(c) ==> identity_readable(c.uuid),
        p matches PacketView::StreamChunk { data, .. } ==> data.len() <= 0xFFFF,
    ensures
        take_packet(p.written().0, read_number(p).unwrap()) == Ok::<
            (PacketView, Seq<u8>),
            CodecError,
        >((p, Seq::empty())),
{
    match p {
        PacketView::ConnectPacket(c) => lemma_connect_round_trip(c),
        PacketView::StreamChunk { id, data } => {
            let s = be16(data.len() as u16) + data;
            crate::codec::lemma_i32_round_trip(id, s);
            crate::codec::lemma_be16_round_trip(data.len() as u16, data);
            assert(p.written().0 =~= be32(unsigned32(id)) + s);
            assert(s.skip(2) =~= data);
            assert(data.take(data.len() as int) =~= data);
            assert(data.skip(data.len() as int) =~= Seq::empty());
        },
        _ => {},
    }
}

} // verus!
