//! ssh-agent wire protocol: u32 big-endian length-prefixed frames, first
//! byte is the message type. Just enough of it to (a) relay frames verbatim
//! to a real agent and (b) speak our own protocol as agent extensions
//! (SSH_AGENTC_EXTENSION), so any real agent client that reaches us still
//! gets spec-conformant behavior.

use crate::text;
use crate::text::{lossy, quoted, same};
use vstd::prelude::*;
use vstd::slice::slice_subrange;
use vstd::utf8::*;

verus! {

pub const SSH_AGENT_FAILURE: u8 = 5;

pub const SSH_AGENT_SUCCESS: u8 = 6;

pub const SSH_AGENTC_EXTENSION: u8 = 27;

pub const SSH_AGENT_EXTENSION_FAILURE: u8 = 28;

pub const EXT_PING: &'static str = "ping@backchannel";

pub const EXT_OPEN: &'static str = "open@backchannel";

pub const EXT_SHUTDOWN: &'static str = "shutdown@backchannel";
/// Puts data on the daemon's clipboard.
pub const EXT_COPY: &'static str = "copy@backchannel";
/// Opens a transferred file on the daemon's machine.
pub const EXT_OPENFILE: &'static str = "openfile@backchannel";
/// Has the daemon fetch a file and open it.
pub const EXT_PULL: &'static str = "pull@backchannel";
/// Lists the daemon's tunnels.
pub const EXT_TUNNELS: &'static str = "tunnels@backchannel";
/// Stops one of the daemon's tunnels, or all.
pub const EXT_PROXY_STOP: &'static str = "proxy-stop@backchannel";

/// 256 MiB: above any legitimate message, transfers included; bounds memory
/// against a misbehaving peer.
pub const MAX_FRAME: u32 = 268_435_456;

// ---- numbers and strings on the wire ----

/// The four big-endian bytes of `v`.
pub open spec fn be32(v: u32) -> Seq<u8> {
    seq![
        (v / 0x100_0000) as u8,
        (v / 0x1_0000 % 0x100) as u8,
        (v / 0x100 % 0x100) as u8,
        (v % 0x100) as u8,
    ]
}

/// The number that four big-endian bytes spell.
pub open spec fn be32_value(b: Seq<u8>) -> u32 {
    (b[0] * 0x100_0000 + b[1] * 0x1_0000 + b[2] * 0x100 + b[3]) as u32
}

/// A length as the wire carries it: its low 32 bits.
pub open spec fn wire_len(n: nat) -> u32 {
    (n % 0x1_0000_0000) as u32
}

/// Length-prefixed bytes.
pub open spec fn wire_bytes(b: Seq<u8>) -> Seq<u8> {
    be32(wire_len(b.len())) + b
}

/// A string as length-prefixed UTF-8.
pub open spec fn wire_str(s: Seq<char>) -> Seq<u8> {
    wire_bytes(encode_utf8(s))
}

/// A string short enough for its length prefix to say its length.
pub open spec fn fits(s: Seq<char>) -> bool {
    encode_utf8(s).len() < 0x1_0000_0000
}

/// Reads a number: its value and what follows it.
pub open spec fn take_u32(s: Seq<u8>) -> Option<(u32, Seq<u8>)> {
    if s.len() < 4 {
        None
    } else {
        Some((be32_value(s.take(4)), s.skip(4)))
    }
}

/// Reads length-prefixed bytes: them and what follows them.
pub open spec fn take_bytes(s: Seq<u8>) -> Option<(Seq<u8>, Seq<u8>)> {
    match take_u32(s) {
        None => None,
        Some((n, rest)) => if rest.len() < n {
            None
        } else {
            Some((rest.take(n as int), rest.skip(n as int)))
        },
    }
}

/// Reads a string: its text and what follows it.
pub open spec fn take_str(s: Seq<u8>) -> Option<(Seq<char>, Seq<u8>)> {
    match take_bytes(s) {
        None => None,
        Some((b, rest)) => Some((text::text_of(b), rest)),
    }
}

/// The bytes of the string that is read.
pub open spec fn str_bytes(s: Seq<u8>) -> Seq<u8> {
    match take_bytes(s) {
        None => Seq::empty(),
        Some((b, _)) => b,
    }
}

/// Reads a string that has to be this one, byte for byte: what follows it.
pub open spec fn take_exactly(s: Seq<u8>, expected: Seq<char>) -> Option<Seq<u8>> {
    if text::starts_with(s, wire_str(expected)) {
        Some(s.skip(wire_str(expected).len() as int))
    } else {
        None
    }
}

/// Big-endian bytes spell the number they were made from.
pub proof fn lemma_be32(v: u32)
    ensures
        be32(v).len() == 4,
        be32_value(be32(v)) == v,
{
}

/// A number reads back as it was written, whatever follows it.
pub proof fn lemma_take_u32(v: u32, rest: Seq<u8>)
    ensures
        take_u32(be32(v) + rest) == Some((v, rest)),
{
    lemma_be32(v);
    assert((be32(v) + rest).take(4) =~= be32(v));
    assert((be32(v) + rest).skip(4) =~= rest);
}

/// A string that fits its length prefix reads back as it was written,
/// whatever follows it.
pub proof fn lemma_take_str(s: Seq<char>, rest: Seq<u8>)
    requires
        fits(s),
    ensures
        take_str(wire_str(s) + rest) == Some((s, rest)),
{
    let b = encode_utf8(s);
    let n = wire_len(b.len());
    assert(wire_str(s) + rest =~= be32(n) + (b + rest));
    lemma_take_u32(n, b + rest);
    assert((b + rest).take(n as int) =~= b);
    assert((b + rest).skip(n as int) =~= rest);
    text::lemma_text_of_utf8(s);
}

/// Appends `v` in big-endian order.
pub fn put_u32(buf: &mut Vec<u8>, v: u32)
    ensures
        final(buf)@ == old(buf)@ + be32(v),
{
    buf.push((v / 0x100_0000) as u8);
    buf.push((v / 0x1_0000 % 0x100) as u8);
    buf.push((v / 0x100 % 0x100) as u8);
    buf.push((v % 0x100) as u8);
    assert(buf@ =~= old(buf)@ + be32(v));
}

/// Appends the bytes of `data`.
pub(crate) fn put_raw(buf: &mut Vec<u8>, data: &[u8])
    ensures
        final(buf)@ == old(buf)@ + data@,
{
    buf.extend_from_slice(data);
    assert(buf@ =~= old(buf)@ + data@);
}

/// Appends `s` with its length in front.
pub fn put_str(buf: &mut Vec<u8>, s: &str)
    ensures
        final(buf)@ == old(buf)@ + wire_str(s@),
{
    let bytes = s.as_bytes();
    put_u32(buf, (bytes.len() as u64 % 0x1_0000_0000) as u32);
    put_raw(buf, bytes);
    assert(buf@ =~= old(buf)@ + wire_str(s@));
}

// ---- errors ----

/// Why a message could not be read.
#[derive(Debug, Clone, PartialEq, Eq)]
pub enum ProtoError {
    /// The message ends before what it announces.
    Truncated,
    /// Neither a file nor a folder.
    BadKind(String),
    /// No window mode of ours.
    BadWindow(String),
    /// No action of ours.
    BadAction(String),
    /// An open request of a version we do not speak.
    UnsupportedVersion(u32),
    /// A transfer of a version we do not speak.
    UnsupportedTransfer(u32),
}

/// `ProtoError` with its strings taken as characters.
pub enum ProtoErrorView {
    Truncated,
    BadKind(Seq<char>),
    BadWindow(Seq<char>),
    BadAction(Seq<char>),
    UnsupportedVersion(u32),
    UnsupportedTransfer(u32),
}

impl View for ProtoError {
    type V = ProtoErrorView;

    open spec fn view(&self) -> ProtoErrorView {
        match self {
            ProtoError::Truncated => ProtoErrorView::Truncated,
            ProtoError::BadKind(s) => ProtoErrorView::BadKind(s@),
            ProtoError::BadWindow(s) => ProtoErrorView::BadWindow(s@),
            ProtoError::BadAction(s) => ProtoErrorView::BadAction(s@),
            ProtoError::UnsupportedVersion(v) => ProtoErrorView::UnsupportedVersion(*v),
            ProtoError::UnsupportedTransfer(v) => ProtoErrorView::UnsupportedTransfer(*v),
        }
    }
}

impl ProtoErrorView {
    /// The error in words.
    pub open spec fn message(self) -> Seq<char> {
        match self {
            ProtoErrorView::Truncated => "truncated agent message"@,
            ProtoErrorView::BadKind(s) => "bad kind "@ + text::debug_quoted(s),
            ProtoErrorView::BadWindow(s) => "bad window mode "@ + text::debug_quoted(s),
            ProtoErrorView::BadAction(s) => "bad action "@ + text::debug_quoted(s),
            ProtoErrorView::UnsupportedVersion(v) => "unsupported open@backchannel version "@
                + text::decimal(v as nat),
            ProtoErrorView::UnsupportedTransfer(v) => "unsupported transfer version "@
                + text::decimal(v as nat),
        }
    }
}

impl ProtoError {
    /// The error in words.
    pub fn message(&self) -> (r: String)
        ensures
            r@ == self@.message(),
    {
        match self {
            ProtoError::Truncated => "truncated agent message".to_owned(),
            ProtoError::BadKind(s) => "bad kind ".to_owned().concat(quoted(s.as_str()).as_str()),
            ProtoError::BadWindow(s) => "bad window mode ".to_owned().concat(
                quoted(s.as_str()).as_str(),
            ),
            ProtoError::BadAction(s) => "bad action ".to_owned().concat(
                quoted(s.as_str()).as_str(),
            ),
            ProtoError::UnsupportedVersion(v) => "unsupported open@backchannel version ".to_owned().concat(
                text::decimal_text(*v as u64).as_str(),
            ),
            ProtoError::UnsupportedTransfer(v) => "unsupported transfer version ".to_owned().concat(
                text::decimal_text(*v as u64).as_str(),
            ),
        }
    }
}

/// Why a frame could not be taken.
#[derive(Debug, Clone, Copy, PartialEq, Eq)]
pub enum FrameError {
    /// The input ends inside the frame.
    UnexpectedEof,
    /// The frame announces an empty or an oversized payload.
    OutOfRange(u32),
}

impl FrameError {
    /// The error in words.
    pub open spec fn spec_message(self) -> Seq<char> {
        match self {
            FrameError::UnexpectedEof => "failed to fill whole buffer"@,
            FrameError::OutOfRange(n) => "frame length "@ + text::decimal(n as nat)
                + " out of range"@,
        }
    }

    /// The error in words.
    pub fn message(&self) -> (r: String)
        ensures
            r@ == self.spec_message(),
    {
        match self {
            FrameError::UnexpectedEof => "failed to fill whole buffer".to_owned(),
            FrameError::OutOfRange(n) => "frame length ".to_owned().concat(
                text::decimal_text(*n as u64).as_str(),
            ).concat(" out of range"),
        }
    }
}

// ---- reading a message ----

/// Reads numbers and strings off the front of a message.
pub struct Cursor<'a> {
    buf: &'a [u8],
    pos: usize,
}

impl<'a> Cursor<'a> {
    #[verifier::type_invariant]
    spec fn wf(self) -> bool {
        self.pos <= self.buf@.len()
    }

    /// The whole message.
    pub closed spec fn whole(&self) -> Seq<u8> {
        self.buf@
    }

    /// How much of it was read.
    pub closed spec fn at(&self) -> nat {
        self.pos as nat
    }

    /// What is still to be read.
    pub open spec fn rest(&self) -> Seq<u8> {
        self.whole().skip(self.at() as int)
    }

    /// A cursor at the start of `buf`.
    pub fn new(buf: &'a [u8]) -> (r: Self)
        ensures
            r.whole() == buf@,
            r.at() == 0,
            r.rest() == buf@,
    {
        let r = Cursor { buf, pos: 0 };
        assert(r.rest() =~= buf@);
        r
    }

    /// How many bytes were read.
    pub fn offset(&self) -> (r: usize)
        ensures
            r == self.at(),
            r <= self.whole().len(),
    {
        proof {
            use_type_invariant(self);
        }
        self.pos
    }

    /// Reads a big-endian number; where the message is too short, nothing is
    /// read.
    pub fn u32(&mut self) -> (r: Result<u32, ProtoError>)
        ensures
            final(self).whole() == old(self).whole(),
            match take_u32(old(self).rest()) {
                None => r == Err::<u32, ProtoError>(ProtoError::Truncated) && final(self).at() == old(
                    self,
                ).at(),
                Some((v, rest)) => r == Ok::<u32, ProtoError>(v) && final(self).rest() == rest
                    && final(self).at() == old(self).at() + 4,
            },
    {
        proof {
            use_type_invariant(&*self);
        }
        if self.buf.len() - self.pos < 4 {
            return Err(ProtoError::Truncated);
        }
        let p = self.pos;
        let b0 = self.buf[p] as u32;
        let b1 = self.buf[p + 1] as u32;
        let b2 = self.buf[p + 2] as u32;
        let b3 = self.buf[p + 3] as u32;
        let v = b0 * 0x100_0000 + b1 * 0x1_0000 + b2 * 0x100 + b3;
        self.pos = p + 4;
        proof {
            assert(self.rest() =~= old(self).rest().skip(4));
            assert(old(self).rest().take(4) =~= self.whole().subrange(p as int, p + 4));
        }
        Ok(v)
    }

    /// Reads a length-prefixed string. Where the message ends inside the
    /// string, its length was still read.
    pub fn str(&mut self) -> (r: Result<String, ProtoError>)
        ensures
            final(self).whole() == old(self).whole(),
            match take_str(old(self).rest()) {
                None => r == Err::<String, ProtoError>(ProtoError::Truncated) && final(self).at()
                    == old(self).at() + (if old(self).rest().len() < 4 {
                    0int
                } else {
                    4int
                }),
                Some((s, rest)) => r is Ok && r->Ok_0@ == s && final(self).rest() == rest
                    && final(self).at() == old(self).at() + (old(self).rest().len() - rest.len())
                    && text::read_from(s, str_bytes(old(self).rest())),
            },
    {
        let n = match self.u32() {
            Ok(n) => n as usize,
            Err(e) => {
                return Err(e);
            },
        };
        proof {
            use_type_invariant(&*self);
        }
        if n > self.buf.len() - self.pos {
            return Err(ProtoError::Truncated);
        }
        let p = self.pos;
        let ghost mid = self.rest();
        let s = lossy(slice_subrange(self.buf, p, p + n));
        self.pos = p + n;
        proof {
            assert(mid.take(n as int) =~= self.whole().subrange(p as int, p + n));
            assert(self.rest() =~= mid.skip(n as int));
        }
        Ok(s)
    }
}

// ---- frames ----

/// A payload as one frame.
pub open spec fn frame(payload: Seq<u8>) -> Seq<u8> {
    wire_bytes(payload)
}

/// A payload length that a frame may announce.
pub open spec fn frame_len_ok(n: u32) -> bool {
    0 < n <= MAX_FRAME
}

/// Reads a frame: its payload and what follows it.
pub open spec fn take_frame(s: Seq<u8>) -> Result<(Seq<u8>, Seq<u8>), FrameError> {
    match take_u32(s) {
        None => Err(FrameError::UnexpectedEof),
        Some((n, rest)) => if !frame_len_ok(n) {
            Err(FrameError::OutOfRange(n))
        } else if rest.len() < n {
            Err(FrameError::UnexpectedEof)
        } else {
            Ok((rest.take(n as int), rest.skip(n as int)))
        },
    }
}

/// The payload size that a frame's length announces, refused when the
/// payload would be empty or larger than `MAX_FRAME`.
pub fn frame_size(len: u32) -> (r: Result<usize, FrameError>)
    ensures
        r == (if frame_len_ok(len) {
            Ok::<usize, FrameError>(len as usize)
        } else {
            Err(FrameError::OutOfRange(len))
        }),
{
    if len == 0 || len > MAX_FRAME {
        return Err(FrameError::OutOfRange(len));
    }
    Ok(len as usize)
}

/// Reads one frame. Where its length is out of range, only the length was
/// read; where the input ends inside the frame, all of the input was.
pub fn read_frame(r: &mut Cursor<'_>) -> (res: Result<Vec<u8>, FrameError>)
    ensures
        final(r).whole() == old(r).whole(),
        match take_frame(old(r).rest()) {
            Ok((payload, rest)) => res is Ok && res->Ok_0@ == payload && final(r).rest() == rest,
            Err(e) => res == Err::<Vec<u8>, FrameError>(e) && final(r).at() == (
            if e is OutOfRange {
                old(r).at() + 4
            } else {
                old(r).whole().len()
            }),
        },
{
    let len = match r.u32() {
        Ok(n) => n,
        Err(_) => {
            r.pos = r.buf.len();
            return Err(FrameError::UnexpectedEof);
        },
    };
    let n = match frame_size(len) {
        Ok(n) => n,
        Err(e) => {
            return Err(e);
        },
    };
    proof {
        use_type_invariant(&*r);
    }
    let ghost mid = r.rest();
    if n > r.buf.len() - r.pos {
        r.pos = r.buf.len();
        return Err(FrameError::UnexpectedEof);
    }
    let p: usize = r.pos;
    let mut payload: Vec<u8> = Vec::new();
    put_raw(&mut payload, slice_subrange(r.buf, p, p + n));
    r.pos = p + n;
    proof {
        assert(payload@ =~= mid.take(n as int));
        assert(r.rest() =~= mid.skip(n as int));
    }
    Ok(payload)
}

/// Appends `payload` as one frame.
pub fn write_frame(w: &mut Vec<u8>, payload: &[u8])
    ensures
        final(w)@ == old(w)@ + frame(payload@),
{
    put_u32(w, (payload.len() as u64 % 0x1_0000_0000) as u32);
    put_raw(w, payload);
    assert(w@ =~= old(w)@ + frame(payload@));
}

/// A frame with a payload of an admitted size reads back as it was written,
/// whatever follows it.
pub proof fn law_frame_round_trip(payload: Seq<u8>, rest: Seq<u8>)
    requires
        0 < payload.len() <= MAX_FRAME,
    ensures
        take_frame(frame(payload) + rest) == Ok::<(Seq<u8>, Seq<u8>), FrameError>((payload, rest)),
{
    let n = wire_len(payload.len());
    assert(n == payload.len());
    assert(take_u32(frame(payload) + rest) == Some((n, payload + rest))) by {
        assert(frame(payload) + rest =~= be32(n) + (payload + rest));
        lemma_take_u32(n, payload + rest);
    }
    assert((payload + rest).take(n as int) =~= payload);
    assert((payload + rest).skip(n as int) =~= rest);
}

/// A frame that announces nothing, or more than `MAX_FRAME`, is refused
/// before any of its payload is read.
pub proof fn law_frame_length_bounded(n: u32, rest: Seq<u8>)
    requires
        n == 0 || n > MAX_FRAME,
    ensures
        take_frame(be32(n) + rest) == Err::<(Seq<u8>, Seq<u8>), FrameError>(
            FrameError::OutOfRange(n),
        ),
{
    lemma_take_u32(n, rest);
}

// ---- extensions ----

/// An extension request.
pub open spec fn extension_msg(name: Seq<char>, data: Seq<u8>) -> Seq<u8> {
    seq![SSH_AGENTC_EXTENSION] + wire_str(name) + data
}

/// The name and the data of an extension request; nothing for other messages.
pub open spec fn parsed_extension(msg: Seq<u8>) -> Option<(Seq<char>, Seq<u8>)> {
    if msg.len() == 0 || msg[0] != SSH_AGENTC_EXTENSION {
        None
    } else {
        take_str(msg.skip(1))
    }
}

/// An extension request whose name is not even UTF-8.
pub open spec fn ill_named(msg: Seq<u8>) -> bool {
    msg.len() > 0 && msg[0] == SSH_AGENTC_EXTENSION && (take_bytes(msg.skip(1)) matches Some((name, _))
        && !valid_utf8(name))
}

/// Build an SSH_AGENTC_EXTENSION message.
pub fn extension(name: &str, data: &[u8]) -> (r: Vec<u8>)
    ensures
        r@ == extension_msg(name@, data@),
{
    let mut m: Vec<u8> = Vec::new();
    m.push(SSH_AGENTC_EXTENSION);
    assert(m@ =~= seq![SSH_AGENTC_EXTENSION]);
    put_str(&mut m, name);
    put_raw(&mut m, data);
    m
}

/// Some((name, data)) when the message is an extension request.
pub fn parse_extension(msg: &[u8]) -> (r: Option<(String, &[u8])>)
    ensures
        match parsed_extension(msg@) {
            None => r is None,
            Some((name, data)) => r matches Some((n, d)) && n@ == name && d@ == data
                && text::read_from(name, str_bytes(msg@.skip(1))),
        },
{
    if msg.len() == 0 || msg[0] != SSH_AGENTC_EXTENSION {
        return None;
    }
    let body = slice_subrange(msg, 1, msg.len());
    assert(body@ =~= msg@.skip(1));
    let mut c = Cursor::new(body);
    let name = match c.str() {
        Ok(s) => s,
        Err(_) => {
            return None;
        },
    };
    let off: usize = c.offset();
    let data = slice_subrange(body, off, body.len());
    assert(data@ =~= c.rest());
    Some((name, data))
}

/// An extension request whose name fits its length prefix is read back as it
/// was built.
pub proof fn law_extension_round_trip(name: Seq<char>, data: Seq<u8>)
    requires
        fits(name),
    ensures
        parsed_extension(extension_msg(name, data)) == Some((name, data)),
{
    let msg = extension_msg(name, data);
    assert(msg.skip(1) =~= wire_str(name) + data);
    lemma_take_str(name, data);
}

// ---- replies ----

/// The bare success reply.
pub fn success_frame() -> (r: Vec<u8>)
    ensures
        r@ == seq![SSH_AGENT_SUCCESS],
{
    let mut m: Vec<u8> = Vec::new();
    m.push(SSH_AGENT_SUCCESS);
    assert(m@ =~= seq![SSH_AGENT_SUCCESS]);
    m
}

/// The bare failure reply.
pub fn failure_frame() -> (r: Vec<u8>)
    ensures
        r@ == seq![SSH_AGENT_FAILURE],
{
    let mut m: Vec<u8> = Vec::new();
    m.push(SSH_AGENT_FAILURE);
    assert(m@ =~= seq![SSH_AGENT_FAILURE]);
    m
}

/// An extension failure with its reason.
pub open spec fn extension_failure_msg(reason: Seq<char>) -> Seq<u8> {
    seq![SSH_AGENT_EXTENSION_FAILURE] + wire_str(reason)
}

/// Extension failure carrying a human-readable reason (our own convention;
/// stock clients just see the failure byte).
pub fn extension_failure(reason: &str) -> (r: Vec<u8>)
    ensures
        r@ == extension_failure_msg(reason@),
{
    let mut m: Vec<u8> = Vec::new();
    m.push(SSH_AGENT_EXTENSION_FAILURE);
    assert(m@ =~= seq![SSH_AGENT_EXTENSION_FAILURE]);
    put_str(&mut m, reason);
    m
}

// ---- open requests ----

#[derive(Debug, Clone, Copy, PartialEq, Eq, Structural)]
pub enum Kind {
    File,
    Folder,
}

impl Kind {
    /// The kind's name on the wire.
    pub open spec fn name(self) -> Seq<char> {
        match self {
            Kind::File => "file"@,
            Kind::Folder => "folder"@,
        }
    }

    /// The kind of a name, if it names one.
    pub open spec fn named(s: Seq<char>) -> Option<Kind> {
        if s == "file"@ {
            Some(Kind::File)
        } else if s == "folder"@ {
            Some(Kind::Folder)
        } else {
            None
        }
    }

    pub fn as_str(self) -> (r: &'static str)
        ensures
            r@ == self.name(),
    {
        match self {
            Kind::File => "file",
            Kind::Folder => "folder",
        }
    }

    pub fn parse(s: &str) -> (r: Option<Kind>)
        ensures
            r == Kind::named(s@),
    {
        if same(s, "file") {
            Some(Kind::File)
        } else if same(s, "folder") {
            Some(Kind::Folder)
        } else {
            None
        }
    }
}

#[derive(Debug, Clone, Copy, PartialEq, Eq, Structural)]
pub enum WindowMode {
    Default,
    New,
    Reuse,
}

impl WindowMode {
    /// The mode's name on the wire.
    pub open spec fn name(self) -> Seq<char> {
        match self {
            WindowMode::Default => "default"@,
            WindowMode::New => "new"@,
            WindowMode::Reuse => "reuse"@,
        }
    }

    /// The mode of a name, if it names one.
    pub open spec fn named(s: Seq<char>) -> Option<WindowMode> {
        if s == "default"@ {
            Some(WindowMode::Default)
        } else if s == "new"@ {
            Some(WindowMode::New)
        } else if s == "reuse"@ {
            Some(WindowMode::Reuse)
        } else {
            None
        }
    }

    pub fn as_str(self) -> (r: &'static str)
        ensures
            r@ == self.name(),
    {
        match self {
            WindowMode::Default => "default",
            WindowMode::New => "new",
            WindowMode::Reuse => "reuse",
        }
    }

    pub fn parse(s: &str) -> (r: Option<WindowMode>)
        ensures
            r == WindowMode::named(s@),
    {
        if same(s, "default") {
            Some(WindowMode::Default)
        } else if same(s, "new") {
            Some(WindowMode::New)
        } else if same(s, "reuse") {
            Some(WindowMode::Reuse)
        } else {
            None
        }
    }
}

/// Every kind is the one its name names.
pub proof fn law_kind_names(k: Kind)
    ensures
        Kind::named(k.name()) == Some(k),
        fits(k.name()),
{
    reveal_strlit("file");
    reveal_strlit("folder");
    assert("file"@.len() != "folder"@.len());
    is_ascii_chars_encode_utf8(k.name());
}

/// Every window mode is the one its name names.
pub proof fn law_window_names(w: WindowMode)
    ensures
        WindowMode::named(w.name()) == Some(w),
        fits(w.name()),
{
    reveal_strlit("default");
    reveal_strlit("new");
    reveal_strlit("reuse");
    assert("new"@.len() != "default"@.len());
    assert("reuse"@.len() != "default"@.len());
    assert("reuse"@.len() != "new"@.len());
    is_ascii_chars_encode_utf8(w.name());
}


#[derive(Debug, Clone, PartialEq, Eq)]
pub enum Action {
    /// line/col are 1-based; 0 means "not specified".
    Open { kind: Kind, path: String, line: u32, col: u32 },
    Diff { left: String, right: String },
    /// `proxy`: reach the URL through a tunnel to the sending machine.
    Url { url: String, proxy: bool },
}

#[derive(Debug, Clone, PartialEq, Eq)]
pub struct OpenRequest {
    pub action: Action,
    pub window: WindowMode,
    /// Defer the final reply until the editor is closed (`code --wait`).
    /// Wait replies are two-phase: an ack frame once the CLI is spawned,
    /// then the final success/failure when it exits.
    pub wait: bool,
    /// Hostname of the sending machine: the alias fallback when the daemon
    /// can't identify the ssh process that carried the request.
    pub hostname: String,
}

/// An open request with what the sender knows of its own ssh session.
/// Senders that predate these two fields leave them empty.
#[derive(Debug, Clone, PartialEq, Eq)]
pub struct OpenMessage {
    pub request: OpenRequest,
    /// The user on the sending machine.
    pub user: String,
    /// The sender's `$SSH_CONNECTION`.
    pub ssh_connection: String,
}

/// `Action` with its strings taken as characters.
pub enum ActionView {
    Open { kind: Kind, path: Seq<char>, line: u32, col: u32 },
    Diff { left: Seq<char>, right: Seq<char> },
    Url { url: Seq<char>, proxy: bool },
}

/// `OpenRequest` with its strings taken as characters.
pub struct OpenRequestView {
    pub action: ActionView,
    pub window: WindowMode,
    pub wait: bool,
    pub hostname: Seq<char>,
}

/// `OpenMessage` with its strings taken as characters.
pub struct OpenMessageView {
    pub request: OpenRequestView,
    pub user: Seq<char>,
    pub ssh_connection: Seq<char>,
}

impl View for Action {
    type V = ActionView;

    open spec fn view(&self) -> ActionView {
        match self {
            Action::Open { kind, path, line, col } => ActionView::Open {
                kind: *kind,
                path: path@,
                line: *line,
                col: *col,
            },
            Action::Diff { left, right } => ActionView::Diff { left: left@, right: right@ },
            Action::Url { url, proxy } => ActionView::Url { url: url@, proxy: *proxy },
        }
    }
}

impl View for OpenRequest {
    type V = OpenRequestView;

    open spec fn view(&self) -> OpenRequestView {
        OpenRequestView {
            action: self.action@,
            window: self.window,
            wait: self.wait,
            hostname: self.hostname@,
        }
    }
}

impl View for OpenMessage {
    type V = OpenMessageView;

    open spec fn view(&self) -> OpenMessageView {
        OpenMessageView {
            request: self.request@,
            user: self.user@,
            ssh_connection: self.ssh_connection@,
        }
    }
}

impl ActionView {
    /// Every string of the action fits its length prefix.
    pub open spec fn fits(self) -> bool {
        match self {
            ActionView::Open { path, .. } => fits(path),
            ActionView::Diff { left, right } => fits(left) && fits(right),
            ActionView::Url { url, .. } => fits(url),
        }
    }

    /// The action on the wire: its tag, then its fields.
    pub open spec fn wire(self) -> Seq<u8> {
        match self {
            ActionView::Open { kind, path, line, col } => wire_str("open"@) + wire_str(kind.name())
                + wire_str(path) + be32(line) + be32(col),
            ActionView::Diff { left, right } => wire_str("diff"@) + wire_str(left) + wire_str(
                right,
            ),
            ActionView::Url { url, proxy } => wire_str("url"@) + wire_str(url) + be32(
                proxy as u32,
            ),
        }
    }
}

impl OpenRequestView {
    /// Every string of the request fits its length prefix.
    pub open spec fn fits(self) -> bool {
        self.action.fits() && fits(self.hostname)
    }

    /// The request in wire version `version` (3 and up).
    pub open spec fn wire(self, version: u32) -> Seq<u8> {
        be32(version) + wire_str(self.window.name()) + be32(self.wait as u32) + self.action.wire()
            + wire_str(self.hostname)
    }

    /// The version a bare request goes out in: 3, but 4 for a URL, which
    /// older daemons do not know.
    pub open spec fn version(self) -> u32 {
        if self.action is Url {
            4
        } else {
            3
        }
    }

    /// A bare request, with nothing said of the sender's ssh session.
    pub open spec fn bare(self) -> OpenMessageView {
        OpenMessageView { request: self, user: Seq::empty(), ssh_connection: Seq::empty() }
    }

    /// The request as it goes out on its own.
    pub open spec fn encoded(self) -> Seq<u8> {
        if self.version() == 4 {
            self.bare().encoded()
        } else {
            self.wire(3)
        }
    }
}

impl OpenMessageView {
    /// Every string of the message fits its length prefix.
    pub open spec fn fits(self) -> bool {
        self.request.fits() && fits(self.user) && fits(self.ssh_connection)
    }

    /// The message on the wire, in version 4.
    pub open spec fn encoded(self) -> Seq<u8> {
        self.request.wire(4) + wire_str(self.user) + wire_str(self.ssh_connection)
    }
}

/// Reads a line and a column and what follows them.
pub open spec fn take_position(s: Seq<u8>) -> Option<(u32, u32, Seq<u8>)> {
    match take_u32(s) {
        None => None,
        Some((line, s)) => match take_u32(s) {
            None => None,
            Some((col, s)) => Some((line, col, s)),
        },
    }
}

/// Reads what is to be opened and what follows it.
pub open spec fn take_open(s: Seq<u8>) -> Result<(ActionView, Seq<u8>), ProtoErrorView> {
    match take_str(s) {
        None => Err(ProtoErrorView::Truncated),
        Some((kind, s)) => match Kind::named(kind) {
            None => Err(ProtoErrorView::BadKind(kind)),
            Some(kind) => match take_str(s) {
                None => Err(ProtoErrorView::Truncated),
                Some((path, s)) => match take_position(s) {
                    None => Err(ProtoErrorView::Truncated),
                    Some((line, col, s)) => Ok((ActionView::Open { kind, path, line, col }, s)),
                },
            },
        },
    }
}

/// Reads what is to be compared and what follows it.
pub open spec fn take_diff(s: Seq<u8>) -> Result<(ActionView, Seq<u8>), ProtoErrorView> {
    match take_str(s) {
        None => Err(ProtoErrorView::Truncated),
        Some((left, s)) => match take_str(s) {
            None => Err(ProtoErrorView::Truncated),
            Some((right, s)) => Ok((ActionView::Diff { left, right }, s)),
        },
    }
}

/// Reads a URL, whether it is to be tunneled, and what follows.
pub open spec fn take_url(s: Seq<u8>) -> Result<(ActionView, Seq<u8>), ProtoErrorView> {
    match take_str(s) {
        None => Err(ProtoErrorView::Truncated),
        Some((url, s)) => match take_u32(s) {
            None => Err(ProtoErrorView::Truncated),
            Some((proxy, s)) => Ok((ActionView::Url { url, proxy: proxy != 0 }, s)),
        },
    }
}

/// Reads an action of a version `version` request and what follows it.
pub open spec fn take_action(version: u32, s: Seq<u8>) -> Result<
    (ActionView, Seq<u8>),
    ProtoErrorView,
> {
    match take_str(s) {
        None => Err(ProtoErrorView::Truncated),
        Some((tag, s)) => if tag == "open"@ {
            take_open(s)
        } else if tag == "diff"@ {
            take_diff(s)
        } else if tag == "url"@ && version >= 4 {
            take_url(s)
        } else {
            Err(ProtoErrorView::BadAction(tag))
        },
    }
}

/// Reads what follows the version number of a version 1 request: kind, path
/// and hostname.
pub open spec fn decoded_v1(s: Seq<u8>) -> Result<OpenMessageView, ProtoErrorView> {
    match take_str(s) {
        None => Err(ProtoErrorView::Truncated),
        Some((kind, s)) => match Kind::named(kind) {
            None => Err(ProtoErrorView::BadKind(kind)),
            Some(kind) => match take_str(s) {
                None => Err(ProtoErrorView::Truncated),
                Some((path, s)) => match take_str(s) {
                    None => Err(ProtoErrorView::Truncated),
                    Some((hostname, _)) => Ok(
                        OpenRequestView {
                            action: ActionView::Open { kind, path, line: 0, col: 0 },
                            window: WindowMode::Default,
                            wait: false,
                            hostname,
                        }.bare(),
                    ),
                },
            },
        },
    }
}

/// Reads the wait flag, which versions below 3 do not carry.
pub open spec fn take_wait(version: u32, s: Seq<u8>) -> Option<(bool, Seq<u8>)> {
    if version < 3 {
        Some((false, s))
    } else {
        match take_u32(s) {
            None => None,
            Some((wait, s)) => Some((wait != 0, s)),
        }
    }
}

/// Reads the sender's user and ssh connection, which versions below 4 do not
/// carry.
pub open spec fn take_sender(version: u32, s: Seq<u8>) -> Option<(Seq<char>, Seq<char>)> {
    if version < 4 {
        Some((Seq::empty(), Seq::empty()))
    } else {
        match take_str(s) {
            None => None,
            Some((user, s)) => match take_str(s) {
                None => None,
                Some((conn, _)) => Some((user, conn)),
            },
        }
    }
}

/// Reads what follows the version number of a request of version 2 or later.
pub open spec fn decoded_since_v2(version: u32, s: Seq<u8>) -> Result<
    OpenMessageView,
    ProtoErrorView,
> {
    match take_str(s) {
        None => Err(ProtoErrorView::Truncated),
        Some((window, s)) => match WindowMode::named(window) {
            None => Err(ProtoErrorView::BadWindow(window)),
            Some(window) => match take_wait(version, s) {
                None => Err(ProtoErrorView::Truncated),
                Some((wait, s)) => match take_action(version, s) {
                    Err(e) => Err(e),
                    Ok((action, s)) => match take_str(s) {
                        None => Err(ProtoErrorView::Truncated),
                        Some((hostname, s)) => match take_sender(version, s) {
                            None => Err(ProtoErrorView::Truncated),
                            Some((user, ssh_connection)) => Ok(
                                OpenMessageView {
                                    request: OpenRequestView { action, window, wait, hostname },
                                    user,
                                    ssh_connection,
                                },
                            ),
                        },
                    },
                },
            },
        },
    }
}

/// Reads an open request of any version we speak.
pub open spec fn decoded_open(data: Seq<u8>) -> Result<OpenMessageView, ProtoErrorView> {
    match take_u32(data) {
        None => Err(ProtoErrorView::Truncated),
        Some((version, s)) => if version == 1 {
            decoded_v1(s)
        } else if 2 <= version <= 4 {
            decoded_since_v2(version, s)
        } else {
            Err(ProtoErrorView::UnsupportedVersion(version))
        },
    }
}

impl Action {
    /// Appends the action's tag and fields.
    fn put(&self, b: &mut Vec<u8>)
        ensures
            final(b)@ == old(b)@ + self@.wire(),
    {
        match self {
            Action::Open { kind, path, line, col } => {
                put_str(b, "open");
                put_str(b, kind.as_str());
                put_str(b, path.as_str());
                put_u32(b, *line);
                put_u32(b, *col);
            },
            Action::Diff { left, right } => {
                put_str(b, "diff");
                put_str(b, left.as_str());
                put_str(b, right.as_str());
            },
            Action::Url { url, proxy } => {
                put_str(b, "url");
                put_str(b, url.as_str());
                put_u32(b, *proxy as u32);
            },
        }
        assert(b@ =~= old(b)@ + self@.wire());
    }

    /// Reads an action of a version `version` request.
    fn take(c: &mut Cursor<'_>, version: u32) -> (r: Result<Action, ProtoError>)
        ensures
            match take_action(version, old(c).rest()) {
                Ok((a, s)) => r is Ok && r->Ok_0@ == a && final(c).rest() == s,
                Err(e) => r is Err && r->Err_0@ == e,
            },
    {
        let tag = c.str()?;
        if same(tag.as_str(), "open") {
            let kind_name = c.str()?;
            let kind = match Kind::parse(kind_name.as_str()) {
                Some(k) => k,
                None => {
                    return Err(ProtoError::BadKind(kind_name));
                },
            };
            let path = c.str()?;
            let line: u32 = c.u32()?;
            let col: u32 = c.u32()?;
            Ok(Action::Open { kind, path, line, col })
        } else if same(tag.as_str(), "diff") {
            let left = c.str()?;
            let right = c.str()?;
            Ok(Action::Diff { left, right })
        } else if version >= 4 && same(tag.as_str(), "url") {
            let url = c.str()?;
            let proxy: u32 = c.u32()?;
            Ok(Action::Url { url, proxy: proxy != 0 })
        } else {
            Err(ProtoError::BadAction(tag))
        }
    }
}

impl OpenRequest {
    /// Appends the request in wire version `version` (3 and up).
    fn put(&self, b: &mut Vec<u8>, version: u32)
        ensures
            final(b)@ == old(b)@ + self@.wire(version),
    {
        put_u32(b, version);
        put_str(b, self.window.as_str());
        put_u32(b, self.wait as u32);
        self.action.put(b);
        put_str(b, self.hostname.as_str());
        assert(b@ =~= old(b)@ + self@.wire(version));
    }

    pub fn encode(&self) -> (r: Vec<u8>)
        ensures
            r@ == self@.encoded(),
    {
        let mut b: Vec<u8> = Vec::new();
        match &self.action {
            Action::Url { .. } => {
                self.put(&mut b, 4);
                put_str(&mut b, "");
                put_str(&mut b, "");
                proof {
                    reveal_strlit("");
                    assert(""@ =~= Seq::<char>::empty());
                }
            },
            _ => {
                self.put(&mut b, 3);
            },
        }
        assert(b@ =~= self@.encoded());
        b
    }

    /// The request of a message of any version we speak.
    pub fn decode(data: &[u8]) -> (r: Result<OpenRequest, ProtoError>)
        ensures
            match decoded_open(data@) {
                Ok(m) => r is Ok && r->Ok_0@ == m.request,
                Err(e) => r is Err && r->Err_0@ == e,
            },
    {
        match OpenMessage::decode(data) {
            Ok(m) => Ok(m.request),
            Err(e) => Err(e),
        }
    }
}

impl OpenMessage {
    pub fn encode(&self) -> (r: Vec<u8>)
        ensures
            r@ == self@.encoded(),
    {
        let mut b: Vec<u8> = Vec::new();
        self.request.put(&mut b, 4);
        put_str(&mut b, self.user.as_str());
        put_str(&mut b, self.ssh_connection.as_str());
        assert(b@ =~= self@.encoded());
        b
    }

    /// A request that says nothing of the sender's ssh session.
    fn bare(request: OpenRequest) -> (r: OpenMessage)
        ensures
            r@ == request@.bare(),
    {
        OpenMessage { request, user: String::new(), ssh_connection: String::new() }
    }

    /// Reads what follows the version number of a version 1 request: kind,
    /// path, hostname (pre-0.2 remotes).
    fn take_v1(c: &mut Cursor<'_>) -> (r: Result<OpenMessage, ProtoError>)
        ensures
            match decoded_v1(old(c).rest()) {
                Ok(m) => r is Ok && r->Ok_0@ == m,
                Err(e) => r is Err && r->Err_0@ == e,
            },
    {
        let kind_name = c.str()?;
        let kind = match Kind::parse(kind_name.as_str()) {
            Some(k) => k,
            None => {
                return Err(ProtoError::BadKind(kind_name));
            },
        };
        let path = c.str()?;
        let hostname = c.str()?;
        Ok(
            OpenMessage::bare(
                OpenRequest {
                    action: Action::Open { kind, path, line: 0, col: 0 },
                    window: WindowMode::Default,
                    wait: false,
                    hostname,
                },
            ),
        )
    }

    /// Reads the sender's user and ssh connection.
    fn take_sender(c: &mut Cursor<'_>, version: u32) -> (r: Result<(String, String), ProtoError>)
        ensures
            match take_sender(version, old(c).rest()) {
                Some((user, conn)) => r matches Ok((u, s)) && u@ == user && s@ == conn,
                None => r == Err::<(String, String), ProtoError>(ProtoError::Truncated),
            },
    {
        if version < 4 {
            return Ok((String::new(), String::new()));
        }
        let user = c.str()?;
        let ssh_connection = c.str()?;
        Ok((user, ssh_connection))
    }

    /// Reads what follows the version number of a later request.
    fn take_since_v2(c: &mut Cursor<'_>, version: u32) -> (r: Result<OpenMessage, ProtoError>)
        ensures
            match decoded_since_v2(version, old(c).rest()) {
                Ok(m) => r is Ok && r->Ok_0@ == m,
                Err(e) => r is Err && r->Err_0@ == e,
            },
    {
        let window_name = c.str()?;
        let window = match WindowMode::parse(window_name.as_str()) {
            Some(w) => w,
            None => {
                return Err(ProtoError::BadWindow(window_name));
            },
        };
        let wait = if version >= 3 {
            c.u32()? != 0
        } else {
            false
        };
        let action = Action::take(c, version)?;
        let hostname = c.str()?;
        let request = OpenRequest { action, window, wait, hostname };
        let (user, ssh_connection) = OpenMessage::take_sender(c, version)?;
        Ok(OpenMessage { request, user, ssh_connection })
    }

    pub fn decode(data: &[u8]) -> (r: Result<OpenMessage, ProtoError>)
        ensures
            match decoded_open(data@) {
                Ok(m) => r is Ok && r->Ok_0@ == m,
                Err(e) => r is Err && r->Err_0@ == e,
            },
    {
        let mut c = Cursor::new(data);
        let version: u32 = c.u32()?;
        if version == 1 {
            OpenMessage::take_v1(&mut c)
        } else if 2 <= version && version <= 4 {
            OpenMessage::take_since_v2(&mut c, version)
        } else {
            Err(ProtoError::UnsupportedVersion(version))
        }
    }
}

/// Concatenation may be bracketed from the right.
proof fn lemma_concat4(a: Seq<u8>, b: Seq<u8>, c: Seq<u8>, d: Seq<u8>)
    ensures
        a + b + c + d == a + (b + (c + d)),
{
    assert(a + b + c + d =~= a + (b + (c + d)));
}

/// Concatenation may be bracketed from the right.
proof fn lemma_concat6(a: Seq<u8>, b: Seq<u8>, c: Seq<u8>, d: Seq<u8>, e: Seq<u8>, f: Seq<u8>)
    ensures
        a + b + c + d + e + f == a + (b + (c + (d + (e + f)))),
{
    lemma_concat4(a, b, c, d);
    lemma_concat4(a + b + c, d, e, f);
    assert(a + b + c + (d + (e + f)) =~= a + (b + (c + (d + (e + f))))) by {
        lemma_concat4(a, b, c, d + (e + f));
    }
}

/// What stands behind the first byte.
proof fn lemma_skip_first(first: u8, a: Seq<u8>, b: Seq<u8>)
    ensures
        (seq![first] + a + b).skip(1) == a + b,
{
    assert((seq![first] + a + b).skip(1) =~= a + b);
}

/// The tags of the three actions are three different strings.
proof fn lemma_tags()
    ensures
        "open"@ != "diff"@,
        "url"@ != "open"@,
        "url"@ != "diff"@,
        fits("open"@),
        fits("diff"@),
        fits("url"@),
{
    reveal_strlit("open");
    reveal_strlit("diff");
    reveal_strlit("url");
    assert("open"@[0] != "diff"@[0]);
    assert("url"@.len() != "open"@.len());
    assert("url"@.len() != "diff"@.len());
    is_ascii_chars_encode_utf8("open"@);
    is_ascii_chars_encode_utf8("diff"@);
    is_ascii_chars_encode_utf8("url"@);
}

/// The parts of an `open` action, read one after the other.
proof fn lemma_open_parts(
    version: u32,
    kind: Kind,
    path: Seq<char>,
    line: u32,
    col: u32,
    s: Seq<u8>,
    after_tag: Seq<u8>,
    after_kind: Seq<u8>,
    after_path: Seq<u8>,
    after_line: Seq<u8>,
    rest: Seq<u8>,
)
    requires
        take_str(s) == Some(("open"@, after_tag)),
        take_str(after_tag) == Some((kind.name(), after_kind)),
        Kind::named(kind.name()) == Some(kind),
        take_str(after_kind) == Some((path, after_path)),
        take_u32(after_path) == Some((line, after_line)),
        take_u32(after_line) == Some((col, rest)),
    ensures
        take_action(version, s) == Ok::<(ActionView, Seq<u8>), ProtoErrorView>(
            (ActionView::Open { kind, path, line, col }, rest),
        ),
{
}

/// The parts of a `diff` action, read one after the other.
proof fn lemma_diff_parts(
    version: u32,
    left: Seq<char>,
    right: Seq<char>,
    s: Seq<u8>,
    after_tag: Seq<u8>,
    after_left: Seq<u8>,
    rest: Seq<u8>,
)
    requires
        take_str(s) == Some(("diff"@, after_tag)),
        take_str(after_tag) == Some((left, after_left)),
        take_str(after_left) == Some((right, rest)),
    ensures
        take_action(version, s) == Ok::<(ActionView, Seq<u8>), ProtoErrorView>(
            (ActionView::Diff { left, right }, rest),
        ),
{
    lemma_tags();
}

/// The parts of a `url` action, read one after the other.
proof fn lemma_url_parts(
    version: u32,
    url: Seq<char>,
    proxy: bool,
    s: Seq<u8>,
    after_tag: Seq<u8>,
    after_url: Seq<u8>,
    rest: Seq<u8>,
)
    requires
        version >= 4,
        take_str(s) == Some(("url"@, after_tag)),
        take_str(after_tag) == Some((url, after_url)),
        take_u32(after_url) == Some((proxy as u32, rest)),
    ensures
        take_action(version, s) == Ok::<(ActionView, Seq<u8>), ProtoErrorView>(
            (ActionView::Url { url, proxy }, rest),
        ),
{
    lemma_tags();
}

/// An action reads back as it was written, whatever follows it; a URL in the
/// versions that know it.
pub proof fn lemma_take_action(version: u32, a: ActionView, rest: Seq<u8>)
    requires
        a.fits(),
        a is Url ==> version >= 4,
    ensures
        take_action(version, a.wire() + rest) == Ok::<(ActionView, Seq<u8>), ProtoErrorView>(
            (a, rest),
        ),
{
    lemma_tags();
    match a {
        ActionView::Open { kind, path, line, col } => {
            let r4 = be32(col) + rest;
            let r3 = be32(line) + r4;
            let r2 = wire_str(path) + r3;
            let r1 = wire_str(kind.name()) + r2;
            lemma_concat6(
                wire_str("open"@),
                wire_str(kind.name()),
                wire_str(path),
                be32(line),
                be32(col),
                rest,
            );
            assert(a.wire() + rest == wire_str("open"@) + r1);
            lemma_take_str("open"@, r1);
            law_kind_names(kind);
            lemma_take_str(kind.name(), r2);
            lemma_take_str(path, r3);
            lemma_take_u32(line, r4);
            lemma_take_u32(col, rest);
            lemma_open_parts(version, kind, path, line, col, a.wire() + rest, r1, r2, r3, r4, rest);
        },
        ActionView::Diff { left, right } => {
            let r2 = wire_str(right) + rest;
            let r1 = wire_str(left) + r2;
            lemma_concat4(wire_str("diff"@), wire_str(left), wire_str(right), rest);
            lemma_take_str("diff"@, r1);
            lemma_take_str(left, r2);
            lemma_take_str(right, rest);
            lemma_diff_parts(version, left, right, a.wire() + rest, r1, r2, rest);
        },
        ActionView::Url { url, proxy } => {
            let r2 = be32(proxy as u32) + rest;
            let r1 = wire_str(url) + r2;
            lemma_concat4(wire_str("url"@), wire_str(url), be32(proxy as u32), rest);
            lemma_take_str("url"@, r1);
            lemma_take_str(url, r2);
            lemma_take_u32(proxy as u32, rest);
            lemma_url_parts(version, url, proxy, a.wire() + rest, r1, r2, rest);
        },
    }
}

/// The parts of a later request, read one after the other.
proof fn lemma_decoded_since_v2(
    version: u32,
    q: OpenRequestView,
    s: Seq<u8>,
    after_window: Seq<u8>,
    after_wait: Seq<u8>,
    after_action: Seq<u8>,
    tail: Seq<u8>,
)
    requires
        2 <= version <= 4,
        take_str(s) == Some((q.window.name(), after_window)),
        WindowMode::named(q.window.name()) == Some(q.window),
        take_wait(version, after_window) == Some((q.wait, after_wait)),
        take_action(version, after_wait) == Ok::<(ActionView, Seq<u8>), ProtoErrorView>(
            (q.action, after_action),
        ),
        take_str(after_action) == Some((q.hostname, tail)),
    ensures
        decoded_since_v2(version, s) == (match take_sender(version, tail) {
            None => Err(ProtoErrorView::Truncated),
            Some((user, ssh_connection)) => Ok(
                OpenMessageView { request: q, user, ssh_connection },
            ),
        }),
{
}

/// A request of version 3 or 4, followed by `tail`, reads back up to `tail`.
proof fn lemma_decoded_request(version: u32, q: OpenRequestView, tail: Seq<u8>)
    requires
        3 <= version <= 4,
        q.fits(),
        q.action is Url ==> version == 4,
    ensures
        decoded_open(q.wire(version) + tail) == (match take_sender(version, tail) {
            None => Err(ProtoErrorView::Truncated),
            Some((user, ssh_connection)) => Ok(
                OpenMessageView { request: q, user, ssh_connection },
            ),
        }),
{
    let r4 = wire_str(q.hostname) + tail;
    let r3 = q.action.wire() + r4;
    let r2 = be32(q.wait as u32) + r3;
    let r1 = wire_str(q.window.name()) + r2;
    lemma_concat6(
        be32(version),
        wire_str(q.window.name()),
        be32(q.wait as u32),
        q.action.wire(),
        wire_str(q.hostname),
        tail,
    );
    assert(decoded_since_v2(version, r1) == (match take_sender(version, tail) {
        None => Err(ProtoErrorView::Truncated),
        Some((user, ssh_connection)) => Ok(OpenMessageView { request: q, user, ssh_connection }),
    })) by {
        law_window_names(q.window);
        lemma_take_str(q.window.name(), r2);
        lemma_take_u32(q.wait as u32, r3);
        lemma_take_action(version, q.action, r4);
        lemma_take_str(q.hostname, tail);
        lemma_decoded_since_v2(version, q, r1, r2, r3, r4, tail);
    }
    lemma_take_u32(version, r1);
}

/// A message whose strings fit their length prefixes is decoded to what was
/// encoded.
pub proof fn law_open_message_round_trip(m: OpenMessageView)
    requires
        m.fits(),
    ensures
        decoded_open(m.encoded()) == Ok::<OpenMessageView, ProtoErrorView>(m),
{
    let r2 = wire_str(m.ssh_connection) + Seq::<u8>::empty();
    let r1 = wire_str(m.user) + r2;
    assert(m.encoded() =~= m.request.wire(4) + r1);
    lemma_decoded_request(4, m.request, r1);
    lemma_take_str(m.user, r2);
    lemma_take_str(m.ssh_connection, Seq::<u8>::empty());
}

/// A bare request whose strings fit their length prefixes is decoded to what
/// was encoded.
pub proof fn law_open_request_round_trip(q: OpenRequestView)
    requires
        q.fits(),
    ensures
        decoded_open(q.encoded()) == Ok::<OpenMessageView, ProtoErrorView>(q.bare()),
{
    if q.version() == 4 {
        assert(encode_utf8(Seq::<char>::empty()).len() == 0);
        law_open_message_round_trip(q.bare());
    } else {
        assert(q.encoded() =~= q.wire(3) + Seq::<u8>::empty());
        lemma_decoded_request(3, q, Seq::<u8>::empty());
    }
}

/// A version 1 request on the wire: kind, path and hostname only.
pub open spec fn wire_v1(kind: Kind, path: Seq<char>, hostname: Seq<char>) -> Seq<u8> {
    be32(1) + wire_str(kind.name()) + wire_str(path) + wire_str(hostname)
}

/// A version 2 request on the wire: no wait flag.
pub open spec fn wire_v2(q: OpenRequestView) -> Seq<u8> {
    be32(2) + wire_str(q.window.name()) + q.action.wire() + wire_str(q.hostname)
}

/// The parts of a version 1 request, read one after the other.
proof fn lemma_v1_parts(
    kind: Kind,
    path: Seq<char>,
    hostname: Seq<char>,
    body: Seq<u8>,
    after_kind: Seq<u8>,
    after_path: Seq<u8>,
    rest: Seq<u8>,
)
    requires
        take_str(body) == Some((kind.name(), after_kind)),
        Kind::named(kind.name()) == Some(kind),
        take_str(after_kind) == Some((path, after_path)),
        take_str(after_path) == Some((hostname, rest)),
    ensures
        decoded_v1(body) == Ok::<OpenMessageView, ProtoErrorView>(
            OpenRequestView {
                action: ActionView::Open { kind, path, line: 0, col: 0 },
                window: WindowMode::Default,
                wait: false,
                hostname,
            }.bare(),
        ),
{
}

/// Requests of the first version are still understood: they open a path,
/// with no position, in a window of the editor's choosing, without waiting.
pub proof fn law_v1_understood(kind: Kind, path: Seq<char>, hostname: Seq<char>)
    requires
        fits(path),
        fits(hostname),
    ensures
        decoded_open(wire_v1(kind, path, hostname)) == Ok::<OpenMessageView, ProtoErrorView>(
            OpenRequestView {
                action: ActionView::Open { kind, path, line: 0, col: 0 },
                window: WindowMode::Default,
                wait: false,
                hostname,
            }.bare(),
        ),
{
    let nil = Seq::<u8>::empty();
    let r3 = wire_str(hostname) + nil;
    let r2 = wire_str(path) + r3;
    let r1 = wire_str(kind.name()) + r2;
    assert(wire_str(hostname) =~= r3);
    lemma_concat4(be32(1), wire_str(kind.name()), wire_str(path), r3);
    assert(take_u32(wire_v1(kind, path, hostname)) == Some((1u32, r1))) by {
        lemma_take_u32(1, r1);
    }
    assert(take_str(r1) == Some((kind.name(), r2)) && Kind::named(kind.name()) == Some(kind)) by {
        law_kind_names(kind);
        lemma_take_str(kind.name(), r2);
    }
    assert(take_str(r2) == Some((path, r3))) by {
        lemma_take_str(path, r3);
    }
    assert(take_str(r3) == Some((hostname, nil))) by {
        lemma_take_str(hostname, nil);
    }
    lemma_v1_parts(kind, path, hostname, r1, r2, r3, nil);
}

/// Requests of the second version are still understood, as requests that do
/// not wait.
pub proof fn law_v2_understood(q: OpenRequestView)
    requires
        q.fits(),
        !(q.action is Url),
        !q.wait,
    ensures
        decoded_open(wire_v2(q)) == Ok::<OpenMessageView, ProtoErrorView>(q.bare()),
{
    let nil = Seq::<u8>::empty();
    let r3 = wire_str(q.hostname) + nil;
    let r2 = q.action.wire() + r3;
    let r1 = wire_str(q.window.name()) + r2;
    assert(wire_str(q.hostname) =~= r3);
    lemma_concat4(be32(2), wire_str(q.window.name()), q.action.wire(), r3);
    assert(decoded_since_v2(2, r1) == Ok::<OpenMessageView, ProtoErrorView>(q.bare())) by {
        law_window_names(q.window);
        lemma_take_str(q.window.name(), r2);
        lemma_take_action(2, q.action, r3);
        lemma_take_str(q.hostname, nil);
        lemma_decoded_since_v2(2, q, r1, r2, r2, r3, nil);
    }
    lemma_take_u32(2, r1);
}

/// A request of a version we do not speak is refused, whatever it holds.
pub proof fn law_unknown_version_refused(version: u32, rest: Seq<u8>)
    requires
        version == 0 || version > 4,
    ensures
        decoded_open(be32(version) + rest) == Err::<OpenMessageView, ProtoErrorView>(
            ProtoErrorView::UnsupportedVersion(version),
        ),
{
    lemma_take_u32(version, rest);
}

// ---- messages that are cut short, or go on ----

/// A number is read from the front of a message exactly when all of it is
/// there.
proof fn lemma_cut_u32(s: Seq<u8>, k: int)
    requires
        0 <= k <= s.len(),
        take_u32(s) is Some,
    ensures
        k < 4 ==> take_u32(s.take(k)) is None,
        k >= 4 ==> take_u32(s.take(k)) == Some(((take_u32(s)->0).0, (take_u32(s)->0).1.take(k - 4))),
        (take_u32(s)->0).1.len() == s.len() - 4,
{
    if k >= 4 {
        assert(s.take(k).take(4) =~= s.take(4));
        assert(s.take(k).skip(4) =~= s.skip(4).take(k - 4));
    }
}

/// A string is read from the front of a message exactly when all of it is
/// there.
proof fn lemma_cut_str(s: Seq<u8>, k: int)
    requires
        0 <= k <= s.len(),
        take_str(s) is Some,
    ensures
        ({
            let (t, rest) = take_str(s)->0;
            let c = s.len() - rest.len();
            &&& 4 <= c
            &&& k < c ==> take_str(s.take(k)) is None
            &&& k >= c ==> take_str(s.take(k)) == Some((t, rest.take(k - c)))
        }),
{
    lemma_cut_u32(s, k);
    let (n, body) = take_u32(s)->0;
    if k >= 4 + n {
        assert(body.take(k - 4).take(n as int) =~= body.take(n as int));
        assert(body.take(k - 4).skip(n as int) =~= body.skip(n as int).take(k - 4 - n));
    }
}

/// An action that was read, and what is read when the message is cut short at
/// `k`: the action exactly when all of it is there.
spec fn cut_tells(
    whole: Result<(ActionView, Seq<u8>), ProtoErrorView>,
    cut: Result<(ActionView, Seq<u8>), ProtoErrorView>,
    len: int,
    k: int,
) -> bool {
    let (a, rest) = whole->Ok_0;
    let c = len - rest.len();
    &&& 4 <= c
    &&& k < c ==> cut is Err
    &&& k >= c ==> cut == Ok::<(ActionView, Seq<u8>), ProtoErrorView>((a, rest.take(k - c)))
}

/// A position is read exactly when all of it is there.
proof fn lemma_cut_position(s: Seq<u8>, k: int)
    requires
        0 <= k <= s.len(),
        take_position(s) is Some,
    ensures
        ({
            let (line, col, rest) = take_position(s)->0;
            &&& rest.len() == s.len() - 8
            &&& k < 8 ==> take_position(s.take(k)) is None
            &&& k >= 8 ==> take_position(s.take(k)) == Some((line, col, rest.take(k - 8)))
        }),
{
    lemma_cut_u32(s, k);
    let (_, s1) = take_u32(s)->0;
    lemma_cut_u32(s1, if k < 4 { 0 } else { k - 4 });
}

/// What is to be opened is read exactly when all of it is there.
proof fn lemma_cut_open(s: Seq<u8>, k: int)
    requires
        0 <= k <= s.len(),
        take_open(s) is Ok,
    ensures
        cut_tells(take_open(s), take_open(s.take(k)), s.len() as int, k),
{
    lemma_cut_str(s, k);
    let (_, s1) = take_str(s)->0;
    let k1 = k - (s.len() - s1.len());
    lemma_cut_str(s1, if k1 < 0 { 0 } else { k1 });
    let (_, s2) = take_str(s1)->0;
    let k2 = k1 - (s1.len() - s2.len());
    lemma_cut_position(s2, if k2 < 0 { 0 } else { k2 });
}

/// What is to be compared is read exactly when all of it is there.
proof fn lemma_cut_diff(s: Seq<u8>, k: int)
    requires
        0 <= k <= s.len(),
        take_diff(s) is Ok,
    ensures
        cut_tells(take_diff(s), take_diff(s.take(k)), s.len() as int, k),
{
    lemma_cut_str(s, k);
    let (_, s1) = take_str(s)->0;
    let k1 = k - (s.len() - s1.len());
    lemma_cut_str(s1, if k1 < 0 { 0 } else { k1 });
}

/// A URL is read exactly when all of it is there.
proof fn lemma_cut_url(s: Seq<u8>, k: int)
    requires
        0 <= k <= s.len(),
        take_url(s) is Ok,
    ensures
        cut_tells(take_url(s), take_url(s.take(k)), s.len() as int, k),
{
    lemma_cut_str(s, k);
    let (_, s1) = take_str(s)->0;
    let k1 = k - (s.len() - s1.len());
    lemma_cut_u32(s1, if k1 < 0 { 0 } else { k1 });
}

/// An action whose tag is there is read when the rest of it is.
proof fn lemma_cut_tagged_open(version: u32, s: Seq<u8>, s1: Seq<u8>, k: int)
    requires
        0 <= k <= s.len(),
        take_action(version, s) is Ok,
        take_str(s) == Some(("open"@, s1)),
    ensures
        cut_tells(take_action(version, s), take_action(version, s.take(k)), s.len() as int, k),
{
    lemma_tags();
    lemma_cut_str(s, k);
    let k1 = k - (s.len() - s1.len());
    if k1 >= 0 {
        lemma_cut_open(s1, k1);
    } else {
        lemma_cut_open(s1, 0);
    }
}

proof fn lemma_cut_tagged_diff(version: u32, s: Seq<u8>, s1: Seq<u8>, k: int)
    requires
        0 <= k <= s.len(),
        take_action(version, s) is Ok,
        take_str(s) == Some(("diff"@, s1)),
    ensures
        cut_tells(take_action(version, s), take_action(version, s.take(k)), s.len() as int, k),
{
    lemma_tags();
    lemma_cut_str(s, k);
    let k1 = k - (s.len() - s1.len());
    if k1 >= 0 {
        lemma_cut_diff(s1, k1);
    } else {
        lemma_cut_diff(s1, 0);
    }
}

proof fn lemma_cut_tagged_url(version: u32, s: Seq<u8>, s1: Seq<u8>, k: int)
    requires
        0 <= k <= s.len(),
        take_action(version, s) is Ok,
        take_str(s) == Some(("url"@, s1)),
    ensures
        cut_tells(take_action(version, s), take_action(version, s.take(k)), s.len() as int, k),
{
    lemma_tags();
    lemma_cut_str(s, k);
    let k1 = k - (s.len() - s1.len());
    if k1 >= 0 {
        lemma_cut_url(s1, k1);
    } else {
        lemma_cut_url(s1, 0);
    }
}

/// An action is read from the front of a message exactly when all of it is
/// there.
proof fn lemma_cut_action(version: u32, s: Seq<u8>, k: int)
    requires
        0 <= k <= s.len(),
        take_action(version, s) is Ok,
    ensures
        cut_tells(take_action(version, s), take_action(version, s.take(k)), s.len() as int, k),
{
    lemma_cut_str(s, k);
    let (tag, s1) = take_str(s)->0;
    if tag == "open"@ {
        lemma_cut_tagged_open(version, s, s1, k);
    } else if tag == "diff"@ {
        lemma_cut_tagged_diff(version, s, s1, k);
    } else {
        lemma_cut_tagged_url(version, s, s1, k);
    }
}

/// What follows the version number is refused when it is cut short, read one
/// part after the other.
proof fn lemma_cut_since_v2(
    version: u32,
    q: OpenRequestView,
    s: Seq<u8>,
    after_window: Seq<u8>,
    after_wait: Seq<u8>,
    after_action: Seq<u8>,
    k: int,
)
    requires
        3 <= version <= 4,
        take_str(s) == Some((q.window.name(), after_window)),
        WindowMode::named(q.window.name()) == Some(q.window),
        take_wait(version, after_window) == Some((q.wait, after_wait)),
        take_action(version, after_wait) == Ok::<(ActionView, Seq<u8>), ProtoErrorView>(
            (q.action, after_action),
        ),
        take_str(after_action) == Some((q.hostname, Seq::<u8>::empty())),
        0 <= k < s.len(),
    ensures
        decoded_since_v2(version, s.take(k)) is Err,
{
    lemma_cut_str(s, k);
    let k1 = k - (s.len() - after_window.len());
    if k1 >= 0 {
        lemma_cut_u32(after_window, k1);
        let k2 = k1 - 4;
        if k2 >= 0 {
            lemma_cut_action(version, after_wait, k2);
            let k3 = k2 - (after_wait.len() - after_action.len());
            if k3 >= 0 {
                lemma_cut_str(after_action, k3);
            }
        }
    }
}

/// A request behind its version number, bracketed from the right.
spec fn after_version(q: OpenRequestView) -> Seq<u8> {
    wire_str(q.window.name()) + (be32(q.wait as u32) + (q.action.wire() + (wire_str(q.hostname)
        + Seq::<u8>::empty())))
}

/// What follows the version number is refused when it is cut short.
proof fn lemma_cut_after_version(version: u32, q: OpenRequestView, k: int)
    requires
        3 <= version <= 4,
        q.fits(),
        q.action is Url ==> version == 4,
        0 <= k < after_version(q).len(),
    ensures
        decoded_since_v2(version, after_version(q).take(k)) is Err,
{
    let nil = Seq::<u8>::empty();
    let r4 = wire_str(q.hostname) + nil;
    let r3 = q.action.wire() + r4;
    let r2 = be32(q.wait as u32) + r3;
    law_window_names(q.window);
    lemma_take_str(q.window.name(), r2);
    assert(take_wait(version, r2) == Some((q.wait, r3))) by {
        lemma_take_u32(q.wait as u32, r3);
    }
    lemma_take_action(version, q.action, r4);
    lemma_take_str(q.hostname, nil);
    lemma_cut_since_v2(version, q, after_version(q), r2, r3, r4, k);
}

/// No part of a request that ends before the request does is taken for one.
proof fn lemma_cut_request(version: u32, q: OpenRequestView, k: int)
    requires
        3 <= version <= 4,
        q.fits(),
        q.action is Url ==> version == 4,
        0 <= k < q.wire(version).len(),
    ensures
        decoded_open(q.wire(version).take(k)) is Err,
{
    let r1 = after_version(q);
    let s = be32(version) + r1;
    assert(s == q.wire(version)) by {
        lemma_concat6(
            be32(version),
            wire_str(q.window.name()),
            be32(q.wait as u32),
            q.action.wire(),
            wire_str(q.hostname),
            Seq::<u8>::empty(),
        );
        assert(q.wire(version) + Seq::<u8>::empty() =~= q.wire(version));
    }
    lemma_take_u32(version, r1);
    lemma_cut_u32(s, k);
    if k >= 4 {
        lemma_cut_after_version(version, q, k - 4);
    }
}

/// No part of an encoded message that ends before the message does is taken
/// for one.
pub proof fn law_cut_message_refused(m: OpenMessageView, k: int)
    requires
        m.fits(),
        0 <= k < m.encoded().len(),
    ensures
        decoded_open(m.encoded().take(k)) is Err,
{
    let nil = Seq::<u8>::empty();
    let r2 = wire_str(m.ssh_connection) + nil;
    let r1 = wire_str(m.user) + r2;
    let w = m.request.wire(4);
    assert(m.encoded() =~= w + r1);
    if k < w.len() {
        lemma_cut_request(4, m.request, k);
        assert(m.encoded().take(k) =~= w.take(k));
    } else {
        let j = k - w.len();
        assert(m.encoded().take(k) =~= w + r1.take(j));
        lemma_decoded_request(4, m.request, r1.take(j));
        lemma_take_str(m.user, r2);
        lemma_take_str(m.ssh_connection, nil);
        lemma_cut_str(r1, j);
        let j2 = j - (r1.len() - r2.len());
        if j2 >= 0 {
            lemma_cut_str(r2, j2);
        }
        assert(take_sender(4, r1.take(j)) is None);
    }
}

/// No part of a bare request that ends before the request does is taken for
/// one.
pub proof fn law_cut_request_refused(q: OpenRequestView, k: int)
    requires
        q.fits(),
        0 <= k < q.encoded().len(),
    ensures
        decoded_open(q.encoded().take(k)) is Err,
{
    if q.version() == 4 {
        assert(encode_utf8(Seq::<char>::empty()).len() == 0);
        law_cut_message_refused(q.bare(), k);
    } else {
        lemma_cut_request(3, q, k);
    }
}

/// What follows an encoded message changes nothing.
pub proof fn law_message_may_go_on(m: OpenMessageView, more: Seq<u8>)
    requires
        m.fits(),
    ensures
        decoded_open(m.encoded() + more) == Ok::<OpenMessageView, ProtoErrorView>(m),
{
    let r2 = wire_str(m.ssh_connection) + more;
    let r1 = wire_str(m.user) + r2;
    assert(m.encoded() + more == m.request.wire(4) + r1) by {
        lemma_concat4(m.request.wire(4), wire_str(m.user), wire_str(m.ssh_connection), more);
    }
    assert(take_sender(4, r1) == Some((m.user, m.ssh_connection))) by {
        lemma_take_str(m.user, r2);
        lemma_take_str(m.ssh_connection, more);
    }
    lemma_decoded_request(4, m.request, r1);
}

/// What follows a bare request changes nothing.
pub proof fn law_request_may_go_on(q: OpenRequestView, more: Seq<u8>)
    requires
        q.fits(),
    ensures
        decoded_open(q.encoded() + more) == Ok::<OpenMessageView, ProtoErrorView>(q.bare()),
{
    if q.version() == 4 {
        assert(encode_utf8(Seq::<char>::empty()).len() == 0);
        law_message_may_go_on(q.bare(), more);
    } else {
        lemma_decoded_request(3, q, more);
    }
}

/// The reply to an open request that was carried out: the authority it was
/// opened under and where that came from.
pub open spec fn ack_msg(alias: Seq<char>, how: Seq<char>) -> Seq<u8> {
    seq![SSH_AGENT_SUCCESS] + wire_str(alias) + wire_str(how)
}

/// Success, with the authority that was resolved and where it came from.
pub fn ack_frame(alias: &str, how: &str) -> (r: Vec<u8>)
    ensures
        r@ == ack_msg(alias@, how@),
{
    let mut m = success_frame();
    put_str(&mut m, alias);
    put_str(&mut m, how);
    m
}

// ---- ping ----

#[derive(Debug, Clone)]
pub struct PingReply {
    pub version: String,
    pub pid: u32,
    pub upstream: String,
}

/// `PingReply` with its strings taken as characters.
pub struct PingReplyView {
    pub version: Seq<char>,
    pub pid: u32,
    pub upstream: Seq<char>,
}

impl View for PingReply {
    type V = PingReplyView;

    open spec fn view(&self) -> PingReplyView {
        PingReplyView { version: self.version@, pid: self.pid, upstream: self.upstream@ }
    }
}

impl PingReplyView {
    /// Every string of the reply fits its length prefix.
    pub open spec fn fits(self) -> bool {
        fits(self.version) && fits(self.upstream)
    }

    /// The reply on the wire.
    pub open spec fn encoded(self) -> Seq<u8> {
        seq![SSH_AGENT_SUCCESS] + wire_str("backchannel"@) + wire_str(self.version) + be32(self.pid)
            + wire_str(self.upstream)
    }
}

/// Reads a ping reply; nothing for other replies.
pub open spec fn decoded_ping(msg: Seq<u8>) -> Option<PingReplyView> {
    if msg.len() == 0 || msg[0] != SSH_AGENT_SUCCESS {
        None
    } else {
        match take_exactly(msg.skip(1), "backchannel"@) {
            None => None,
            Some(s) => match take_str(s) {
                None => None,
                Some((version, s)) => match take_u32(s) {
                    None => None,
                    Some((pid, s)) => match take_str(s) {
                        None => None,
                        Some((upstream, _)) => Some(PingReplyView { version, pid, upstream }),
                    },
                },
            },
        }
    }
}

/// Four bytes spell no number but their own.
proof fn lemma_be32_unique(b: Seq<u8>)
    requires
        b.len() == 4,
    ensures
        be32(be32_value(b)) == b,
{
    let v = b[0] * 0x100_0000 + b[1] * 0x1_0000 + b[2] * 0x100 + b[3];
    assert(be32_value(b) == v);
    assert(v / 0x100_0000 == b[0]) by {
        vstd::arithmetic::div_mod::lemma_fundamental_div_mod_converse(
            v,
            0x100_0000,
            b[0] as int,
            b[1] * 0x1_0000 + b[2] * 0x100 + b[3],
        );
    }
    assert(v / 0x1_0000 % 0x100 == b[1]) by {
        let q = b[0] * 0x100 + b[1];
        vstd::arithmetic::div_mod::lemma_fundamental_div_mod_converse(v, 0x1_0000, q, b[2] * 0x100 + b[3]);
        vstd::arithmetic::div_mod::lemma_fundamental_div_mod_converse(q, 0x100, b[0] as int, b[1] as int);
    }
    assert(v / 0x100 % 0x100 == b[2]) by {
        let q = b[0] * 0x1_0000 + b[1] * 0x100 + b[2];
        vstd::arithmetic::div_mod::lemma_fundamental_div_mod_converse(v, 0x100, q, b[3] as int);
        vstd::arithmetic::div_mod::lemma_fundamental_div_mod_converse(q, 0x100, b[0] * 0x100 + b[1], b[2] as int);
    }
    assert(v % 0x100 == b[3]) by {
        let q = b[0] * 0x1_0000 + b[1] * 0x100 + b[2];
        vstd::arithmetic::div_mod::lemma_fundamental_div_mod_converse(v, 0x100, q, b[3] as int);
    }
    assert(be32(be32_value(b)) =~= b);
}

/// What begins with the expected string is read as it.
proof fn lemma_expected_is_read(s: Seq<u8>, expected: Seq<char>)
    requires
        fits(expected),
        take_exactly(s, expected) is Some,
    ensures
        take_str(s) == Some((expected, take_exactly(s, expected)->0)),
{
    let w = wire_str(expected);
    let rest = s.skip(w.len() as int);
    assert(s =~= w + rest) by {
        assert(s.subrange(0, w.len() as int) == w);
    }
    lemma_take_str(expected, rest);
}

/// What is length-prefixed begins with its length and its bytes.
proof fn lemma_bytes_stand(s: Seq<u8>)
    requires
        take_bytes(s) is Some,
    ensures
        ({
            let (b, rest) = take_bytes(s)->0;
            s == wire_bytes(b) + rest
        }),
{
    let (b, rest) = take_bytes(s)->0;
    lemma_be32_unique(s.take(4));
    assert(be32(wire_len(b.len())) == s.take(4));
    assert(s =~= s.take(4) + b + rest);
}

/// What is read as the expected string begins with it.
proof fn lemma_read_is_expected(s: Seq<u8>, expected: Seq<char>)
    requires
        take_str(s) is Some,
        str_bytes(s) == encode_utf8(expected),
    ensures
        take_exactly(s, expected) == Some((take_str(s)->0).1),
{
    let (b, rest) = take_bytes(s)->0;
    let w = wire_str(expected);
    lemma_bytes_stand(s);
    assert(s == w + rest);
    assert((w + rest).subrange(0, w.len() as int) =~= w);
    assert((w + rest).skip(w.len() as int) =~= rest);
}

/// A string that was read is the expected one exactly when its bytes are.
proof fn lemma_take_exactly(s: Seq<u8>, expected: Seq<char>)
    requires
        fits(expected),
        !expected.contains(text::REPLACEMENT),
    ensures
        take_str(s) is None ==> take_exactly(s, expected) is None,
        take_str(s) matches Some((t, rest)) ==> (text::read_from(t, str_bytes(s)) ==> (
        if t == expected {
            take_exactly(s, expected) == Some(rest)
        } else {
            take_exactly(s, expected) is None
        })),
{
    if take_exactly(s, expected) is Some {
        lemma_expected_is_read(s, expected);
    }
    if let Some((t, rest)) = take_str(s) {
        if text::read_from(t, str_bytes(s)) && t == expected {
            text::lemma_read_exactly(t, str_bytes(s), expected);
            lemma_read_is_expected(s, expected);
        }
    }
}

impl PingReply {
    pub fn encode(&self) -> (r: Vec<u8>)
        ensures
            r@ == self@.encoded(),
    {
        let mut b = success_frame();
        put_str(&mut b, "backchannel");
        put_str(&mut b, self.version.as_str());
        put_u32(&mut b, self.pid);
        put_str(&mut b, self.upstream.as_str());
        b
    }

    /// None when the frame isn't from a backchannel daemon (e.g. a real
    /// ssh-agent answering SSH_AGENT_FAILURE to the unknown extension).
    pub fn decode(frame: &[u8]) -> (r: Option<PingReply>)
        ensures
            match decoded_ping(frame@) {
                None => r is None,
                Some(p) => r is Some && r->0@ == p,
            },
    {
        if frame.len() == 0 || frame[0] != SSH_AGENT_SUCCESS {
            return None;
        }
        let body = slice_subrange(frame, 1, frame.len());
        assert(body@ =~= frame@.skip(1));
        let mut c = Cursor::new(body);
        proof {
            reveal_strlit("backchannel");
            is_ascii_chars_encode_utf8("backchannel"@);
            lemma_take_exactly(body@, "backchannel"@);
        }
        let name = c.str().ok()?;
        if !same(name.as_str(), "backchannel") {
            return None;
        }
        let version = c.str().ok()?;
        let pid: u32 = c.u32().ok()?;
        let upstream = c.str().ok()?;
        Some(PingReply { version, pid, upstream })
    }
}

/// The parts of a ping reply, read one after the other.
proof fn lemma_ping_parts(
    p: PingReplyView,
    msg: Seq<u8>,
    after_name: Seq<u8>,
    after_version: Seq<u8>,
    after_pid: Seq<u8>,
    rest: Seq<u8>,
)
    requires
        msg.len() > 0,
        msg[0] == SSH_AGENT_SUCCESS,
        take_exactly(msg.skip(1), "backchannel"@) == Some(after_name),
        take_str(after_name) == Some((p.version, after_version)),
        take_u32(after_version) == Some((p.pid, after_pid)),
        take_str(after_pid) == Some((p.upstream, rest)),
    ensures
        decoded_ping(msg) == Some(p),
{
}

/// A ping reply whose strings fit their length prefixes is decoded to what
/// was encoded.
pub proof fn law_ping_round_trip(p: PingReplyView)
    requires
        p.fits(),
    ensures
        decoded_ping(p.encoded()) == Some(p),
{
    let nil = Seq::<u8>::empty();
    let r3 = wire_str(p.upstream) + nil;
    let r2 = be32(p.pid) + r3;
    let r1 = wire_str(p.version) + r2;
    let name = wire_str("backchannel"@);
    let head = seq![SSH_AGENT_SUCCESS] + name;
    assert(p.encoded() == head + r1) by {
        assert(wire_str(p.upstream) =~= r3);
        lemma_concat4(head, wire_str(p.version), be32(p.pid), r3);
    }
    assert(take_exactly(p.encoded().skip(1), "backchannel"@) == Some(r1)) by {
        lemma_skip_first(SSH_AGENT_SUCCESS, name, r1);
        assert((name + r1).subrange(0, name.len() as int) =~= name);
        assert((name + r1).skip(name.len() as int) =~= r1);
    }
    assert(p.encoded()[0] == SSH_AGENT_SUCCESS);
    assert(take_str(r1) == Some((p.version, r2))) by {
        lemma_take_str(p.version, r2);
    }
    assert(take_u32(r2) == Some((p.pid, r3))) by {
        lemma_take_u32(p.pid, r3);
    }
    assert(take_str(r3) == Some((p.upstream, nil))) by {
        lemma_take_str(p.upstream, nil);
    }
    lemma_ping_parts(p, p.encoded(), r1, r2, r3, nil);
}

/// What every ping reply of ours begins with: success, and our name.
pub open spec fn ping_head() -> Seq<u8> {
    seq![SSH_AGENT_SUCCESS] + wire_str("backchannel"@)
}

/// Nothing is taken for a ping reply that does not begin, byte for byte, with
/// success and our name.
pub proof fn law_ping_begins(msg: Seq<u8>)
    ensures
        decoded_ping(msg) is Some ==> text::starts_with(msg, ping_head()),
        decoded_ping(Seq::empty()) is None,
        decoded_ping(seq![SSH_AGENT_SUCCESS]) is None,
{
    let w = wire_str("backchannel"@);
    if decoded_ping(msg) is Some {
        assert(msg.skip(1).subrange(0, w.len() as int) == w);
        assert(msg.subrange(0, ping_head().len() as int) =~= ping_head()) by {
            assert forall|i: int| 0 <= i < w.len() implies msg[i + 1] == w[i] by {
                assert(msg.skip(1).subrange(0, w.len() as int)[i] == msg[i + 1]);
            }
        }
    }
    assert(seq![SSH_AGENT_SUCCESS].skip(1).len() < w.len());
}

/// A ping reply with another status byte, or with any byte of our name or of
/// its length changed, is refused.
pub proof fn law_altered_ping_refused(p: PingReplyView, i: int, b: u8)
    requires
        0 <= i < ping_head().len(),
        b != p.encoded()[i],
    ensures
        decoded_ping(p.encoded().update(i, b)) is None,
{
    let altered = p.encoded().update(i, b);
    law_ping_begins(altered);
    assert(p.encoded()[i] == ping_head()[i]);
    if text::starts_with(altered, ping_head()) {
        assert(altered.subrange(0, ping_head().len() as int)[i] == altered[i]);
    }
}

/// No part of a ping reply that ends before the reply does is taken for one.
pub proof fn law_cut_ping_refused(p: PingReplyView, k: int)
    requires
        p.fits(),
        0 <= k < p.encoded().len(),
    ensures
        decoded_ping(p.encoded().take(k)) is None,
{
    let nil = Seq::<u8>::empty();
    let r3 = wire_str(p.upstream) + nil;
    let r2 = be32(p.pid) + r3;
    let r1 = wire_str(p.version) + r2;
    let w = wire_str("backchannel"@);
    let cut = p.encoded().take(k);
    assert(p.encoded() =~= ping_head() + r1) by {
        assert(wire_str(p.upstream) =~= r3);
        lemma_concat4(ping_head(), wire_str(p.version), be32(p.pid), r3);
    }
    if k < ping_head().len() {
        law_ping_begins(cut);
    } else {
        let j = k - ping_head().len();
        assert(cut =~= ping_head() + r1.take(j));
        lemma_skip_first(SSH_AGENT_SUCCESS, w, r1.take(j));
        assert((w + r1.take(j)).skip(w.len() as int) =~= r1.take(j));
        lemma_take_str(p.version, r2);
        lemma_take_u32(p.pid, r3);
        lemma_take_str(p.upstream, nil);
        lemma_cut_str(r1, j);
        let j2 = j - (r1.len() - r2.len());
        if j2 >= 0 {
            lemma_cut_u32(r2, j2);
            if j2 >= 4 {
                lemma_cut_str(r3, j2 - 4);
            }
        }
    }
}

/// What a real agent answers to an extension it does not know is never
/// taken for a ping reply.
pub proof fn law_agent_failure_is_no_ping(msg: Seq<u8>)
    requires
        msg.len() > 0,
        msg[0] == SSH_AGENT_FAILURE || msg[0] == SSH_AGENT_EXTENSION_FAILURE,
    ensures
        decoded_ping(msg) is None,
{
}

// ---- the bytes on the wire ----

/// A number goes out in four bytes, the highest first.
pub proof fn law_wire_number(v: u32)
    ensures
        be32(v).len() == 4,
        be32(v)[0] * 16777216 + be32(v)[1] * 65536 + be32(v)[2] * 256 + be32(v)[3] == v,
{
    let a = v as int / 0x100;
    let b = v as int / 0x1_0000;
    let c = v as int / 0x100_0000;
    assert(v == 0x100 * a + v as int % 0x100);
    assert(a == 0x100 * b + a % 0x100);
    assert(b == 0x100 * c + b % 0x100);
    assert(c < 0x100);
}

/// A string goes out as the number of its bytes and then the bytes.
pub proof fn law_wire_string(s: Seq<char>)
    requires
        fits(s),
    ensures
        wire_str(s).len() == 4 + encode_utf8(s).len(),
        wire_str(s).take(4) == be32(encode_utf8(s).len() as u32),
        wire_str(s).skip(4) == encode_utf8(s),
{
    let b = encode_utf8(s);
    let n = be32(b.len() as u32);
    assert(wire_str(s) == n + b);
    assert(n.len() == 4);
    assert((n + b).take(4) =~= n);
    assert((n + b).skip(4) =~= b);
}

/// A frame is the length of its payload in four bytes and then the payload;
/// an extension request, a refusal and a success begin with the bytes that
/// the agent protocol gives them.
pub proof fn law_wire_messages(payload: Seq<u8>, name: Seq<char>, reason: Seq<char>)
    requires
        payload.len() <= MAX_FRAME,
    ensures
        frame(payload) == be32(payload.len() as u32) + payload,
        extension_msg(name, payload) == seq![27u8] + wire_str(name) + payload,
        extension_failure_msg(reason) == seq![28u8] + wire_str(reason),
        SSH_AGENT_SUCCESS == 6,
        SSH_AGENT_FAILURE == 5,
        MAX_FRAME == 256 * 1024 * 1024,
{
}

/// The names under which kinds and windows travel.
pub proof fn law_wire_names()
    ensures
        Kind::File.name() == "file"@ && Kind::Folder.name() == "folder"@,
        WindowMode::Default.name() == "default"@ && WindowMode::New.name() == "new"@
            && WindowMode::Reuse.name() == "reuse"@,
{
}

/// An open request goes out as version 4: the window, whether to wait, the
/// action with its fields, the host, the user and the connection.
pub proof fn law_wire_open(m: OpenMessageView)
    ensures
        ({
            let window = match m.request.window {
                WindowMode::Default => "default"@,
                WindowMode::New => "new"@,
                WindowMode::Reuse => "reuse"@,
            };
            let flag = if m.request.wait { 1u32 } else { 0u32 };
            let action = match m.request.action {
                ActionView::Open { kind: Kind::File, path, line, col } => wire_str("open"@)
                    + wire_str("file"@) + wire_str(path) + be32(line) + be32(col),
                ActionView::Open { kind: Kind::Folder, path, line, col } => wire_str("open"@)
                    + wire_str("folder"@) + wire_str(path) + be32(line) + be32(col),
                ActionView::Diff { left, right } => wire_str("diff"@) + wire_str(left) + wire_str(
                    right,
                ),
                ActionView::Url { url, proxy } => wire_str("url"@) + wire_str(url) + be32(
                    if proxy { 1u32 } else { 0u32 },
                ),
            };
            m.encoded() == be32(4) + wire_str(window) + be32(flag) + action + wire_str(
                m.request.hostname,
            ) + wire_str(m.user) + wire_str(m.ssh_connection)
        }),
{
}

/// On its own a request goes out in the oldest version that can carry it:
/// the third, and the fourth where it asks for a URL.
pub proof fn law_wire_versions(q: OpenRequestView)
    ensures
        q.action is Url ==> q.encoded().take(4) == be32(4),
        !(q.action is Url) ==> q.encoded().take(4) == be32(3),
{
    lemma_be32(q.version());
    assert(q.encoded().take(4) =~= be32(q.version()));
}

/// A ping is answered by a success that names us, our version, our process
/// and the agent behind us.
pub proof fn law_wire_ping(p: PingReplyView)
    ensures
        p.encoded() == seq![6u8] + wire_str("backchannel"@) + wire_str(p.version) + be32(p.pid)
            + wire_str(p.upstream),
{
}

/// Any number but 0 sets a flag.
pub proof fn law_flags_read(version: u32, n: u32, url: Seq<char>, rest: Seq<u8>)
    requires
        3 <= version,
        fits(url),
    ensures
        take_wait(version, be32(n) + rest) == Some((n != 0, rest)),
        take_url(wire_str(url) + (be32(n) + rest)) == Ok::<(ActionView, Seq<u8>), ProtoErrorView>(
            (ActionView::Url { url, proxy: n != 0 }, rest),
        ),
{
    lemma_take_u32(n, rest);
    lemma_take_str(url, be32(n) + rest);
}

/// A word that is none of ours is refused by its name: a window, a kind, an
/// action, and a URL where the version knows none.
pub proof fn law_unknown_words_refused(version: u32, word: Seq<char>, rest: Seq<u8>)
    requires
        2 <= version <= 4,
        fits(word),
    ensures
        word != "default"@ && word != "new"@ && word != "reuse"@ ==> decoded_open(
            be32(version) + (wire_str(word) + rest),
        ) == Err::<OpenMessageView, ProtoErrorView>(ProtoErrorView::BadWindow(word)),
        word != "file"@ && word != "folder"@ ==> decoded_open(be32(1) + (wire_str(word) + rest))
            == Err::<OpenMessageView, ProtoErrorView>(ProtoErrorView::BadKind(word)),
        word != "file"@ && word != "folder"@ ==> take_open(wire_str(word) + rest) == Err::<
            (ActionView, Seq<u8>),
            ProtoErrorView,
        >(ProtoErrorView::BadKind(word)),
        word != "open"@ && word != "diff"@ && (word != "url"@ || version < 4) ==> take_action(
            version,
            wire_str(word) + rest,
        ) == Err::<(ActionView, Seq<u8>), ProtoErrorView>(ProtoErrorView::BadAction(word)),
{
    lemma_take_str(word, rest);
    lemma_take_u32(version, wire_str(word) + rest);
    lemma_take_u32(1, wire_str(word) + rest);
}

/// What is too short for a number, or for the bytes it announces, is
/// truncated.
pub proof fn law_short_is_truncated(s: Seq<u8>, n: u32)
    ensures
        s.len() < 4 ==> take_u32(s) is None && decoded_open(s) == Err::<
            OpenMessageView,
            ProtoErrorView,
        >(ProtoErrorView::Truncated) && take_frame(s) == Err::<(Seq<u8>, Seq<u8>), FrameError>(
            FrameError::UnexpectedEof,
        ),
        s.len() < n ==> take_bytes(be32(n) + s) is None,
        0 < n <= 268_435_456 && s.len() < n ==> take_frame(be32(n) + s) == Err::<
            (Seq<u8>, Seq<u8>),
            FrameError,
        >(FrameError::UnexpectedEof),
{
    lemma_take_u32(n, s);
}

/// An error names what was wrong.
pub proof fn law_errors_name_their_cause(s: Seq<char>, v: u32)
    ensures
        text::contains(ProtoErrorView::BadKind(s).message(), text::debug_quoted(s)),
        text::contains(ProtoErrorView::BadWindow(s).message(), text::debug_quoted(s)),
        text::contains(ProtoErrorView::BadAction(s).message(), text::debug_quoted(s)),
        text::contains(ProtoErrorView::UnsupportedVersion(v).message(), text::decimal(v as nat)),
        text::contains(ProtoErrorView::UnsupportedTransfer(v).message(), text::decimal(v as nat)),
        text::contains(FrameError::OutOfRange(v).spec_message(), text::decimal(v as nat)),
{
    let q = text::debug_quoted(s);
    let n = text::decimal(v as nat);
    text::lemma_contained("bad kind "@, q, Seq::empty());
    text::lemma_contained("bad window mode "@, q, Seq::empty());
    text::lemma_contained("bad action "@, q, Seq::empty());
    text::lemma_contained("unsupported open@backchannel version "@, n, Seq::empty());
    text::lemma_contained("unsupported transfer version "@, n, Seq::empty());
    let m = FrameError::OutOfRange(v).spec_message();
    let at = "frame length "@.len() as int;
    assert(m.subrange(at, at + n.len()) =~= n);
    assert(text::stands_at(m, at, n));
}

}
