//! The messages besides open requests: transfers of data (to the clipboard,
//! or to be opened as a file) and the list of tunnels.

use vstd::prelude::*;
use vstd::slice::slice_subrange;
use vstd::utf8::*;

use crate::proto;
use crate::proto::{put_raw, put_str, put_u32, success_frame, Cursor, ProtoError, ProtoErrorView};
use crate::proto::SSH_AGENT_SUCCESS;

verus! {

// ---- transfers ----

/// A transfer on the wire: its version, what it is called, who sends it, and
/// the data, up to the end of the message.
pub open spec fn transfer_wire(label: Seq<char>, hostname: Seq<char>, data: Seq<u8>) -> Seq<u8> {
    proto::be32(1) + proto::wire_str(label) + proto::wire_str(hostname) + data
}

/// Reads a transfer: its label, its sender and its data.
pub open spec fn take_transfer(s: Seq<u8>) -> Result<
    (Seq<char>, Seq<char>, Seq<u8>),
    ProtoErrorView,
> {
    match proto::take_u32(s) {
        None => Err(ProtoErrorView::Truncated),
        Some((version, s)) => if version != 1 {
            Err(ProtoErrorView::UnsupportedTransfer(version))
        } else {
            match proto::take_str(s) {
                None => Err(ProtoErrorView::Truncated),
                Some((label, s)) => match proto::take_str(s) {
                    None => Err(ProtoErrorView::Truncated),
                    Some((hostname, data)) => Ok((label, hostname, data)),
                },
            }
        },
    }
}

/// A transfer whose strings fit their length prefixes is read back as it was
/// written, with any data.
pub proof fn law_transfer_round_trip(label: Seq<char>, hostname: Seq<char>, data: Seq<u8>)
    requires
        proto::fits(label),
        proto::fits(hostname),
    ensures
        take_transfer(transfer_wire(label, hostname, data)) == Ok::<
            (Seq<char>, Seq<char>, Seq<u8>),
            ProtoErrorView,
        >((label, hostname, data)),
{
    let r2 = proto::wire_str(hostname) + data;
    let r1 = proto::wire_str(label) + r2;
    assert(transfer_wire(label, hostname, data) =~= proto::be32(1) + r1);
    proto::lemma_take_u32(1, r1);
    proto::lemma_take_str(label, r2);
    proto::lemma_take_str(hostname, data);
}

/// Writes a transfer.
fn encode_transfer(label: &str, hostname: &str, data: &[u8]) -> (r: Vec<u8>)
    ensures
        r@ == transfer_wire(label@, hostname@, data@),
{
    let mut b: Vec<u8> = Vec::new();
    put_u32(&mut b, 1);
    put_str(&mut b, label);
    put_str(&mut b, hostname);
    put_raw(&mut b, data);
    assert(b@ =~= transfer_wire(label@, hostname@, data@));
    b
}

/// Reads a transfer.
fn decode_transfer(data: &[u8]) -> (r: Result<(String, String, Vec<u8>), ProtoError>)
    ensures
        match take_transfer(data@) {
            Ok((l, h, d)) => r matches Ok((label, hostname, rest)) && label@ == l && hostname@ == h
                && rest@ == d,
            Err(e) => r is Err && r->Err_0@ == e,
        },
{
    let mut c = Cursor::new(data);
    let version: u32 = c.u32()?;
    if version != 1 {
        return Err(ProtoError::UnsupportedTransfer(version));
    }
    let label = c.str()?;
    let hostname = c.str()?;
    let off: usize = c.offset();
    let mut rest: Vec<u8> = Vec::new();
    put_raw(&mut rest, slice_subrange(data, off, data.len()));
    assert(rest@ =~= c.rest());
    Ok((label, hostname, rest))
}

/// Data for the daemon's clipboard, of a kind that `clipboard::detect_kind`
/// knows.
#[derive(Debug, Clone, PartialEq, Eq)]
pub struct CopyRequest {
    pub kind: String,
    pub hostname: String,
    pub data: Vec<u8>,
}

impl CopyRequest {
    pub fn encode(&self) -> (r: Vec<u8>)
        ensures
            r@ == transfer_wire(self.kind@, self.hostname@, self.data@),
    {
        encode_transfer(self.kind.as_str(), self.hostname.as_str(), self.data.as_slice())
    }

    pub fn decode(data: &[u8]) -> (r: Result<CopyRequest, ProtoError>)
        ensures
            match take_transfer(data@) {
                Ok((k, h, d)) => r is Ok && r->Ok_0.kind@ == k && r->Ok_0.hostname@ == h
                    && r->Ok_0.data@ == d,
                Err(e) => r is Err && r->Err_0@ == e,
            },
    {
        let (kind, hostname, data) = decode_transfer(data)?;
        Ok(CopyRequest { kind, hostname, data })
    }
}

/// A file to be opened with the default application of the daemon's machine.
#[derive(Debug, Clone, PartialEq, Eq)]
pub struct OpenFileRequest {
    pub basename: String,
    pub hostname: String,
    pub data: Vec<u8>,
}

impl OpenFileRequest {
    pub fn encode(&self) -> (r: Vec<u8>)
        ensures
            r@ == transfer_wire(self.basename@, self.hostname@, self.data@),
    {
        encode_transfer(self.basename.as_str(), self.hostname.as_str(), self.data.as_slice())
    }

    pub fn decode(data: &[u8]) -> (r: Result<OpenFileRequest, ProtoError>)
        ensures
            match take_transfer(data@) {
                Ok((b, h, d)) => r is Ok && r->Ok_0.basename@ == b && r->Ok_0.hostname@ == h
                    && r->Ok_0.data@ == d,
                Err(e) => r is Err && r->Err_0@ == e,
            },
    {
        let (basename, hostname, data) = decode_transfer(data)?;
        Ok(OpenFileRequest { basename, hostname, data })
    }
}

// ---- tunnels ----

/// One tunnel of the daemon: connections to a local port are carried to a
/// port of the host `alias`.
#[derive(Debug, Clone, PartialEq, Eq)]
pub struct TunnelEntry {
    pub local_port: u16,
    pub alias: String,
    pub remote_port: u16,
    /// The ssh process that carries them.
    pub pid: u32,
}

/// `TunnelEntry` with its strings taken as characters.
#[verifier::ext_equal]
pub struct TunnelEntryView {
    pub local_port: u16,
    pub alias: Seq<char>,
    pub remote_port: u16,
    pub pid: u32,
}

impl View for TunnelEntry {
    type V = TunnelEntryView;

    open spec fn view(&self) -> TunnelEntryView {
        TunnelEntryView {
            local_port: self.local_port,
            alias: self.alias@,
            remote_port: self.remote_port,
            pid: self.pid,
        }
    }
}

impl TunnelEntryView {
    /// The tunnel on the wire.
    pub open spec fn wire(self) -> Seq<u8> {
        proto::be32(self.local_port as u32) + proto::wire_str(self.alias) + proto::be32(
            self.remote_port as u32,
        ) + proto::be32(self.pid)
    }
}

/// The tunnels, each by its contents.
pub open spec fn entries_of(v: Seq<TunnelEntry>) -> Seq<TunnelEntryView> {
    v.map_values(|e: TunnelEntry| e@)
}

/// `entries_of` commutes with `push`.
pub broadcast proof fn lemma_entries_push(v: Seq<TunnelEntry>, e: TunnelEntry)
    ensures
        #[trigger] entries_of(v.push(e)) == entries_of(v).push(e@),
{
    assert(entries_of(v.push(e)) =~= entries_of(v).push(e@));
}

/// The tunnels on the wire, one after the other.
pub open spec fn entries_wire(es: Seq<TunnelEntryView>) -> Seq<u8>
    decreases es.len(),
{
    if es.len() == 0 {
        Seq::empty()
    } else {
        entries_wire(es.drop_last()) + es.last().wire()
    }
}

/// Reads a port.
pub open spec fn take_port(s: Seq<u8>) -> Option<(u16, Seq<u8>)> {
    match proto::take_u32(s) {
        Some((v, rest)) if v < 0x1_0000 => Some((v as u16, rest)),
        _ => None,
    }
}

/// Reads one tunnel.
pub open spec fn take_entry(s: Seq<u8>) -> Option<(TunnelEntryView, Seq<u8>)> {
    match take_port(s) {
        None => None,
        Some((local_port, s)) => match proto::take_str(s) {
            None => None,
            Some((alias, s)) => match take_port(s) {
                None => None,
                Some((remote_port, s)) => match proto::take_u32(s) {
                    None => None,
                    Some((pid, s)) => Some(
                        (TunnelEntryView { local_port, alias, remote_port, pid }, s),
                    ),
                },
            },
        },
    }
}

/// Reads `n` tunnels: the tunnels and what follows them.
pub open spec fn take_entries(n: nat, s: Seq<u8>) -> Option<(Seq<TunnelEntryView>, Seq<u8>)>
    decreases n,
{
    if n == 0 {
        Some((Seq::empty(), s))
    } else {
        match take_entries((n - 1) as nat, s) {
            None => None,
            Some((es, rest)) => match take_entry(rest) {
                None => None,
                Some((e, rest)) => Some((es.push(e), rest)),
            },
        }
    }
}

/// The reply that lists the tunnels.
pub open spec fn tunnels_msg(es: Seq<TunnelEntryView>) -> Seq<u8> {
    seq![SSH_AGENT_SUCCESS] + proto::be32(es.len() as u32) + entries_wire(es)
}

/// The tunnels that a reply lists; nothing for other replies.
pub open spec fn listed_tunnels(msg: Seq<u8>) -> Option<Seq<TunnelEntryView>> {
    if msg.len() == 0 || msg[0] != SSH_AGENT_SUCCESS {
        None
    } else {
        match proto::take_u32(msg.skip(1)) {
            None => None,
            Some((n, rest)) => match take_entries(n as nat, rest) {
                None => None,
                Some((es, _)) => Some(es),
            },
        }
    }
}

/// The reply that lists `entries`.
pub fn tunnels_reply(entries: &[TunnelEntry]) -> (r: Vec<u8>)
    requires
        entries@.len() < 0x1_0000_0000,
    ensures
        r@ == tunnels_msg(entries_of(entries@)),
{
    let mut m = success_frame();
    put_u32(&mut m, entries.len() as u32);
    let ghost head = m@;
    let ghost es = entries_of(entries@);
    let mut i: usize = 0;
    assert(entries_wire(es.take(0)) =~= Seq::empty());
    assert(m@ =~= head + entries_wire(es.take(0)));
    while i < entries.len()
        invariant
            i <= entries@.len(),
            es == entries_of(entries@),
            m@ == head + entries_wire(es.take(i as int)),
        decreases entries@.len() - i,
    {
        let ghost before = m@;
        let e = &entries[i];
        put_u32(&mut m, e.local_port as u32);
        put_str(&mut m, e.alias.as_str());
        put_u32(&mut m, e.remote_port as u32);
        put_u32(&mut m, e.pid);
        proof {
            assert(es.take(i + 1).drop_last() =~= es.take(i as int));
            assert(es.take(i + 1).last() == e@);
            assert(m@ =~= before + e@.wire());
            assert(m@ =~= head + entries_wire(es.take(i + 1)));
        }
        i += 1;
    }
    assert(es.take(i as int) =~= es);
    m
}

/// Reads a port.
fn read_port(c: &mut Cursor<'_>) -> (r: Option<u16>)
    ensures
        final(c).whole() == old(c).whole(),
        match take_port(old(c).rest()) {
            None => r is None,
            Some((p, rest)) => r == Some(p) && final(c).rest() == rest,
        },
{
    let v: u32 = c.u32().ok()?;
    if v < 0x1_0000 {
        Some(v as u16)
    } else {
        None
    }
}

/// Reads one tunnel.
fn read_entry(c: &mut Cursor<'_>) -> (r: Option<TunnelEntry>)
    ensures
        final(c).whole() == old(c).whole(),
        match take_entry(old(c).rest()) {
            None => r is None,
            Some((e, rest)) => r is Some && r->0@ == e && final(c).rest() == rest,
        },
{
    let local_port: u16 = read_port(c)?;
    let alias = c.str().ok()?;
    let remote_port: u16 = read_port(c)?;
    let pid: u32 = c.u32().ok()?;
    Some(TunnelEntry { local_port, alias, remote_port, pid })
}

/// The tunnels that a reply lists; None when it is no such reply.
pub fn parse_tunnels_reply(frame: &[u8]) -> (r: Option<Vec<TunnelEntry>>)
    ensures
        match listed_tunnels(frame@) {
            None => r is None,
            Some(es) => r is Some && entries_of(r->0@) == es,
        },
{
    broadcast use lemma_entries_push;

    if frame.len() == 0 || frame[0] != SSH_AGENT_SUCCESS {
        return None;
    }
    let body = slice_subrange(frame, 1, frame.len());
    assert(body@ =~= frame@.skip(1));
    let mut c = Cursor::new(body);
    let n: u32 = c.u32().ok()?;
    let ghost start = c.rest();
    let mut out: Vec<TunnelEntry> = Vec::new();
    let mut i: u32 = 0;
    assert(entries_of(out@) =~= Seq::empty());
    while i < n
        invariant
            i <= n,
            take_entries(i as nat, start) == Some((entries_of(out@), c.rest())),
            proto::take_u32(frame@.skip(1)) == Some((n, start)),
            frame@.len() > 0,
            frame@[0] == SSH_AGENT_SUCCESS,
        decreases n - i,
    {
        let ghost before = (entries_of(out@), c.rest());
        match read_entry(&mut c) {
            None => {
                proof {
                    assert(take_entries((i + 1) as nat, start) is None);
                    lemma_take_entries_none((i + 1) as nat, n as nat, start);
                }
                return None;
            },
            Some(e) => {
                out.push(e);
            },
        }
        i += 1;
    }
    Some(out)
}

/// Where a part cannot be read, the whole cannot.
proof fn lemma_take_entries_none(m: nat, n: nat, s: Seq<u8>)
    requires
        m <= n,
        take_entries(m, s) is None,
    ensures
        take_entries(n, s) is None,
    decreases n,
{
    if m < n {
        lemma_take_entries_none(m, (n - 1) as nat, s);
    }
}

/// One tunnel is read back as it was written.
proof fn lemma_take_entry(e: TunnelEntryView, rest: Seq<u8>)
    requires
        proto::fits(e.alias),
    ensures
        take_entry(e.wire() + rest) == Some((e, rest)),
{
    let r3 = proto::be32(e.pid) + rest;
    let r2 = proto::be32(e.remote_port as u32) + r3;
    let r1 = proto::wire_str(e.alias) + r2;
    assert(e.wire() + rest =~= proto::be32(e.local_port as u32) + r1);
    proto::lemma_take_u32(e.local_port as u32, r1);
    proto::lemma_take_str(e.alias, r2);
    proto::lemma_take_u32(e.remote_port as u32, r3);
    proto::lemma_take_u32(e.pid, rest);
}

/// Tunnels are read back as they were written.
proof fn lemma_take_entries(es: Seq<TunnelEntryView>, rest: Seq<u8>)
    requires
        forall|i: int| 0 <= i < es.len() ==> proto::fits((#[trigger] es[i]).alias),
    ensures
        take_entries(es.len(), entries_wire(es) + rest) == Some((es, rest)),
    decreases es.len(),
{
    if es.len() == 0 {
        assert(entries_wire(es) + rest =~= rest);
        assert(es =~= Seq::empty());
    } else {
        let init = es.drop_last();
        let last = es.last();
        assert(forall|i: int| 0 <= i < init.len() ==> init[i] == es[i]);
        lemma_take_entries(init, last.wire() + rest);
        assert(entries_wire(es) + rest =~= entries_wire(init) + (last.wire() + rest));
        assert(proto::fits(es[es.len() - 1].alias));
        lemma_take_entry(last, rest);
        assert(init.push(last) =~= es);
    }
}

/// A list of tunnels is read back as it was written, as far as its length and
/// its names fit their prefixes.
pub proof fn law_tunnels_round_trip(es: Seq<TunnelEntryView>)
    requires
        es.len() < 0x1_0000_0000,
        forall|i: int| 0 <= i < es.len() ==> proto::fits((#[trigger] es[i]).alias),
    ensures
        listed_tunnels(tunnels_msg(es)) == Some(es),
{
    let msg = tunnels_msg(es);
    let nil = Seq::<u8>::empty();
    assert(entries_wire(es) + nil =~= entries_wire(es));
    assert(msg.skip(1) =~= proto::be32(es.len() as u32) + entries_wire(es));
    proto::lemma_take_u32(es.len() as u32, entries_wire(es));
    lemma_take_entries(es, nil);
}

/// A transfer goes out as version 1: what it is called, who sends it, and the
/// data up to the end. No other version is read.
pub proof fn law_wire_transfer(
    label: Seq<char>,
    hostname: Seq<char>,
    data: Seq<u8>,
    version: u32,
    rest: Seq<u8>,
)
    ensures
        transfer_wire(label, hostname, data) == proto::be32(1) + proto::wire_str(label)
            + proto::wire_str(hostname) + data,
        version != 1 ==> take_transfer(proto::be32(version) + rest) == Err::<
            (Seq<char>, Seq<char>, Seq<u8>),
            ProtoErrorView,
        >(ProtoErrorView::UnsupportedTransfer(version)),
        rest.len() < 4 ==> take_transfer(rest) == Err::<
            (Seq<char>, Seq<char>, Seq<u8>),
            ProtoErrorView,
        >(ProtoErrorView::Truncated),
{
    proto::lemma_take_u32(version, rest);
}

/// A list of tunnels goes out as a success, their number, and of each its
/// port here, its host, its port there and its process.
pub proof fn law_wire_tunnels(es: Seq<TunnelEntryView>, e: TunnelEntryView)
    ensures
        tunnels_msg(es) == seq![6u8] + proto::be32(es.len() as u32) + entries_wire(es),
        entries_wire(Seq::empty()) == Seq::<u8>::empty(),
        entries_wire(es.push(e)) == entries_wire(es) + (proto::be32(e.local_port as u32)
            + proto::wire_str(e.alias) + proto::be32(e.remote_port as u32) + proto::be32(e.pid)),
        listed_tunnels(Seq::empty()) is None,
        listed_tunnels(seq![5u8]) is None,
{
    assert(es.push(e).drop_last() =~= es);
}

}
