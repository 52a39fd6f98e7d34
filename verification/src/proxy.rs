//! `back proxy list|stop`: inspects and manages the daemon's ssh tunnels.
//! Works from either end — over the channel from a remote, or against the
//! local daemon socket in person.

use vstd::prelude::*;

use crate::messages;
use crate::messages::{parse_tunnels_reply, TunnelEntry, TunnelEntryView};
use crate::open;
use crate::open::{read_reply, Reply, UNEXPECTED_REPLY};
use crate::path;
use crate::path::bytes_of;
use crate::proto;
use crate::proto::{extension, put_u32, Cursor, EXT_PROXY_STOP, EXT_TUNNELS};
use crate::text;
use crate::text::{decimal_text, lossy};
use crate::tunnel;

verus! {

/// The daemon to talk to: the forwarded channel on a remote, else the local
/// socket where a daemon answers.
pub open spec fn socket_of(channel: Option<Seq<u8>>, local: Seq<u8>, local_answers: bool) -> Result<
    Seq<u8>,
    Seq<char>,
> {
    match channel {
        Some(sock) => Ok(sock),
        None => if local_answers {
            Ok(local)
        } else {
            Err(
                "no backchannel daemon reachable (neither $SSH_AUTH_SOCK nor "@ + text::text_of(
                    local,
                ) + ")"@,
            )
        },
    }
}

/// The daemon to talk to. `channel` is `$SSH_AUTH_SOCK` where it is a live
/// backchannel.
pub fn daemon_socket(channel: &Option<Vec<u8>>, local: &[u8], local_answers: bool) -> (r: Result<
    Vec<u8>,
    String,
>)
    ensures
        match socket_of(path::maybe(*channel), local@, local_answers) {
            Ok(p) => r is Ok && r->Ok_0@ == p,
            Err(e) => r is Err && r->Err_0@ == e,
        },
{
    if let Some(sock) = channel {
        return Ok(bytes_of(sock.as_slice()));
    }
    if local_answers {
        return Ok(bytes_of(local));
    }
    Err(
        "no backchannel daemon reachable (neither $SSH_AUTH_SOCK nor ".to_owned().concat(
            lossy(local).as_str(),
        ).concat(")"),
    )
}

/// The message that asks for the list of tunnels.
pub open spec fn list_msg() -> Seq<u8> {
    proto::extension_msg(EXT_TUNNELS@, Seq::empty())
}

/// The message that asks for the list of tunnels.
pub fn tunnels_request() -> (r: Vec<u8>)
    ensures
        r@ == list_msg(),
{
    let nothing: Vec<u8> = Vec::new();
    assert(nothing@ =~= Seq::empty());
    extension(EXT_TUNNELS, nothing.as_slice())
}

/// The tunnels that a reply lists; None when it is no such reply.
pub fn query_tunnels(reply: &[u8]) -> (r: Option<Vec<TunnelEntry>>)
    ensures
        match messages::listed_tunnels(reply@) {
            None => r is None,
            Some(es) => r is Some && messages::entries_of(r->0@) == es,
        },
{
    parse_tunnels_reply(reply)
}

/// A tunnel in words.
pub open spec fn tunnel_words(e: TunnelEntryView) -> Seq<char> {
    "localhost:"@ + text::decimal(e.local_port as nat) + " -> "@ + e.alias + ":"@ + text::decimal(
        e.remote_port as nat,
    ) + " (ssh pid "@ + text::decimal(e.pid as nat) + ")"@
}

/// A tunnel in words.
pub fn describe_tunnel(e: &TunnelEntry) -> (r: String)
    ensures
        r@ == tunnel_words(e@),
{
    "localhost:".to_owned().concat(decimal_text(e.local_port as u64).as_str()).concat(
        " -> ",
    ).concat(e.alias.as_str()).concat(":").concat(
        decimal_text(e.remote_port as u64).as_str(),
    ).concat(" (ssh pid ").concat(decimal_text(e.pid as u64).as_str()).concat(")")
}

/// The tunnels in words, one line each.
pub open spec fn tunnel_lines(es: Seq<TunnelEntryView>) -> Seq<Seq<char>> {
    es.map_values(|e: TunnelEntryView| tunnel_words(e))
}

/// What `back proxy list` prints, or why it fails.
pub open spec fn listing(reply: Seq<u8>, sock: Seq<u8>) -> Result<Seq<Seq<char>>, Seq<char>> {
    match messages::listed_tunnels(reply) {
        None => Err(
            "the agent at "@ + text::text_of(sock) + " did not answer as a backchannel daemon"@,
        ),
        Some(es) => if es.len() == 0 {
            Ok(seq!["no active tunnels"@])
        } else {
            Ok(tunnel_lines(es))
        },
    }
}

/// The tunnels in words, one line each.
pub fn describe_tunnels(entries: &[TunnelEntry]) -> (r: Vec<String>)
    ensures
        text::texts(r@) == tunnel_lines(messages::entries_of(entries@)),
{
    broadcast use text::lemma_texts_push;

    let ghost all = tunnel_lines(messages::entries_of(entries@));
    let mut out: Vec<String> = Vec::new();
    let mut i: usize = 0;
    assert(text::texts(out@) =~= all.take(0));
    while i < entries.len()
        invariant
            i <= entries@.len(),
            all == tunnel_lines(messages::entries_of(entries@)),
            text::texts(out@) == all.take(i as int),
        decreases entries@.len() - i,
    {
        out.push(describe_tunnel(&entries[i]));
        proof {
            assert(messages::entries_of(entries@)[i as int] == entries@[i as int]@);
            assert(all[i as int] == tunnel_words(entries@[i as int]@));
            assert(all.take(i + 1) =~= all.take(i as int).push(all[i as int]));
        }
        i += 1;
    }
    assert(all.take(i as int) =~= all);
    out
}

/// What `back proxy list` prints.
pub fn list(reply: &[u8], sock: &[u8]) -> (r: Result<Vec<String>, String>)
    ensures
        match listing(reply@, sock@) {
            Ok(lines) => r is Ok && text::texts(r->Ok_0@) == lines,
            Err(e) => r is Err && r->Err_0@ == e,
        },
{
    broadcast use text::lemma_texts_push;

    match query_tunnels(reply) {
        None => Err(
            "the agent at ".to_owned().concat(lossy(sock).as_str()).concat(
                " did not answer as a backchannel daemon",
            ),
        ),
        Some(entries) => {
            assert(messages::entries_of(entries@).len() == entries@.len());
            if entries.len() == 0 {
                let mut out: Vec<String> = Vec::new();
                assert(text::texts(out@) =~= Seq::empty());
                out.push("no active tunnels".to_owned());
                assert(text::texts(out@) =~= seq!["no active tunnels"@]);
                Ok(out)
            } else {
                Ok(describe_tunnels(entries.as_slice()))
            }
        },
    }
}

/// What is said when it is unclear which tunnel to stop.
pub const WHICH_TUNNEL: &'static str = "specify a local port or --all";

/// The message that stops a tunnel, or all (port 0).
pub open spec fn stop_msg(port: u32) -> Seq<u8> {
    proto::extension_msg(EXT_PROXY_STOP@, proto::be32(port))
}

/// The message that `back proxy stop` sends, or why it sends none.
pub open spec fn stop_request(port: Option<u16>, all: bool) -> Result<Seq<u8>, Seq<char>> {
    if all == (port is Some) {
        Err(WHICH_TUNNEL@)
    } else {
        Ok(
            stop_msg(
                match port {
                    Some(p) => p as u32,
                    None => 0,
                },
            ),
        )
    }
}

/// The message that `back proxy stop` sends: exactly one of a port and
/// `--all` must be given.
pub fn stop(port: Option<u16>, all: bool) -> (r: Result<Vec<u8>, String>)
    ensures
        match stop_request(port, all) {
            Ok(msg) => r is Ok && r->Ok_0@ == msg,
            Err(e) => r is Err && r->Err_0@ == e,
        },
{
    if all == port.is_some() {
        return Err(WHICH_TUNNEL.to_owned());
    }
    let wanted: u32 = match port {
        Some(p) => p as u32,
        None => 0,
    };
    let mut data: Vec<u8> = Vec::new();
    put_u32(&mut data, wanted);
    assert(data@ =~= proto::be32(wanted));
    Ok(extension(EXT_PROXY_STOP, data.as_slice()))
}

/// What the daemon's reply to `back proxy stop` means: what is printed, or
/// why it failed.
pub open spec fn stop_result(reply: Seq<u8>) -> Result<Seq<char>, Seq<char>> {
    match open::reply_in(reply) {
        Some(open::ReplyView::Success(rest)) => Ok(
            match proto::take_str(rest) {
                Some((said, _)) => said,
                None => "stopped"@,
            },
        ),
        Some(open::ReplyView::ExtensionFailure(reason)) => Err(reason),
        _ => Err(UNEXPECTED_REPLY@),
    }
}

/// What the daemon's reply to `back proxy stop` means.
pub fn stopped(reply: &[u8]) -> (r: Result<String, String>)
    ensures
        match stop_result(reply@) {
            Ok(said) => r is Ok && r->Ok_0@ == said,
            Err(e) => r is Err && r->Err_0@ == e,
        },
{
    match read_reply(reply) {
        Ok(answer) => match answer {
            Reply::Success(rest) => {
                let mut c = Cursor::new(rest.as_slice());
                match c.str() {
                    Ok(said) => Ok(said),
                    Err(_) => Ok("stopped".to_owned()),
                }
            },
            Reply::ExtensionFailure(reason) => Err(reason),
            Reply::Failure => Err(UNEXPECTED_REPLY.to_owned()),
        },
        Err(_) => Err(UNEXPECTED_REPLY.to_owned()),
    }
}

/// Stopping a port that is tunneled succeeds, and leaves no tunnel on it.
pub proof fn law_stop_takes_effect(es: Seq<TunnelEntryView>, port: u16)
    requires
        tunnel::distinct(es),
        tunnel::holder(es, port) is Some,
        port > 0,
    ensures
        stop_result(tunnel::stop_reply(es, port as u32)) == Ok::<Seq<char>, Seq<char>>(
            "stopped tunnel on local port "@ + text::decimal(port as nat),
        ),
        tunnel::holder(tunnel::after_stop(es, port as u32), port) is None,
{
    let said = "stopped tunnel on local port "@ + text::decimal(port as nat);
    let nil = Seq::<u8>::empty();
    let msg = tunnel::stop_reply(es, port as u32);
    assert(proto::fits(said)) by {
        reveal_strlit("stopped tunnel on local port ");
        text::lemma_decimal_short(port as nat);
        vstd::utf8::is_ascii_chars_concat(
            said,
            "stopped tunnel on local port "@,
            text::decimal(port as nat),
        );
        vstd::utf8::is_ascii_chars_encode_utf8(said);
    }
    assert(msg.skip(1) =~= proto::wire_str(said) + nil);
    proto::lemma_take_str(said, nil);
    tunnel::law_without(es, port);
}

/// The channel is talked to where there is one, and the local daemon only
/// where there is none and it answers.
pub proof fn law_socket(channel: Seq<u8>, local: Seq<u8>, local_answers: bool)
    ensures
        socket_of(Some(channel), local, local_answers) == Ok::<Seq<u8>, Seq<char>>(channel),
        socket_of(None, local, true) == Ok::<Seq<u8>, Seq<char>>(local),
        socket_of(None, local, false) is Err,
{
}

/// A request to stop names a port or asks for all, exactly one of the two,
/// and the daemon reads from it the port that was named, or 0 for all.
pub proof fn law_stop_asks_for_the_port(
    port: u16,
    me: proto::PingReplyView,
    peer: Option<crate::peer::PeerInfo>,
)
    ensures
        stop_request(None, false) == Err::<Seq<u8>, Seq<char>>(WHICH_TUNNEL@),
        stop_request(Some(port), true) == Err::<Seq<u8>, Seq<char>>(WHICH_TUNNEL@),
        stop_request(Some(port), false) matches Ok(msg) && (crate::daemon::route(msg, me, peer) matches
            crate::daemon::ClientStepView::ProxyStop(data) && (proto::take_u32(data) matches Some((p, _))
            && p == port)),
        stop_request(None, true) matches Ok(msg) && (crate::daemon::route(msg, me, peer) matches
            crate::daemon::ClientStepView::ProxyStop(data) && (proto::take_u32(data) matches Some((p, _))
            && p == 0)),
{
    let nil = Seq::<u8>::empty();
    crate::daemon::law_requests_delivered(proto::be32(port as u32), me, peer);
    crate::daemon::law_requests_delivered(proto::be32(0), me, peer);
    assert(proto::be32(port as u32) + nil =~= proto::be32(port as u32));
    assert(proto::be32(0) + nil =~= proto::be32(0));
    proto::lemma_take_u32(port as u32, nil);
    proto::lemma_take_u32(0, nil);
}

/// The words for a tunnel name its two ends and its process.
pub proof fn law_tunnel_words(e: TunnelEntryView)
    ensures
        text::starts_with(tunnel_words(e), "localhost:"@ + text::decimal(e.local_port as nat)),
        text::contains(
            tunnel_words(e),
            e.alias + ":"@ + text::decimal(e.remote_port as nat),
        ),
        text::contains(tunnel_words(e), text::decimal(e.pid as nat)),
{
    let w = tunnel_words(e);
    let l = "localhost:"@ + text::decimal(e.local_port as nat);
    assert(w.subrange(0, l.len() as int) =~= l);
    let r = e.alias + ":"@ + text::decimal(e.remote_port as nat);
    let a = (l.len() + " -> "@.len()) as int;
    assert(w.subrange(a, a + r.len()) =~= r);
    assert(text::stands_at(w, a, r));
    let p = text::decimal(e.pid as nat);
    let b = (a + r.len() + " (ssh pid "@.len()) as int;
    assert(w.subrange(b, b + p.len()) =~= p);
    assert(text::stands_at(w, b, p));
}

/// What a daemon lists is what is printed: a line for each tunnel, in their
/// order, and one line where there is none.
pub proof fn law_listed(es: Seq<TunnelEntryView>, sock: Seq<u8>)
    requires
        es.len() < 0x1_0000_0000,
        forall|i: int| 0 <= i < es.len() ==> proto::fits((#[trigger] es[i]).alias),
    ensures
        es.len() == 0 ==> listing(messages::tunnels_msg(es), sock) == Ok::<
            Seq<Seq<char>>,
            Seq<char>,
        >(seq!["no active tunnels"@]),
        es.len() > 0 ==> (listing(messages::tunnels_msg(es), sock) matches Ok(lines) && lines.len()
            == es.len() && forall|i: int|
            0 <= i < es.len() ==> #[trigger] lines[i] == tunnel_words(es[i])),
{
    messages::law_tunnels_round_trip(es);
}

/// What the daemon says of a stop is what the user reads, and so is the
/// reason for which it refused.
pub proof fn law_stop_told(said: Seq<char>)
    requires
        proto::fits(said),
    ensures
        stop_result(seq![6u8] + proto::wire_str(said)) == Ok::<Seq<char>, Seq<char>>(said),
        stop_result(proto::extension_failure_msg(said)) == Err::<Seq<char>, Seq<char>>(said),
        stop_result(Seq::empty()) is Err,
        stop_result(seq![5u8]) is Err,
{
    let nil = Seq::<u8>::empty();
    let ok = seq![6u8] + proto::wire_str(said);
    assert(ok.skip(1) =~= proto::wire_str(said) + nil);
    let failed = proto::extension_failure_msg(said);
    assert(failed.skip(1) =~= proto::wire_str(said) + nil);
    proto::lemma_take_str(said, nil);
}

/// A request for the list of tunnels is taken as one.
pub proof fn law_list_delivered(me: proto::PingReplyView, peer: Option<crate::peer::PeerInfo>)
    ensures
        crate::daemon::route(list_msg(), me, peer) == crate::daemon::ClientStepView::Tunnels,
{
    crate::daemon::law_requests_delivered(Seq::empty(), me, peer);
}

}
