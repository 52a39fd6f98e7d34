//! `back copy [FILE]`: puts a file (or stdin) on the clipboard. From a remote
//! ssh session that means *your local machine's* clipboard, via the daemon; on
//! a desktop it sets the local clipboard directly, so the same command works
//! everywhere.

use vstd::prelude::*;
use vstd::utf8::*;

use crate::clipboard;
use crate::clipboard::{detect_kind, MAX_COPY_BYTES};
use crate::daemon;
use crate::messages;
use crate::messages::CopyRequest;
use crate::open;
use crate::open::{check_reply, NO_CHANNEL};
use crate::proto;
use crate::proto::{extension, EXT_COPY, MAX_FRAME};
use crate::text;
use crate::text::decimal_text;

verus! {

/// Where data to be copied goes.
#[derive(Debug, Clone, Copy, PartialEq, Eq)]
pub enum CopyTo {
    /// To the daemon, as data of this kind.
    Daemon(&'static str),
    /// To this machine's clipboard, as data of this kind.
    Here(&'static str),
}

/// `CopyTo` with its strings taken as characters.
pub enum CopyToView {
    Daemon(Seq<char>),
    Here(Seq<char>),
}

impl View for CopyTo {
    type V = CopyToView;

    open spec fn view(&self) -> CopyToView {
        match self {
            CopyTo::Daemon(k) => CopyToView::Daemon(k@),
            CopyTo::Here(k) => CopyToView::Here(k@),
        }
    }
}

/// What is said of data that is neither text nor a known image.
pub const UNRECOGNIZED: &'static str =
    "content is neither UTF-8 text nor a recognized image (png/jpeg/gif/tiff)";

/// Where data to be copied goes, or why it goes nowhere.
pub open spec fn destination(data: Seq<u8>, channel: bool, in_ssh: bool) -> Result<
    CopyToView,
    Seq<char>,
> {
    if data.len() == 0 {
        Err("nothing to copy"@)
    } else if data.len() > MAX_COPY_BYTES {
        Err(text::decimal(data.len()) + " bytes exceeds the "@ + text::decimal(200) + " MiB copy limit"@)
    } else {
        match clipboard::kind_in(data) {
            None => Err(UNRECOGNIZED@),
            Some(kind) => if channel {
                Ok(CopyToView::Daemon(kind))
            } else if in_ssh {
                Err(NO_CHANNEL@)
            } else {
                Ok(CopyToView::Here(kind))
            },
        }
    }
}

/// Where data to be copied goes: over a live channel to the daemon; in person
/// at this machine to its own clipboard; in an ssh session without a channel
/// nowhere.
pub fn run(data: &[u8], channel: bool, in_ssh: bool) -> (r: Result<CopyTo, String>)
    ensures
        match destination(data@, channel, in_ssh) {
            Ok(to) => r is Ok && r->Ok_0@ == to,
            Err(e) => r is Err && r->Err_0@ == e,
        },
{
    if data.len() == 0 {
        return Err("nothing to copy".to_owned());
    }
    if data.len() > MAX_COPY_BYTES {
        return Err(
            decimal_text(data.len() as u64).concat(" bytes exceeds the ").concat(
                decimal_text((MAX_COPY_BYTES / 1_048_576) as u64).as_str(),
            ).concat(" MiB copy limit"),
        );
    }
    let kind = match detect_kind(data) {
        Some(k) => k,
        None => {
            return Err(UNRECOGNIZED.to_owned());
        },
    };
    if channel {
        return Ok(CopyTo::Daemon(kind));
    }
    if in_ssh {
        return Err(NO_CHANNEL.to_owned());
    }
    Ok(CopyTo::Here(kind))
}

/// The message that puts data on the daemon's clipboard.
pub open spec fn copy_msg(kind: Seq<char>, hostname: Seq<char>, data: Seq<u8>) -> Seq<u8> {
    proto::extension_msg(EXT_COPY@, messages::transfer_wire(kind, hostname, data))
}

/// The message that puts data on the daemon's clipboard.
pub fn send_copy(kind: &str, hostname: &str, data: Vec<u8>) -> (r: Vec<u8>)
    ensures
        r@ == copy_msg(kind@, hostname@, data@),
{
    let req = CopyRequest { kind: kind.to_owned(), hostname: hostname.to_owned(), data };
    extension(EXT_COPY, req.encode().as_slice())
}

/// What the user is told when the data is on this machine's clipboard.
pub open spec fn here_note(len: nat, kind: Seq<char>) -> Seq<char> {
    "copied "@ + text::decimal(len) + " bytes ("@ + kind + ") to the clipboard"@
}

/// What the user is told when the data is on this machine's clipboard.
pub fn copied_here(len: usize, kind: &str) -> (r: String)
    ensures
        r@ == here_note(len as nat, kind@),
{
    "copied ".to_owned().concat(decimal_text(len as u64).as_str()).concat(" bytes (").concat(
        kind,
    ).concat(") to the clipboard")
}

/// What the user is told when the data is on the daemon's clipboard: how the
/// transfer went where that is worth telling, else how much it was.
pub open spec fn copied_there(len: nat, kind: Seq<char>, summary: Option<Seq<char>>) -> Seq<char> {
    match summary {
        Some(s) => "copied "@ + kind + " to the clipboard on your local machine ("@ + s + ")"@,
        None => "copied "@ + text::decimal(len) + " bytes ("@ + kind
            + ") to the clipboard on your local machine"@,
    }
}

/// What the daemon's reply to copied data means for the user.
pub open spec fn copy_result(
    reply: Seq<u8>,
    len: nat,
    kind: Seq<char>,
    summary: Option<Seq<char>>,
) -> Result<Seq<char>, Seq<char>> {
    match open::reply_result(reply) {
        Ok(_) => Ok(copied_there(len, kind, summary)),
        Err(e) => Err(e),
    }
}

/// What the daemon's reply to copied data means for the user.
pub fn finish_copy(
    reply: &[u8],
    len: usize,
    kind: &str,
    summary: &Option<String>,
) -> (r: Result<String, String>)
    ensures
        match copy_result(reply@, len as nat, kind@, text::maybe(*summary)) {
            Ok(said) => r is Ok && r->Ok_0@ == said,
            Err(e) => r is Err && r->Err_0@ == e,
        },
{
    match check_reply(reply) {
        Ok(_) => match summary {
            Some(s) => Ok(
                "copied ".to_owned().concat(kind).concat(
                    " to the clipboard on your local machine (",
                ).concat(s.as_str()).concat(")"),
            ),
            None => Ok(
                "copied ".to_owned().concat(decimal_text(len as u64).as_str()).concat(
                    " bytes (",
                ).concat(kind).concat(") to the clipboard on your local machine"),
            ),
        },
        Err(e) => Err(e),
    }
}

/// A copy request reaches the daemon's handler with its data as sent.
proof fn lemma_copy_routed(
    payload: Seq<u8>,
    me: proto::PingReplyView,
    peer: Option<crate::peer::PeerInfo>,
)
    ensures
        daemon::route(proto::extension_msg(EXT_COPY@, payload), me, peer)
            == daemon::ClientStepView::Copy(payload),
{
    reveal_strlit("copy@backchannel");
    reveal_strlit("open@backchannel");
    reveal_strlit("ping@backchannel");
    reveal_strlit("shutdown@backchannel");
    assert(EXT_COPY@[0] == 'c');
    assert(proto::EXT_PING@[0] == 'p' && proto::EXT_SHUTDOWN@[0] == 's' && proto::EXT_OPEN@[0]
        == 'o');
    is_ascii_chars_encode_utf8(EXT_COPY@);
    proto::law_extension_round_trip(EXT_COPY@, payload);
}

/// What is copied is what the daemon's clipboard gets: the same kind and the
/// same bytes.
pub proof fn law_copy_delivered(
    kind: Seq<char>,
    hostname: Seq<char>,
    data: Seq<u8>,
    me: proto::PingReplyView,
    peer: Option<crate::peer::PeerInfo>,
)
    requires
        proto::fits(kind),
        proto::fits(hostname),
    ensures
        daemon::route(copy_msg(kind, hostname, data), me, peer) matches daemon::ClientStepView::Copy(
            payload,
        ) && messages::take_transfer(payload) == Ok::<
            (Seq<char>, Seq<char>, Seq<u8>),
            proto::ProtoErrorView,
        >((kind, hostname, data)),
{
    lemma_copy_routed(messages::transfer_wire(kind, hostname, data), me, peer);
    messages::law_transfer_round_trip(kind, hostname, data);
}

/// Whatever may be copied fits into one frame, for a sender whose name is not
/// itself outlandish.
pub proof fn law_copy_fits_a_frame(kind: Seq<char>, hostname: Seq<char>, data: Seq<u8>)
    requires
        data.len() <= MAX_COPY_BYTES,
        encode_utf8(kind).len() <= 1_048_576,
        encode_utf8(hostname).len() <= 1_048_576,
    ensures
        0 < copy_msg(kind, hostname, data).len() <= MAX_FRAME,
{
    reveal_strlit("copy@backchannel");
    is_ascii_chars_encode_utf8(EXT_COPY@);
}

/// Data that can be copied goes over the channel wherever there is one,
/// whatever its kind; it stays on this machine only where there is no channel
/// and the user sits at it.
pub proof fn law_channel_gets_the_data(data: Seq<u8>, kind: Seq<char>, in_ssh: bool)
    requires
        0 < data.len() <= MAX_COPY_BYTES,
        clipboard::kind_in(data) == Some(kind),
    ensures
        destination(data, true, in_ssh) == Ok::<CopyToView, Seq<char>>(CopyToView::Daemon(kind)),
        destination(data, false, false) == Ok::<CopyToView, Seq<char>>(CopyToView::Here(kind)),
        destination(data, false, true) is Err,
{
}

/// Nothing is copied but what can be: some data, no more than fits, of a kind
/// that clipboards know.
pub proof fn law_only_fit_data_is_copied(data: Seq<u8>, channel: bool, in_ssh: bool)
    ensures
        destination(data, channel, in_ssh) is Ok <==> 0 < data.len() <= 209_715_200
            && clipboard::kind_in(data) is Some && (channel || !in_ssh),
        channel ==> !(destination(data, channel, in_ssh) matches Ok(CopyToView::Here(_))),
        !channel ==> !(destination(data, channel, in_ssh) matches Ok(CopyToView::Daemon(_))),
{
}

/// What the user is told of data that is not copied says why: there is none,
/// there is too much and how much, it is of no known kind, or there is no
/// channel to send it over.
pub proof fn law_copy_refused(data: Seq<u8>, channel: bool, in_ssh: bool)
    ensures
        data.len() == 0 ==> destination(data, channel, in_ssh) == Err::<CopyToView, Seq<char>>(
            "nothing to copy"@,
        ),
        data.len() > MAX_COPY_BYTES ==> (destination(data, channel, in_ssh) matches Err(told)
            && text::starts_with(told, text::decimal(data.len()))),
        0 < data.len() <= MAX_COPY_BYTES && clipboard::kind_in(data) is None ==> destination(
            data,
            channel,
            in_ssh,
        ) == Err::<CopyToView, Seq<char>>(UNRECOGNIZED@),
        0 < data.len() <= MAX_COPY_BYTES && clipboard::kind_in(data) is Some && !channel && in_ssh
            ==> destination(data, channel, in_ssh) == Err::<CopyToView, Seq<char>>(NO_CHANNEL@),
{
    if data.len() > MAX_COPY_BYTES {
        let n = text::decimal(data.len());
        let rest = " bytes exceeds the "@ + text::decimal(200) + " MiB copy limit"@;
        text::lemma_prefixed(n, rest);
        assert(n + rest =~= destination(data, channel, in_ssh)->Err_0);
    }
}

/// What the user is told of a copy names its kind and how it went, and the
/// size where there is nothing to say of how it went.
pub proof fn law_copy_told(len: nat, kind: Seq<char>, summary: Seq<char>)
    ensures
        text::contains(copied_there(len, kind, Some(summary)), kind),
        text::contains(copied_there(len, kind, Some(summary)), summary),
        text::contains(copied_there(len, kind, None), kind),
        text::contains(copied_there(len, kind, None), text::decimal(len)),
        text::contains(here_note(len, kind), kind),
        text::contains(here_note(len, kind), text::decimal(len)),
{
    let size = text::decimal(len);
    let end = ") to the clipboard"@;
    text::lemma_contained("copied "@, size, " bytes ("@ + kind + end);
    assert("copied "@ + size + (" bytes ("@ + kind + end) =~= here_note(len, kind));
    text::lemma_contained("copied "@ + size + " bytes ("@, kind, end);
    let a = copied_there(len, kind, Some(summary));
    let at = "copied "@.len() as int;
    assert(a.subrange(at, at + kind.len()) =~= kind);
    assert(text::stands_at(a, at, kind));
    let to = (at + kind.len() + " to the clipboard on your local machine ("@.len()) as int;
    assert(a.subrange(to, to + summary.len()) =~= summary);
    assert(text::stands_at(a, to, summary));
    let b = copied_there(len, kind, None);
    let n = text::decimal(len);
    assert(b.subrange(at, at + n.len()) =~= n);
    assert(text::stands_at(b, at, n));
    let k = (at + n.len() + " bytes ("@.len()) as int;
    assert(b.subrange(k, k + kind.len()) =~= kind);
    assert(text::stands_at(b, k, kind));
}

/// The daemon's success is the user's, and so are its reasons not to copy.
pub proof fn law_copy_result(
    rest: Seq<u8>,
    reason: Seq<char>,
    len: nat,
    kind: Seq<char>,
    summary: Option<Seq<char>>,
)
    requires
        proto::fits(reason),
    ensures
        copy_result(seq![6u8] + rest, len, kind, summary) == Ok::<Seq<char>, Seq<char>>(
            copied_there(len, kind, summary),
        ),
        copy_result(proto::extension_failure_msg(reason), len, kind, summary) == Err::<
            Seq<char>,
            Seq<char>,
        >("daemon error: "@ + reason),
        copy_result(seq![5u8] + rest, len, kind, summary) is Err,
{
    open::law_replies_read(6, rest);
    open::law_replies_read(5, rest);
    open::law_refusal_told(reason);
}

}
