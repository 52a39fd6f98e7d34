//! Large files for `back open`: the daemon fetches them itself, with scp, from
//! the host that the request came from. Where it cannot, the file is
//! transferred inline, like a small one.

use vstd::prelude::*;
use vstd::utf8::*;

use crate::daemon;
use crate::daemon::{resolve_alias, Sources};
use crate::open;
use crate::open::{message, read_reply, FileState, Reply, Sender};
use crate::peer::PeerInfo;
use crate::proto;
use crate::proto::{extension, put_u32, Action, ActionView, Cursor, Kind, OpenMessage, WindowMode};
use crate::proto::{EXT_PULL, SSH_AGENT_SUCCESS};
use crate::text;
use crate::text::{chars_of, lossy, parse_u32, quoted};
use crate::transfer;
use crate::transfer::{refuse_transfer, sanitize};

verus! {

// ---- on the remote ----

/// The size from which a file is fetched by the daemon, where
/// `$BACKCHANNEL_PULL_THRESHOLD` names no other.
pub const PULL_THRESHOLD: u32 = 8_388_608;

/// How a file gets to the daemon.
#[derive(Debug, Clone, Copy, PartialEq, Eq, Structural)]
pub enum Transfer {
    /// Within a message.
    Inline,
    /// By scp, at the daemon's end.
    Pull,
}

/// The size from which a file is fetched by the daemon.
pub open spec fn threshold_in(setting: Option<Seq<char>>) -> u32 {
    match setting {
        None => PULL_THRESHOLD,
        Some(s) => match text::parsed_u32(s) {
            Some(n) => n,
            None => PULL_THRESHOLD,
        },
    }
}

/// The size from which a file is fetched by the daemon: the one that the
/// setting names, where it names one.
pub fn pull_threshold(setting: &Option<String>) -> (r: u32)
    ensures
        r == threshold_in(text::maybe(*setting)),
{
    match setting {
        None => PULL_THRESHOLD,
        Some(s) => match parse_u32(chars_of(s.as_str()).as_slice()) {
            Some(n) => n,
            None => PULL_THRESHOLD,
        },
    }
}

/// How a file gets to the daemon, or why it does not. What the daemon fetches
/// itself may be of any size.
pub open spec fn transfer_for(
    shown: Seq<char>,
    state: FileState,
    len: nat,
    threshold: u32,
) -> Result<Transfer, Seq<char>> {
    if state is File && len >= threshold {
        Ok(Transfer::Pull)
    } else {
        match transfer::transfer_refused(shown, state, len) {
            Some(e) => Err(e),
            None => Ok(Transfer::Inline),
        }
    }
}

/// How a file gets to the daemon, or why it does not.
pub fn plan_transfer(shown: &str, state: FileState, len: u64, threshold: u32) -> (r: Result<
    Transfer,
    String,
>)
    ensures
        match transfer_for(shown@, state, len as nat, threshold) {
            Ok(t) => r is Ok && r->Ok_0 == t,
            Err(e) => r is Err && r->Err_0@ == e,
        },
{
    if state == FileState::File && len >= threshold as u64 {
        return Ok(Transfer::Pull);
    }
    match refuse_transfer(shown, state, len) {
        Some(e) => Err(e),
        None => Ok(Transfer::Inline),
    }
}

/// The action that names a file to be fetched.
pub open spec fn file_action(path: Seq<char>) -> ActionView {
    ActionView::Open { kind: Kind::File, path, line: 0, col: 0 }
}

/// The message that asks the daemon to fetch a file.
pub open spec fn pull_msg(path: Seq<char>, sender: Sender) -> Seq<u8> {
    proto::extension_msg(
        EXT_PULL@,
        open::message_for(file_action(path), WindowMode::Default, false, sender).encoded(),
    )
}

/// The message that asks the daemon to fetch the file at an absolute path: it
/// says of the sender what an open request says.
pub fn send_pull(path: &str, sender: &Sender) -> (r: Vec<u8>)
    ensures
        r@ == pull_msg(path@, *sender),
{
    let action = Action::Open { kind: Kind::File, path: path.to_owned(), line: 0, col: 0 };
    let m = message(action, WindowMode::Default, false, sender);
    extension(EXT_PULL, m.encode().as_slice())
}

/// What the daemon's frame means for a file that it was asked to fetch.
#[derive(Debug, Clone, PartialEq, Eq)]
pub enum PullStep {
    /// So many bytes have arrived; another frame follows.
    Progress { sent: u64 },
    /// The file was fetched and opened.
    Done,
    /// It was not, for this reason: transfer it inline.
    Inline { reason: String },
}

/// `PullStep` with its strings taken as characters.
pub enum PullStepView {
    Progress { sent: u64 },
    Done,
    Inline { reason: Seq<char> },
}

impl View for PullStep {
    type V = PullStepView;

    open spec fn view(&self) -> PullStepView {
        match self {
            PullStep::Progress { sent } => PullStepView::Progress { sent: *sent },
            PullStep::Done => PullStepView::Done,
            PullStep::Inline { reason } => PullStepView::Inline { reason: reason@ },
        }
    }
}

/// What is said of a daemon that does not know how to fetch a file.
pub const CANNOT_PULL: &'static str = "the daemon cannot fetch files";

/// A number of bytes in two parts of 32 bits, the higher one first.
pub open spec fn count_in(s: Seq<u8>) -> Option<u64> {
    match proto::take_u32(s) {
        None => None,
        Some((high, rest)) => match proto::take_u32(rest) {
            None => None,
            Some((low, _)) => Some((high * 0x1_0000_0000 + low) as u64),
        },
    }
}

/// What a frame means for a file that the daemon was asked to fetch.
pub open spec fn pull_step_of(frame: Seq<u8>) -> PullStepView {
    match open::reply_in(frame) {
        Some(open::ReplyView::Success(rest)) => match count_in(rest) {
            Some(sent) => PullStepView::Progress { sent },
            None => PullStepView::Done,
        },
        Some(open::ReplyView::ExtensionFailure(reason)) => PullStepView::Inline { reason },
        _ => PullStepView::Inline { reason: CANNOT_PULL@ },
    }
}

/// Reads a number of bytes.
fn read_count(s: &[u8]) -> (r: Option<u64>)
    ensures
        r == count_in(s@),
{
    let mut c = Cursor::new(s);
    let high = match c.u32() {
        Ok(n) => n,
        Err(_) => {
            return None;
        },
    };
    match c.u32() {
        Ok(low) => Some(high as u64 * 0x1_0000_0000 + low as u64),
        Err(_) => None,
    }
}

/// What a frame means for a file that the daemon was asked to fetch: whatever
/// is not a success sends the file inline.
pub fn pull_step(frame: &[u8]) -> (r: PullStep)
    ensures
        r@ == pull_step_of(frame@),
{
    match read_reply(frame) {
        Ok(Reply::Success(rest)) => match read_count(rest.as_slice()) {
            Some(sent) => PullStep::Progress { sent },
            None => PullStep::Done,
        },
        Ok(Reply::ExtensionFailure(reason)) => PullStep::Inline { reason },
        _ => PullStep::Inline { reason: CANNOT_PULL.to_owned() },
    }
}

/// What the user is told when a file is transferred inline after all.
pub open spec fn inline_words(reason: Seq<char>) -> Seq<char> {
    "note: "@ + reason + "; transferring inline"@
}

/// What the user is told when a file is transferred inline after all.
pub fn inline_note(reason: &str) -> (r: String)
    ensures
        r@ == inline_words(reason@),
{
    "note: ".to_owned().concat(reason).concat("; transferring inline")
}

// ---- at the daemon ----

/// A file to be fetched.
#[derive(Debug, Clone, PartialEq, Eq)]
pub struct PullPlan {
    /// Where scp finds it.
    pub source: String,
    /// The name it gets, in a directory of its own.
    pub name: Vec<u8>,
    /// What is logged.
    pub note: String,
}

/// `PullPlan` by its contents.
pub struct PullPlanView {
    pub source: Seq<char>,
    pub name: Seq<u8>,
    pub note: Seq<char>,
}

impl View for PullPlan {
    type V = PullPlanView;

    open spec fn view(&self) -> PullPlanView {
        PullPlanView { source: self.source@, name: self.name@, note: self.note@ }
    }
}

/// What is said of a request to fetch what is no file.
pub const ONLY_FILES: &'static str = "only files are fetched";

/// What is fetched for a request, or why nothing is.
pub open spec fn pull_plan(
    data: Seq<u8>,
    argv: Option<Seq<Seq<char>>>,
    aliases: Option<Seq<char>>,
) -> Result<PullPlanView, Seq<char>> {
    match proto::decoded_open(data) {
        Err(e) => Err("decoding pull request: "@ + e.message()),
        Ok(m) => match m.request.action {
            ActionView::Open { kind: Kind::File, path, .. } => match transfer::safe_name(path) {
                None => Err(transfer::name_refused(path)),
                Some(name) => {
                    let source = daemon::alias_of(argv, aliases, m).0 + ":"@ + path;
                    Ok(
                        PullPlanView {
                            source,
                            name,
                            note: "pull "@ + source + " from host '"@ + m.request.hostname + "'"@,
                        },
                    )
                },
            },
            _ => Err(ONLY_FILES@),
        },
    }
}

/// Reads a request to fetch a file: from the sender's authority, as an open
/// request would find it, and to a name that leads nowhere else. The error is
/// what the client is told.
pub fn handle_pull(data: &[u8], sources: &Sources) -> (r: Result<PullPlan, String>)
    ensures
        match pull_plan(data@, daemon::argv_view(sources.argv), text::maybe(sources.aliases)) {
            Ok(plan) => r is Ok && r->Ok_0@ == plan,
            Err(e) => r is Err && r->Err_0@ == e,
        },
{
    let m = match OpenMessage::decode(data) {
        Ok(m) => m,
        Err(e) => {
            return Err("decoding pull request: ".to_owned().concat(e.message().as_str()));
        },
    };
    match &m.request.action {
        Action::Open { kind: Kind::File, path, .. } => match sanitize(path.as_str()) {
            None => Err(
                "refusing to open a file named ".to_owned().concat(quoted(path.as_str()).as_str()),
            ),
            Some(name) => {
                let (alias, _) = resolve_alias(sources, &m);
                let source = alias.concat(":").concat(path.as_str());
                let note = "pull ".to_owned().concat(source.as_str()).concat(
                    " from host '",
                ).concat(m.request.hostname.as_str()).concat("'");
                Ok(PullPlan { source, name, note })
            },
        },
        _ => Err(ONLY_FILES.to_owned()),
    }
}

/// The frame that tells how many bytes have arrived.
pub open spec fn progress_msg(sent: u64) -> Seq<u8> {
    seq![SSH_AGENT_SUCCESS] + proto::be32((sent / 0x1_0000_0000) as u32) + proto::be32(
        (sent % 0x1_0000_0000) as u32,
    )
}

/// The frame that tells how many bytes have arrived.
pub fn progress_frame(sent: u64) -> (r: Vec<u8>)
    ensures
        r@ == progress_msg(sent),
{
    let mut m: Vec<u8> = Vec::new();
    m.push(SSH_AGENT_SUCCESS);
    assert(m@ =~= seq![SSH_AGENT_SUCCESS]);
    put_u32(&mut m, (sent / 0x1_0000_0000) as u32);
    put_u32(&mut m, (sent % 0x1_0000_0000) as u32);
    m
}

/// The pause between two looks at a file that is being fetched, in
/// milliseconds.
pub const PULL_POLL_MS: u64 = 100;

/// What a look at the fetching of a file shows.
#[derive(Debug, Clone, PartialEq, Eq)]
pub enum PullEvent {
    /// scp still runs, and so many bytes are there.
    Running { sent: u64 },
    /// scp went well.
    Fetched,
    /// scp exited with this status.
    Exited { status: String },
    /// scp could not be waited for.
    Lost { error: String },
    /// The client is gone.
    ClientGone,
}

/// What to do about it.
#[derive(Debug, Clone, PartialEq, Eq)]
pub enum PullWatch {
    /// Tell the client, and look again after a pause.
    Tell(Vec<u8>),
    /// Open the file.
    Open,
    /// Give up; scp is still to be ended, or not.
    Failed { error: String, kill: bool },
}

/// `PullWatch` by its contents.
pub enum PullWatchView {
    Tell(Seq<u8>),
    Open,
    Failed { error: Seq<char>, kill: bool },
}

impl View for PullWatch {
    type V = PullWatchView;

    open spec fn view(&self) -> PullWatchView {
        match self {
            PullWatch::Tell(frame) => PullWatchView::Tell(frame@),
            PullWatch::Open => PullWatchView::Open,
            PullWatch::Failed { error, kill } => PullWatchView::Failed {
                error: error@,
                kill: *kill,
            },
        }
    }
}

/// What to do about a file that is being fetched by the program `scp`.
pub open spec fn pull_watch(scp: Seq<u8>, event: PullEvent) -> PullWatchView {
    match event {
        PullEvent::Running { sent } => PullWatchView::Tell(progress_msg(sent)),
        PullEvent::Fetched => PullWatchView::Open,
        PullEvent::Exited { status } => PullWatchView::Failed {
            error: text::text_of(scp) + " exited with "@ + status@,
            kill: false,
        },
        PullEvent::Lost { error } => PullWatchView::Failed {
            error: "waiting on "@ + text::text_of(scp) + ": "@ + error@,
            kill: false,
        },
        PullEvent::ClientGone => PullWatchView::Failed {
            error: "remote client disconnected during the transfer"@,
            kill: true,
        },
    }
}

/// What to do about a file that is being fetched.
pub fn watch_pull(scp: &[u8], event: &PullEvent) -> (r: PullWatch)
    ensures
        r@ == pull_watch(scp@, *event),
{
    match event {
        PullEvent::Running { sent } => PullWatch::Tell(progress_frame(*sent)),
        PullEvent::Fetched => PullWatch::Open,
        PullEvent::Exited { status } => PullWatch::Failed {
            error: lossy(scp).concat(" exited with ").concat(status.as_str()),
            kill: false,
        },
        PullEvent::Lost { error } => PullWatch::Failed {
            error: "waiting on ".to_owned().concat(lossy(scp).as_str()).concat(": ").concat(
                error.as_str(),
            ),
            kill: false,
        },
        PullEvent::ClientGone => PullWatch::Failed {
            error: "remote client disconnected during the transfer".to_owned(),
            kill: true,
        },
    }
}

// ---- both ends ----

/// The client learns how many bytes have arrived, when the file is there, and
/// why it is not.
pub proof fn law_pull_told(sent: u64, reason: Seq<char>)
    requires
        proto::fits(reason),
    ensures
        pull_step_of(progress_msg(sent)) == (PullStepView::Progress { sent }),
        pull_step_of(seq![SSH_AGENT_SUCCESS]) == PullStepView::Done,
        pull_step_of(proto::extension_failure_msg(reason)) == (PullStepView::Inline { reason }),
{
    let high = (sent / 0x1_0000_0000) as u32;
    let low = (sent % 0x1_0000_0000) as u32;
    let msg = progress_msg(sent);
    assert(msg.skip(1) =~= proto::be32(high) + proto::be32(low));
    proto::lemma_take_u32(high, proto::be32(low));
    assert(proto::be32(low) + Seq::<u8>::empty() =~= proto::be32(low));
    proto::lemma_take_u32(low, Seq::empty());
    assert(seq![SSH_AGENT_SUCCESS].skip(1) =~= Seq::empty());
    let failed = proto::extension_failure_msg(reason);
    assert(failed.skip(1) =~= proto::wire_str(reason) + Seq::<u8>::empty());
    proto::lemma_take_str(reason, Seq::empty());
}

/// Whatever answers without success, the file is transferred inline: a daemon
/// that cannot fetch it, and an agent that knows nothing of it.
pub proof fn law_pull_falls_back(frame: Seq<u8>)
    requires
        frame.len() > 0 ==> frame[0] != SSH_AGENT_SUCCESS,
    ensures
        pull_step_of(frame) is Inline,
{
}

/// A request to fetch a file reaches the daemon's handler with its data as
/// sent.
proof fn lemma_pull_routed(data: Seq<u8>, me: proto::PingReplyView, peer: Option<PeerInfo>)
    ensures
        daemon::route(proto::extension_msg(EXT_PULL@, data), me, peer)
            == daemon::ClientStepView::Pull(data),
{
    reveal_strlit("pull@backchannel");
    reveal_strlit("ping@backchannel");
    reveal_strlit("shutdown@backchannel");
    reveal_strlit("open@backchannel");
    reveal_strlit("copy@backchannel");
    reveal_strlit("openfile@backchannel");
    reveal_strlit("tunnels@backchannel");
    reveal_strlit("proxy-stop@backchannel");
    assert(EXT_PULL@[1] == 'u' && EXT_PULL@[0] == 'p');
    assert(proto::EXT_PING@[1] == 'i' && proto::EXT_SHUTDOWN@[1] == 'h' && proto::EXT_OPEN@[1]
        == 'p' && proto::EXT_COPY@[1] == 'o' && proto::EXT_OPENFILE@[1] == 'p');
    assert(proto::EXT_TUNNELS@[0] == 't' && proto::EXT_PROXY_STOP@[1] == 'r');
    is_ascii_chars_encode_utf8(EXT_PULL@);
    proto::law_extension_round_trip(EXT_PULL@, data);
}

/// A request to fetch a file reaches the daemon's handler, and what it
/// fetches is that path of the sender's authority, under a name that leads to
/// an entry of one directory and nowhere else.
pub proof fn law_pull_delivered(
    path: Seq<char>,
    sender: Sender,
    me: proto::PingReplyView,
    peer: Option<PeerInfo>,
    argv: Option<Seq<Seq<char>>>,
    aliases: Option<Seq<char>>,
)
    requires
        open::message_for(file_action(path), WindowMode::Default, false, sender).fits(),
    ensures
        daemon::route(pull_msg(path, sender), me, peer) matches daemon::ClientStepView::Pull(data)
            && (match transfer::safe_name(path) {
            None => pull_plan(data, argv, aliases) is Err,
            Some(name) => pull_plan(data, argv, aliases) matches Ok(plan) && plan.name == name
                && crate::path::plain_name(name) && plan.source == daemon::alias_of(
                argv,
                aliases,
                open::message_for(file_action(path), WindowMode::Default, false, sender),
            ).0 + ":"@ + path,
        }),
{
    let m = open::message_for(file_action(path), WindowMode::Default, false, sender);
    lemma_pull_routed(m.encoded(), me, peer);
    proto::law_open_message_round_trip(m);
    transfer::law_safe_name(path);
}

/// The size that the setting names decides, where it names one; else eight
/// mebibytes do.
pub proof fn law_threshold(n: u32, other: Seq<char>)
    ensures
        threshold_in(Some(text::decimal(n as nat))) == n,
        threshold_in(None) == 8_388_608,
        text::parsed_u32(other) is None ==> threshold_in(Some(other)) == 8_388_608,
{
    text::law_decimal_round_trip(n as nat);
}

/// A file of at least that size is fetched, however large it is; a smaller
/// one goes inline where it fits; and what is no file goes nowhere.
pub proof fn law_large_files_are_fetched(shown: Seq<char>, state: FileState, len: nat, threshold: u32)
    ensures
        state == FileState::File && len >= threshold ==> transfer_for(shown, state, len, threshold)
            == Ok::<Transfer, Seq<char>>(Transfer::Pull),
        state == FileState::File && len < threshold && len <= 209_715_200 ==> transfer_for(
            shown,
            state,
            len,
            threshold,
        ) == Ok::<Transfer, Seq<char>>(Transfer::Inline),
        state == FileState::File && len < threshold && len > 209_715_200 ==> transfer_for(
            shown,
            state,
            len,
            threshold,
        ) is Err,
        state != FileState::File ==> transfer_for(shown, state, len, threshold) is Err,
{
}

/// While a file is fetched the client hears how much of it is there; when it
/// is there it is opened; scp is ended where the client is gone, and only
/// there.
pub proof fn law_fetching_watched(scp: Seq<u8>, event: PullEvent)
    ensures
        event matches PullEvent::Running { sent } ==> (pull_watch(scp, event) matches
            PullWatchView::Tell(frame) && pull_step_of(frame) == (PullStepView::Progress { sent })),
        event is Fetched <==> pull_watch(scp, event) is Open,
        event is ClientGone <==> (pull_watch(scp, event) matches PullWatchView::Failed { kill, .. }
            && kill),
        event matches PullEvent::Exited { status } ==> (pull_watch(scp, event) matches
            PullWatchView::Failed { error, .. } && text::contains(error, status@)),
        event matches PullEvent::Lost { error: why } ==> (pull_watch(scp, event) matches
            PullWatchView::Failed { error, .. } && text::contains(error, why@)),
{
    match event {
        PullEvent::Running { sent } => {
            let none = Seq::<char>::empty();
            assert(proto::fits(none)) by {
                is_ascii_chars_encode_utf8(none);
            }
            law_pull_told(sent, none);
        },
        PullEvent::Exited { status } => {
            let e = pull_watch(scp, event)->error;
            let at = e.len() - status@.len();
            assert(e.subrange(at, at + status@.len()) =~= status@);
            assert(text::stands_at(e, at, status@));
        },
        PullEvent::Lost { error } => {
            let e = pull_watch(scp, event)->error;
            let at = e.len() - error@.len();
            assert(e.subrange(at, at + error@.len()) =~= error@);
            assert(text::stands_at(e, at, error@));
        },
        _ => {},
    }
}

/// A request to fetch a file tells what an open request tells: the path as
/// it is, the sender as it describes itself, and no position, window or
/// waiting.
pub proof fn law_pull_asks_for_the_file(path: Seq<char>, sender: Sender)
    ensures
        ({
            let m = open::message_for(file_action(path), WindowMode::Default, false, sender);
            &&& m.request.action == ActionView::Open { kind: Kind::File, path, line: 0, col: 0 }
            &&& m.request.hostname == sender.hostname@
            &&& m.user == sender.user@
            &&& m.ssh_connection == sender.ssh_connection@
            &&& pull_msg(path, sender) == proto::extension_msg("pull@backchannel"@, m.encoded())
        }),
{
}

/// Nothing but files is fetched, and what is fetched is the path that was
/// asked for, at the sender's authority.
pub proof fn law_only_files_are_fetched(
    m: proto::OpenMessageView,
    argv: Option<Seq<Seq<char>>>,
    aliases: Option<Seq<char>>,
)
    requires
        m.fits(),
    ensures
        pull_plan(m.encoded(), argv, aliases) matches Ok(plan) ==> (m.request.action matches
            ActionView::Open { kind, path, .. } && kind == Kind::File && plan.source
            == daemon::alias_of(argv, aliases, m).0 + seq![':'] + path && transfer::safe_name(path)
            == Some(plan.name)),
        m.request.action matches ActionView::Open { kind: Kind::File, path, .. } ==> (pull_plan(
            m.encoded(),
            argv,
            aliases,
        ) is Ok <==> transfer::safe_name(path) is Some),
        m.request.action matches ActionView::Open { kind: Kind::File, path, .. }
            ==> transfer::safe_name(path) is None ==> pull_plan(m.encoded(), argv, aliases) == Err::<
            PullPlanView,
            Seq<char>,
        >(transfer::name_refused(path)),
        !(m.request.action matches ActionView::Open { kind: Kind::File, .. }) ==> pull_plan(
            m.encoded(),
            argv,
            aliases,
        ) == Err::<PullPlanView, Seq<char>>(ONLY_FILES@),
{
    reveal_strlit(":");
    assert(":"@ =~= seq![':']);
    proto::law_open_message_round_trip(m);
}

/// What the user is told of a file that goes inline after all says why.
pub proof fn law_inline_words(reason: Seq<char>)
    ensures
        text::contains(inline_words(reason), reason),
{
    text::lemma_contained("note: "@, reason, "; transferring inline"@);
}

}
