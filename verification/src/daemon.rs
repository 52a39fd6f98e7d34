//! The local daemon. ssh forwards its socket to remotes as "the agent", so
//! every connection is either real agent traffic (relayed verbatim to the
//! actual ssh-agent) or a backchannel extension message from a remote or
//! another backchannel process. Here stands what the daemon decides; sockets,
//! files and processes are its caller's.

use vstd::prelude::*;

use crate::launch;
use crate::launch::code_args;
use crate::messages;
use crate::messages::CopyRequest;
use crate::open;
use crate::path;
use crate::path::{bytes_of, same_path};
use crate::peer::PeerInfo;
use crate::proto;
use crate::proto::{
    extension, failure_frame, parse_extension, Action, ActionView, OpenMessage, OpenMessageView,
    PingReply,
};
use crate::proto::{
    EXT_COPY, EXT_OPEN, EXT_OPENFILE, EXT_PING, EXT_PROXY_STOP, EXT_PULL, EXT_SHUTDOWN,
    EXT_TUNNELS, SSH_AGENT_FAILURE,
};
use crate::ssh_argv;
use crate::ssh_argv::destination;
use crate::text;
use crate::text::{
    before_char, decimal_text, join_spaced, lossy, same, signed_text, split_rows, split_words,
    text_starts_with, trim, trim_end_char,
};
use crate::url;
use crate::url::{is_web, loopback_port};

verus! {

// ---- starting up ----

/// What is found on the daemon's socket.
#[derive(Debug, Clone, Copy, PartialEq, Eq, Structural)]
pub enum Existing {
    /// There is no socket.
    Absent,
    /// There is one, but no daemon behind it.
    Stale,
    /// A daemon with this pid answers.
    Alive(u32),
}

/// What starting the daemon takes.
#[derive(Debug, Clone, PartialEq, Eq)]
pub enum Startup {
    /// A daemon runs already: leave it alone, and say nothing.
    AlreadyRunning,
    /// Shut the running daemon down first.
    Replace { note: String },
    /// Remove the socket of a daemon that is gone.
    RemoveStale { note: String },
    /// Nothing is in the way.
    Start,
}

/// `Startup` with its strings taken as characters.
pub enum StartupView {
    AlreadyRunning,
    Replace { note: Seq<char> },
    RemoveStale { note: Seq<char> },
    Start,
}

impl View for Startup {
    type V = StartupView;

    open spec fn view(&self) -> StartupView {
        match self {
            Startup::AlreadyRunning => StartupView::AlreadyRunning,
            Startup::Replace { note } => StartupView::Replace { note: note@ },
            Startup::RemoveStale { note } => StartupView::RemoveStale { note: note@ },
            Startup::Start => StartupView::Start,
        }
    }
}

/// The message that asks whoever listens whether it is a daemon of ours.
pub fn ping_request() -> (r: Vec<u8>)
    ensures
        r@ == proto::extension_msg(EXT_PING@, Seq::empty()),
{
    let nothing: Vec<u8> = Vec::new();
    assert(nothing@ =~= Seq::empty());
    extension(EXT_PING, nothing.as_slice())
}

/// The message that asks a daemon to go.
pub fn shutdown_request() -> (r: Vec<u8>)
    ensures
        r@ == proto::extension_msg(EXT_SHUTDOWN@, Seq::empty()),
{
    let nothing: Vec<u8> = Vec::new();
    assert(nothing@ =~= Seq::empty());
    extension(EXT_SHUTDOWN, nothing.as_slice())
}

/// What an answer to a ping says: Some from a backchannel daemon, None from
/// something else (a real agent).
pub fn ping(answer: &[u8]) -> (r: Option<PingReply>)
    ensures
        match proto::decoded_ping(answer@) {
            None => r is None,
            Some(p) => r is Some && r->0@ == p,
        },
{
    PingReply::decode(answer)
}

/// What a look at the socket found: whether it exists, and what answered a
/// ping there.
pub open spec fn existing_at(exists: bool, answer: Option<Seq<u8>>) -> Existing {
    if !exists {
        Existing::Absent
    } else {
        match answer {
            None => Existing::Stale,
            Some(frame) => match proto::decoded_ping(frame) {
                Some(p) => Existing::Alive(p.pid),
                None => Existing::Stale,
            },
        }
    }
}

/// What is on the daemon's socket. A live agent that is not ours counts as
/// stale: the path is the daemon's own.
pub fn probe_existing(exists: bool, answer: &Option<Vec<u8>>) -> (r: Existing)
    ensures
        r == existing_at(exists, path::maybe(*answer)),
{
    if !exists {
        return Existing::Absent;
    }
    match answer {
        Some(frame) => match ping(frame.as_slice()) {
            Some(reply) => Existing::Alive(reply.pid),
            None => Existing::Stale,
        },
        None => Existing::Stale,
    }
}

/// What starting takes, given what is there and whether it may be replaced.
pub open spec fn startup(existing: Existing, replace: bool) -> StartupView {
    match existing {
        Existing::Alive(pid) => if replace {
            StartupView::Replace {
                note: "replacing running daemon (pid "@ + text::decimal(pid as nat) + ")"@,
            }
        } else {
            StartupView::AlreadyRunning
        },
        Existing::Stale => StartupView::RemoveStale { note: "removing stale agent socket"@ },
        Existing::Absent => StartupView::Start,
    }
}

/// What starting the daemon takes. Shell rcs start it on every new terminal,
/// so a daemon that runs already is left alone without a word.
pub fn run(existing: Existing, replace: bool) -> (r: Startup)
    ensures
        r@ == startup(existing, replace),
{
    match existing {
        Existing::Alive(pid) => if replace {
            Startup::Replace {
                note: "replacing running daemon (pid ".to_owned().concat(
                    decimal_text(pid as u64).as_str(),
                ).concat(")"),
            }
        } else {
            Startup::AlreadyRunning
        },
        Existing::Stale => Startup::RemoveStale {
            note: "removing stale agent socket".to_owned(),
        },
        Existing::Absent => Startup::Start,
    }
}

/// How often the old daemon's socket is looked for before it is removed.
pub const SHUTDOWN_POLLS: u32 = 40;

/// The pause between two looks, in milliseconds.
pub const SHUTDOWN_POLL_MS: u64 = 50;

/// What to do about the socket of a daemon that was asked to go.
#[derive(Debug, Clone, Copy, PartialEq, Eq, Structural)]
pub enum ShutdownStep {
    /// It is gone.
    Gone,
    /// Look again after a pause.
    Pause,
    /// Remove it.
    Remove,
}

/// What to do after `looks` looks that found the socket, when it is there or
/// not.
pub open spec fn shutdown_step(looks: u32, exists: bool) -> ShutdownStep {
    if looks >= SHUTDOWN_POLLS {
        ShutdownStep::Remove
    } else if exists {
        ShutdownStep::Pause
    } else {
        ShutdownStep::Gone
    }
}

/// What to do after `looks` looks that found the socket, when it is there or
/// not: the old daemon is given time to unlink its socket, so that the new one
/// cannot race it.
pub fn shutdown_existing(looks: u32, exists: bool) -> (r: ShutdownStep)
    ensures
        r == shutdown_step(looks, exists),
{
    if looks >= SHUTDOWN_POLLS {
        ShutdownStep::Remove
    } else if exists {
        ShutdownStep::Pause
    } else {
        ShutdownStep::Gone
    }
}

/// What is said when the agent to pass requests on to is the daemon itself.
pub const OWN_SOCKET: &'static str =
    "SSH_AUTH_SOCK points at backchannel's own socket; agent passthrough disabled to avoid a proxy loop";

/// Two paths lead to one file: by their text, or by what they resolve to.
pub open spec fn same_file(
    a: Seq<u8>,
    b: Seq<u8>,
    resolved_a: Option<Seq<u8>>,
    resolved_b: Option<Seq<u8>>,
) -> bool {
    ||| path::path_eq(a, b)
    ||| (resolved_a is Some && resolved_b is Some && path::path_eq(resolved_a->0, resolved_b->0))
}

/// The agent that ordinary requests are passed on to.
pub open spec fn upstream_of(
    auth_sock: Option<Seq<u8>>,
    ours: Seq<u8>,
    resolved_auth: Option<Seq<u8>>,
    resolved_ours: Option<Seq<u8>>,
) -> Option<Seq<u8>> {
    match auth_sock {
        Some(p) if !same_file(p, ours, resolved_auth, resolved_ours) => Some(p),
        _ => None,
    }
}

/// The real agent that ordinary requests are passed on to: whatever
/// `$SSH_AUTH_SOCK` pointed at when the daemon started — unless that is the
/// daemon itself, which would be an infinite loop. The flag asks for the
/// `OWN_SOCKET` warning.
pub fn resolve_upstream(
    auth_sock: Option<Vec<u8>>,
    ours: &[u8],
    resolved_auth: &Option<Vec<u8>>,
    resolved_ours: &Option<Vec<u8>>,
) -> (r: (Option<Vec<u8>>, bool))
    ensures
        path::maybe(r.0) == upstream_of(
            path::maybe(auth_sock),
            ours@,
            path::maybe(*resolved_auth),
            path::maybe(*resolved_ours),
        ),
        r.1 == (auth_sock is Some && r.0 is None),
{
    match auth_sock {
        None => (None, false),
        Some(p) => {
            let mut own = same_path(p.as_slice(), ours);
            if let (Some(a), Some(b)) = (resolved_auth, resolved_ours) {
                own = own || same_path(a.as_slice(), b.as_slice());
            }
            if own {
                (None, true)
            } else {
                (Some(p), false)
            }
        },
    }
}

/// Requests are never passed on to the daemon's own socket.
pub proof fn law_no_proxy_loop(
    auth_sock: Option<Seq<u8>>,
    ours: Seq<u8>,
    resolved_auth: Option<Seq<u8>>,
    resolved_ours: Option<Seq<u8>>,
)
    ensures
        upstream_of(auth_sock, ours, resolved_auth, resolved_ours) matches Some(p) ==> !same_file(
            p,
            ours,
            resolved_auth,
            resolved_ours,
        ),
{
}

/// How the agent behind the daemon is shown.
pub open spec fn upstream_shown(upstream: Option<Seq<u8>>) -> Seq<char> {
    match upstream {
        Some(p) => text::text_of(p),
        None => "none"@,
    }
}

/// How the agent behind the daemon is shown.
pub fn upstream_desc(upstream: &Option<Vec<u8>>) -> (r: String)
    ensures
        r@ == upstream_shown(path::maybe(*upstream)),
{
    match upstream {
        Some(p) => lossy(p.as_slice()),
        None => "none".to_owned(),
    }
}

/// What is logged when the daemon has started.
pub open spec fn started_words(me: proto::PingReplyView, socket: Seq<u8>) -> Seq<char> {
    "daemon started (pid "@ + text::decimal(me.pid as nat) + ", version "@ + me.version
        + ", socket "@ + text::text_of(socket) + ", upstream agent: "@ + me.upstream + ")"@
}

/// What is logged when the daemon has started.
pub fn started_note(me: &PingReply, socket: &[u8]) -> (r: String)
    ensures
        r@ == started_words(me@, socket@),
{
    "daemon started (pid ".to_owned().concat(decimal_text(me.pid as u64).as_str()).concat(
        ", version ",
    ).concat(me.version.as_str()).concat(", socket ").concat(lossy(socket).as_str()).concat(
        ", upstream agent: ",
    ).concat(me.upstream.as_str()).concat(")")
}

// ---- serving a client ----

/// A client may talk to the daemon: it belongs to the same user, or the
/// system does not say whose it is.
pub open spec fn admitted(peer: Option<PeerInfo>, my_uid: u32) -> bool {
    peer matches Some(p) ==> p.uid == my_uid
}

/// What is logged of a client that may not.
pub open spec fn rejection(peer: PeerInfo) -> Seq<char> {
    "rejecting connection from uid "@ + text::decimal(peer.uid as nat) + " (pid "@
        + text::signed_decimal(peer.pid as int) + ")"@
}

/// Whether a client may talk to the daemon; None when it may, else what is
/// logged of its rejection.
pub fn reject(peer: &Option<PeerInfo>, my_uid: u32) -> (r: Option<String>)
    ensures
        text::maybe(r) == (if admitted(*peer, my_uid) {
            None
        } else {
            Some(rejection(peer->0))
        }),
{
    if let Some(p) = peer {
        if p.uid != my_uid {
            return Some(
                "rejecting connection from uid ".to_owned().concat(
                    decimal_text(p.uid as u64).as_str(),
                ).concat(" (pid ").concat(signed_text(p.pid).as_str()).concat(")"),
            );
        }
    }
    None
}

/// What a client's connection brings.
#[derive(Debug, Clone, PartialEq, Eq)]
pub enum ClientEvent {
    /// It was just accepted, and nothing was read from it.
    Connected,
    /// A message.
    Message(Vec<u8>),
    /// Its end.
    Closed,
    /// A failure.
    Failed { error: String },
}

/// What to do about it.
#[derive(Debug, PartialEq, Eq)]
pub enum ClientStep {
    /// Hang up on another user, without an answer.
    Reject { note: String },
    /// Read a message.
    Read,
    /// Answer with this message.
    Answer(Vec<u8>),
    /// Confirm, remove the socket and exit.
    Exit { note: String },
    /// Carry out an open request.
    Open(Vec<u8>),
    /// Set the clipboard.
    Copy(Vec<u8>),
    /// Open a transferred file.
    OpenFile(Vec<u8>),
    /// List the tunnels.
    Tunnels,
    /// Stop tunnels.
    ProxyStop(Vec<u8>),
    /// Fetch a file and open it.
    Pull(Vec<u8>),
    /// Pass this message on to the real agent.
    Relay(Vec<u8>),
    /// Hang up.
    Done(Result<(), String>),
}

/// `ClientEvent` by its contents.
pub enum ClientEventView {
    Connected,
    Message(Seq<u8>),
    Closed,
    Failed { error: Seq<char> },
}

/// `ClientStep` by its contents.
pub enum ClientStepView {
    Reject { note: Seq<char> },
    Read,
    Answer(Seq<u8>),
    Exit { note: Seq<char> },
    Open(Seq<u8>),
    Copy(Seq<u8>),
    OpenFile(Seq<u8>),
    Tunnels,
    ProxyStop(Seq<u8>),
    Pull(Seq<u8>),
    Relay(Seq<u8>),
    Done(Result<(), Seq<char>>),
}

impl View for ClientEvent {
    type V = ClientEventView;

    open spec fn view(&self) -> ClientEventView {
        match self {
            ClientEvent::Connected => ClientEventView::Connected,
            ClientEvent::Message(m) => ClientEventView::Message(m@),
            ClientEvent::Closed => ClientEventView::Closed,
            ClientEvent::Failed { error } => ClientEventView::Failed { error: error@ },
        }
    }
}

impl View for ClientStep {
    type V = ClientStepView;

    open spec fn view(&self) -> ClientStepView {
        match self {
            ClientStep::Reject { note } => ClientStepView::Reject { note: note@ },
            ClientStep::Read => ClientStepView::Read,
            ClientStep::Answer(m) => ClientStepView::Answer(m@),
            ClientStep::Exit { note } => ClientStepView::Exit { note: note@ },
            ClientStep::Open(d) => ClientStepView::Open(d@),
            ClientStep::Copy(d) => ClientStepView::Copy(d@),
            ClientStep::OpenFile(d) => ClientStepView::OpenFile(d@),
            ClientStep::Tunnels => ClientStepView::Tunnels,
            ClientStep::ProxyStop(d) => ClientStepView::ProxyStop(d@),
            ClientStep::Pull(d) => ClientStepView::Pull(d@),
            ClientStep::Relay(m) => ClientStepView::Relay(m@),
            ClientStep::Done(Ok(())) => ClientStepView::Done(Ok(())),
            ClientStep::Done(Err(e)) => ClientStepView::Done(Err(e@)),
        }
    }
}

/// Who asked, as far as it is known.
pub open spec fn asker(peer: Option<PeerInfo>) -> Seq<char> {
    match peer {
        Some(p) => text::signed_decimal(p.pid as int),
        None => "?"@,
    }
}

/// What to do about a message.
pub open spec fn route(
    msg: Seq<u8>,
    me: proto::PingReplyView,
    peer: Option<PeerInfo>,
) -> ClientStepView {
    match proto::parsed_extension(msg) {
        None => ClientStepView::Relay(msg),
        Some((name, data)) => if name == EXT_PING@ {
            ClientStepView::Answer(me.encoded())
        } else if name == EXT_SHUTDOWN@ {
            ClientStepView::Exit { note: "shutdown requested by pid "@ + asker(peer) }
        } else if name == EXT_OPEN@ {
            ClientStepView::Open(data)
        } else if name == EXT_COPY@ {
            ClientStepView::Copy(data)
        } else if name == EXT_OPENFILE@ {
            ClientStepView::OpenFile(data)
        } else if name == EXT_TUNNELS@ {
            ClientStepView::Tunnels
        } else if name == EXT_PROXY_STOP@ {
            ClientStepView::ProxyStop(data)
        } else if name == EXT_PULL@ {
            ClientStepView::Pull(data)
        } else {
            ClientStepView::Relay(msg)
        },
    }
}

/// What to do about whatever a client's connection brings. Another user's
/// connection is dropped, whatever it brings.
pub open spec fn client_step(
    event: ClientEventView,
    me: proto::PingReplyView,
    peer: Option<PeerInfo>,
    my_uid: u32,
) -> ClientStepView {
    if !admitted(peer, my_uid) {
        ClientStepView::Reject { note: rejection(peer->0) }
    } else {
        match event {
            ClientEventView::Connected => ClientStepView::Read,
            ClientEventView::Message(msg) => route(msg, me, peer),
            ClientEventView::Closed => ClientStepView::Done(Ok(())),
            ClientEventView::Failed { error } => ClientStepView::Done(Err(error)),
        }
    }
}

/// Serves one event of a client's connection; the first is that there is one,
/// before anything is read from it. Other users are rejected outright.
/// Anything that is not a backchannel extension — identities, signing,
/// session-bind@openssh.com, unknown extensions, names that are not even
/// text — is real agent traffic.
pub fn handle_client(
    event: ClientEvent,
    me: &PingReply,
    peer: &Option<PeerInfo>,
    my_uid: u32,
) -> (r: ClientStep)
    ensures
        r@ == client_step(event@, me@, *peer, my_uid),
        event@ matches ClientEventView::Message(msg) ==> (admitted(*peer, my_uid)
            && proto::ill_named(msg) ==> r@ == ClientStepView::Relay(msg)),
{
    if let Some(note) = reject(peer, my_uid) {
        return ClientStep::Reject { note };
    }
    let msg = match event {
        ClientEvent::Connected => {
            return ClientStep::Read;
        },
        ClientEvent::Message(m) => m,
        ClientEvent::Closed => {
            return ClientStep::Done(Ok(()));
        },
        ClientEvent::Failed { error } => {
            return ClientStep::Done(Err(error));
        },
    };
    if let Some((ext, data)) = parse_extension(msg.as_slice()) {
        let name = ext.as_str();
        assert(proto::ill_named(msg@) ==> !our_extension(ext@)) by {
            lemma_our_names();
        }
        if same(name, EXT_PING) {
            return ClientStep::Answer(me.encode());
        }
        if same(name, EXT_SHUTDOWN) {
            let who = match peer {
                Some(p) => signed_text(p.pid),
                None => "?".to_owned(),
            };
            return ClientStep::Exit {
                note: "shutdown requested by pid ".to_owned().concat(who.as_str()),
            };
        }
        if same(name, EXT_OPEN) {
            return ClientStep::Open(bytes_of(data));
        }
        if same(name, EXT_COPY) {
            return ClientStep::Copy(bytes_of(data));
        }
        if same(name, EXT_OPENFILE) {
            return ClientStep::OpenFile(bytes_of(data));
        }
        if same(name, EXT_TUNNELS) {
            return ClientStep::Tunnels;
        }
        if same(name, EXT_PROXY_STOP) {
            return ClientStep::ProxyStop(bytes_of(data));
        }
        if same(name, EXT_PULL) {
            return ClientStep::Pull(bytes_of(data));
        }
    }
    ClientStep::Relay(msg)
}

/// The name of one of our extensions.
pub open spec fn our_extension(name: Seq<char>) -> bool {
    ||| name == EXT_PING@
    ||| name == EXT_SHUTDOWN@
    ||| name == EXT_OPEN@
    ||| name == EXT_COPY@
    ||| name == EXT_OPENFILE@
    ||| name == EXT_TUNNELS@
    ||| name == EXT_PROXY_STOP@
    ||| name == EXT_PULL@
}

/// None of our names holds U+FFFD.
proof fn lemma_our_names()
    ensures
        forall|name: Seq<char>| #[trigger]
            our_extension(name) ==> !name.contains(text::REPLACEMENT),
{
    reveal_strlit("ping@backchannel");
    reveal_strlit("shutdown@backchannel");
    reveal_strlit("open@backchannel");
    reveal_strlit("copy@backchannel");
    reveal_strlit("openfile@backchannel");
    reveal_strlit("tunnels@backchannel");
    reveal_strlit("proxy-stop@backchannel");
    reveal_strlit("pull@backchannel");
}

/// Another user gets nothing: whatever the connection brings, and before
/// anything is read from it, it is dropped, and nothing is answered, relayed
/// or carried out.
pub proof fn law_other_users_get_nothing(
    event: ClientEventView,
    me: proto::PingReplyView,
    peer: Option<PeerInfo>,
    my_uid: u32,
)
    requires
        !admitted(peer, my_uid),
    ensures
        client_step(event, me, peer, my_uid) is Reject,
{
}

/// A client of the same user, or of a user the system does not tell, is
/// served.
pub proof fn law_own_user_is_served(
    msg: Seq<u8>,
    me: proto::PingReplyView,
    peer: Option<PeerInfo>,
    my_uid: u32,
)
    requires
        admitted(peer, my_uid),
    ensures
        client_step(ClientEventView::Connected, me, peer, my_uid) == ClientStepView::Read,
        client_step(ClientEventView::Message(msg), me, peer, my_uid) == route(msg, me, peer),
        !(route(msg, me, peer) is Reject),
{
}

/// Everything that is not ours goes to the real agent as it came, and nothing
/// that is ours does.
pub proof fn law_relayed_verbatim(
    msg: Seq<u8>,
    me: proto::PingReplyView,
    peer: Option<PeerInfo>,
)
    ensures
        (proto::parsed_extension(msg) matches Some((name, _)) ==> !our_extension(name)) ==> route(
            msg,
            me,
            peer,
        ) == ClientStepView::Relay(msg),
        (proto::parsed_extension(msg) matches Some((name, _)) && our_extension(name)) ==> !(route(
            msg,
            me,
            peer,
        ) is Relay),
{
}

/// A ping is answered with who we are.
pub proof fn law_ping_answered(me: proto::PingReplyView, peer: Option<PeerInfo>)
    requires
        me.fits(),
    ensures
        route(proto::extension_msg(EXT_PING@, Seq::empty()), me, peer) matches ClientStepView::Answer(
            answer,
        ) && proto::decoded_ping(answer) == Some(me) && existing_at(true, Some(answer))
            == Existing::Alive(me.pid),
{
    reveal_strlit("ping@backchannel");
    vstd::utf8::is_ascii_chars_encode_utf8(EXT_PING@);
    proto::law_extension_round_trip(EXT_PING@, Seq::empty());
    proto::law_ping_round_trip(me);
}

/// An open request reaches the daemon's handler with its data as sent.
pub proof fn law_open_delivered(data: Seq<u8>, me: proto::PingReplyView, peer: Option<PeerInfo>)
    ensures
        route(proto::extension_msg(EXT_OPEN@, data), me, peer) == ClientStepView::Open(data),
{
    reveal_strlit("open@backchannel");
    reveal_strlit("ping@backchannel");
    reveal_strlit("shutdown@backchannel");
    assert(EXT_OPEN@[0] != EXT_PING@[0]);
    assert(EXT_OPEN@[0] != EXT_SHUTDOWN@[0]);
    vstd::utf8::is_ascii_chars_encode_utf8(EXT_OPEN@);
    proto::law_extension_round_trip(EXT_OPEN@, data);
}

// ---- passing requests on to the real agent ----

/// How an attempt to pass a message on went.
#[derive(Debug, Clone, PartialEq, Eq)]
pub enum AgentAttempt {
    /// The agent answered.
    Reply(Vec<u8>),
    /// No connection could be made.
    Unreachable { error: String },
    /// The connection failed on the way.
    Broken { error: String },
}

/// What to do next about a message for the agent.
#[derive(Debug, Clone, PartialEq, Eq)]
pub enum RelayStep {
    /// Pass it on, over the connection there is or a new one.
    Try,
    /// Drop the connection and pass it on over a new one.
    Retry,
    /// Answer the client.
    Answer {
        reply: Vec<u8>,
        /// What to log.
        note: Option<String>,
        /// Drop the connection.
        hang_up: bool,
    },
}

/// `AgentAttempt` by its contents.
pub enum AgentAttemptView {
    Reply(Seq<u8>),
    Unreachable { error: Seq<char> },
    Broken { error: Seq<char> },
}

/// `RelayStep` by its contents.
pub enum RelayStepView {
    Try,
    Retry,
    Answer { reply: Seq<u8>, note: Option<Seq<char>>, hang_up: bool },
}

impl View for AgentAttempt {
    type V = AgentAttemptView;

    open spec fn view(&self) -> AgentAttemptView {
        match self {
            AgentAttempt::Reply(m) => AgentAttemptView::Reply(m@),
            AgentAttempt::Unreachable { error } => AgentAttemptView::Unreachable { error: error@ },
            AgentAttempt::Broken { error } => AgentAttemptView::Broken { error: error@ },
        }
    }
}

impl View for RelayStep {
    type V = RelayStepView;

    open spec fn view(&self) -> RelayStepView {
        match self {
            RelayStep::Try => RelayStepView::Try,
            RelayStep::Retry => RelayStepView::Retry,
            RelayStep::Answer { reply, note, hang_up } => RelayStepView::Answer {
                reply: reply@,
                note: text::maybe(*note),
                hang_up: *hang_up,
            },
        }
    }
}

/// The first thing to do about a message for the agent.
pub open spec fn relay_begins(upstream: Option<Seq<u8>>) -> RelayStepView {
    match upstream {
        None => RelayStepView::Answer {
            reply: seq![SSH_AGENT_FAILURE],
            note: None,
            hang_up: false,
        },
        Some(_) => RelayStepView::Try,
    }
}

/// What to do after an attempt, when there was another before it or not.
pub open spec fn relay_goes_on(
    upstream: Seq<u8>,
    retried: bool,
    attempt: AgentAttemptView,
) -> RelayStepView {
    match attempt {
        AgentAttemptView::Reply(m) => RelayStepView::Answer {
            reply: m,
            note: None,
            hang_up: false,
        },
        AgentAttemptView::Unreachable { error } => RelayStepView::Answer {
            reply: seq![SSH_AGENT_FAILURE],
            note: Some("cannot reach agent "@ + text::text_of(upstream) + ": "@ + error),
            hang_up: true,
        },
        AgentAttemptView::Broken { error } => if retried {
            RelayStepView::Answer {
                reply: seq![SSH_AGENT_FAILURE],
                note: Some("agent passthrough failed: "@ + error),
                hang_up: true,
            }
        } else {
            RelayStepView::Retry
        },
    }
}

/// What to do about a message for the agent, at first and after each attempt
/// to pass it on.
pub open spec fn relay_step(
    upstream: Option<Seq<u8>>,
    retried: bool,
    attempt: Option<AgentAttemptView>,
) -> RelayStepView {
    match (upstream, attempt) {
        (Some(up), Some(a)) => relay_goes_on(up, retried, a),
        (up, _) => relay_begins(up),
    }
}

/// What to do about a message for the agent, at first and after each
/// attempt to pass it on. A cached connection may have gone stale since the
/// last request, so a broken one is replaced once before giving up.
pub fn proxy_roundtrip(
    upstream: &Option<Vec<u8>>,
    retried: bool,
    attempt: Option<AgentAttempt>,
) -> (r: RelayStep)
    ensures
        r@ == relay_step(
            path::maybe(*upstream),
            retried,
            match attempt {
                Some(a) => Some(a@),
                None => None,
            },
        ),
{
    match (upstream, attempt) {
        (None, _) => RelayStep::Answer { reply: failure_frame(), note: None, hang_up: false },
        (Some(_), None) => RelayStep::Try,
        (Some(up), Some(a)) => match a {
            AgentAttempt::Reply(reply) => RelayStep::Answer { reply, note: None, hang_up: false },
            AgentAttempt::Unreachable { error } => RelayStep::Answer {
                reply: failure_frame(),
                note: Some(
                    "cannot reach agent ".to_owned().concat(lossy(up.as_slice()).as_str()).concat(
                        ": ",
                    ).concat(error.as_str()),
                ),
                hang_up: true,
            },
            AgentAttempt::Broken { error } => if retried {
                RelayStep::Answer {
                    reply: failure_frame(),
                    note: Some(
                        "agent passthrough failed: ".to_owned().concat(error.as_str()),
                    ),
                    hang_up: true,
                }
            } else {
                RelayStep::Retry
            },
        },
    }
}

/// What the agent answers is what the client gets, byte for byte, on the
/// first attempt as on the second.
pub proof fn law_reply_verbatim(upstream: Seq<u8>, retried: bool, reply: Seq<u8>)
    ensures
        relay_goes_on(upstream, retried, AgentAttemptView::Reply(reply)) matches
            RelayStepView::Answer { reply: given, note: None, hang_up: false } && given == reply,
{
}

/// Two attempts settle every message: only a broken first one is followed by
/// a second, and nothing by a third.
pub proof fn law_two_attempts(upstream: Seq<u8>, first: AgentAttemptView, second: AgentAttemptView)
    ensures
        relay_goes_on(upstream, false, first) == RelayStepView::Retry <==> first is Broken,
        !(first is Broken) ==> relay_goes_on(upstream, false, first) is Answer,
        relay_goes_on(upstream, true, second) is Answer,
{
}

/// Whatever happens, a client whose message does not reach the agent is told
/// of a failure.
pub proof fn law_failures_are_answered(upstream: Option<Seq<u8>>, attempt: AgentAttemptView)
    requires
        !(attempt is Reply),
    ensures
        upstream is None ==> relay_begins(upstream) is Answer && relay_begins(upstream)->reply
            == seq![SSH_AGENT_FAILURE],
        upstream matches Some(up) ==> relay_goes_on(up, true, attempt) is Answer
            && relay_goes_on(up, true, attempt)->reply == seq![SSH_AGENT_FAILURE],
{
}

// ---- where a request comes from ----

/// How the sender's authority was found.
#[derive(Debug, Clone, Copy, PartialEq, Eq, Structural)]
pub enum AliasSource {
    SshArgv,
    AliasesFile,
    SshConnection,
    RemoteHostname,
}

impl AliasSource {
    /// The source in words.
    pub open spec fn words(self) -> Seq<char> {
        match self {
            AliasSource::SshArgv => "ssh argv"@,
            AliasSource::AliasesFile => "aliases file"@,
            AliasSource::SshConnection => "SSH_CONNECTION"@,
            AliasSource::RemoteHostname => "remote hostname"@,
        }
    }

    /// The source in words.
    pub fn as_str(self) -> (r: &'static str)
        ensures
            r@ == self.words(),
    {
        match self {
            AliasSource::SshArgv => "ssh argv",
            AliasSource::AliasesFile => "aliases file",
            AliasSource::SshConnection => "SSH_CONNECTION",
            AliasSource::RemoteHostname => "remote hostname",
        }
    }
}

/// The alias that one row of the aliases file gives a host. Blank rows and
/// `#` comments give none; a host is listed by its full name or its first
/// label.
pub open spec fn row_alias(row: Seq<char>, hostname: Seq<char>) -> Option<Seq<char>> {
    let line = text::trimmed(row);
    let parts = text::words(line);
    if line.len() == 0 || line[0] == '#' || parts.len() < 2 {
        None
    } else if parts[0] == hostname || parts[0] == text::until(hostname, '.') {
        Some(parts[1])
    } else {
        None
    }
}

/// The alias that the first of the rows gives that gives one.
pub open spec fn rows_alias(rows: Seq<Seq<char>>, hostname: Seq<char>) -> Option<Seq<char>>
    decreases rows.len(),
{
    if rows.len() == 0 {
        None
    } else {
        match row_alias(rows[0], hostname) {
            Some(alias) => Some(alias),
            None => rows_alias(rows.skip(1), hostname),
        }
    }
}

/// The alias that the aliases file gives a host.
pub open spec fn listed_alias(content: Seq<char>, hostname: Seq<char>) -> Option<Seq<char>> {
    rows_alias(text::rows(content), hostname)
}

/// The alias that one row of the aliases file gives a host.
fn row_lookup(row: &str, hostname: &str, short: &str) -> (r: Option<String>)
    requires
        short@ == text::until(hostname@, '.'),
    ensures
        text::maybe(r) == row_alias(row@, hostname@),
{
    let line = trim(row);
    if line.as_str().is_empty() || text_starts_with(line.as_str(), "#") {
        proof {
            reveal_strlit("#");
            if line@.len() > 0 {
                assert(line@.subrange(0, 1)[0] == line@[0]);
                assert("#"@[0] == '#');
            }
        }
        return None;
    }
    proof {
        reveal_strlit("#");
        if line@[0] == '#' {
            assert(line@.subrange(0, 1) =~= "#"@);
        }
    }
    let parts = split_words(line.as_str());
    assert(text::texts(parts@).len() == parts@.len());
    if parts.len() < 2 {
        return None;
    }
    assert(text::texts(parts@)[0] == parts@[0]@);
    assert(text::texts(parts@)[1] == parts@[1]@);
    let host = parts[0].as_str();
    if same(host, hostname) || same(host, short) {
        Some(parts[1].as_str().to_owned())
    } else {
        None
    }
}

/// The alias that the aliases file gives a host: lines of `<hostname>
/// <alias>`, `#` comments, first match wins.
pub fn alias_lookup(content: &str, hostname: &str) -> (r: Option<String>)
    ensures
        text::maybe(r) == listed_alias(content@, hostname@),
{
    let short = before_char(hostname, '.');
    let rows = split_rows(content);
    let ghost all = text::texts(rows@);
    let mut i: usize = 0;
    assert(all.skip(0) =~= all);
    while i < rows.len()
        invariant
            i <= rows@.len(),
            all == text::texts(rows@),
            short@ == text::until(hostname@, '.'),
            rows_alias(all, hostname@) == rows_alias(all.skip(i as int), hostname@),
            all == text::rows(content@),
        decreases rows@.len() - i,
    {
        assert(all.skip(i as int)[0] == rows@[i as int]@);
        assert(all.skip(i as int).skip(1) =~= all.skip(i + 1));
        let found = row_lookup(rows[i].as_str(), hostname, short.as_str());
        if found.is_some() {
            return found;
        }
        i += 1;
    }
    None
}

/// The authority in the sender's `$SSH_CONNECTION`: its user at the third
/// field, the address that the session came in on.
pub open spec fn connection_authority(user: Seq<char>, connection: Seq<char>) -> Option<Seq<char>> {
    let fields = text::words(connection);
    if fields.len() < 3 {
        None
    } else if user.len() == 0 {
        Some(fields[2])
    } else {
        Some(user + "@"@ + fields[2])
    }
}

/// The authority in the sender's `$SSH_CONNECTION`.
pub fn connection_alias(user: &str, connection: &str) -> (r: Option<String>)
    ensures
        text::maybe(r) == connection_authority(user@, connection@),
{
    let fields = split_words(connection);
    assert(text::texts(fields@).len() == fields@.len());
    if fields.len() < 3 {
        return None;
    }
    assert(text::texts(fields@)[2] == fields@[2]@);
    if user.is_empty() {
        Some(fields[2].as_str().to_owned())
    } else {
        Some(user.to_owned().concat("@").concat(fields[2].as_str()))
    }
}

/// What the daemon knows of the process that carried a request and of the
/// hosts it may have come from.
pub struct Sources {
    /// The command line of the process on the other end of the connection.
    pub argv: Option<Vec<String>>,
    /// The aliases file.
    pub aliases: Option<String>,
}

/// The command line that `Sources` hold.
pub open spec fn argv_view(argv: Option<Vec<String>>) -> Option<Seq<Seq<char>>> {
    match argv {
        None => None,
        Some(v) => Some(text::texts(v@)),
    }
}

/// The authority of whoever sent a request, and how it was found.
pub open spec fn alias_of(
    argv: Option<Seq<Seq<char>>>,
    aliases: Option<Seq<char>>,
    m: OpenMessageView,
) -> (Seq<char>, AliasSource) {
    let typed = match argv {
        None => None,
        Some(a) => ssh_argv::destination_of(a),
    };
    let listed = match aliases {
        None => None,
        Some(content) => listed_alias(content, m.request.hostname),
    };
    match (typed, listed, connection_authority(m.user, m.ssh_connection)) {
        (Some(dest), _, _) => (dest, AliasSource::SshArgv),
        (None, Some(alias), _) => (alias, AliasSource::AliasesFile),
        (None, None, Some(auth)) => (auth, AliasSource::SshConnection),
        (None, None, None) => (
            text::without_trailing(m.request.hostname, '.'),
            AliasSource::RemoteHostname,
        ),
    }
}

/// The authority of whoever sent a request. Best source first: the argv of
/// the ssh process that carried it, then the user's aliases file, then the
/// sender's ssh connection, then the hostname the sender reported.
pub fn resolve_alias(sources: &Sources, m: &OpenMessage) -> (r: (String, AliasSource))
    ensures
        r.0@ == alias_of(argv_view(sources.argv), text::maybe(sources.aliases), m@).0,
        r.1 == alias_of(argv_view(sources.argv), text::maybe(sources.aliases), m@).1,
{
    if let Some(argv) = &sources.argv {
        if let Some(dest) = destination(argv.as_slice()) {
            return (dest, AliasSource::SshArgv);
        }
    }
    if let Some(content) = &sources.aliases {
        if let Some(alias) = alias_lookup(content.as_str(), m.request.hostname.as_str()) {
            return (alias, AliasSource::AliasesFile);
        }
    }
    if let Some(auth) = connection_alias(m.user.as_str(), m.ssh_connection.as_str()) {
        return (auth, AliasSource::SshConnection);
    }
    (trim_end_char(m.request.hostname.as_str(), '.'), AliasSource::RemoteHostname)
}

// ---- open requests ----

/// A request's action in words.
pub open spec fn described(action: ActionView) -> Seq<char> {
    match action {
        ActionView::Open { kind, path, line, col } => "open "@ + kind.name() + " "@
            + launch::positioned(path, line, col),
        ActionView::Diff { left, right } => "diff "@ + left + " <-> "@ + right,
        ActionView::Url { url, proxy } => (if proxy {
            "open tunneled url "@
        } else {
            "open url "@
        }) + url,
    }
}

/// A request's action in words, for the log.
pub fn describe(action: &Action) -> (r: String)
    ensures
        r@ == described(action@),
{
    match action {
        Action::Open { kind, path, line, col } => {
            let target = launch::goto_target(path.as_str(), *line, *col);
            "open ".to_owned().concat(kind.as_str()).concat(" ").concat(target.as_str())
        },
        Action::Diff { left, right } => "diff ".to_owned().concat(left.as_str()).concat(
            " <-> ",
        ).concat(right.as_str()),
        Action::Url { url, proxy } => if *proxy {
            "open tunneled url ".to_owned().concat(url.as_str())
        } else {
            "open url ".to_owned().concat(url.as_str())
        },
    }
}

/// How an open request is carried out.
#[derive(Debug, Clone, PartialEq, Eq)]
pub enum OpenTask {
    /// Run the `code` CLI with these arguments, and, where asked, wait for it.
    Code { args: Vec<String>, wait: bool },
    /// Open the URL in the browser.
    Browse { url: String },
    /// Tunnel the port to the sender first, then open the URL.
    Tunnel { url: String, port: u16 },
}

/// An open request, ready to be carried out.
#[derive(Debug, Clone, PartialEq, Eq)]
pub struct OpenPlan {
    pub task: OpenTask,
    /// The sender's authority.
    pub alias: String,
    /// How it was found.
    pub how: AliasSource,
    /// What is logged.
    pub note: String,
}

/// `OpenTask` with its strings taken as characters.
pub enum OpenTaskView {
    Code { args: Seq<Seq<char>>, wait: bool },
    Browse { url: Seq<char> },
    Tunnel { url: Seq<char>, port: u16 },
}

/// `OpenPlan` with its strings taken as characters.
pub struct OpenPlanView {
    pub task: OpenTaskView,
    pub alias: Seq<char>,
    pub how: AliasSource,
    pub note: Seq<char>,
}

impl View for OpenTask {
    type V = OpenTaskView;

    open spec fn view(&self) -> OpenTaskView {
        match self {
            OpenTask::Code { args, wait } => OpenTaskView::Code {
                args: text::texts(args@),
                wait: *wait,
            },
            OpenTask::Browse { url } => OpenTaskView::Browse { url: url@ },
            OpenTask::Tunnel { url, port } => OpenTaskView::Tunnel { url: url@, port: *port },
        }
    }
}

impl View for OpenPlan {
    type V = OpenPlanView;

    open spec fn view(&self) -> OpenPlanView {
        OpenPlanView {
            task: self.task@,
            alias: self.alias@,
            how: self.how,
            note: self.note@,
        }
    }
}

/// What is said of a URL that is no web URL.
pub open spec fn not_web(url: Seq<char>) -> Seq<char> {
    "refusing to open "@ + text::debug_quoted(url) + ": only http and https URLs are opened"@
}

/// What is said of a URL that leads past the sending machine.
pub open spec fn not_loopback(url: Seq<char>) -> Seq<char> {
    "cannot tunnel to "@ + text::debug_quoted(url)
        + ": only loopback URLs (localhost, 127.0.0.1, [::1]) are tunneled"@
}

/// How the action is carried out for a sender with this authority, or why it
/// is refused.
pub open spec fn open_task(
    alias: Seq<char>,
    q: proto::OpenRequestView,
) -> Result<OpenTaskView, Seq<char>> {
    match q.action {
        ActionView::Url { url, proxy } => if !url::web(url) {
            Err(not_web(url))
        } else if !proxy {
            Ok(OpenTaskView::Browse { url })
        } else {
            match url::loopback_port_of(url) {
                Some(port) => Ok(OpenTaskView::Tunnel { url, port }),
                None => Err(not_loopback(url)),
            }
        },
        _ => Ok(
            OpenTaskView::Code {
                args: launch::code_command(alias, q.action, q.window, q.wait),
                wait: q.wait,
            },
        ),
    }
}

/// The task in words.
pub open spec fn task_words(task: OpenTaskView) -> Seq<char> {
    match task {
        OpenTaskView::Code { args, .. } => "code "@ + text::spaced(args),
        OpenTaskView::Browse { .. } => "browser"@,
        OpenTaskView::Tunnel { port, .. } => "browser, port "@ + text::decimal(port as nat),
    }
}

/// What is logged of an open request.
pub open spec fn open_note(
    q: proto::OpenRequestView,
    alias: Seq<char>,
    how: AliasSource,
    task: OpenTaskView,
) -> Seq<char> {
    described(q.action) + " from host '"@ + q.hostname + "' (alias '"@ + alias + "' via "@
        + how.words() + ") -> "@ + task_words(task)
}

/// How an open request is carried out, or why it is not.
pub open spec fn open_plan(
    data: Seq<u8>,
    argv: Option<Seq<Seq<char>>>,
    aliases: Option<Seq<char>>,
) -> Result<OpenPlanView, Seq<char>> {
    match proto::decoded_open(data) {
        Err(e) => Err("decoding open request: "@ + e.message()),
        Ok(m) => {
            let (alias, how) = alias_of(argv, aliases, m);
            match open_task(alias, m.request) {
                Err(e) => Err(e),
                Ok(task) => Ok(
                    OpenPlanView { task, alias, how, note: open_note(m.request, alias, how, task) },
                ),
            }
        },
    }
}

/// How the action is carried out for a sender with this authority.
fn plan_task(alias: &str, m: &OpenMessage) -> (r: Result<OpenTask, String>)
    ensures
        match open_task(alias@, m.request@) {
            Ok(task) => r is Ok && r->Ok_0@ == task,
            Err(e) => r is Err && r->Err_0@ == e,
        },
{
    match &m.request.action {
        Action::Url { url, proxy } => {
            let u = url.as_str();
            if !is_web(u) {
                return Err(
                    "refusing to open ".to_owned().concat(text::quoted(u).as_str()).concat(
                        ": only http and https URLs are opened",
                    ),
                );
            }
            if !*proxy {
                return Ok(OpenTask::Browse { url: u.to_owned() });
            }
            match loopback_port(u) {
                Some(port) => Ok(OpenTask::Tunnel { url: u.to_owned(), port }),
                None => Err(
                    "cannot tunnel to ".to_owned().concat(text::quoted(u).as_str()).concat(
                        ": only loopback URLs (localhost, 127.0.0.1, [::1]) are tunneled",
                    ),
                ),
            }
        },
        _ => {
            let args = code_args(alias, &m.request.action, m.request.window, m.request.wait);
            Ok(OpenTask::Code { args, wait: m.request.wait })
        },
    }
}

/// The task in words.
fn describe_task(task: &OpenTask) -> (r: String)
    ensures
        r@ == task_words(task@),
{
    match task {
        OpenTask::Code { args, .. } => "code ".to_owned().concat(
            join_spaced(args.as_slice()).as_str(),
        ),
        OpenTask::Browse { .. } => "browser".to_owned(),
        OpenTask::Tunnel { port, .. } => "browser, port ".to_owned().concat(
            decimal_text(*port as u64).as_str(),
        ),
    }
}

/// Reads an open request and decides how it is carried out: folders, files
/// and diffs by the `code` CLI, web URLs by the browser, tunneled URLs by the
/// browser behind a tunnel. The error is what the client is told.
pub fn handle_open(data: &[u8], sources: &Sources) -> (r: Result<OpenPlan, String>)
    ensures
        match open_plan(data@, argv_view(sources.argv), text::maybe(sources.aliases)) {
            Ok(plan) => r is Ok && r->Ok_0@ == plan,
            Err(e) => r is Err && r->Err_0@ == e,
        },
{
    let m = match OpenMessage::decode(data) {
        Ok(m) => m,
        Err(e) => {
            return Err("decoding open request: ".to_owned().concat(e.message().as_str()));
        },
    };
    let (alias, how) = resolve_alias(sources, &m);
    let task = match plan_task(alias.as_str(), &m) {
        Ok(task) => task,
        Err(e) => {
            return Err(e);
        },
    };
    let note = describe(&m.request.action).concat(" from host '").concat(
        m.request.hostname.as_str(),
    ).concat("' (alias '").concat(alias.as_str()).concat("' via ").concat(how.as_str()).concat(
        ") -> ",
    ).concat(describe_task(&task).as_str());
    Ok(OpenPlan { task, alias, how, note })
}

/// What is logged when a request fails.
pub open spec fn failure_words(what: Seq<char>, error: Seq<char>) -> Seq<char> {
    what + " failed: "@ + error
}

/// What is logged when a request fails.
pub fn failure_note(what: &str, error: &str) -> (r: String)
    ensures
        r@ == failure_words(what@, error@),
{
    what.to_owned().concat(" failed: ").concat(error)
}

/// What the client is told when a request has been carried out, or why it has
/// not been.
pub open spec fn outcome_msg(failure: Option<Seq<char>>) -> Seq<u8> {
    match failure {
        None => seq![proto::SSH_AGENT_SUCCESS],
        Some(e) => proto::extension_failure_msg(e),
    }
}

/// What the client is told when a request has been carried out, or not.
pub fn outcome_reply(outcome: &Result<(), String>) -> (r: Vec<u8>)
    ensures
        r@ == outcome_msg(
            match *outcome {
                Ok(()) => None,
                Err(e) => Some(e@),
            },
        ),
{
    match outcome {
        Ok(()) => proto::success_frame(),
        Err(e) => proto::extension_failure(e.as_str()),
    }
}

/// Nothing but http and https URLs reaches the browser, and nothing but the
/// sender's own ports is tunneled to.
pub proof fn law_only_web_urls(
    data: Seq<u8>,
    argv: Option<Seq<Seq<char>>>,
    aliases: Option<Seq<char>>,
)
    ensures
        match open_plan(data, argv, aliases) {
            Ok(plan) => match plan.task {
                OpenTaskView::Browse { url } => url::web(url),
                OpenTaskView::Tunnel { url, port } => url::web(url) && url::loopback_port_of(url)
                    == Some(port),
                OpenTaskView::Code { .. } => true,
            },
            Err(_) => true,
        },
{
    if let Ok(m) = proto::decoded_open(data) {
        if let ActionView::Url { url, .. } = m.request.action {
            url::law_loopback_is_web(url);
        }
    }
}

/// What a remote sends is what is opened: an encoded file, folder or diff
/// becomes the `code` command line for the sender's authority, an encoded URL
/// is browsed, tunneled or refused.
pub proof fn law_open_carried_out(
    m: OpenMessageView,
    argv: Option<Seq<Seq<char>>>,
    aliases: Option<Seq<char>>,
)
    requires
        m.fits(),
    ensures
        match open_task(alias_of(argv, aliases, m).0, m.request) {
            Ok(task) => open_plan(m.encoded(), argv, aliases) matches Ok(plan) && plan.task == task
                && plan.alias == alias_of(argv, aliases, m).0 && plan.how == alias_of(
                argv,
                aliases,
                m,
            ).1,
            Err(e) => open_plan(m.encoded(), argv, aliases) == Err::<OpenPlanView, Seq<char>>(e),
        },
        !(m.request.action is Url) ==> open_task(alias_of(argv, aliases, m).0, m.request) == Ok::<
            OpenTaskView,
            Seq<char>,
        >(
            OpenTaskView::Code {
                args: launch::code_command(
                    alias_of(argv, aliases, m).0,
                    m.request.action,
                    m.request.window,
                    m.request.wait,
                ),
                wait: m.request.wait,
            },
        ),
{
    proto::law_open_message_round_trip(m);
}

// ---- transfers ----

/// Data for the clipboard, ready to be set.
#[derive(Debug, Clone, PartialEq, Eq)]
pub struct CopyPlan {
    pub kind: String,
    pub data: Vec<u8>,
    /// What is logged.
    pub note: String,
}

/// `CopyPlan` by its contents.
pub struct CopyPlanView {
    pub kind: Seq<char>,
    pub data: Seq<u8>,
    pub note: Seq<char>,
}

impl View for CopyPlan {
    type V = CopyPlanView;

    open spec fn view(&self) -> CopyPlanView {
        CopyPlanView { kind: self.kind@, data: self.data@, note: self.note@ }
    }
}

/// What a copy request puts on the clipboard, or what its client is told.
pub open spec fn copy_plan(data: Seq<u8>) -> Result<CopyPlanView, Seq<char>> {
    match messages::take_transfer(data) {
        Ok((kind, hostname, bytes)) => Ok(
            CopyPlanView {
                kind,
                data: bytes,
                note: "copy "@ + kind + " ("@ + text::decimal(bytes.len()) + " bytes) from host '"@
                    + hostname + "'"@,
            },
        ),
        Err(e) => Err("decoding copy request: "@ + e.message()),
    }
}

/// Reads a copy request; the error is what the client is told.
pub fn handle_copy(data: &[u8]) -> (r: Result<CopyPlan, String>)
    ensures
        match copy_plan(data@) {
            Ok(plan) => r is Ok && r->Ok_0@ == plan,
            Err(e) => r is Err && r->Err_0@ == e,
        },
{
    match CopyRequest::decode(data) {
        Ok(q) => {
            let note = "copy ".to_owned().concat(q.kind.as_str()).concat(" (").concat(
                decimal_text(q.data.len() as u64).as_str(),
            ).concat(" bytes) from host '").concat(q.hostname.as_str()).concat("'");
            Ok(CopyPlan { kind: q.kind, data: q.data, note })
        },
        Err(e) => Err("decoding copy request: ".to_owned().concat(e.message().as_str())),
    }
}

// ---- what the daemon promises ----

/// A running daemon is replaced only on demand and otherwise left alone; what
/// is left of a dead one is removed; and where there is none, one is started.
pub proof fn law_startup(pid: u32, replace: bool)
    ensures
        startup(Existing::Alive(pid), true) is Replace,
        text::contains(startup(Existing::Alive(pid), true)->Replace_note, text::decimal(pid as nat)),
        startup(Existing::Alive(pid), false) == StartupView::AlreadyRunning,
        startup(Existing::Stale, replace) is RemoveStale,
        startup(Existing::Absent, replace) == StartupView::Start,
{
    let note = startup(Existing::Alive(pid), true)->Replace_note;
    let at = "replacing running daemon (pid "@.len() as int;
    let n = text::decimal(pid as nat);
    assert(note.subrange(at, at + n.len()) =~= n);
    assert(text::stands_at(note, at, n));
}

/// A socket is a daemon's exactly when it is there and a ping comes back; a
/// socket that anything else answers, or nothing, is nobody's.
pub proof fn law_existing(exists: bool, answer: Option<Seq<u8>>)
    ensures
        existing_at(exists, answer) == Existing::Absent <==> !exists,
        exists && answer is None ==> existing_at(exists, answer) == Existing::Stale,
        exists ==> (answer matches Some(a) ==> match proto::decoded_ping(a) {
            Some(p) => existing_at(exists, answer) == Existing::Alive(p.pid),
            None => existing_at(exists, answer) == Existing::Stale,
        }),
{
}

/// The old daemon's socket is waited for while it may still go and removed
/// once it was looked for forty times.
pub proof fn law_shutdown_patience(looks: u32)
    ensures
        looks < 40 ==> shutdown_step(looks, true) == ShutdownStep::Pause,
        looks < 40 ==> shutdown_step(looks, false) == ShutdownStep::Gone,
        looks >= 40 ==> shutdown_step(looks, true) == ShutdownStep::Remove && shutdown_step(
            looks,
            false,
        ) == ShutdownStep::Remove,
{
}

/// The agent that was there when the daemon started is the one requests are
/// passed on to, as its path was given, unless it is the daemon's own socket
/// by its name or by what it resolves to.
pub proof fn law_upstream_kept(
    auth: Seq<u8>,
    ours: Seq<u8>,
    resolved_auth: Option<Seq<u8>>,
    resolved_ours: Option<Seq<u8>>,
)
    ensures
        upstream_of(None, ours, resolved_auth, resolved_ours) is None,
        upstream_of(Some(auth), ours, resolved_auth, resolved_ours) matches Some(p) ==> p == auth,
        path::path_eq(auth, ours) ==> upstream_of(Some(auth), ours, resolved_auth, resolved_ours)
            is None,
        resolved_auth is Some && resolved_auth == resolved_ours ==> upstream_of(
            Some(auth),
            ours,
            resolved_auth,
            resolved_ours,
        ) is None,
        !path::path_eq(auth, ours) && (resolved_auth is None || resolved_ours is None) ==> upstream_of(
            Some(auth),
            ours,
            resolved_auth,
            resolved_ours,
        ) == Some(auth),
        !path::path_eq(auth, ours) && resolved_auth is Some && resolved_ours is Some
            && !path::path_eq(resolved_auth->0, resolved_ours->0) ==> upstream_of(
            Some(auth),
            ours,
            resolved_auth,
            resolved_ours,
        ) == Some(auth),
{
}

/// Whose connection it is decides alone who is admitted: one's own, and one
/// that the system does not tell; of a stranger the log names the user.
pub proof fn law_admission(uid: u32, pid: i32, my_uid: u32)
    ensures
        admitted(None, my_uid),
        admitted(Some(PeerInfo { uid, pid }), my_uid) <==> uid == my_uid,
        text::contains(rejection(PeerInfo { uid, pid }), text::decimal(uid as nat)),
{
    let note = rejection(PeerInfo { uid, pid });
    let at = "rejecting connection from uid "@.len() as int;
    let n = text::decimal(uid as nat);
    assert(note.subrange(at, at + n.len()) =~= n);
    assert(text::stands_at(note, at, n));
}

/// The end of a connection ends it, well or badly as it came.
pub proof fn law_ends_are_ends(
    me: proto::PingReplyView,
    peer: Option<PeerInfo>,
    my_uid: u32,
    error: Seq<char>,
)
    requires
        admitted(peer, my_uid),
    ensures
        client_step(ClientEventView::Closed, me, peer, my_uid) == ClientStepView::Done(Ok(())),
        client_step(ClientEventView::Failed { error }, me, peer, my_uid) == ClientStepView::Done(
            Err(error),
        ),
{
}

proof fn lemma_extension_named(name: Seq<char>, data: Seq<u8>)
    requires
        name == EXT_SHUTDOWN@ || name == EXT_COPY@ || name == EXT_OPENFILE@ || name == EXT_TUNNELS@
            || name == EXT_PROXY_STOP@ || name == EXT_PULL@,
    ensures
        proto::parsed_extension(proto::extension_msg(name, data)) == Some((name, data)),
{
    reveal_strlit("shutdown@backchannel");
    reveal_strlit("copy@backchannel");
    reveal_strlit("openfile@backchannel");
    reveal_strlit("tunnels@backchannel");
    reveal_strlit("proxy-stop@backchannel");
    reveal_strlit("pull@backchannel");
    vstd::utf8::is_ascii_chars_encode_utf8(name);
    proto::law_extension_round_trip(name, data);
}

/// Our names differ from one another.
proof fn lemma_names_differ()
    ensures
        EXT_SHUTDOWN@ != EXT_PING@,
        EXT_COPY@[0] == 'c',
        EXT_TUNNELS@[0] == 't',
        EXT_SHUTDOWN@[0] == 's',
        EXT_OPEN@[0] == 'o' && EXT_OPEN@[4] == '@',
        EXT_OPENFILE@[0] == 'o' && EXT_OPENFILE@[4] == 'f',
        EXT_PING@[0] == 'p' && EXT_PING@[1] == 'i',
        EXT_PROXY_STOP@[0] == 'p' && EXT_PROXY_STOP@[1] == 'r',
        EXT_PULL@[0] == 'p' && EXT_PULL@[1] == 'u',
{
    reveal_strlit("ping@backchannel");
    reveal_strlit("shutdown@backchannel");
    reveal_strlit("open@backchannel");
    reveal_strlit("copy@backchannel");
    reveal_strlit("openfile@backchannel");
    reveal_strlit("tunnels@backchannel");
    reveal_strlit("proxy-stop@backchannel");
    reveal_strlit("pull@backchannel");
    assert(EXT_SHUTDOWN@[0] != EXT_PING@[0]);
}

proof fn lemma_shutdown_reaches(data: Seq<u8>, me: proto::PingReplyView, peer: Option<PeerInfo>)
    ensures
        route(proto::extension_msg(EXT_SHUTDOWN@, data), me, peer) is Exit,
{
    lemma_names_differ();
    lemma_extension_named(EXT_SHUTDOWN@, data);
}

proof fn lemma_copy_reaches(data: Seq<u8>, me: proto::PingReplyView, peer: Option<PeerInfo>)
    ensures
        route(proto::extension_msg(EXT_COPY@, data), me, peer) == ClientStepView::Copy(data),
{
    lemma_names_differ();
    lemma_extension_named(EXT_COPY@, data);
}

proof fn lemma_openfile_reaches(data: Seq<u8>, me: proto::PingReplyView, peer: Option<PeerInfo>)
    ensures
        route(proto::extension_msg(EXT_OPENFILE@, data), me, peer) == ClientStepView::OpenFile(data),
{
    lemma_names_differ();
    lemma_extension_named(EXT_OPENFILE@, data);
}

proof fn lemma_tunnels_reaches(data: Seq<u8>, me: proto::PingReplyView, peer: Option<PeerInfo>)
    ensures
        route(proto::extension_msg(EXT_TUNNELS@, data), me, peer) == ClientStepView::Tunnels,
{
    lemma_names_differ();
    lemma_extension_named(EXT_TUNNELS@, data);
}

proof fn lemma_proxy_stop_reaches(data: Seq<u8>, me: proto::PingReplyView, peer: Option<PeerInfo>)
    ensures
        route(proto::extension_msg(EXT_PROXY_STOP@, data), me, peer) == ClientStepView::ProxyStop(data),
{
    lemma_names_differ();
    lemma_extension_named(EXT_PROXY_STOP@, data);
}

proof fn lemma_pull_reaches(data: Seq<u8>, me: proto::PingReplyView, peer: Option<PeerInfo>)
    ensures
        route(proto::extension_msg(EXT_PULL@, data), me, peer) == ClientStepView::Pull(data),
{
    lemma_names_differ();
    lemma_extension_named(EXT_PULL@, data);
}

/// Every request of ours reaches the part of the daemon that it is for, with
/// its data as sent.
pub proof fn law_requests_delivered(
    data: Seq<u8>,
    me: proto::PingReplyView,
    peer: Option<PeerInfo>,
)
    ensures
        route(proto::extension_msg("shutdown@backchannel"@, data), me, peer) is Exit,
        route(proto::extension_msg("copy@backchannel"@, data), me, peer) == ClientStepView::Copy(
            data,
        ),
        route(proto::extension_msg("openfile@backchannel"@, data), me, peer)
            == ClientStepView::OpenFile(data),
        route(proto::extension_msg("tunnels@backchannel"@, data), me, peer)
            == ClientStepView::Tunnels,
        route(proto::extension_msg("proxy-stop@backchannel"@, data), me, peer)
            == ClientStepView::ProxyStop(data),
        route(proto::extension_msg("pull@backchannel"@, data), me, peer) == ClientStepView::Pull(
            data,
        ),
{
    lemma_shutdown_reaches(data, me, peer);
    lemma_copy_reaches(data, me, peer);
    lemma_openfile_reaches(data, me, peer);
    lemma_tunnels_reaches(data, me, peer);
    lemma_proxy_stop_reaches(data, me, peer);
    lemma_pull_reaches(data, me, peer);
}

/// Nothing but what ends in `@backchannel` is taken from the agent's
/// traffic.
pub proof fn law_only_ours_is_taken(msg: Seq<u8>, me: proto::PingReplyView, peer: Option<PeerInfo>)
    ensures
        !(route(msg, me, peer) is Relay) ==> (proto::parsed_extension(msg) matches Some((name, _))
            && name.len() >= 12 && name.skip(name.len() - 12) == "@backchannel"@),
        route(msg, me, peer) matches ClientStepView::Relay(m) ==> m == msg,
{
    reveal_strlit("@backchannel");
    reveal_strlit("ping@backchannel");
    reveal_strlit("shutdown@backchannel");
    reveal_strlit("open@backchannel");
    reveal_strlit("copy@backchannel");
    reveal_strlit("openfile@backchannel");
    reveal_strlit("tunnels@backchannel");
    reveal_strlit("proxy-stop@backchannel");
    reveal_strlit("pull@backchannel");
    if !(route(msg, me, peer) is Relay) {
        let (name, _) = proto::parsed_extension(msg)->0;
        assert(name.skip(name.len() - 12) =~= "@backchannel"@);
    }
}

/// With an agent a message is tried at once; the loss of the agent is told to
/// the log with its path or its error, and the client's connection to it is
/// given up, whereas an agent that answers is kept.
pub proof fn law_agent_lost(upstream: Seq<u8>, error: Seq<char>)
    ensures
        relay_begins(Some(upstream)) == RelayStepView::Try,
        relay_step(Some(upstream), false, None) == RelayStepView::Try,
        relay_step(None, false, None) is Answer,
        relay_step(Some(upstream), true, Some(AgentAttemptView::Broken { error })) == relay_goes_on(
            upstream,
            true,
            AgentAttemptView::Broken { error },
        ),
        relay_goes_on(upstream, true, AgentAttemptView::Broken { error }) matches
            RelayStepView::Answer { reply, note: Some(note), hang_up } && hang_up && reply.len() == 1
            && reply[0] == 5 && text::contains(note, error),
        relay_goes_on(upstream, true, AgentAttemptView::Unreachable { error }) matches
            RelayStepView::Answer { reply, note: Some(note), hang_up } && hang_up && reply.len() == 1
            && reply[0] == 5 && text::contains(note, text::text_of(upstream)) && text::contains(
            note,
            error,
        ),
        relay_goes_on(upstream, false, AgentAttemptView::Unreachable { error }) == relay_goes_on(
            upstream,
            true,
            AgentAttemptView::Unreachable { error },
        ),
{
    let broken = "agent passthrough failed: "@ + error;
    let at = "agent passthrough failed: "@.len() as int;
    assert(broken.subrange(at, at + error.len()) =~= error);
    assert(text::stands_at(broken, at, error));
    let up = text::text_of(upstream);
    let lost = "cannot reach agent "@ + up + ": "@ + error;
    let a = "cannot reach agent "@.len() as int;
    assert(lost.subrange(a, a + up.len()) =~= up);
    assert(text::stands_at(lost, a, up));
    let b = (a + up.len() + ": "@.len()) as int;
    assert(lost.subrange(b, b + error.len()) =~= error);
    assert(text::stands_at(lost, b, error));
}

/// The best source there is names the sender, and the name is passed on as it
/// stands there: what the user typed to ssh, else what the aliases file says,
/// else the connection the sender reports, else its host name without the
/// dots at its end.
pub proof fn law_best_source_names_the_sender(
    argv: Option<Seq<Seq<char>>>,
    aliases: Option<Seq<char>>,
    m: OpenMessageView,
)
    ensures
        argv matches Some(a) ==> (ssh_argv::destination_of(a) matches Some(d) ==> alias_of(
            argv,
            aliases,
            m,
        ) == (d, AliasSource::SshArgv)),
        ({
            let typed = argv is Some && ssh_argv::destination_of(argv->0) is Some;
            let listed = aliases is Some && listed_alias(aliases->0, m.request.hostname) is Some;
            let connected = connection_authority(m.user, m.ssh_connection) is Some;
            let (alias, how) = alias_of(argv, aliases, m);
            &&& how == AliasSource::SshArgv <==> typed
            &&& how == AliasSource::AliasesFile <==> !typed && listed
            &&& how == AliasSource::SshConnection <==> !typed && !listed && connected
            &&& how == AliasSource::RemoteHostname <==> !typed && !listed && !connected
            &&& !typed && listed ==> listed_alias(aliases->0, m.request.hostname) == Some(alias)
            &&& !typed && !listed && connected ==> connection_authority(m.user, m.ssh_connection)
                == Some(alias)
            &&& !typed && !listed && !connected ==> {
                &&& text::starts_with(m.request.hostname, alias)
                &&& alias.len() > 0 ==> alias.last() != '.'
                &&& forall|i: int|
                    alias.len() <= i < m.request.hostname.len() ==> #[trigger] m.request.hostname[i]
                        == '.'
            }
        }),
{
    let host = m.request.hostname;
    text::law_without_trailing(host, '.');
    let r = text::without_trailing(host, '.');
    assert(host.subrange(0, r.len() as int) =~= host.take(r.len() as int));
}

/// Whoever is reached by `ssh` and a destination is called by that
/// destination, user and all, whatever the sender says of itself.
pub proof fn law_called_as_typed(d: Seq<char>, aliases: Option<Seq<char>>, m: OpenMessageView)
    requires
        d.len() > 0,
        !d.contains('/'),
        d[0] != '-',
    ensures
        alias_of(Some(seq!["ssh"@, d]), aliases, m) == (d, AliasSource::SshArgv),
{
    ssh_argv::law_ssh_itself(seq!["ssh"@, d]);
    ssh_argv::law_destination_as_typed("ssh"@, d);
}

/// A text without white space in it, and not empty.
pub open spec fn one_word(s: Seq<char>) -> bool {
    s.len() > 0 && forall|i: int| 0 <= i < s.len() ==> !text::is_space(#[trigger] s[i])
}

proof fn lemma_two_words(a: Seq<char>, c: char, b: Seq<char>)
    requires
        one_word(a),
        one_word(b),
        text::is_space(c),
    ensures
        text::words(a.push(c) + b) == seq![a, b],
{
    text::law_words(a, c, b);
    text::law_words(b, c, a);
    assert(seq![a] + seq![b] =~= seq![a, b]);
}

proof fn lemma_row_begins(row: Seq<char>)
    requires
        row.len() > 0,
        !text::is_space(row[0]),
    ensures
        text::trimmed(row).len() > 0,
        text::trimmed(row)[0] == row[0],
{
    text::law_trimmed(row);
    let t = text::trimmed(row);
    let i = choose|i: int|
        {
            &&& 0 <= i <= i + t.len() <= row.len()
            &&& t == #[trigger] row.subrange(i, i + t.len())
            &&& forall|j: int|
                (0 <= j < i || i + t.len() <= j < row.len()) ==> text::is_space(#[trigger] row[j])
        };
    assert(i == 0 && t.len() > 0);
}

/// A row of the aliases file that holds a host and an alias gives that alias
/// to the host of that name, and to every host whose name goes on behind a
/// dot, and to no other.
pub proof fn law_row_of_a_host(
    host: Seq<char>,
    c: char,
    alias: Seq<char>,
    more: Seq<char>,
    domain: Seq<char>,
    other: Seq<char>,
)
    requires
        one_word(host),
        one_word(alias),
        host[0] != '#',
        text::is_space(c),
    ensures
        row_alias(host.push(c) + alias, host) == Some(alias),
        row_alias((host.push(c) + alias).push(c) + more, host) == Some(alias),
        !host.contains('.') ==> row_alias(host.push(c) + alias, host + seq!['.'] + domain) == Some(
            alias,
        ),
        other != host && !text::starts_with(other, host.push('.')) ==> row_alias(
            host.push(c) + alias,
            other,
        ) is None,
{
    let row = host.push(c) + alias;
    lemma_two_words(host, c, alias);
    assert(row[0] == host[0]);
    lemma_row_begins(row);
    text::law_words_of_trimmed(row);
    let longer = row.push(c) + more;
    assert(longer[0] == host[0]);
    lemma_row_begins(longer);
    text::law_words_of_trimmed(longer);
    text::law_words(row, c, more);
    let ws = seq![host, alias] + text::words(more);
    assert(ws[0] == host && ws[1] == alias);
    let long = host + seq!['.'] + domain;
    if !host.contains('.') {
        text::lemma_until(long, '.');
        let n = text::until(long, '.').len() as int;
        assert(long[host.len() as int] == '.');
        if n < host.len() {
            assert(host.contains(host[n]));
            assert(long[n] == host[n]);
        }
        assert(long.take(host.len() as int) =~= host);
    }
    text::lemma_until(other, '.');
    let n = text::until(other, '.').len() as int;
    if text::until(other, '.') == host && other != host {
        if n < other.len() {
            assert(other.subrange(0, n + 1) =~= host.push('.'));
        } else {
            assert(other.take(n) =~= other);
        }
    }
}

/// Comments and blank rows give no alias, and blanks in front of a row change
/// nothing.
pub proof fn law_rows_without_alias(row: Seq<char>, c: char, hostname: Seq<char>)
    ensures
        row_alias(seq!['#'] + row, hostname) is None,
        row_alias(Seq::empty(), hostname) is None,
        text::is_space(c) ==> row_alias(seq![c] + row, hostname) == row_alias(row, hostname),
{
    let s = seq!['#'] + row;
    text::law_spaces('#');
    assert(s[0] == '#');
    lemma_row_begins(s);
    assert((seq![c] + row).skip(1) =~= row);
}

/// The rows of the aliases file are asked in their order, and the first that
/// gives the host an alias decides.
pub proof fn law_first_row_decides(a: Seq<char>, b: Seq<char>, hostname: Seq<char>)
    ensures
        listed_alias(a.push('\n') + b, hostname) == match listed_alias(a, hostname) {
            Some(alias) => Some(alias),
            None => listed_alias(b, hostname),
        },
        !a.contains('\n') ==> listed_alias(a, hostname) == row_alias(a, hostname),
{
    text::law_rows(a, b);
    lemma_rows_alias_joined(text::rows(a), text::rows(b), hostname);
    if !a.contains('\n') {
        let one = seq![a];
        assert(one.skip(1) =~= Seq::empty());
        assert(rows_alias(one.skip(1), hostname) is None);
    }
}

proof fn lemma_rows_alias_joined(a: Seq<Seq<char>>, b: Seq<Seq<char>>, hostname: Seq<char>)
    ensures
        rows_alias(a + b, hostname) == match rows_alias(a, hostname) {
            Some(alias) => Some(alias),
            None => rows_alias(b, hostname),
        },
    decreases a.len(),
{
    if a.len() == 0 {
        assert(a + b =~= b);
    } else {
        assert((a + b)[0] == a[0]);
        assert((a + b).skip(1) =~= a.skip(1) + b);
        lemma_rows_alias_joined(a.skip(1), b, hostname);
    }
}

/// A connection tells by its third field where the sender is reached: the
/// address its session came in on, with the sender's user in front where it
/// is known. One with fewer fields tells nothing.
pub proof fn law_connection_fields(
    user: Seq<char>,
    client: Seq<char>,
    client_port: Seq<char>,
    server: Seq<char>,
    rest: Seq<char>,
)
    requires
        one_word(client),
        one_word(client_port),
        one_word(server),
    ensures
        ({
            let front = client.push(' ') + client_port;
            let named = if user.len() == 0 {
                server
            } else {
                user + seq!['@'] + server
            };
            &&& connection_authority(user, front.push(' ') + (server.push(' ') + rest)) == Some(
                named,
            )
            &&& connection_authority(user, front.push(' ') + server) == Some(named)
            &&& connection_authority(user, front) is None
            &&& connection_authority(user, Seq::empty()) is None
        }),
{
    reveal_strlit("@");
    assert("@"@ =~= seq!['@']);
    lemma_two_words(client, ' ', client_port);
    let front = client.push(' ') + client_port;
    let back = server.push(' ') + rest;
    text::law_words(server, ' ', rest);
    text::law_words(front, ' ', back);
    text::law_words(front, ' ', server);
    assert((seq![client, client_port] + (seq![server] + text::words(rest)))[2] == server);
    assert((seq![client, client_port] + seq![server])[2] == server);
    text::law_words(Seq::empty(), ' ', back);
}

/// A URL that may be opened is opened as it was sent, in the browser or
/// behind a tunnel to the port it names, as was asked; how the sender is
/// called, the window and waiting have no part in it.
pub proof fn law_urls_opened_as_sent(alias: Seq<char>, q: proto::OpenRequestView, url: Seq<char>)
    requires
        url::web(url),
    ensures
        q.action == (ActionView::Url { url, proxy: false }) ==> open_task(alias, q) == Ok::<
            OpenTaskView,
            Seq<char>,
        >(OpenTaskView::Browse { url }),
        q.action == (ActionView::Url { url, proxy: true }) ==> match url::loopback_port_of(url) {
            Some(port) => open_task(alias, q) == Ok::<OpenTaskView, Seq<char>>(
                OpenTaskView::Tunnel { url, port },
            ),
            None => open_task(alias, q) is Err,
        },
{
}

/// A request with another URL is refused, and so is nothing else but a
/// tunnel to another machine.
pub proof fn law_refused_tasks(alias: Seq<char>, q: proto::OpenRequestView)
    ensures
        open_task(alias, q) is Err <==> (q.action matches ActionView::Url { url, proxy } && (
        !url::web(url) || (proxy && url::loopback_port_of(url) is None))),
        open_task(alias, q) matches Ok(OpenTaskView::Code { args, wait }) ==> wait == q.wait && args
            == launch::code_command(alias, q.action, q.window, q.wait),
{
}

/// What the log says of a request names the host it came from, the name the
/// sender is called by and what was asked.
pub proof fn law_open_note(
    q: proto::OpenRequestView,
    alias: Seq<char>,
    how: AliasSource,
    task: OpenTaskView,
)
    ensures
        text::starts_with(open_note(q, alias, how, task), described(q.action)),
        text::contains(open_note(q, alias, how, task), q.hostname),
        text::contains(open_note(q, alias, how, task), alias),
        q.action matches ActionView::Open { path, .. } ==> text::contains(described(q.action), path),
        q.action matches ActionView::Url { url, .. } ==> text::contains(described(q.action), url),
        q.action matches ActionView::Diff { left, right } ==> text::contains(
            described(q.action),
            left,
        ) && text::contains(described(q.action), right),
{
    let note = open_note(q, alias, how, task);
    let d = described(q.action);
    assert(note.subrange(0, d.len() as int) =~= d);
    let h = (d.len() + " from host '"@.len()) as int;
    assert(note.subrange(h, h + q.hostname.len()) =~= q.hostname);
    assert(text::stands_at(note, h, q.hostname));
    let a = (h + q.hostname.len() + "' (alias '"@.len()) as int;
    assert(note.subrange(a, a + alias.len()) =~= alias);
    assert(text::stands_at(note, a, alias));
    lemma_described(q.action);
}

proof fn lemma_described(action: ActionView)
    ensures
        action matches ActionView::Open { path, .. } ==> text::contains(described(action), path),
        action matches ActionView::Url { url, .. } ==> text::contains(described(action), url),
        action matches ActionView::Diff { left, right } ==> text::contains(described(action), left)
            && text::contains(described(action), right),
{
    let d = described(action);
    match action {
        ActionView::Open { kind, path, line, col } => {
            let at = ("open "@.len() + kind.name().len() + " "@.len()) as int;
            assert(d.subrange(at, at + path.len()) =~= path);
            assert(text::stands_at(d, at, path));
        },
        ActionView::Url { url, proxy } => {
            let at = d.len() - url.len();
            assert(d.subrange(at, at + url.len()) =~= url);
            assert(text::stands_at(d, at, url));
        },
        ActionView::Diff { left, right } => {
            let at = "diff "@.len() as int;
            assert(d.subrange(at, at + left.len()) =~= left);
            assert(text::stands_at(d, at, left));
            let to = d.len() - right.len();
            assert(d.subrange(to, to + right.len()) =~= right);
            assert(text::stands_at(d, to, right));
        },
    }
}

/// The client hears what became of its request: success where it was carried
/// out, else the very words of the failure.
pub proof fn law_outcome_told(e: Seq<char>)
    requires
        proto::fits(e),
    ensures
        open::reply_result(outcome_msg(None)) == Ok::<Seq<u8>, Seq<char>>(Seq::empty()),
        open::reply_result(outcome_msg(Some(e))) == Err::<Seq<u8>, Seq<char>>("daemon error: "@ + e),
{
    assert(outcome_msg(None).skip(1) =~= Seq::<u8>::empty());
    open::law_refusal_told(e);
}

/// What a client copies is what the clipboard gets: the data byte for byte,
/// as the kind it was sent as; and what is no copy request is refused.
pub proof fn law_copied_as_sent(kind: Seq<char>, hostname: Seq<char>, data: Seq<u8>)
    requires
        proto::fits(kind),
        proto::fits(hostname),
    ensures
        copy_plan(messages::transfer_wire(kind, hostname, data)) matches Ok(plan) && plan.kind
            == kind && plan.data == data,
        messages::take_transfer(data) is Err ==> copy_plan(data) is Err,
{
    messages::law_transfer_round_trip(kind, hostname, data);
}

/// The agent behind the daemon is shown by its path.
pub proof fn law_upstream_shown(path: Seq<char>)
    ensures
        upstream_shown(Some(vstd::utf8::encode_utf8(path))) == path,
        upstream_shown(None) == "none"@,
{
    text::lemma_text_of_utf8(path);
}

/// The log names what failed and why, and of a daemon that has started its
/// process, its socket and the agent behind it.
pub proof fn law_log_words(
    what: Seq<char>,
    error: Seq<char>,
    me: proto::PingReplyView,
    socket: Seq<u8>,
)
    ensures
        text::starts_with(failure_words(what, error), what),
        text::contains(failure_words(what, error), error),
        text::contains(started_words(me, socket), text::decimal(me.pid as nat)),
        text::contains(started_words(me, socket), text::text_of(socket)),
        text::contains(started_words(me, socket), me.upstream),
{
    text::lemma_contained(what + " failed: "@, error, Seq::empty());
    text::lemma_prefixed(what, " failed: "@ + error);
    assert(what + (" failed: "@ + error) =~= failure_words(what, error));
    let pid = text::decimal(me.pid as nat);
    let shown = text::text_of(socket);
    let front = "daemon started (pid "@ + pid + ", version "@ + me.version + ", socket "@;
    let back = ", upstream agent: "@ + me.upstream + ")"@;
    let words = started_words(me, socket);
    text::lemma_contained(
        "daemon started (pid "@,
        pid,
        ", version "@ + me.version + ", socket "@ + shown + back,
    );
    assert("daemon started (pid "@ + pid + (", version "@ + me.version + ", socket "@ + shown
        + back) =~= words);
    text::lemma_contained(front, shown, back);
    assert(front + shown + back =~= words);
    text::lemma_contained(front + shown + ", upstream agent: "@, me.upstream, ")"@);
}

/// The words for where a name was found.
pub proof fn law_source_words()
    ensures
        AliasSource::SshArgv.words() == "ssh argv"@,
        AliasSource::AliasesFile.words() == "aliases file"@,
        AliasSource::SshConnection.words() == "SSH_CONNECTION"@,
        AliasSource::RemoteHostname.words() == "remote hostname"@,
{
}

/// What the log says of a shutdown names the process that asked for it, and
/// what a client is told of a URL that is refused holds the URL.
pub proof fn law_refusals_name_their_subject(
    url: Seq<char>,
    pid: i32,
    uid: u32,
    data: Seq<u8>,
    me: proto::PingReplyView,
)
    ensures
        text::contains(not_web(url), text::debug_quoted(url)),
        text::contains(not_loopback(url), text::debug_quoted(url)),
        route(
            proto::extension_msg("shutdown@backchannel"@, data),
            me,
            Some(PeerInfo { pid, uid }),
        ) matches ClientStepView::Exit { note } && text::contains(
            note,
            text::signed_decimal(pid as int),
        ),
        text::contains(rejection(PeerInfo { pid, uid }), text::signed_decimal(pid as int)),
{
    let q = text::debug_quoted(url);
    text::lemma_contained("refusing to open "@, q, ": only http and https URLs are opened"@);
    text::lemma_contained(
        "cannot tunnel to "@,
        q,
        ": only loopback URLs (localhost, 127.0.0.1, [::1]) are tunneled"@,
    );
    let n = text::signed_decimal(pid as int);
    lemma_shutdown_note(data, me, Some(PeerInfo { pid, uid }));
    text::lemma_contained("shutdown requested by pid "@, n, Seq::empty());
    let front = "rejecting connection from uid "@ + text::decimal(uid as nat) + " (pid "@;
    text::lemma_contained(front, n, ")"@);
}

proof fn lemma_shutdown_note(data: Seq<u8>, me: proto::PingReplyView, peer: Option<PeerInfo>)
    ensures
        route(proto::extension_msg(EXT_SHUTDOWN@, data), me, peer) == (ClientStepView::Exit {
            note: "shutdown requested by pid "@ + asker(peer),
        }),
{
    lemma_names_differ();
    lemma_extension_named(EXT_SHUTDOWN@, data);
}

}
