//! `back status`: one command that makes sense on either machine — reports
//! the local daemon (if any) and what this shell's SSH_AUTH_SOCK actually
//! reaches.

use vstd::prelude::*;

use crate::daemon::ping;
use crate::messages;
use crate::proto;
use crate::proxy;
use crate::proxy::{describe_tunnels, query_tunnels};
use crate::path;
use crate::text;
use crate::text::{decimal_text, lossy};

verus! {

/// What is known of the local daemon.
#[derive(Debug, Clone, PartialEq, Eq)]
pub struct LocalDaemon {
    pub socket: Vec<u8>,
    pub log: Vec<u8>,
    /// The socket exists.
    pub exists: bool,
    /// What came back for a ping.
    pub answer: Option<Vec<u8>>,
    /// What came back for a request for its tunnels.
    pub tunnels: Option<Vec<u8>>,
}

/// What this shell's `$SSH_AUTH_SOCK` leads to.
#[derive(Debug, Clone, PartialEq, Eq)]
pub enum ShellSocket {
    Unset,
    Empty,
    /// Something answered a ping, and perhaps a request for tunnels.
    Answers { answer: Vec<u8>, tunnels: Option<Vec<u8>> },
    /// Nothing did.
    Unreachable { error: String },
}

/// The tunnels of a daemon, where it has any and lists them.
pub open spec fn tunnel_section(reply: Option<Seq<u8>>) -> Seq<Seq<char>> {
    match reply {
        None => Seq::empty(),
        Some(frame) => match messages::listed_tunnels(frame) {
            Some(es) if es.len() > 0 => seq!["  tunnels:"@] + proxy::tunnel_lines(es).map_values(
                |l: Seq<char>| "    "@ + l,
            ),
            _ => Seq::empty(),
        },
    }
}

/// What is said of the local daemon.
pub open spec fn daemon_section(d: LocalDaemon) -> Seq<Seq<char>> {
    if !d.exists {
        seq!["  not running (no socket at "@ + text::text_of(d.socket@) + ")"@]
    } else {
        match (match path::maybe(d.answer) {
            None => None,
            Some(frame) => proto::decoded_ping(frame),
        }) {
            None => seq![
                "  socket "@ + text::text_of(d.socket@)
                    + " exists but nothing answered (stale) — `back daemon` will clean it up"@,
            ],
            Some(r) => seq![
                "  running: pid "@ + text::decimal(r.pid as nat) + " (v"@ + r.version + ")"@,
                "  socket:  "@ + text::text_of(d.socket@),
                "  agent passthrough: "@ + r.upstream,
                "  log:     "@ + text::text_of(d.log@),
            ] + tunnel_section(path::maybe(d.tunnels)),
        }
    }
}

/// What is said of this shell's channel.
pub open spec fn shell_section(s: ShellSocket) -> Seq<Seq<char>> {
    match s {
        ShellSocket::Unset => seq!["  SSH_AUTH_SOCK is not set"@],
        ShellSocket::Empty => seq!["  SSH_AUTH_SOCK is set but empty"@],
        ShellSocket::Answers { answer, tunnels } => match proto::decoded_ping(answer@) {
            Some(r) => seq![
                "  SSH_AUTH_SOCK reaches a backchannel daemon (pid "@ + text::decimal(r.pid as nat)
                    + ") — `code <path>` will open windows on that machine"@,
            ] + tunnel_section(path::maybe(tunnels)),
            None => seq![
                "  SSH_AUTH_SOCK reaches an ssh-agent that is not backchannel (normal on your local machine; on a remote it means plain agent forwarding)"@,
            ],
        },
        ShellSocket::Unreachable { error } => seq![
            "  SSH_AUTH_SOCK is set but unreachable: "@ + error@,
        ],
    }
}

/// What `back status` prints, line by line.
pub open spec fn status_lines(
    version: Seq<char>,
    local: LocalDaemon,
    shell: ShellSocket,
    in_vscode: bool,
) -> Seq<Seq<char>> {
    seq!["backchannel "@ + version, "\nlocal daemon:"@] + daemon_section(local) + seq![
        "\nthis shell:"@,
    ] + shell_section(shell) + (if in_vscode {
        seq!["  VSCODE_IPC_HOOK_CLI is set — `code` defers to VS Code's own CLI here"@]
    } else {
        Seq::empty()
    })
}

/// Appends the tunnels of a daemon, where it has any. A daemon that does not
/// know the request lists none.
fn print_tunnels(out: &mut Vec<String>, reply: &Option<Vec<u8>>)
    ensures
        text::texts(final(out)@) == text::texts(old(out)@) + tunnel_section(path::maybe(*reply)),
{
    broadcast use text::lemma_texts_push;

    let ghost head = text::texts(out@);
    let ghost section = tunnel_section(path::maybe(*reply));
    assert(head + Seq::<Seq<char>>::empty() =~= head);
    if let Some(frame) = reply {
        if let Some(entries) = query_tunnels(frame.as_slice()) {
            let ghost es = messages::entries_of(entries@);
            assert(es.len() == entries@.len());
            if entries.len() > 0 {
                out.push("  tunnels:".to_owned());
                let lines = describe_tunnels(entries.as_slice());
                let ghost titled = text::texts(out@);
                let ghost all = text::texts(lines@).map_values(|l: Seq<char>| "    "@ + l);
                let mut i: usize = 0;
                assert(titled + all.take(0) =~= titled);
                while i < lines.len()
                    invariant
                        i <= lines@.len(),
                        all == text::texts(lines@).map_values(|l: Seq<char>| "    "@ + l),
                        text::texts(out@) == titled + all.take(i as int),
                    decreases lines@.len() - i,
                {
                    out.push("    ".to_owned().concat(lines[i].as_str()));
                    proof {
                        assert(text::texts(lines@)[i as int] == lines@[i as int]@);
                        assert(titled + all.take(i + 1) =~= (titled + all.take(i as int)).push(
                            all[i as int],
                        ));
                    }
                    i += 1;
                }
                assert(all.take(i as int) =~= all);
                assert(text::texts(out@) =~= head + section);
            }
        }
    }
}

/// Appends what is said of the local daemon.
fn print_daemon(out: &mut Vec<String>, d: &LocalDaemon)
    ensures
        text::texts(final(out)@) == text::texts(old(out)@) + daemon_section(*d),
{
    broadcast use text::lemma_texts_push;

    let ghost head = text::texts(out@);
    if !d.exists {
        out.push(
            "  not running (no socket at ".to_owned().concat(
                lossy(d.socket.as_slice()).as_str(),
            ).concat(")"),
        );
        assert(text::texts(out@) =~= head + daemon_section(*d));
        return ;
    }
    let reply = match &d.answer {
        Some(frame) => ping(frame.as_slice()),
        None => None,
    };
    match reply {
        None => {
            out.push(
                "  socket ".to_owned().concat(lossy(d.socket.as_slice()).as_str()).concat(
                    " exists but nothing answered (stale) — `back daemon` will clean it up",
                ),
            );
            assert(text::texts(out@) =~= head + daemon_section(*d));
        },
        Some(r) => {
            out.push(
                "  running: pid ".to_owned().concat(decimal_text(r.pid as u64).as_str()).concat(
                    " (v",
                ).concat(r.version.as_str()).concat(")"),
            );
            out.push("  socket:  ".to_owned().concat(lossy(d.socket.as_slice()).as_str()));
            out.push("  agent passthrough: ".to_owned().concat(r.upstream.as_str()));
            out.push("  log:     ".to_owned().concat(lossy(d.log.as_slice()).as_str()));
            print_tunnels(out, &d.tunnels);
            assert(text::texts(out@) =~= head + daemon_section(*d));
        },
    }
}

/// Appends what is said of this shell's channel.
fn print_shell(out: &mut Vec<String>, s: &ShellSocket)
    ensures
        text::texts(final(out)@) == text::texts(old(out)@) + shell_section(*s),
{
    broadcast use text::lemma_texts_push;

    let ghost head = text::texts(out@);
    match s {
        ShellSocket::Unset => {
            out.push("  SSH_AUTH_SOCK is not set".to_owned());
        },
        ShellSocket::Empty => {
            out.push("  SSH_AUTH_SOCK is set but empty".to_owned());
        },
        ShellSocket::Answers { answer, tunnels } => match ping(answer.as_slice()) {
            Some(r) => {
                out.push(
                    "  SSH_AUTH_SOCK reaches a backchannel daemon (pid ".to_owned().concat(
                        decimal_text(r.pid as u64).as_str(),
                    ).concat(") — `code <path>` will open windows on that machine"),
                );
                print_tunnels(out, tunnels);
            },
            None => {
                out.push(
                    "  SSH_AUTH_SOCK reaches an ssh-agent that is not backchannel (normal on your local machine; on a remote it means plain agent forwarding)".to_owned(),
                );
            },
        },
        ShellSocket::Unreachable { error } => {
            out.push("  SSH_AUTH_SOCK is set but unreachable: ".to_owned().concat(error.as_str()));
        },
    }
    assert(text::texts(out@) =~= head + shell_section(*s));
}

/// What `back status` prints, line by line.
pub fn run(version: &str, local: &LocalDaemon, shell: &ShellSocket, in_vscode: bool) -> (r: Vec<
    String,
>)
    ensures
        text::texts(r@) == status_lines(version@, *local, *shell, in_vscode),
{
    broadcast use text::lemma_texts_push;

    let mut out: Vec<String> = Vec::new();
    assert(text::texts(out@) =~= Seq::empty());
    out.push("backchannel ".to_owned().concat(version));
    out.push("\nlocal daemon:".to_owned());
    assert(text::texts(out@) =~= seq!["backchannel "@ + version@, "\nlocal daemon:"@]);
    print_daemon(&mut out, local);
    let ghost top = text::texts(out@);
    out.push("\nthis shell:".to_owned());
    assert(text::texts(out@) =~= top + seq!["\nthis shell:"@]);
    print_shell(&mut out, shell);
    let ghost all = text::texts(out@);
    if in_vscode {
        out.push(
            "  VSCODE_IPC_HOOK_CLI is set — `code` defers to VS Code's own CLI here".to_owned(),
        );
        assert(text::texts(out@) =~= all + seq![
            "  VSCODE_IPC_HOOK_CLI is set — `code` defers to VS Code's own CLI here"@,
        ]);
    } else {
        assert(text::texts(out@) =~= all + Seq::<Seq<char>>::empty());
    }
    out
}

/// A daemon is said to run exactly where its socket is there and answers a
/// ping, and then by its process, its socket, the agent behind it and its
/// log, in this order; else there is one line to say why not.
pub proof fn law_daemon_section(d: LocalDaemon)
    ensures
        ({
            let lines = daemon_section(d);
            let reply = match path::maybe(d.answer) {
                None => None,
                Some(frame) => proto::decoded_ping(frame),
            };
            &&& !d.exists || reply is None ==> lines.len() == 1 && text::contains(
                lines[0],
                text::text_of(d.socket@),
            )
            &&& d.exists ==> (reply matches Some(r) ==> lines.len() >= 4 && text::contains(
                lines[0],
                text::decimal(r.pid as nat),
            ) && text::contains(lines[0], r.version) && text::contains(
                lines[1],
                text::text_of(d.socket@),
            ) && text::contains(lines[2], r.upstream) && text::contains(
                lines[3],
                text::text_of(d.log@),
            ) && lines.skip(4) == tunnel_section(path::maybe(d.tunnels)))
        }),
{
    let lines = daemon_section(d);
    let s = text::text_of(d.socket@);
    text::lemma_contained("  not running (no socket at "@, s, ")"@);
    text::lemma_contained(
        "  socket "@,
        s,
        " exists but nothing answered (stale) — `back daemon` will clean it up"@,
    );
    let reply = match path::maybe(d.answer) {
        None => None,
        Some(frame) => proto::decoded_ping(frame),
    };
    if d.exists {
        if let Some(r) = reply {
            let pid = text::decimal(r.pid as nat);
            let none = Seq::<char>::empty();
            let front = "  running: pid "@ + pid + " (v"@;
            text::lemma_contained("  running: pid "@, pid, " (v"@ + r.version + ")"@);
            assert("  running: pid "@ + pid + (" (v"@ + r.version + ")"@) =~= front + r.version
                + ")"@);
            text::lemma_contained(front, r.version, ")"@);
            text::lemma_contained("  socket:  "@, s, none);
            text::lemma_contained("  agent passthrough: "@, r.upstream, none);
            text::lemma_contained("  log:     "@, text::text_of(d.log@), none);
            assert("  socket:  "@ + s + none =~= "  socket:  "@ + s);
            assert("  agent passthrough: "@ + r.upstream + none =~= "  agent passthrough: "@
                + r.upstream);
            assert("  log:     "@ + text::text_of(d.log@) + none =~= "  log:     "@ + text::text_of(
                d.log@,
            ));
            assert(lines.skip(4) =~= tunnel_section(path::maybe(d.tunnels)));
        }
    }
}

/// The tunnels that a daemon lists are all shown, in their order, under a
/// heading; a daemon without any, or without an answer, has no such part.
pub proof fn law_tunnels_shown(es: Seq<messages::TunnelEntryView>)
    requires
        es.len() < 0x1_0000_0000,
        forall|i: int| 0 <= i < es.len() ==> proto::fits((#[trigger] es[i]).alias),
    ensures
        tunnel_section(None).len() == 0,
        es.len() == 0 ==> tunnel_section(Some(messages::tunnels_msg(es))).len() == 0,
        es.len() > 0 ==> {
            let lines = tunnel_section(Some(messages::tunnels_msg(es)));
            &&& lines.len() == es.len() + 1
            &&& forall|i: int|
                0 <= i < es.len() ==> text::contains(
                    #[trigger] lines[i + 1],
                    proxy::tunnel_words(es[i]),
                )
        },
{
    messages::law_tunnels_round_trip(es);
    if es.len() > 0 {
        let lines = tunnel_section(Some(messages::tunnels_msg(es)));
        let none = Seq::<char>::empty();
        assert forall|i: int| 0 <= i < es.len() implies text::contains(
            #[trigger] lines[i + 1],
            proxy::tunnel_words(es[i]),
        ) by {
            let w = proxy::tunnel_words(es[i]);
            assert(proxy::tunnel_lines(es)[i] == w);
            assert(lines[i + 1] == "    "@ + w);
            text::lemma_contained("    "@, w, none);
            assert("    "@ + w + none =~= "    "@ + w);
        }
    }
}

/// What is said of this shell tells apart a variable that is not set, an
/// empty one, one that leads nowhere, one that leads to another agent and one
/// that leads to a daemon, which alone is named by its process.
pub proof fn law_shell_section(answer: Vec<u8>, tunnels: Option<Vec<u8>>, error: String)
    ensures
        shell_section(ShellSocket::Unset).len() == 1,
        shell_section(ShellSocket::Empty).len() == 1,
        shell_section(ShellSocket::Unset) != shell_section(ShellSocket::Empty),
        text::contains(shell_section(ShellSocket::Unreachable { error })[0], error@),
        proto::decoded_ping(answer@) matches Some(r) ==> {
            let lines = shell_section(ShellSocket::Answers { answer, tunnels });
            &&& lines.len() >= 1
            &&& text::contains(lines[0], text::decimal(r.pid as nat))
            &&& lines.skip(1) == tunnel_section(path::maybe(tunnels))
        },
        proto::decoded_ping(answer@) is None ==> shell_section(
            ShellSocket::Answers { answer, tunnels },
        ).len() == 1,
{
    reveal_strlit("  SSH_AUTH_SOCK is not set");
    reveal_strlit("  SSH_AUTH_SOCK is set but empty");
    assert(shell_section(ShellSocket::Unset)[0] != shell_section(ShellSocket::Empty)[0]) by {
        assert("  SSH_AUTH_SOCK is not set"@.len() != "  SSH_AUTH_SOCK is set but empty"@.len());
    }
    let none = Seq::<char>::empty();
    text::lemma_contained("  SSH_AUTH_SOCK is set but unreachable: "@, error@, none);
    assert("  SSH_AUTH_SOCK is set but unreachable: "@ + error@ + none
        =~= "  SSH_AUTH_SOCK is set but unreachable: "@ + error@);
    if let Some(r) = proto::decoded_ping(answer@) {
        let lines = shell_section(ShellSocket::Answers { answer, tunnels });
        text::lemma_contained(
            "  SSH_AUTH_SOCK reaches a backchannel daemon (pid "@,
            text::decimal(r.pid as nat),
            ") — `code <path>` will open windows on that machine"@,
        );
        assert(lines.skip(1) =~= tunnel_section(path::maybe(tunnels)));
    }
}

/// A status tells the version, then of the local daemon, then of this shell,
/// and last, inside VS Code and only there, that its own CLI answers.
pub proof fn law_status_order(
    version: Seq<char>,
    local: LocalDaemon,
    shell: ShellSocket,
    in_vscode: bool,
)
    ensures
        ({
            let lines = status_lines(version, local, shell, in_vscode);
            let d = daemon_section(local);
            let s = shell_section(shell);
            &&& lines.len() == 3 + d.len() + s.len() + (if in_vscode { 1int } else { 0 })
            &&& lines[0] == "backchannel "@ + version
            &&& lines.subrange(2, (2 + d.len()) as int) == d
            &&& lines.subrange((3 + d.len()) as int, (3 + d.len() + s.len()) as int) == s
        }),
{
    let lines = status_lines(version, local, shell, in_vscode);
    let d = daemon_section(local);
    let s = shell_section(shell);
    assert(lines.subrange(2, (2 + d.len()) as int) =~= d);
    assert(lines.subrange((3 + d.len()) as int, (3 + d.len() + s.len()) as int) =~= s);
}

}
