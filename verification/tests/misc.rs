use backchannel::logging::{error, info, warn};
use backchannel::messages::TunnelEntry;
use backchannel::open::FileState;
use backchannel::peer::{cmdline_path, process_argv, RawArgv};
use backchannel::proto::{put_str, put_u32, PingReply};
use backchannel::proxy::{daemon_socket, list, stop, stopped, tunnels_request, WHICH_TUNNEL};
use backchannel::status::{run, LocalDaemon, ShellSocket};
use backchannel::text::{
    before_char, decimal_text, is_whitespace, join_spaced, parse_u32, signed_text, split_rows,
    split_words, text_contains, text_starts_with, trim, trim_end_char,
};
use backchannel::transfer::{
    browsing_note, file_note, handle_open_file, open_target, refuse_transfer, sanitize, send_file,
    OpenTarget,
};
use backchannel::tunnel::{
    await_tunnel, handle_stop, tunnel_args, TunnelStep, TunnelTable, TunnelWait, TUNNEL_POLLS,
};
use backchannel::url::{is_web, loopback_port};
use backchannel::messages::tunnels_reply;

fn b(s: &str) -> Vec<u8> {
    s.as_bytes().to_vec()
}

// ---- text ----

#[test]
fn white_space_agrees_with_std() {
    for n in 0..=0x10FFFF {
        if let Some(c) = char::from_u32(n) {
            assert_eq!(is_whitespace(c), c.is_whitespace(), "{n:x}");
        }
    }
}

#[test]
fn cutting_agrees_with_std() {
    for s in [
        "",
        " ",
        "a",
        " a b ",
        "\u{3000}x\ty\r\n z.w..",
        "a..",
        "..",
        "one\ntwo\n",
        "\n",
        "x.y.z",
    ] {
        assert_eq!(trim(s), s.trim());
        assert_eq!(trim_end_char(s, '.'), s.trim_end_matches('.'));
        assert_eq!(before_char(s, '.'), s.split('.').next().unwrap());
        assert_eq!(split_words(s), s.split_whitespace().collect::<Vec<_>>());
        assert_eq!(split_rows(s), s.split('\n').collect::<Vec<_>>());
        assert_eq!(text_contains(s, "a b"), s.contains("a b"));
        assert_eq!(text_contains(s, ""), s.contains(""));
        assert_eq!(text_starts_with(s, " a"), s.starts_with(" a"));
    }
    let words = vec!["a".to_string(), "".to_string(), "b".to_string()];
    assert_eq!(join_spaced(&words), words.join(" "));
    assert_eq!(join_spaced(&[]), "");
}

#[test]
fn numbers_in_decimal() {
    for n in [0, 9, 10, 99, 100, 4294967295, u64::MAX] {
        assert_eq!(decimal_text(n), n.to_string());
    }
    for n in [0, 7, -7, i32::MAX, i32::MIN] {
        assert_eq!(signed_text(n), n.to_string());
    }
    let parse = |s: &str| parse_u32(&s.chars().collect::<Vec<_>>());
    assert_eq!(parse("0"), Some(0));
    assert_eq!(parse("007"), Some(7));
    assert_eq!(parse("4294967295"), Some(u32::MAX));
    assert_eq!(parse("4294967296"), None);
    assert_eq!(parse("99999999999999999999999"), None);
    assert_eq!(parse(""), None);
    assert_eq!(parse("-1"), None);
    assert_eq!(parse("1a"), None);
}

// ---- processes ----

#[test]
fn linux_command_lines() {
    let argv = |s: &str| process_argv(&RawArgv::Cmdline(b(s)));
    assert_eq!(
        argv("ssh\0-p\0\02222\0"),
        Some(vec!["ssh".into(), "-p".into(), "".into(), "2222".into()])
    );
    assert_eq!(argv("ssh"), Some(vec!["ssh".into()]));
    assert_eq!(argv("ssh\0\0\0"), Some(vec!["ssh".into()]));
    assert_eq!(argv(""), None);
    assert_eq!(argv("\0\0"), None);
    assert_eq!(
        process_argv(&RawArgv::Cmdline(vec![0xff, 0])),
        Some(vec!["\u{fffd}".into()])
    );
    assert_eq!(cmdline_path(4242), "/proc/4242/cmdline");
    assert_eq!(process_argv(&RawArgv::Unknown), None);
    // Nothing but NULs is no command line; anything else is one.
    for byte in 1..=255u8 {
        let raw = RawArgv::Cmdline(vec![0, byte, 0]);
        assert_eq!(process_argv(&raw).map(|a| a.len()), Some(2), "{byte}");
    }
}

#[test]
fn macos_command_lines() {
    let argv = |count: [u8; 4], rest: &str| {
        let mut buf = count.to_vec();
        buf.extend_from_slice(rest.as_bytes());
        process_argv(&RawArgv::ProcArgs(buf))
    };
    let strings = |parts: &[&str]| Some(parts.iter().map(|s| s.to_string()).collect::<Vec<_>>());
    assert_eq!(
        argv([2, 0, 0, 0], "/usr/bin/ssh\0\0\0\0ssh\0host\0HOME=/x\0"),
        strings(&["ssh", "host"])
    );
    assert_eq!(
        argv([3, 0, 0, 0], "/usr/bin/ssh\0ssh\0host"),
        strings(&["ssh", "host"])
    );
    assert_eq!(
        argv([9, 0, 0, 0], "/bin/ssh\0ssh\0host\0"),
        strings(&["ssh", "host", ""])
    );
    assert_eq!(argv([0, 0, 0, 0], "/bin/ssh\0ssh\0"), None);
    assert_eq!(argv([255, 255, 255, 255], "/bin/ssh\0ssh\0"), None);
    assert_eq!(argv([1, 0, 0, 0], ""), strings(&[""]));
    assert_eq!(process_argv(&RawArgv::ProcArgs(vec![1, 0, 0])), None);
}

// ---- the log ----

#[test]
fn log_lines() {
    assert_eq!(
        info(1_518_568_087, "started"),
        "2018-02-14T00:28:07Z [info] started\n"
    );
    assert_eq!(warn(0, "w"), "1970-01-01T00:00:00Z [warn] w\n");
    assert_eq!(
        error(253_402_300_799, "e"),
        "9999-12-31T23:59:59Z [error] e\n"
    );
    assert_eq!(info(951_782_400, ""), "2000-02-29T00:00:00Z [info] \n");
    assert_eq!(info(4_107_542_400, ""), "2100-03-01T00:00:00Z [info] \n");
}

// ---- URLs ----

#[test]
fn web_urls() {
    assert!(is_web("http://a") && is_web("https://"));
    assert!(!is_web("file:///etc/passwd") && !is_web("HTTP://a") && !is_web("") && !is_web(" http://a"));
}

#[test]
fn loopback_ports() {
    assert_eq!(loopback_port("http://localhost:8080/x"), Some(8080));
    assert_eq!(loopback_port("http://localhost"), Some(80));
    assert_eq!(loopback_port("https://127.0.0.1/?q"), Some(443));
    assert_eq!(loopback_port("http://[::1]:65535#f"), Some(65535));
    assert_eq!(loopback_port("http://localhost:0/"), None);
    assert_eq!(loopback_port("http://localhost:65536/"), None);
    assert_eq!(loopback_port("http://localhost:/"), None);
    assert_eq!(loopback_port("http://localhost.evil.com:80/"), None);
    assert_eq!(loopback_port("http://u@localhost:80/"), None);
    assert_eq!(loopback_port("http://internal.example.com:8080/"), None);
    assert_eq!(loopback_port("ftp://localhost:80/"), None);
}

// ---- transferred files ----

#[test]
fn openfile_sanitizes_names_and_refuses_executables() {
    let encoded = |name: &str| {
        let mut b = Vec::new();
        put_u32(&mut b, 1);
        put_str(&mut b, name);
        put_str(&mut b, "h");
        b.extend_from_slice(b"<svg/>");
        b
    };
    let plan = handle_open_file(&encoded("../../escape.svg")).unwrap();
    assert_eq!(plan.name, b("escape.svg"));
    assert_eq!(plan.data, b("<svg/>"));
    assert_eq!(plan.note, "open file escape.svg (6 bytes) from host 'h'");
    for name in ["evil.command", "evil.desktop", "Evil.APP"] {
        assert_eq!(
            handle_open_file(&encoded(name)),
            Err(format!("refusing to open a file named {name:?}"))
        );
    }
    assert!(handle_open_file(&encoded("..")).is_err());
    assert_eq!(
        handle_open_file(&[0]),
        Err("decoding openfile request: truncated agent message".to_string())
    );
    assert_eq!(sanitize("/a/b/"), Some(b("b")));
    assert_eq!(sanitize("app"), Some(b("app")));
    assert_eq!(sanitize(""), None);
    assert_eq!(sanitize("x/.app"), None);
}

#[test]
fn open_transfers_files_to_local_default_app() {
    assert_eq!(
        open_target("/d/graph.svg"),
        OpenTarget::File("/d/graph.svg".into())
    );
    assert_eq!(
        open_target("file:///d/graph.svg"),
        OpenTarget::File("/d/graph.svg".into())
    );
    assert_eq!(
        open_target("https://example.com/a?b=1"),
        OpenTarget::Url("https://example.com/a?b=1".into())
    );
    let refused = refuse_transfer("/d", FileState::Directory, 0).unwrap();
    assert!(refused.contains("back code"), "{refused}");
    assert_eq!(
        refuse_transfer("/n", FileState::Missing, 0),
        Some("/n does not exist".to_string())
    );
    assert_eq!(refuse_transfer("/f", FileState::File, 209_715_200), None);
    assert_eq!(
        refuse_transfer("/f", FileState::File, 209_715_201),
        Some("209715201 bytes exceeds the 200 MiB transfer limit".to_string())
    );
    assert!(file_note("/f").contains("default app"));
    assert!(browsing_note("http://a", &None).contains("local browser"));
    assert!(browsing_note("http://a", &Some("dev".into())).contains("tunneled to dev"));
    assert_eq!(
        send_file("a", "h", b("x"))[..6],
        [27, 0, 0, 0, 20, b'o']
    );
}

// ---- tunnels ----

fn entry(local_port: u16, alias: &str, pid: u32) -> TunnelEntry {
    TunnelEntry {
        local_port,
        alias: alias.into(),
        remote_port: local_port,
        pid,
    }
}

#[test]
fn proxy_tunnels_replaces_and_stops() {
    let mut table = TunnelTable::new();
    assert_eq!(table.plan("testhost", 8080), TunnelStep::Start);
    table.put(entry(8080, "testhost", 7));
    table.put(entry(9090, "testhost", 8));
    // Same target again: reused, not respawned.
    assert_eq!(table.plan("testhost", 8080), TunnelStep::Reuse);
    // A different host wanting the same port: ours gets torn down, theirs
    // takes over.
    assert_eq!(
        table.plan("otherhost", 8080),
        TunnelStep::Replace { pid: 7 }
    );
    table.put(entry(8080, "otherhost", 9));
    assert_eq!(
        table.entries(),
        &vec![entry(9090, "testhost", 8), entry(8080, "otherhost", 9)]
    );
    assert_eq!(table.reply(), tunnels_reply(table.entries()));
    // list shows the new owner; stop tears it down and frees the port.
    let (ended, reply) = handle_stop(&mut table, &stop_data(8080));
    assert_eq!(ended, vec![entry(8080, "otherhost", 9)]);
    assert_eq!(
        stopped(&reply),
        Ok("stopped tunnel on local port 8080".to_string())
    );
    assert_eq!(table.plan("otherhost", 8080), TunnelStep::Start);
    let (ended, reply) = handle_stop(&mut table, &stop_data(8080));
    assert!(ended.is_empty());
    assert_eq!(
        stopped(&reply),
        Err("no tunnel on local port 8080".to_string())
    );
    let (ended, reply) = handle_stop(&mut table, &stop_data(0));
    assert_eq!(ended.len(), 1);
    assert_eq!(stopped(&reply), Ok("stopped 1 tunnel(s)".to_string()));
    assert!(table.entries().is_empty());
    let (_, reply) = handle_stop(&mut table, &[1]);
    assert_eq!(
        stopped(&reply),
        Err("decoding proxy-stop request: truncated agent message".to_string())
    );
    let (_, reply) = handle_stop(&mut table, &[0, 1, 0, 0]);
    assert_eq!(
        stopped(&reply),
        Err("no tunnel on local port 65536".to_string())
    );
}

fn stop_data(port: u32) -> Vec<u8> {
    port.to_be_bytes().to_vec()
}

#[test]
fn tunnel_processes() {
    assert_eq!(
        tunnel_args("dev", 8080),
        ["-N", "-L", "8080:127.0.0.1:8080", "dev"]
    );
}

#[test]
fn tunnels_have_a_while_to_come_up() {
    let exited = Some("s".to_string());
    let failed = |error: &str, kill| TunnelWait::Failed {
        error: error.into(),
        kill,
    };
    assert_eq!(
        await_tunnel("dev", TUNNEL_POLLS, true, &exited),
        TunnelWait::Up
    );
    assert_eq!(
        await_tunnel("dev", 0, false, &exited),
        failed("the tunnel to dev exited with s", false)
    );
    assert_eq!(
        await_tunnel("dev", TUNNEL_POLLS - 1, false, &None),
        TunnelWait::Pause
    );
    assert_eq!(
        await_tunnel("dev", TUNNEL_POLLS, false, &None),
        failed("the tunnel to dev did not come up", true)
    );
}

#[test]
fn the_daemon_that_is_asked() {
    assert_eq!(
        daemon_socket(&Some(b("/c")), b"/l", false),
        Ok(b("/c"))
    );
    assert_eq!(daemon_socket(&None, b"/l", true), Ok(b("/l")));
    assert_eq!(
        daemon_socket(&None, b"/l", false),
        Err("no backchannel daemon reachable (neither $SSH_AUTH_SOCK nor /l)".to_string())
    );
}

#[test]
fn listing_tunnels() {
    assert_eq!(
        list(&tunnels_reply(&[entry(8080, "dev", 7)]), b"/s"),
        Ok(vec!["localhost:8080 -> dev:8080 (ssh pid 7)".to_string()])
    );
    assert_eq!(
        list(&[6, 0, 0, 0, 0], b"/s"),
        Ok(vec!["no active tunnels".to_string()])
    );
    assert_eq!(
        list(&[5], b"/s"),
        Err("the agent at /s did not answer as a backchannel daemon".to_string())
    );
    assert_eq!(tunnels_request()[0], 27);
}

#[test]
fn stopping_tunnels() {
    assert_eq!(stop(None, false), Err(WHICH_TUNNEL.to_string()));
    assert_eq!(stop(Some(1), true), Err(WHICH_TUNNEL.to_string()));
    let msg = stop(Some(8080), false).unwrap();
    assert!(msg.ends_with(&stop_data(8080)));
    assert!(stop(None, true).unwrap().ends_with(&[0, 0, 0, 0]));
    assert_eq!(stopped(&[6]), Ok("stopped".to_string()));
    assert_eq!(stopped(&[28]), Err("unknown error".to_string()));
    for frame in [vec![], vec![5], vec![9]] {
        assert_eq!(
            stopped(&frame),
            Err("unexpected reply from agent socket".to_string())
        );
    }
}

// ---- status ----

fn local(exists: bool, answer: Option<Vec<u8>>, tunnels: Option<Vec<u8>>) -> LocalDaemon {
    LocalDaemon {
        socket: b("/s"),
        log: b("/l"),
        exists,
        answer,
        tunnels,
    }
}

fn ping_answer() -> Vec<u8> {
    PingReply {
        version: "0.8.0".into(),
        pid: 42,
        upstream: "none".into(),
    }
    .encode()
}

#[test]
fn status_with_a_daemon() {
    let tunnels = tunnels_reply(&[entry(8080, "dev", 7)]);
    let lines = run(
        "0.8.0",
        &local(true, Some(ping_answer()), Some(tunnels.clone())),
        &ShellSocket::Answers {
            answer: ping_answer(),
            tunnels: Some(vec![6, 0, 0, 0, 0]),
        },
        true,
    );
    assert_eq!(
        lines,
        vec![
            "backchannel 0.8.0",
            "\nlocal daemon:",
            "  running: pid 42 (v0.8.0)",
            "  socket:  /s",
            "  agent passthrough: none",
            "  log:     /l",
            "  tunnels:",
            "    localhost:8080 -> dev:8080 (ssh pid 7)",
            "\nthis shell:",
            "  SSH_AUTH_SOCK reaches a backchannel daemon (pid 42) — `code <path>` will open \
             windows on that machine",
            "  VSCODE_IPC_HOOK_CLI is set — `code` defers to VS Code's own CLI here",
        ]
    );
}

#[test]
fn status_without_one() {
    let shell = |s: ShellSocket| run("1", &local(false, None, None), &s, false);
    assert_eq!(
        shell(ShellSocket::Unset),
        vec![
            "backchannel 1",
            "\nlocal daemon:",
            "  not running (no socket at /s)",
            "\nthis shell:",
            "  SSH_AUTH_SOCK is not set",
        ]
    );
    assert_eq!(
        shell(ShellSocket::Empty)[4],
        "  SSH_AUTH_SOCK is set but empty"
    );
    assert_eq!(
        shell(ShellSocket::Unreachable { error: "e".into() })[4],
        "  SSH_AUTH_SOCK is set but unreachable: e"
    );
    assert_eq!(
        shell(ShellSocket::Answers {
            answer: vec![5],
            tunnels: None
        })[4],
        "  SSH_AUTH_SOCK reaches an ssh-agent that is not backchannel (normal on your local \
         machine; on a remote it means plain agent forwarding)"
    );
    assert_eq!(
        run(
            "1",
            &local(true, Some(vec![5]), None),
            &ShellSocket::Unset,
            false
        )[2],
        "  socket /s exists but nothing answered (stale) — `back daemon` will clean it up"
    );
}
