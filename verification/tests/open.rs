use backchannel::open::{
    absolutize, channel_is_backchannel, check_reply, classify, connect_error, find_local_code,
    hostname, in_ssh_session, is_code_shim, off_path_codes, opening_note, read_ack, read_reply,
    run, run_as_code_shim, send_open, server_dirs, split_position, vscode_terminal_cli,
    waiting_note, window_mode, ArgState, CodeCandidate, FileState, FoundCli, OpenOptions, Reply,
    Request, Sender, ShimAction, NO_AUTH_SOCK, NO_CHANNEL, NO_LOCAL_CODE, PLAIN_FORWARDING,
    UNEXPECTED_REPLY,
};
use backchannel::launch::Launch;
use backchannel::proto::{ack_frame, extension_failure, Action, Kind, PingReply, WindowMode};

fn b(s: &str) -> Vec<u8> {
    s.as_bytes().to_vec()
}

fn strings(parts: &[&str]) -> Vec<String> {
    parts.iter().map(|s| s.to_string()).collect()
}

// ---- paths ----

#[test]
fn absolutize_cleans_dots() {
    assert_eq!(absolutize(b"/a/b/../c/./d", &None), b("/a/c/d"));
}

#[test]
fn absolutize_keeps_absolute() {
    assert_eq!(absolutize(b"/x/y", &Some(b("/cwd"))), b("/x/y"));
}

#[test]
fn absolutize_joins_cwd() {
    let cwd = Some(b("/home/u/project"));
    assert_eq!(
        absolutize(b"sub/file", &cwd),
        b("/home/u/project/sub/file")
    );
    assert_eq!(absolutize(b"sub/file", &None), b("/sub/file"));
}

#[test]
fn absolutize_edges() {
    let cwd = Some(b("/a/b"));
    assert_eq!(absolutize(b".", &cwd), b("/a/b"));
    assert_eq!(absolutize(b"", &cwd), b("/a/b"));
    assert_eq!(absolutize(b"..", &cwd), b("/a"));
    assert_eq!(absolutize(b"../../../..", &cwd), b("/"));
    assert_eq!(absolutize(b"/../x//y/", &cwd), b("/x/y"));
    let once = absolutize(b"x/./../y", &cwd);
    assert_eq!(absolutize(&once, &cwd), once);
}

#[test]
fn paths_are_classified() {
    assert_eq!(
        classify(b"/d", FileState::Directory),
        (Kind::Folder, "/d".to_string(), None)
    );
    assert_eq!(
        classify(b"/f", FileState::File),
        (Kind::File, "/f".to_string(), None)
    );
    assert_eq!(
        classify(b"/\xff", FileState::Missing),
        (
            Kind::File,
            "/\u{fffd}".to_string(),
            Some("note: /\u{fffd} does not exist; opening as a file".to_string())
        )
    );
}

#[test]
fn positions() {
    let split = |s: &str| split_position(s);
    assert_eq!(split("a.rs:3:7"), Some(("a.rs".to_string(), 3, 7)));
    assert_eq!(split("a.rs:3"), Some(("a.rs".to_string(), 3, 0)));
    assert_eq!(split("a:b:3"), Some(("a:b".to_string(), 3, 0)));
    assert_eq!(split("a:1:2:3"), Some(("a:1".to_string(), 2, 3)));
    assert_eq!(split("a.rs"), None);
    assert_eq!(split("a.rs:"), None);
    assert_eq!(split("a.rs:x"), None);
    assert_eq!(split("a.rs:0"), None);
    assert_eq!(split(":3"), None);
    assert_eq!(split("a.rs:4294967296"), None);
    assert_eq!(
        split("a.rs:4294967295"),
        Some(("a.rs".to_string(), u32::MAX, 0))
    );
}

// ---- surroundings ----

fn daemon_answer() -> Option<Vec<u8>> {
    Some(
        PingReply {
            version: "1".into(),
            pid: 1,
            upstream: "none".into(),
        }
        .encode(),
    )
}

#[test]
fn channels() {
    let sock = Some(b("/s"));
    assert!(channel_is_backchannel(&sock, &daemon_answer()));
    assert!(!channel_is_backchannel(&sock, &Some(vec![5])));
    assert!(!channel_is_backchannel(&sock, &None));
    assert!(!channel_is_backchannel(&Some(vec![]), &daemon_answer()));
    assert!(!channel_is_backchannel(&None, &daemon_answer()));
}

#[test]
fn ssh_sessions() {
    let set = Some(b("x"));
    assert!(in_ssh_session(&set, &None, &None));
    assert!(in_ssh_session(&None, &set, &None));
    assert!(in_ssh_session(&None, &None, &set));
    assert!(!in_ssh_session(&None, &Some(vec![]), &None));
}

#[test]
fn started_as_code() {
    assert!(is_code_shim(b"code"));
    assert!(is_code_shim(b"/usr/local/bin/code"));
    assert!(is_code_shim(b"code.exe"));
    assert!(is_code_shim(b"./code."));
    assert!(!is_code_shim(b"code.a.b"));
    assert!(!is_code_shim(b"/code/back"));
    assert!(!is_code_shim(b".code"));
    assert!(!is_code_shim(b"vscode"));
    assert!(!is_code_shim(b""));
}

#[test]
fn hostnames() {
    assert_eq!(hostname(&Some(b("box\0\0junk"))), "box");
    assert_eq!(hostname(&Some(b("box"))), "box");
    assert_eq!(hostname(&Some(b("\0"))), "");
    assert_eq!(hostname(&None), "unknown");
    assert_eq!(hostname(&Some(vec![0xff, b'a', 0])), "\u{fffd}a");
}

fn candidate(path: &str, is_file: bool, resolved: Option<&str>) -> CodeCandidate {
    CodeCandidate {
        path: b(path),
        is_file,
        resolved: resolved.map(b),
    }
}

#[test]
fn the_real_code_is_found() {
    let me = Some(b("/opt/bc/bin/mine"));
    let on_path = [
        candidate("/none/code", false, None),
        candidate("/a/code", true, Some("/opt/bc/bin/mine")),
        candidate("/b/code", true, Some("/elsewhere/back")),
        candidate("/c/code", true, Some("/elsewhere/backchannel")),
        candidate("/d/code", true, None),
        candidate("/e/code", true, Some("/usr/share/code/bin/code")),
        candidate("/f/code", true, Some("/other")),
    ];
    assert_eq!(find_local_code(&on_path, &me, None), Some(b("/e/code")));
    assert_eq!(
        find_local_code(&on_path[..5], &me, Some(b("/app/code"))),
        Some(b("/app/code"))
    );
    assert_eq!(
        find_local_code(&on_path[..2], &None, None),
        Some(b("/a/code"))
    );
    assert_eq!(
        off_path_codes(&Some(b("/h"))),
        vec![
            b("/Applications/Visual Studio Code.app/Contents/Resources/app/bin/code"),
            b("/h/Applications/Visual Studio Code.app/Contents/Resources/app/bin/code"),
        ]
    );
}

#[test]
fn the_newest_cli_is_taken() {
    let found = |ts: &[Option<i128>]| -> Vec<FoundCli> {
        ts.iter()
            .enumerate()
            .map(|(i, t)| FoundCli {
                path: vec![i as u8],
                modified: *t,
            })
            .collect()
    };
    let hook = Some(b("/hook"));
    let newest = |ts: &[Option<i128>]| vscode_terminal_cli(&hook, &found(ts));
    assert_eq!(newest(&[]), None);
    assert_eq!(newest(&[None, None]), Some(vec![1]));
    assert_eq!(newest(&[Some(3), Some(5), Some(4)]), Some(vec![1]));
    assert_eq!(newest(&[Some(5), None, Some(5), Some(-9)]), Some(vec![2]));
    assert_eq!(vscode_terminal_cli(&None, &found(&[Some(1)])), None);
    assert_eq!(
        vscode_terminal_cli(&Some(vec![]), &found(&[Some(1)])),
        None
    );
}

#[test]
fn servers_are_looked_for() {
    let dirs = server_dirs(b"/h");
    assert_eq!(dirs.len(), 4);
    assert_eq!(dirs[0].dir, b("/h/.vscode-server/cli/servers"));
    assert_eq!(dirs[0].cli, b("server/bin/remote-cli/code"));
    assert_eq!(dirs[1].dir, b("/h/.vscode-server/bin"));
    assert_eq!(dirs[1].cli, b("bin/remote-cli/code"));
    assert_eq!(dirs[2].dir, b("/h/.vscode-server-insiders/cli/servers"));
    assert_eq!(dirs[3].cli, b("bin/remote-cli/code-insiders"));
}

// ---- the shim ----

#[test]
fn shim_precedence() {
    let args = || strings(&["-n", "x"]);
    let cli = Some(b("/cli"));
    let local = Some(b("/usr/bin/code"));
    let exec = |p: &str| {
        Ok(ShimAction::Exec {
            cli: b(p),
            args: args(),
        })
    };
    assert_eq!(
        run_as_code_shim(args(), cli, true, true, local.clone()),
        exec("/cli")
    );
    assert_eq!(
        run_as_code_shim(args(), None, false, true, local.clone()),
        Err(NO_CHANNEL.to_string())
    );
    assert_eq!(
        run_as_code_shim(args(), None, false, false, local),
        exec("/usr/bin/code")
    );
    assert_eq!(
        run_as_code_shim(args(), None, false, false, None),
        Err(NO_LOCAL_CODE.to_string())
    );
}

#[test]
fn shim_over_the_channel() {
    let over = |args: &[&str]| run_as_code_shim(strings(args), None, true, true, None);
    assert_eq!(
        over(&["a", "b:3"]),
        Ok(ShimAction::Send {
            paths: strings(&["a", "b:3"])
        })
    );
    assert_eq!(over(&[]), Err("usage: code <path>...".to_string()));
    assert_eq!(
        over(&["-n", "a", "--wait"]),
        Err(
            "unsupported flag(s) -n --wait: over backchannel this `code` shim only accepts \
             file/folder paths"
                .to_string()
        )
    );
    // The `code` shim points at `back open` instead of opening URLs.
    let refused = over(&["a", "https://example.com"]).unwrap_err();
    assert!(refused.contains("back open https://example.com"), "{refused}");
}

// ---- requests ----

fn options(paths: &[&str]) -> OpenOptions {
    OpenOptions {
        window: WindowMode::Default,
        force_goto: false,
        diff: None,
        wait: false,
        paths: strings(paths),
    }
}

fn sender() -> Sender {
    Sender {
        hostname: "box".into(),
        user: "u".into(),
        ssh_connection: "a 1 b 2".into(),
    }
}

fn send(opts: &OpenOptions, states: &[(FileState, FileState)]) -> Result<Vec<Request>, String> {
    let states: Vec<ArgState> = states
        .iter()
        .map(|(literal, bare)| ArgState {
            literal: *literal,
            bare: *bare,
        })
        .collect();
    send_open(
        &Some(b("/s")),
        opts,
        &states,
        &Some(b("/cwd")),
        &sender(),
    )
}

const DIR: FileState = FileState::Directory;
const FILE: FileState = FileState::File;
const MISSING: FileState = FileState::Missing;

#[test]
fn one_request_for_each_path() {
    let qs = send(
        &options(&["d", "f:3:7", "new"]),
        &[(DIR, DIR), (MISSING, FILE), (MISSING, MISSING)],
    )
    .unwrap();
    assert_eq!(qs.len(), 3);
    let action = |i: usize| qs[i].message.request.action.clone();
    let open = |kind, path: &str, line, col| Action::Open {
        kind,
        path: path.into(),
        line,
        col,
    };
    assert_eq!(action(0), open(Kind::Folder, "/cwd/d", 0, 0));
    assert_eq!(action(1), open(Kind::File, "/cwd/f", 3, 7));
    assert_eq!(action(2), open(Kind::File, "/cwd/new", 0, 0));
    assert_eq!(qs[1].note, None);
    assert_eq!(
        qs[2].note,
        Some("note: /cwd/new does not exist; opening as a file".to_string())
    );
    assert_eq!(qs[0].shown, "/cwd/d");
    assert_eq!(qs[0].message.request.hostname, "box");
    assert_eq!(qs[0].message.user, "u");
    assert_eq!(qs[0].message.ssh_connection, "a 1 b 2");
}

#[test]
fn literal_names_win_unless_told_otherwise() {
    let mut opts = options(&["f:3"]);
    let path = |opts: &OpenOptions| match &send(opts, &[(FILE, FILE)]).unwrap()[0]
        .message
        .request
        .action
    {
        Action::Open { path, line, .. } => (path.clone(), *line),
        other => panic!("{other:?}"),
    };
    assert_eq!(path(&opts), ("/cwd/f:3".to_string(), 0));
    opts.force_goto = true;
    assert_eq!(path(&opts), ("/cwd/f".to_string(), 3));
}

#[test]
fn comparisons() {
    let mut opts = options(&[]);
    opts.diff = Some(("a".into(), "/b".into()));
    opts.wait = true;
    opts.window = WindowMode::New;
    let qs = send(&opts, &[]).unwrap();
    assert_eq!(qs.len(), 1);
    assert_eq!(
        qs[0].message.request.action,
        Action::Diff {
            left: "/cwd/a".into(),
            right: "/b".into()
        }
    );
    assert!(qs[0].message.request.wait);
    assert_eq!(qs[0].message.request.window, WindowMode::New);
    assert_eq!(qs[0].shown, "/cwd/a <-> /b");
}

#[test]
fn wait_rejects_multiple_paths() {
    let mut opts = options(&["/tmp/a", "/tmp/b"]);
    opts.wait = true;
    let refused = send(&opts, &[(FILE, FILE), (FILE, FILE)]).unwrap_err();
    assert!(refused.contains("exactly one path"), "{refused}");
    opts.paths.pop();
    assert!(send(&opts, &[(FILE, FILE)]).is_ok());
    opts.diff = Some(("a".into(), "b".into()));
    assert!(send(&opts, &[(FILE, FILE)]).is_err());
}

#[test]
fn nothing_is_sent_without_a_socket() {
    let states = [ArgState {
        literal: FILE,
        bare: FILE,
    }];
    assert_eq!(
        send_open(&None, &options(&["a"]), &states, &None, &sender()),
        Err(NO_AUTH_SOCK.to_string())
    );
}

#[test]
fn vscode_terminals_use_their_own_cli() {
    let mut opts = options(&["a", "b"]);
    assert_eq!(run(None, &opts), None);
    opts.wait = true;
    opts.window = WindowMode::Reuse;
    opts.force_goto = true;
    opts.diff = Some(("l".into(), "r".into()));
    assert_eq!(
        run(Some(b("/cli")), &opts),
        Some(Launch {
            program: b("/cli"),
            args: strings(&[
                "--wait",
                "--reuse-window",
                "--goto",
                "--diff",
                "l",
                "r",
                "a",
                "b"
            ])
        })
    );
    assert_eq!(window_mode(true, true), WindowMode::New);
    assert_eq!(window_mode(false, true), WindowMode::Reuse);
    assert_eq!(window_mode(false, false), WindowMode::Default);
}

// ---- replies ----

#[test]
fn replies() {
    assert_eq!(read_reply(&[6, 1, 2]), Ok(Reply::Success(vec![1, 2])));
    assert_eq!(
        read_reply(&extension_failure("no")),
        Ok(Reply::ExtensionFailure("no".into()))
    );
    assert_eq!(
        read_reply(&[28]),
        Ok(Reply::ExtensionFailure("unknown error".into()))
    );
    assert_eq!(read_reply(&[5]), Ok(Reply::Failure));
    assert_eq!(read_reply(&[]), Err(UNEXPECTED_REPLY.to_string()));
    assert_eq!(read_reply(&[12]), Err(UNEXPECTED_REPLY.to_string()));
}

#[test]
fn what_replies_mean() {
    assert_eq!(check_reply(&[6]), Ok(vec![]));
    assert_eq!(
        check_reply(&extension_failure("no")),
        Err("daemon error: no".to_string())
    );
    assert_eq!(check_reply(&[5]), Err(PLAIN_FORWARDING.to_string()));
    assert_eq!(check_reply(&[99]), Err(UNEXPECTED_REPLY.to_string()));
    let rest = check_reply(&ack_frame("testhost", "remote hostname")).unwrap();
    assert_eq!(
        read_ack(&rest),
        Some(("testhost".to_string(), "remote hostname".to_string()))
    );
    assert_eq!(read_ack(&[]), None);
}

#[test]
fn what_the_user_is_told() {
    assert_eq!(
        opening_note("/f"),
        "opening /f in VS Code on your local machine"
    );
    assert_eq!(waiting_note("/f"), "/f: waiting until closed");
    assert_eq!(
        connect_error(b"/s", "e"),
        "connecting to /s — is the backchannel daemon running on your local machine?: e"
    );
}
