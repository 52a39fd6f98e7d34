use backchannel::launch::{
    code_args, code_fallbacks, find_code, find_opener, open_url, reap, remote_uri, run_code,
    spawn_code_waiting, spawn_error, wait_until_closed, which, ClientState, CodeExit, Launch,
    Reaped, WaitEvent, WaitStep, WaitingCode, DISCONNECTED, NO_CODE, NO_OPENER,
};
use backchannel::proto::{Action, Kind, WindowMode};

#[test]
fn uri_encodes_spaces_but_not_slashes() {
    assert_eq!(
        remote_uri("test-host", "/opt/my pages/vtz"),
        "vscode-remote://ssh-remote+test-host/opt/my%20pages/vtz"
    );
}

#[test]
fn uri_keeps_user_at_host() {
    assert_eq!(
        remote_uri("user@host", "/srv"),
        "vscode-remote://ssh-remote+user@host/srv"
    );
}

#[test]
fn args_for_folder() {
    assert_eq!(
        code_args(
            "test-host",
            &Action::Open {
                kind: Kind::Folder,
                path: "/opt".into(),
                line: 0,
                col: 0
            },
            WindowMode::New,
            false
        ),
        vec![
            "--new-window",
            "--folder-uri",
            "vscode-remote://ssh-remote+test-host/opt"
        ]
    );
}

#[test]
fn args_for_file_with_position() {
    assert_eq!(
        code_args(
            "test-host",
            &Action::Open {
                kind: Kind::File,
                path: "/a/b.rs".into(),
                line: 10,
                col: 5
            },
            WindowMode::Default,
            true
        ),
        vec![
            "--wait",
            "--remote",
            "ssh-remote+test-host",
            "--goto",
            "/a/b.rs:10:5"
        ]
    );
}

#[test]
fn args_for_diff() {
    assert_eq!(
        code_args(
            "test-host",
            &Action::Diff {
                left: "/a".into(),
                right: "/b".into()
            },
            WindowMode::Reuse,
            false
        ),
        vec![
            "--reuse-window",
            "--remote",
            "ssh-remote+test-host",
            "--diff",
            "/a",
            "/b"
        ]
    );
}

#[test]
fn positions_need_a_line() {
    let args = |line, col| {
        code_args(
            "h",
            &Action::Open {
                kind: Kind::File,
                path: "/f".into(),
                line,
                col,
            },
            WindowMode::Default,
            false,
        )
        .pop()
        .unwrap()
    };
    assert_eq!(args(0, 0), "/f");
    assert_eq!(args(0, 9), "/f");
    assert_eq!(args(12, 0), "/f:12");
    assert_eq!(args(4294967295, 1), "/f:4294967295:1");
}

#[test]
fn uri_encodes_every_other_byte() {
    assert_eq!(
        remote_uri("h", "/a-b_c.d~e/%é\u{1F600}+&"),
        "vscode-remote://ssh-remote+h/a-b_c.d~e/%25%C3%A9%F0%9F%98%80%2B%26"
    );
}

#[test]
fn uri_paths_survive_the_trip() {
    let all: String = (0u32..0x3000)
        .chain(0xFFF0..0x10010)
        .filter_map(char::from_u32)
        .collect();
    let uri = remote_uri("h", &all);
    let path = uri.strip_prefix("vscode-remote://ssh-remote+h").unwrap();
    assert!(path
        .chars()
        .all(|c| c.is_ascii_alphanumeric() || "/-_.~%".contains(c)));
    let back = percent_encoding::percent_decode_str(path)
        .decode_utf8()
        .unwrap();
    assert_eq!(back, all);
}

// ---- programs ----

fn bytes(s: &str) -> Vec<u8> {
    s.as_bytes().to_vec()
}

#[test]
fn code_is_looked_for_in_order() {
    let home = Some(bytes("/home/u"));
    let app = "/Applications/Visual Studio Code.app/Contents/Resources/app/bin/code";
    assert_eq!(
        code_fallbacks(&home),
        vec![
            bytes(app),
            bytes(&format!("/home/u{app}")),
            bytes("/usr/local/bin/code"),
            bytes("/usr/bin/code"),
        ]
    );
    assert_eq!(code_fallbacks(&None).len(), 3);
    let nothing = [false, false, false, false];
    assert_eq!(
        find_code(Some(bytes("/x")), Some(bytes("/y")), &home, &nothing),
        Some(bytes("/x"))
    );
    assert_eq!(
        find_code(None, Some(bytes("/y")), &home, &nothing),
        Some(bytes("/y"))
    );
    assert_eq!(
        find_code(None, None, &home, &[false, false, true, true]),
        Some(bytes("/usr/local/bin/code"))
    );
    assert_eq!(find_code(None, None, &home, &nothing), None);
}

#[test]
fn opener_is_looked_for_in_order() {
    let (a, b, c) = (Some(bytes("/a")), Some(bytes("/b")), Some(bytes("/c")));
    assert_eq!(find_opener(a.clone(), b.clone(), c.clone()), a);
    assert_eq!(find_opener(None, b.clone(), c.clone()), b);
    assert_eq!(find_opener(None, None, c.clone()), c);
    assert_eq!(find_opener(None, None, None), None);
}

#[test]
fn which_takes_the_first() {
    let dirs = [bytes("/bin"), bytes("/usr/bin/"), bytes("rel")];
    assert_eq!(
        which("code", &dirs, &[false, true, true]),
        Some(bytes("/usr/bin/code"))
    );
    assert_eq!(
        which("code", &dirs, &[false, false, true]),
        Some(bytes("rel/code"))
    );
    assert_eq!(which("code", &dirs, &[false, false, false]), None);
}

#[test]
fn launches() {
    assert_eq!(
        run_code(Some(bytes("/c")), vec!["a".into()]),
        Ok(Launch {
            program: bytes("/c"),
            args: vec!["a".into()]
        })
    );
    assert_eq!(run_code(None, vec![]), Err(NO_CODE.to_string()));
    assert_eq!(
        open_url(Some(bytes("/o")), "https://example.com"),
        Ok(Launch {
            program: bytes("/o"),
            args: vec!["https://example.com".into()]
        })
    );
    assert_eq!(
        open_url(None, "https://example.com"),
        Err(NO_OPENER.to_string())
    );
    assert_eq!(spawn_error(b"/c", "gone"), "spawning /c: gone");
}

#[test]
fn reaped_launchers() {
    assert_eq!(reap(b"/c", &Reaped::Success), None);
    assert_eq!(
        reap(
            b"/c",
            &Reaped::Failure {
                status: "exit status: 7".into(),
                stderr: b"\n  no display \n".to_vec()
            }
        ),
        Some("/c exited with exit status: 7: no display".to_string())
    );
    assert_eq!(
        reap(b"/c", &Reaped::Lost { error: "e".into() }),
        Some("waiting on /c: e".to_string())
    );
    assert_eq!(
        reap(
            b"/\xffc",
            &Reaped::Failure {
                status: "s".into(),
                stderr: vec![0xff]
            }
        ),
        Some("/\u{fffd}c exited with s: \u{fffd}".to_string())
    );
}

// ---- waiting ----

fn waiting() -> WaitingCode {
    spawn_code_waiting(Some(bytes("/c")), vec![]).unwrap().1
}

fn quiet() -> WaitStep {
    WaitStep {
        kill: false,
        note_queued: false,
        done: None,
    }
}

fn ends(wc: &mut WaitingCode, exit: CodeExit) -> Result<(), String> {
    wait_until_closed(wc, WaitEvent::Exited(exit)).done.unwrap()
}

fn failure() -> CodeExit {
    CodeExit::Failure {
        status: "exit status: 7".into(),
        stderr: " oops \n".into(),
    }
}

#[test]
fn wait_ends_with_the_editor() {
    let mut wc = waiting();
    assert_eq!(wait_until_closed(&mut wc, WaitEvent::Nothing), quiet());
    assert_eq!(ends(&mut wc, CodeExit::Success), Ok(()));
}

#[test]
fn wait_propagates_editor_failure() {
    assert_eq!(
        ends(&mut waiting(), failure()),
        Err("code exited with exit status: 7: oops".to_string())
    );
    assert_eq!(
        ends(&mut waiting(), CodeExit::Lost { error: "e".into() }),
        Err("waiting on code: e".to_string())
    );
    assert_eq!(
        ends(&mut waiting(), CodeExit::WaiterGone),
        Err("child waiter thread vanished".to_string())
    );
}

#[test]
fn wait_disconnect_kills_waiting_cli() {
    for state in [ClientState::Closed, ClientState::Broken] {
        let mut wc = waiting();
        let step = wait_until_closed(&mut wc, WaitEvent::Client(state));
        assert!(step.kill && step.done.is_none());
        assert!(!wc.watches_client());
        // Killed once: the connection is not looked at again.
        assert_eq!(
            wait_until_closed(&mut wc, WaitEvent::Client(state)),
            quiet()
        );
        assert_eq!(
            ends(&mut wc, CodeExit::Success),
            Err(DISCONNECTED.to_string())
        );
        assert_eq!(ends(&mut wc, failure()), Err(DISCONNECTED.to_string()));
    }
}

#[test]
fn frame_pipelined_during_wait_survives() {
    let mut wc = waiting();
    let step = wait_until_closed(&mut wc, WaitEvent::Client(ClientState::Pending));
    assert!(step.note_queued && !step.kill && step.done.is_none());
    assert!(!wc.watches_client());
    // What comes later on the connection no longer matters.
    assert_eq!(
        wait_until_closed(&mut wc, WaitEvent::Client(ClientState::Closed)),
        quiet()
    );
    assert_eq!(ends(&mut wc, CodeExit::Success), Ok(()));
}

#[test]
fn interrupted_looks_are_repeated() {
    let mut wc = waiting();
    let event = WaitEvent::Client(ClientState::Interrupted);
    assert_eq!(wait_until_closed(&mut wc, event), quiet());
    assert!(wc.watches_client());
}

#[test]
fn a_failing_poll_ends_the_wait() {
    let step = wait_until_closed(&mut waiting(), WaitEvent::PollFailed { error: "e".into() });
    assert!(step.kill);
    assert_eq!(
        step.done,
        Some(Err("poll failed during --wait: e".to_string()))
    );
}
