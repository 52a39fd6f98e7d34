use backchannel::daemon::{
    alias_lookup, connection_alias, describe, failure_note, handle_client, handle_copy,
    handle_open, outcome_reply, ping, ping_request, probe_existing, proxy_roundtrip, reject,
    resolve_alias, resolve_upstream, run, shutdown_existing, shutdown_request, started_note,
    upstream_desc, AgentAttempt, AliasSource, ClientEvent, ClientStep, Existing, OpenTask,
    RelayStep, ShutdownStep, Sources, Startup,
};
use backchannel::messages::CopyRequest;
use backchannel::peer::PeerInfo;
use backchannel::proto::{
    extension, put_str, put_u32, Action, Kind, OpenMessage, OpenRequest, PingReply, WindowMode,
    EXT_COPY, EXT_OPEN, EXT_OPENFILE, EXT_PROXY_STOP, EXT_TUNNELS, SSH_AGENT_EXTENSION_FAILURE,
};

fn me() -> PingReply {
    PingReply {
        version: "0.8.0".into(),
        pid: 4242,
        upstream: "/tmp/agent".into(),
    }
}

fn peer() -> Option<PeerInfo> {
    Some(PeerInfo { pid: 77, uid: 1000 })
}

fn message(msg: &[u8]) -> ClientStep {
    handle_client(ClientEvent::Message(msg.to_vec()), &me(), &peer(), 1000)
}

// ---- starting ----

#[test]
fn what_is_on_the_socket() {
    assert_eq!(probe_existing(false, &None), Existing::Absent);
    assert_eq!(probe_existing(true, &None), Existing::Stale);
    assert_eq!(probe_existing(true, &Some(vec![5])), Existing::Stale);
    assert_eq!(
        probe_existing(true, &Some(me().encode())),
        Existing::Alive(4242)
    );
}

#[test]
fn replace_takes_over_and_shutdown_works() {
    assert_eq!(run(Existing::Alive(7), false), Startup::AlreadyRunning);
    assert_eq!(
        run(Existing::Alive(7), true),
        Startup::Replace {
            note: "replacing running daemon (pid 7)".into()
        }
    );
    assert_eq!(
        run(Existing::Stale, false),
        Startup::RemoveStale {
            note: "removing stale agent socket".into()
        }
    );
    assert_eq!(run(Existing::Absent, true), Startup::Start);
    assert_eq!(
        message(&shutdown_request()),
        ClientStep::Exit {
            note: "shutdown requested by pid 77".into()
        }
    );
    assert_eq!(
        handle_client(ClientEvent::Message(shutdown_request()), &me(), &None, 1000),
        ClientStep::Exit {
            note: "shutdown requested by pid ?".into()
        }
    );
}

#[test]
fn the_old_daemon_gets_its_time() {
    assert_eq!(shutdown_existing(0, false), ShutdownStep::Gone);
    assert_eq!(shutdown_existing(39, true), ShutdownStep::Pause);
    assert_eq!(shutdown_existing(39, false), ShutdownStep::Gone);
    assert_eq!(shutdown_existing(40, true), ShutdownStep::Remove);
}

fn b(s: &str) -> Vec<u8> {
    s.as_bytes().to_vec()
}

#[test]
fn the_daemon_is_not_its_own_upstream() {
    let ours = b("/h/.backchannel/agent.sock");
    let other = Some(b("/tmp/agent"));
    assert_eq!(resolve_upstream(None, &ours, &None, &None), (None, false));
    assert_eq!(
        resolve_upstream(other.clone(), &ours, &None, &Some(ours.clone())),
        (other.clone(), false)
    );
    assert_eq!(
        resolve_upstream(
            Some(b("/h//.backchannel/./agent.sock")),
            &ours,
            &None,
            &None
        ),
        (None, true)
    );
    assert_eq!(
        resolve_upstream(other, &ours, &Some(ours.clone()), &Some(ours.clone())),
        (None, true)
    );
    assert_eq!(upstream_desc(&None), "none");
    assert_eq!(upstream_desc(&Some(b("/tmp/agent"))), "/tmp/agent");
}

#[test]
fn start_is_logged() {
    assert_eq!(
        started_note(&me(), b"/s"),
        "daemon started (pid 4242, version 0.8.0, socket /s, upstream agent: /tmp/agent)"
    );
}

// ---- clients ----

#[test]
fn other_users_are_rejected() {
    assert_eq!(reject(&peer(), 1000), None);
    assert_eq!(reject(&None, 1000), None);
    assert_eq!(
        reject(&peer(), 0),
        Some("rejecting connection from uid 1000 (pid 77)".to_string())
    );
    assert_eq!(
        reject(&Some(PeerInfo { pid: -1, uid: 5 }), 0),
        Some("rejecting connection from uid 5 (pid -1)".to_string())
    );
}

#[test]
fn other_users_get_nothing() {
    let open = extension(EXT_OPEN, b"o");
    for event in [
        ClientEvent::Connected,
        ClientEvent::Message(open),
        ClientEvent::Message(ping_request()),
        ClientEvent::Message(vec![11]),
        ClientEvent::Closed,
        ClientEvent::Failed { error: "e".into() },
    ] {
        assert_eq!(
            handle_client(event, &me(), &peer(), 0),
            ClientStep::Reject {
                note: "rejecting connection from uid 1000 (pid 77)".into()
            }
        );
    }
    for peer in [peer(), None] {
        assert_eq!(
            handle_client(ClientEvent::Connected, &me(), &peer, 1000),
            ClientStep::Read
        );
    }
}

#[test]
fn names_that_are_not_text_are_relayed() {
    let mut msg = ping_request();
    msg[5] = 0xff;
    assert_eq!(message(&msg), ClientStep::Relay(msg.clone()));
}

#[test]
fn proxies_agent_traffic_verbatim() {
    assert_eq!(message(&[11]), ClientStep::Relay(vec![11]));
    assert_eq!(message(&[]), ClientStep::Relay(vec![]));
    let foreign = extension("session-bind@openssh.com", b"x");
    assert_eq!(message(&foreign), ClientStep::Relay(foreign.clone()));
    // Older names are real agent traffic too.
    let old = extension("ping@vs-connect", &[]);
    assert_eq!(message(&old), ClientStep::Relay(old.clone()));
    // And backchannel extensions are still intercepted, not proxied.
    assert_eq!(message(&ping_request()), ClientStep::Answer(me().encode()));
}

#[test]
fn extensions_are_delivered() {
    assert_eq!(
        message(&extension(EXT_OPEN, b"o")),
        ClientStep::Open(b("o"))
    );
    assert_eq!(
        message(&extension(EXT_COPY, b"c")),
        ClientStep::Copy(b("c"))
    );
    assert_eq!(
        message(&extension(EXT_OPENFILE, b"f")),
        ClientStep::OpenFile(b("f"))
    );
    assert_eq!(message(&extension(EXT_TUNNELS, b"")), ClientStep::Tunnels);
    assert_eq!(
        message(&extension(EXT_PROXY_STOP, b"p")),
        ClientStep::ProxyStop(b("p"))
    );
}

#[test]
fn pings_are_answered_with_who_we_are() {
    let ClientStep::Answer(answer) = message(&ping_request()) else {
        panic!("a ping is answered");
    };
    let reply = ping(&answer).unwrap();
    assert_eq!((reply.pid, reply.version.as_str()), (4242, "0.8.0"));
    assert!(ping(&[6]).is_none());
}

#[test]
fn connections_end() {
    assert_eq!(
        handle_client(ClientEvent::Closed, &me(), &None, 1000),
        ClientStep::Done(Ok(()))
    );
    assert_eq!(
        handle_client(ClientEvent::Failed { error: "e".into() }, &me(), &None, 1000),
        ClientStep::Done(Err("e".into()))
    );
}

// ---- the real agent ----

fn answer(reply: Vec<u8>, note: Option<&str>, hang_up: bool) -> RelayStep {
    RelayStep::Answer {
        reply,
        note: note.map(|s| s.to_string()),
        hang_up,
    }
}

#[test]
fn relaying_takes_two_attempts_at_most() {
    let up = Some(b("/tmp/agent"));
    let broken = || Some(AgentAttempt::Broken { error: "e".into() });
    assert_eq!(
        proxy_roundtrip(&None, false, None),
        answer(vec![5], None, false)
    );
    assert_eq!(proxy_roundtrip(&up, false, None), RelayStep::Try);
    assert_eq!(proxy_roundtrip(&up, false, broken()), RelayStep::Retry);
    assert_eq!(
        proxy_roundtrip(&up, true, broken()),
        answer(vec![5], Some("agent passthrough failed: e"), true)
    );
    assert_eq!(
        proxy_roundtrip(
            &up,
            false,
            Some(AgentAttempt::Unreachable { error: "e".into() })
        ),
        answer(vec![5], Some("cannot reach agent /tmp/agent: e"), true)
    );
    for retried in [false, true] {
        assert_eq!(
            proxy_roundtrip(
                &up,
                retried,
                Some(AgentAttempt::Reply(vec![12, 0, 0, 0, 0]))
            ),
            answer(vec![12, 0, 0, 0, 0], None, false)
        );
    }
}

// ---- aliases ----

const ALIASES: &str = "# comment\n\n  lonely\r\nhost.example.com  full  more\r\n\u{a0}host\tshort\nhost later\n#host no\n";

#[test]
fn aliases_file() {
    assert_eq!(
        alias_lookup(ALIASES, "host.example.com"),
        Some("full".to_string())
    );
    assert_eq!(
        alias_lookup(ALIASES, "host.other.com"),
        Some("short".to_string())
    );
    assert_eq!(alias_lookup(ALIASES, "host"), Some("short".to_string()));
    assert_eq!(alias_lookup(ALIASES, "lonely"), None);
    assert_eq!(alias_lookup(ALIASES, "nowhere"), None);
    assert_eq!(alias_lookup("", "host"), None);
    assert_eq!(alias_lookup("h a", "h"), Some("a".to_string()));
}

#[test]
fn authority_from_the_connection() {
    let conn = "198.51.100.15 49263 203.0.113.26 22";
    assert_eq!(
        connection_alias("tester", conn),
        Some("tester@203.0.113.26".to_string())
    );
    assert_eq!(connection_alias("", conn), Some("203.0.113.26".to_string()));
    assert_eq!(connection_alias("tester", "198.51.100.15 49263"), None);
    assert_eq!(connection_alias("tester", ""), None);
}

fn sent(action: Action, wait: bool, hostname: &str, user: &str, conn: &str) -> OpenMessage {
    OpenMessage {
        request: OpenRequest {
            action,
            window: WindowMode::Default,
            wait,
            hostname: hostname.into(),
        },
        user: user.into(),
        ssh_connection: conn.into(),
    }
}

fn file(path: &str) -> Action {
    Action::Open {
        kind: Kind::File,
        path: path.into(),
        line: 0,
        col: 0,
    }
}

fn sources(argv: Option<&[&str]>, aliases: Option<&str>) -> Sources {
    Sources {
        argv: argv.map(|a| a.iter().map(|s| s.to_string()).collect()),
        aliases: aliases.map(|s| s.to_string()),
    }
}

#[test]
fn aliases_come_from_the_best_source() {
    let m = sent(file("/f"), false, "host.", "u", "a b c d");
    let of = |s: &Sources| resolve_alias(s, &m);
    let argv: &[&str] = &["ssh", "dev"];
    assert_eq!(
        of(&sources(Some(argv), Some("host. x"))),
        ("dev".to_string(), AliasSource::SshArgv)
    );
    let other: &[&str] = &["python", "dev"];
    assert_eq!(
        of(&sources(Some(other), Some("host. x"))),
        ("x".to_string(), AliasSource::AliasesFile)
    );
    assert_eq!(
        of(&sources(None, Some("elsewhere x"))),
        ("u@c".to_string(), AliasSource::SshConnection)
    );
    let m = sent(file("/f"), false, "host..", "u", "");
    assert_eq!(
        resolve_alias(&sources(None, None), &m),
        ("host".to_string(), AliasSource::RemoteHostname)
    );
    assert_eq!(AliasSource::SshArgv.as_str(), "ssh argv");
    assert_eq!(AliasSource::AliasesFile.as_str(), "aliases file");
    assert_eq!(AliasSource::RemoteHostname.as_str(), "remote hostname");
}

// ---- open requests ----

#[test]
fn ssh_connection_provides_fallback_authority() {
    let m = sent(
        file("/tmp/f.txt"),
        false,
        "unresolvable-host",
        "tester",
        "198.51.100.15 49263 203.0.113.26 22",
    );
    let plan = handle_open(&m.encode(), &sources(None, None)).unwrap();
    assert_eq!(plan.alias, "tester@203.0.113.26");
    assert_eq!(plan.how.as_str(), "SSH_CONNECTION");
    assert_eq!(
        plan.task,
        OpenTask::Code {
            args: vec![
                "--remote".into(),
                "ssh-remote+tester@203.0.113.26".into(),
                "--goto".into(),
                "/tmp/f.txt".into()
            ],
            wait: false
        }
    );
    assert_eq!(
        plan.note,
        "open file /tmp/f.txt from host 'unresolvable-host' (alias 'tester@203.0.113.26' via \
         SSH_CONNECTION) -> code --remote ssh-remote+tester@203.0.113.26 --goto /tmp/f.txt"
    );
}

#[test]
fn opens_folder_file_and_diff() {
    let open = |action| {
        let m = sent(action, true, "testhost", "tester", "");
        handle_open(&m.encode(), &sources(None, None)).unwrap()
    };
    let args = |action| match open(action).task {
        OpenTask::Code { args, wait: true } => args.join(" "),
        other => panic!("{other:?}"),
    };
    assert_eq!(
        args(Action::Open {
            kind: Kind::Folder,
            path: "/d".into(),
            line: 0,
            col: 0
        }),
        "--wait --folder-uri vscode-remote://ssh-remote+testhost/d"
    );
    assert_eq!(
        args(Action::Open {
            kind: Kind::File,
            path: "/s".into(),
            line: 3,
            col: 7
        }),
        "--wait --remote ssh-remote+testhost --goto /s:3:7"
    );
    assert_eq!(
        args(Action::Diff {
            left: "/a".into(),
            right: "/b".into()
        }),
        "--wait --remote ssh-remote+testhost --diff /a /b"
    );
    assert_eq!(open(file("/f")).how, AliasSource::RemoteHostname);
}

fn url(url: &str, proxy: bool) -> Result<OpenTask, String> {
    let m = sent(
        Action::Url {
            url: url.into(),
            proxy,
        },
        false,
        "h",
        "",
        "",
    );
    handle_open(&m.encode(), &sources(None, None)).map(|p| p.task)
}

#[test]
fn urls_open_in_local_browser() {
    assert_eq!(
        url("https://example.com/a?b=1", false),
        Ok(OpenTask::Browse {
            url: "https://example.com/a?b=1".into()
        })
    );
    assert_eq!(
        url("file:///etc/passwd", false),
        Err(
            "refusing to open \"file:///etc/passwd\": only http and https URLs are opened"
                .to_string()
        )
    );
    let m = sent(
        Action::Url {
            url: "http://a".into(),
            proxy: false,
        },
        false,
        "h",
        "",
        "",
    );
    assert_eq!(
        handle_open(&m.encode(), &sources(None, None)).unwrap().note,
        "open url http://a from host 'h' (alias 'h' via remote hostname) -> browser"
    );
}

#[test]
fn proxy_rejects_non_loopback() {
    assert_eq!(
        url("http://localhost:8080/x", true),
        Ok(OpenTask::Tunnel {
            url: "http://localhost:8080/x".into(),
            port: 8080
        })
    );
    let refused = url("http://internal.example.com:8080/", true).unwrap_err();
    assert!(refused.contains("loopback"), "{refused}");
    assert!(url("ftp://localhost:8080/", true).is_err());
}

#[test]
fn requests_that_cannot_be_read() {
    let err = |data: &[u8]| handle_open(data, &sources(None, None)).unwrap_err();
    assert_eq!(
        err(&[0, 0]),
        "decoding open request: truncated agent message"
    );
    assert_eq!(
        err(&[0, 0, 0, 5]),
        "decoding open request: unsupported open@backchannel version 5"
    );
}

#[test]
fn actions_in_words() {
    let open = |line, col| {
        describe(&Action::Open {
            kind: Kind::File,
            path: "/f".into(),
            line,
            col,
        })
    };
    assert_eq!(open(0, 0), "open file /f");
    assert_eq!(open(0, 3), "open file /f");
    assert_eq!(open(2, 0), "open file /f:2");
    assert_eq!(open(2, 3), "open file /f:2:3");
    assert_eq!(
        describe(&Action::Diff {
            left: "/a".into(),
            right: "/b".into()
        }),
        "diff /a <-> /b"
    );
    assert_eq!(
        describe(&Action::Url {
            url: "http://localhost".into(),
            proxy: true
        }),
        "open tunneled url http://localhost"
    );
}

#[test]
fn outcomes_are_told() {
    assert_eq!(outcome_reply(&Ok(())), [6]);
    assert_eq!(
        outcome_reply(&Err("no".into())),
        [SSH_AGENT_EXTENSION_FAILURE, 0, 0, 0, 2, b'n', b'o']
    );
    assert_eq!(failure_note("open", "e"), "open failed: e");
}

// ---- copies ----

#[test]
fn copies_text_and_images_through_the_channel() {
    let png: Vec<u8> = [b"\x89PNG\r\n\x1a\n".as_slice(), &[7u8; 300]].concat();
    let req = CopyRequest {
        kind: "image/png".into(),
        hostname: "h".into(),
        data: png.clone(),
    };
    let plan = handle_copy(&req.encode()).unwrap();
    assert_eq!(plan.kind, "image/png");
    assert_eq!(plan.data, png);
    assert_eq!(plan.note, "copy image/png (308 bytes) from host 'h'");
    let mut b = Vec::new();
    put_u32(&mut b, 1);
    put_str(&mut b, "text");
    assert_eq!(
        handle_copy(&b),
        Err("decoding copy request: truncated agent message".to_string())
    );
}
