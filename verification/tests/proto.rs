use backchannel::messages::{
    parse_tunnels_reply, tunnels_reply, CopyRequest, OpenFileRequest, TunnelEntry,
};
use backchannel::proto::{
    ack_frame, extension, extension_failure, failure_frame, frame_size, parse_extension, put_str,
    put_u32, read_frame, success_frame, write_frame, Action, Cursor, FrameError, Kind, OpenMessage,
    OpenRequest, PingReply, ProtoError, WindowMode, EXT_OPEN, EXT_PING, MAX_FRAME,
    SSH_AGENT_FAILURE, SSH_AGENT_SUCCESS,
};

#[test]
fn frame_roundtrip() {
    let mut buf = Vec::new();
    write_frame(&mut buf, b"hello");
    let mut r = Cursor::new(&buf);
    assert_eq!(read_frame(&mut r).unwrap(), b"hello");
}

#[test]
fn rejects_oversized_frame() {
    let mut buf = Vec::new();
    buf.extend_from_slice(&(MAX_FRAME + 1).to_be_bytes());
    let mut r = Cursor::new(&buf);
    assert!(read_frame(&mut r).is_err());
}

#[test]
fn extension_roundtrip() {
    let msg = extension(EXT_OPEN, b"payload");
    let (name, data) = parse_extension(&msg).unwrap();
    assert_eq!(name, EXT_OPEN);
    assert_eq!(data, b"payload");
}

#[test]
fn non_extension_is_not_parsed() {
    assert!(parse_extension(&[SSH_AGENT_SUCCESS]).is_none());
}

#[test]
fn open_request_roundtrip() {
    let req = OpenRequest {
        action: Action::Open {
            kind: Kind::Folder,
            path: "/opt/pages/vtz".into(),
            line: 0,
            col: 0,
        },
        window: WindowMode::Default,
        wait: false,
        hostname: "test-host.example.com".into(),
    };
    assert_eq!(OpenRequest::decode(&req.encode()).unwrap(), req);
}

#[test]
fn goto_and_diff_roundtrip() {
    let req = OpenRequest {
        action: Action::Open {
            kind: Kind::File,
            path: "/a/b.rs".into(),
            line: 100,
            col: 5,
        },
        window: WindowMode::New,
        wait: true,
        hostname: "h".into(),
    };
    assert_eq!(OpenRequest::decode(&req.encode()).unwrap(), req);

    let req = OpenRequest {
        action: Action::Diff {
            left: "/a".into(),
            right: "/b".into(),
        },
        window: WindowMode::Reuse,
        wait: false,
        hostname: "h".into(),
    };
    assert_eq!(OpenRequest::decode(&req.encode()).unwrap(), req);
}

#[test]
fn decodes_v1_requests() {
    // A 0.1.x remote: version 1, kind/path/hostname only.
    let mut b = Vec::new();
    put_u32(&mut b, 1);
    put_str(&mut b, "file");
    put_str(&mut b, "/etc/hosts");
    put_str(&mut b, "old-host");
    let req = OpenRequest::decode(&b).unwrap();
    assert_eq!(
        req.action,
        Action::Open {
            kind: Kind::File,
            path: "/etc/hosts".into(),
            line: 0,
            col: 0
        }
    );
    assert_eq!(req.window, WindowMode::Default);
}

#[test]
fn ping_reply_roundtrip() {
    let reply = PingReply {
        version: "0.1.0".into(),
        pid: 4242,
        upstream: "/tmp/agent".into(),
    };
    let decoded = PingReply::decode(&reply.encode()).unwrap();
    assert_eq!(decoded.version, "0.1.0");
    assert_eq!(decoded.pid, 4242);
    assert_eq!(decoded.upstream, "/tmp/agent");
}

#[test]
fn ping_reply_rejects_real_agent_failure() {
    assert!(PingReply::decode(&[SSH_AGENT_FAILURE]).is_none());
}

#[test]
fn altered_ping_replies_are_refused() {
    let whole = PingReply {
        version: "0.8.0".into(),
        pid: 4242,
        upstream: "/tmp/agent".into(),
    }
    .encode();
    for k in 0..whole.len() {
        assert!(PingReply::decode(&whole[..k]).is_none(), "{k}");
    }
    // The status byte, the length of the name and the name.
    for i in 0..16 {
        for b in [0u8, 5, 28, b'x', 0xc3, 0xff] {
            if whole[i] == b {
                continue;
            }
            let mut altered = whole.clone();
            altered[i] = b;
            assert!(PingReply::decode(&altered).is_none(), "{i} {b}");
        }
    }
    assert!(PingReply::decode(&[6]).is_none());
}

#[test]
fn open_requests_cut_short_are_refused() {
    let mut whole = v4("http://localhost:1/x", 1);
    let message = OpenMessage::decode(&whole).unwrap();
    for k in 0..whole.len() {
        assert!(OpenMessage::decode(&whole[..k]).is_err(), "{k}");
    }
    // What follows is ignored.
    whole.extend_from_slice(b"more");
    assert_eq!(OpenMessage::decode(&whole), Ok(message));
}

// ---- frames ----

#[test]
fn frame_bytes() {
    let mut buf = vec![9u8];
    write_frame(&mut buf, b"hi");
    assert_eq!(buf, [9, 0, 0, 0, 2, b'h', b'i']);
}

#[test]
fn frames_follow_each_other() {
    let mut buf = Vec::new();
    write_frame(&mut buf, b"one");
    write_frame(&mut buf, b"two");
    let mut r = Cursor::new(&buf);
    assert_eq!(read_frame(&mut r).unwrap(), b"one");
    assert_eq!(read_frame(&mut r).unwrap(), b"two");
    assert_eq!(read_frame(&mut r), Err(FrameError::UnexpectedEof));
}

#[test]
fn frame_limits() {
    assert_eq!(MAX_FRAME, 256 * 1024 * 1024);
    assert_eq!(frame_size(0), Err(FrameError::OutOfRange(0)));
    assert_eq!(frame_size(1), Ok(1));
    assert_eq!(frame_size(MAX_FRAME), Ok(MAX_FRAME as usize));
    assert_eq!(
        frame_size(MAX_FRAME + 1),
        Err(FrameError::OutOfRange(MAX_FRAME + 1))
    );
    assert_eq!(
        FrameError::OutOfRange(0).message(),
        "frame length 0 out of range"
    );
    assert_eq!(
        FrameError::UnexpectedEof.message(),
        "failed to fill whole buffer"
    );
}

#[test]
fn a_frame_cut_short_is_read_to_its_end() {
    let buf = [0u8, 0, 0, 5, b'h', b'e'];
    for n in 0..=buf.len() {
        let mut r = Cursor::new(&buf[..n]);
        assert_eq!(read_frame(&mut r), Err(FrameError::UnexpectedEof));
        assert_eq!(r.offset(), n);
    }
    let mut r = Cursor::new(&[0u8; 6]);
    assert_eq!(read_frame(&mut r), Err(FrameError::OutOfRange(0)));
    assert_eq!(r.offset(), 4);
}

#[test]
fn cursor_reads_numbers_and_strings() {
    let mut b = Vec::new();
    put_u32(&mut b, 0x0102_0304);
    put_str(&mut b, "héllo");
    assert_eq!(&b[..8], [1, 2, 3, 4, 0, 0, 0, 6]);
    let mut c = Cursor::new(&b);
    assert_eq!(c.u32(), Ok(0x0102_0304));
    assert_eq!(c.offset(), 4);
    assert_eq!(c.str(), Ok("héllo".to_string()));
    assert_eq!(c.offset(), b.len());
    assert_eq!(c.u32(), Err(ProtoError::Truncated));
    assert_eq!(c.str(), Err(ProtoError::Truncated));
}

#[test]
fn cursor_replaces_what_is_not_utf8() {
    let b = [0u8, 0, 0, 2, 0xff, b'a'];
    assert_eq!(Cursor::new(&b).str(), Ok("\u{fffd}a".to_string()));
}

// ---- replies ----

#[test]
fn reply_bytes() {
    assert_eq!(success_frame(), [6]);
    assert_eq!(failure_frame(), [5]);
    assert_eq!(extension_failure("no"), [28, 0, 0, 0, 2, b'n', b'o']);
    assert_eq!(
        ack_frame("a", "bc"),
        [6, 0, 0, 0, 1, b'a', 0, 0, 0, 2, b'b', b'c']
    );
}

#[test]
fn extension_bytes() {
    assert_eq!(EXT_PING, "ping@backchannel");
    let msg = extension("x", &[7, 8]);
    assert_eq!(msg, [27, 0, 0, 0, 1, b'x', 7, 8]);
    assert!(parse_extension(&[]).is_none());
    assert!(parse_extension(&[27, 0, 0, 0, 9, b'x']).is_none());
}

// ---- open requests ----

fn v4(url: &str, proxy: u32) -> Vec<u8> {
    let mut b = Vec::new();
    put_u32(&mut b, 4);
    put_str(&mut b, "default");
    put_u32(&mut b, 0);
    put_str(&mut b, "url");
    put_str(&mut b, url);
    put_u32(&mut b, proxy);
    put_str(&mut b, "h");
    put_str(&mut b, "testuser");
    put_str(&mut b, "");
    b
}

#[test]
fn v4_url_requests() {
    let m = OpenMessage::decode(&v4("http://localhost:1/x", 1)).unwrap();
    assert_eq!(
        m.request.action,
        Action::Url {
            url: "http://localhost:1/x".into(),
            proxy: true
        }
    );
    assert_eq!(m.user, "testuser");
    assert_eq!(m.ssh_connection, "");
    assert_eq!(m.encode(), v4("http://localhost:1/x", 1));
}

#[test]
fn v2_requests_do_not_wait() {
    let mut b = Vec::new();
    put_u32(&mut b, 2);
    put_str(&mut b, "reuse");
    put_str(&mut b, "diff");
    put_str(&mut b, "/a");
    put_str(&mut b, "/b");
    put_str(&mut b, "h");
    let q = OpenRequest::decode(&b).unwrap();
    assert_eq!(q.window, WindowMode::Reuse);
    assert!(!q.wait);
    assert_eq!(
        q.action,
        Action::Diff {
            left: "/a".into(),
            right: "/b".into()
        }
    );
}

#[test]
fn urls_are_version_four_only() {
    let mut b = v4("http://a", 0);
    b[3] = 3;
    assert_eq!(
        OpenRequest::decode(&b),
        Err(ProtoError::BadAction("url".into()))
    );
}

#[test]
fn every_decode_error() {
    let decode = |f: &dyn Fn(&mut Vec<u8>)| {
        let mut b = Vec::new();
        f(&mut b);
        OpenRequest::decode(&b).unwrap_err()
    };
    assert_eq!(decode(&|_| {}), ProtoError::Truncated);
    assert_eq!(
        decode(&|b| put_u32(b, 9)),
        ProtoError::UnsupportedVersion(9)
    );
    assert_eq!(
        decode(&|b| put_u32(b, 0)),
        ProtoError::UnsupportedVersion(0)
    );
    assert_eq!(
        decode(&|b| {
            put_u32(b, 1);
            put_str(b, "socket");
        }),
        ProtoError::BadKind("socket".into())
    );
    assert_eq!(
        decode(&|b| {
            put_u32(b, 3);
            put_str(b, "tab");
        }),
        ProtoError::BadWindow("tab".into())
    );
    assert_eq!(
        decode(&|b| {
            put_u32(b, 3);
            put_str(b, "new");
            put_u32(b, 0);
            put_str(b, "close");
        }),
        ProtoError::BadAction("close".into())
    );
}

#[test]
fn error_messages() {
    assert_eq!(ProtoError::Truncated.message(), "truncated agent message");
    assert_eq!(
        ProtoError::BadKind("a\"b".into()).message(),
        "bad kind \"a\\\"b\""
    );
    assert_eq!(
        ProtoError::BadWindow("w".into()).message(),
        "bad window mode \"w\""
    );
    assert_eq!(
        ProtoError::BadAction("x\n".into()).message(),
        "bad action \"x\\n\""
    );
    assert_eq!(
        ProtoError::UnsupportedVersion(7).message(),
        "unsupported open@backchannel version 7"
    );
    assert_eq!(
        ProtoError::UnsupportedTransfer(2).message(),
        "unsupported transfer version 2"
    );
}

#[test]
fn names_read_back() {
    for k in [Kind::File, Kind::Folder] {
        assert_eq!(Kind::parse(k.as_str()), Some(k));
    }
    for w in [WindowMode::Default, WindowMode::New, WindowMode::Reuse] {
        assert_eq!(WindowMode::parse(w.as_str()), Some(w));
    }
    assert_eq!(Kind::parse("Folder"), None);
    assert_eq!(WindowMode::parse(""), None);
}

// ---- transfers and tunnels ----

#[test]
fn transfers_read_back() {
    let copy = CopyRequest {
        kind: "image/png".into(),
        hostname: "h".into(),
        data: vec![0, 255, 7],
    };
    assert_eq!(CopyRequest::decode(&copy.encode()), Ok(copy));
    let file = OpenFileRequest {
        basename: "a.svg".into(),
        hostname: "h".into(),
        data: b"<svg/>".to_vec(),
    };
    let mut b = Vec::new();
    put_u32(&mut b, 1);
    put_str(&mut b, "a.svg");
    put_str(&mut b, "h");
    b.extend_from_slice(b"<svg/>");
    assert_eq!(file.encode(), b);
    assert_eq!(OpenFileRequest::decode(&b), Ok(file));
}

#[test]
fn transfer_errors() {
    assert_eq!(CopyRequest::decode(&[0, 0]), Err(ProtoError::Truncated));
    assert_eq!(
        OpenFileRequest::decode(&[0, 0, 0, 2]),
        Err(ProtoError::UnsupportedTransfer(2))
    );
}

#[test]
fn tunnel_lists_read_back() {
    let entries = vec![
        TunnelEntry {
            local_port: 8080,
            alias: "dev".into(),
            remote_port: 8080,
            pid: 7,
        },
        TunnelEntry {
            local_port: 65535,
            alias: "".into(),
            remote_port: 1,
            pid: u32::MAX,
        },
    ];
    let reply = tunnels_reply(&entries);
    assert_eq!(reply[..5], [6, 0, 0, 0, 2]);
    assert_eq!(parse_tunnels_reply(&reply), Some(entries));
    assert_eq!(parse_tunnels_reply(&[6, 0, 0, 0, 0]), Some(vec![]));
    assert_eq!(parse_tunnels_reply(&[5]), None);
    assert_eq!(parse_tunnels_reply(&[]), None);
    assert_eq!(parse_tunnels_reply(&reply[..reply.len() - 1]), None);
}
