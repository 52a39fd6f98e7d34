use backchannel::clipboard;
use backchannel::clipboard::{
    detect_kind, pipe_result, script_error, ClipPlan, Desktop, MAX_COPY_BYTES, NO_CLIPBOARD,
    NO_TOOL,
};
use backchannel::copy::{copied_here, finish_copy, run, send_copy, CopyTo, UNRECOGNIZED};
use backchannel::daemon::{handle_client, ClientEvent, ClientStep};
use backchannel::launch::Reaped;
use backchannel::messages::CopyRequest;
use backchannel::open::{NO_CHANNEL, PLAIN_FORWARDING};
use backchannel::proto::{extension_failure, PingReply, MAX_FRAME};

#[test]
fn detects_kinds() {
    assert_eq!(detect_kind(b"\x89PNG\r\n\x1a\nrest"), Some("image/png"));
    assert_eq!(detect_kind(&[0xFF, 0xD8, 0xFF, 0xE0]), Some("image/jpeg"));
    assert_eq!(detect_kind(b"GIF89a..."), Some("image/gif"));
    assert_eq!(detect_kind(b"II*\x00tiff"), Some("image/tiff"));
    assert_eq!(detect_kind(b"MM\x00*tiff"), Some("image/tiff"));
    assert_eq!(
        detect_kind("plain text, with unicode: héllo".as_bytes()),
        Some("text")
    );
    assert_eq!(detect_kind(&[0x00, 0xFF, 0xFE, 0x01]), None);
}

#[test]
fn detects_edges() {
    assert_eq!(detect_kind(b""), Some("text"));
    assert_eq!(detect_kind(b"GIF87a"), Some("image/gif"));
    assert_eq!(detect_kind(b"GIF88a"), Some("text"));
    assert_eq!(detect_kind(b"GIF8"), Some("text"));
    assert_eq!(detect_kind(b"\x89PN"), None);
    assert_eq!(detect_kind(&[0xFF, 0xD8]), None);
    assert_eq!(detect_kind(b"II*"), Some("text"));
    assert_eq!(detect_kind(&[0xC3]), None);
    assert_eq!(detect_kind(&[0xED, 0xA0, 0x80]), None);
    assert_eq!(detect_kind(&[0xF4, 0x8F, 0xBF, 0xBF]), Some("text"));
}

fn b(s: &str) -> Vec<u8> {
    s.as_bytes().to_vec()
}

fn pipe(program: &str, args: &[&str], utf8_locale: bool) -> Result<ClipPlan, String> {
    Ok(ClipPlan::Pipe {
        program: b(program),
        args: args.iter().map(|s| s.to_string()).collect(),
        utf8_locale,
    })
}

#[test]
fn the_named_program_comes_first() {
    assert_eq!(
        clipboard::set("image/png", 3, &Some(b("/clip.sh")), &Desktop::Other),
        pipe("/clip.sh", &["image/png"], false)
    );
    assert_eq!(
        clipboard::set("text", 3, &None, &Desktop::Other),
        Err(NO_CLIPBOARD.to_string())
    );
}

fn linux(wayland: Option<&str>, wl_copy: Option<&str>, xclip: Option<&str>) -> Desktop {
    Desktop::Linux {
        wayland: wayland.map(b),
        wl_copy: wl_copy.map(b),
        xclip: xclip.map(b),
    }
}

#[test]
fn linux_desktops() {
    let both = linux(Some("wayland-0"), Some("/wl"), Some("/x"));
    assert_eq!(clipboard::set("text", 1, &None, &both), pipe("/wl", &[], false));
    assert_eq!(
        clipboard::set("image/gif", 1, &None, &both),
        pipe("/wl", &["-t", "image/gif"], false)
    );
    let x_only = linux(Some("wayland-0"), None, Some("/x"));
    assert_eq!(
        clipboard::set("text", 1, &None, &x_only),
        pipe("/x", &["-selection", "clipboard", "-i"], false)
    );
    let no_wayland = linux(Some(""), Some("/wl"), Some("/x"));
    assert_eq!(
        clipboard::set("image/png", 1, &None, &no_wayland),
        pipe(
            "/x",
            &["-selection", "clipboard", "-i", "-t", "image/png"],
            false
        )
    );
    assert_eq!(
        clipboard::set("text", 1, &None, &linux(None, Some("/wl"), None)),
        Err(NO_TOOL.to_string())
    );
}

#[test]
fn macos_desktops() {
    let mac = Desktop::Macos {
        temp_dir: b("/tmp"),
        pid: 42,
    };
    assert_eq!(
        clipboard::set("text", 1, &None, &mac),
        pipe("/usr/bin/pbcopy", &[], true)
    );
    for (kind, class) in [
        ("image/png", "PNGf"),
        ("image/jpeg", "JPEG"),
        ("image/gif", "GIFf"),
        ("image/tiff", "TIFF"),
    ] {
        assert_eq!(
            clipboard::set(kind, 308, &None, &mac),
            Ok(ClipPlan::Script {
                file: b("/tmp/backchannel-clip-42-308"),
                script: format!(
                    "set the clipboard to (read (POSIX file \"/tmp/backchannel-clip-42-308\") as \
                     «class {class}»)"
                ),
            })
        );
    }
    assert_eq!(
        clipboard::set("image/webp", 1, &None, &mac),
        Err("unsupported image kind \"image/webp\"".to_string())
    );
}

#[test]
fn tools_that_fail() {
    assert_eq!(pipe_result(b"/x", &Reaped::Success), Ok(()));
    assert_eq!(
        pipe_result(
            b"/x",
            &Reaped::Failure {
                status: "exit status: 1".into(),
                stderr: b"bad\n".to_vec()
            }
        ),
        Err("/x exited with exit status: 1: bad".to_string())
    );
    assert_eq!(
        pipe_result(b"/x", &Reaped::Lost { error: "e".into() }),
        Err("e".to_string())
    );
    assert_eq!(script_error(b" bad \n"), "osascript failed: bad");
}

// ---- copy ----

#[test]
fn copy_sets_local_clipboard_without_a_channel() {
    assert_eq!(run(b"local text", false, false), Ok(CopyTo::Here("text")));
    assert_eq!(
        copied_here(10, "text"),
        "copied 10 bytes (text) to the clipboard"
    );
}

#[test]
fn copy_goes_over_the_channel() {
    assert_eq!(
        run(b"\x89PNG", true, true),
        Ok(CopyTo::Daemon("image/png"))
    );
    assert_eq!(run(b"x", false, true), Err(NO_CHANNEL.to_string()));
}

#[test]
fn copy_rejects_oversized_and_binary_junk() {
    assert_eq!(MAX_COPY_BYTES, 200 * 1024 * 1024);
    let big = vec![b'a'; 201 * 1024 * 1024];
    assert_eq!(
        run(&big, false, false),
        Err("210763776 bytes exceeds the 200 MiB copy limit".to_string())
    );
    assert_eq!(
        run(&[0x00, 0xFF, 0xFE, 0x01], false, false),
        Err(UNRECOGNIZED.to_string())
    );
    assert!(UNRECOGNIZED.contains("neither UTF-8 text nor a recognized image"));
    assert_eq!(run(&[], true, false), Err("nothing to copy".to_string()));
    assert!((MAX_COPY_BYTES as u64) < MAX_FRAME as u64);
}

#[test]
fn copied_data_arrives() {
    let msg = send_copy("text", "box", b("hello clipboard: héllo\n"));
    let me = PingReply {
        version: "".into(),
        pid: 0,
        upstream: "".into(),
    };
    let ClientStep::Copy(data) = handle_client(ClientEvent::Message(msg), &me, &None, 1000) else {
        panic!("a copy request is recognized");
    };
    assert_eq!(
        CopyRequest::decode(&data),
        Ok(CopyRequest {
            kind: "text".into(),
            hostname: "box".into(),
            data: b("hello clipboard: héllo\n"),
        })
    );
}

#[test]
fn copy_replies() {
    assert_eq!(
        finish_copy(&[6], 10, "text", &None),
        Ok("copied 10 bytes (text) to the clipboard on your local machine".to_string())
    );
    assert_eq!(
        finish_copy(
            &[6],
            10,
            "text",
            &Some("15.0 MiB in 3.0s, 5.0 MiB/s".into())
        ),
        Ok(
            "copied text to the clipboard on your local machine (15.0 MiB in 3.0s, 5.0 MiB/s)"
                .to_string()
        )
    );
    assert_eq!(
        finish_copy(&extension_failure("no"), 1, "text", &None),
        Err("daemon error: no".to_string())
    );
    assert_eq!(
        finish_copy(&[5], 1, "text", &None),
        Err(PLAIN_FORWARDING.to_string())
    );
}
