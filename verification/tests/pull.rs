use backchannel::daemon::{handle_client, ClientEvent, ClientStep, Sources};
use backchannel::open::{FileState, Sender};
use backchannel::proto::{
    extension_failure, failure_frame, success_frame, Action, OpenMessage, OpenRequest, PingReply,
    WindowMode,
};
use backchannel::pull::{
    handle_pull, inline_note, plan_transfer, progress_frame, pull_step, pull_threshold, send_pull,
    watch_pull, PullEvent, PullStep, PullWatch, Transfer, CANNOT_PULL, ONLY_FILES, PULL_THRESHOLD,
};

fn sender() -> Sender {
    Sender {
        hostname: "box".into(),
        user: "u".into(),
        ssh_connection: "a 1 b 2".into(),
    }
}

fn nothing_known() -> Sources {
    Sources {
        argv: None,
        aliases: None,
    }
}

fn delivered(msg: Vec<u8>) -> Vec<u8> {
    let me = PingReply {
        version: "".into(),
        pid: 0,
        upstream: "".into(),
    };
    match handle_client(ClientEvent::Message(msg), &me, &None, 1000) {
        ClientStep::Pull(data) => data,
        other => panic!("{other:?}"),
    }
}

#[test]
fn thresholds() {
    let set = |s: &str| pull_threshold(&Some(s.to_string()));
    assert_eq!(pull_threshold(&None), PULL_THRESHOLD);
    assert_eq!(set("1"), 1);
    assert_eq!(set("much"), PULL_THRESHOLD);
    assert_eq!(set("4294967296"), PULL_THRESHOLD);
    let plan = |state, len, threshold| plan_transfer("/f", state, len, threshold);
    assert_eq!(plan(FileState::File, 0, 1), Ok(Transfer::Inline));
    assert_eq!(plan(FileState::File, 1, 1), Ok(Transfer::Pull));
    assert_eq!(plan(FileState::File, u64::MAX, 1), Ok(Transfer::Pull));
    assert_eq!(
        plan(FileState::File, 209_715_201, u32::MAX),
        Err("209715201 bytes exceeds the 200 MiB transfer limit".to_string())
    );
    assert!(plan(FileState::Directory, 9, 1)
        .unwrap_err()
        .contains("back code"));
    assert_eq!(
        plan(FileState::Missing, 9, 1),
        Err("/f does not exist".to_string())
    );
}

#[test]
fn pull_transfers_via_scp_and_falls_back_inline() {
    // Threshold 1: everything pulls.
    assert_eq!(
        plan_transfer("/d/big.svg", FileState::File, 2_000_000, 1),
        Ok(Transfer::Pull)
    );
    let data = delivered(send_pull("/d/big.svg", &sender()));
    let plan = handle_pull(&data, &nothing_known()).unwrap();
    assert_eq!(plan.source, "u@b:/d/big.svg");
    assert_eq!(plan.name, b"big.svg");
    assert_eq!(plan.note, "pull u@b:/d/big.svg from host 'box'");
    for sent in [0, 7, 100_000, u32::MAX as u64 + 1, u64::MAX] {
        assert_eq!(
            pull_step(&progress_frame(sent)),
            PullStep::Progress { sent }
        );
    }
    assert_eq!(pull_step(&success_frame()), PullStep::Done);
}

#[test]
fn pull_fallback_when_daemon_cannot_scp() {
    let PullStep::Inline { reason } = pull_step(&extension_failure("no scp")) else {
        panic!("a failed pull falls back");
    };
    assert_eq!(inline_note(&reason), "note: no scp; transferring inline");
    for frame in [failure_frame(), vec![], vec![99]] {
        assert_eq!(
            pull_step(&frame),
            PullStep::Inline {
                reason: CANNOT_PULL.into()
            }
        );
    }
}

#[test]
fn pulls_that_are_refused() {
    let refused = |data: &[u8]| handle_pull(data, &nothing_known()).unwrap_err();
    assert_eq!(
        refused(&[0]),
        "decoding pull request: truncated agent message"
    );
    assert_eq!(
        refused(&delivered(send_pull("/d/Evil.APP", &sender()))),
        "refusing to open a file named \"/d/Evil.APP\""
    );
    let diff = OpenMessage {
        request: OpenRequest {
            action: Action::Diff {
                left: "/a".into(),
                right: "/b".into(),
            },
            window: WindowMode::Default,
            wait: false,
            hostname: "h".into(),
        },
        user: "".into(),
        ssh_connection: "".into(),
    };
    assert_eq!(refused(&diff.encode()), ONLY_FILES);
}

#[test]
fn fetching_is_watched() {
    let watch = |event| watch_pull(b"scp", &event);
    let failed = |error: &str, kill| PullWatch::Failed {
        error: error.into(),
        kill,
    };
    assert_eq!(
        watch(PullEvent::Running { sent: 7 }),
        PullWatch::Tell(progress_frame(7))
    );
    assert_eq!(watch(PullEvent::Fetched), PullWatch::Open);
    assert_eq!(
        watch(PullEvent::Exited { status: "s".into() }),
        failed("scp exited with s", false)
    );
    assert_eq!(
        watch(PullEvent::Lost { error: "e".into() }),
        failed("waiting on scp: e", false)
    );
    assert_eq!(
        watch(PullEvent::ClientGone),
        failed("remote client disconnected during the transfer", true)
    );
}
