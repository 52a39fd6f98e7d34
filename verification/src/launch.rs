//! Hands requests to the local VS Code CLI and the local browser: which
//! program, with which arguments, and what its exit means.

use vstd::prelude::*;
use vstd::utf8::*;

use crate::path;
use crate::path::{bytes_of, join};
use crate::proto::{Action, ActionView, Kind, WindowMode};
use crate::text;
use crate::text::{lossy, trim};
use crate::uri;

verus! {

// ---- what the code CLI is asked ----

/// VS Code's name for a host reached over ssh.
pub open spec fn authority_of(alias: Seq<char>) -> Seq<char> {
    "ssh-remote+"@ + alias
}

/// The URI of `path` on the host `alias`.
pub open spec fn uri_of(alias: Seq<char>, path: Seq<char>) -> Seq<char> {
    "vscode-remote://ssh-remote+"@ + alias + uri::escaped_path(path)
}

/// The URI under which VS Code finds `path` on the host `alias`.
pub fn remote_uri(alias: &str, path: &str) -> (r: String)
    ensures
        r@ == uri_of(alias@, path@),
{
    let encoded = uri::encode_path(path);
    "vscode-remote://ssh-remote+".to_owned().concat(alias).concat(encoded.as_str())
}

/// A path with the position to jump to, where one is given: a column counts
/// only after a line.
pub open spec fn positioned(path: Seq<char>, line: u32, col: u32) -> Seq<char> {
    if line == 0 {
        path
    } else if col == 0 {
        path + ":"@ + text::decimal(line as nat)
    } else {
        path + ":"@ + text::decimal(line as nat) + ":"@ + text::decimal(col as nat)
    }
}

/// The flag that blocks until the editor is closed.
pub open spec fn wait_args(wait: bool) -> Seq<Seq<char>> {
    if wait {
        seq!["--wait"@]
    } else {
        Seq::empty()
    }
}

/// The flag that chooses the window.
pub open spec fn window_args(window: WindowMode) -> Seq<Seq<char>> {
    match window {
        WindowMode::New => seq!["--new-window"@],
        WindowMode::Reuse => seq!["--reuse-window"@],
        WindowMode::Default => Seq::empty(),
    }
}

/// What to open: folders by URI, files by `--goto` so that positions work,
/// pairs by `--diff`.
pub open spec fn target_args(alias: Seq<char>, action: ActionView) -> Seq<Seq<char>> {
    match action {
        ActionView::Open { kind: Kind::Folder, path, .. } => seq![
            "--folder-uri"@,
            uri_of(alias, path),
        ],
        ActionView::Open { kind: Kind::File, path, line, col } => seq![
            "--remote"@,
            authority_of(alias),
            "--goto"@,
            positioned(path, line, col),
        ],
        ActionView::Diff { left, right } => seq![
            "--remote"@,
            authority_of(alias),
            "--diff"@,
            left,
            right,
        ],
        ActionView::Url { .. } => Seq::empty(),
    }
}

/// The whole command line of the `code` CLI.
pub open spec fn code_command(
    alias: Seq<char>,
    action: ActionView,
    window: WindowMode,
    wait: bool,
) -> Seq<Seq<char>> {
    wait_args(wait) + window_args(window) + target_args(alias, action)
}

/// A path with its position, as `--goto` takes it.
pub fn goto_target(path: &str, line: u32, col: u32) -> (r: String)
    ensures
        r@ == positioned(path@, line, col),
{
    let mut target = path.to_owned();
    if line > 0 {
        target.append(":");
        target.append(text::decimal_text(line as u64).as_str());
        if col > 0 {
            target.append(":");
            target.append(text::decimal_text(col as u64).as_str());
        }
    }
    target
}

/// The argv for the local `code` CLI. Folders go through `--folder-uri`;
/// files ride `--remote` + `--goto` so positions work; diffs ride `--remote` +
/// `--diff`. Plain paths (not URIs) are fine with `--remote` because senders
/// always send absolute paths. URLs never reach the `code` CLI.
pub fn code_args(alias: &str, action: &Action, window: WindowMode, wait: bool) -> (r: Vec<String>)
    requires
        !(action is Url),
    ensures
        text::texts(r@) == code_command(alias@, action@, window, wait),
{
    broadcast use text::lemma_texts_push;

    let mut args: Vec<String> = Vec::new();
    assert(text::texts(args@) =~= Seq::empty());
    if wait {
        args.push("--wait".to_owned());
    }
    assert(text::texts(args@) =~= wait_args(wait));
    match window {
        WindowMode::New => args.push("--new-window".to_owned()),
        WindowMode::Reuse => args.push("--reuse-window".to_owned()),
        WindowMode::Default => {},
    }
    let ghost head = text::texts(args@);
    assert(head =~= wait_args(wait) + window_args(window));
    match action {
        Action::Open { kind, path, line, col } => {
            match kind {
                Kind::Folder => {
                    args.push("--folder-uri".to_owned());
                    args.push(remote_uri(alias, path.as_str()));
                },
                Kind::File => {
                    args.push("--remote".to_owned());
                    args.push("ssh-remote+".to_owned().concat(alias));
                    args.push("--goto".to_owned());
                    args.push(goto_target(path.as_str(), *line, *col));
                },
            }
        },
        Action::Diff { left, right } => {
            args.push("--remote".to_owned());
            args.push("ssh-remote+".to_owned().concat(alias));
            args.push("--diff".to_owned());
            args.push(left.as_str().to_owned());
            args.push(right.as_str().to_owned());
        },
        Action::Url { .. } => {},
    }
    assert(text::texts(args@) =~= head + target_args(alias@, action@));
    args
}

// ---- which program runs ----

/// The program `name` in the first of the directories that has such a file.
pub open spec fn found_in(name: Seq<char>, dirs: Seq<Seq<u8>>, is_file: Seq<bool>) -> Option<
    Seq<u8>,
> {
    path::first_where(path::in_each(dirs, encode_utf8(name)), is_file)
}

/// The program `name` in the first of the directories that has such a file.
/// `is_file` says of each directory whether it has.
pub fn which(name: &str, dirs: &[Vec<u8>], is_file: &[bool]) -> (r: Option<Vec<u8>>)
    requires
        is_file@.len() == dirs@.len(),
    ensures
        path::maybe(r) == found_in(name@, path::deep(dirs@), is_file@),
{
    let candidates = path::join_each(dirs, name.as_bytes());
    assert(path::deep(candidates@).len() == candidates@.len());
    path::first_of(candidates.as_slice(), is_file)
}

/// VS Code's CLI inside an application directory.
pub const APP_CODE: &'static str =
    "Applications/Visual Studio Code.app/Contents/Resources/app/bin/code";

/// The places a `code` CLI is looked for when `PATH` has none, in order. The
/// daemon may run without the shell's full `PATH`.
pub open spec fn fallbacks_of(home: Option<Seq<u8>>) -> Seq<Seq<u8>> {
    let shared = path::joined(encode_utf8("/"@), encode_utf8(APP_CODE@));
    let rest = seq![encode_utf8("/usr/local/bin/code"@), encode_utf8("/usr/bin/code"@)];
    match home {
        None => seq![shared] + rest,
        Some(h) => seq![shared, path::joined(h, encode_utf8(APP_CODE@))] + rest,
    }
}

/// The places a `code` CLI is looked for when `PATH` has none, in order.
pub fn code_fallbacks(home: &Option<Vec<u8>>) -> (r: Vec<Vec<u8>>)
    ensures
        path::deep(r@) == fallbacks_of(path::maybe(*home)),
{
    broadcast use path::lemma_deep_push;

    let mut out: Vec<Vec<u8>> = Vec::new();
    assert(path::deep(out@) =~= Seq::empty());
    out.push(join("/".as_bytes(), APP_CODE.as_bytes()));
    match home {
        Some(h) => out.push(join(h.as_slice(), APP_CODE.as_bytes())),
        None => {},
    }
    out.push(bytes_of("/usr/local/bin/code".as_bytes()));
    out.push(bytes_of("/usr/bin/code".as_bytes()));
    assert(path::deep(out@) =~= fallbacks_of(path::maybe(*home)));
    out
}

/// The `code` CLI to run: the one that `$BACKCHANNEL_CODE` names, else the
/// one on `PATH`, else the first fallback that is there.
pub open spec fn code_found(
    named: Option<Seq<u8>>,
    on_path: Option<Seq<u8>>,
    home: Option<Seq<u8>>,
    is_file: Seq<bool>,
) -> Option<Seq<u8>> {
    match (named, on_path) {
        (Some(p), _) => Some(p),
        (None, Some(p)) => Some(p),
        (None, None) => path::first_where(fallbacks_of(home), is_file),
    }
}

/// The `code` CLI to run. `is_file` says of each of `code_fallbacks(home)`
/// whether a file is there.
pub fn find_code(
    named: Option<Vec<u8>>,
    on_path: Option<Vec<u8>>,
    home: &Option<Vec<u8>>,
    is_file: &[bool],
) -> (r: Option<Vec<u8>>)
    requires
        is_file@.len() == fallbacks_of(path::maybe(*home)).len(),
    ensures
        path::maybe(r) == code_found(path::maybe(named), path::maybe(on_path), path::maybe(*home), is_file@),
{
    if named.is_some() {
        return named;
    }
    if on_path.is_some() {
        return on_path;
    }
    let candidates = code_fallbacks(home);
    assert(path::deep(candidates@).len() == candidates@.len());
    path::first_of(candidates.as_slice(), is_file)
}

/// The program that opens URLs: the one that `$BACKCHANNEL_OPENER` names,
/// else the system's own, else the one on `PATH`.
pub open spec fn opener_found(
    named: Option<Seq<u8>>,
    system: Option<Seq<u8>>,
    on_path: Option<Seq<u8>>,
) -> Option<Seq<u8>> {
    match (named, system) {
        (Some(p), _) => Some(p),
        (None, Some(p)) => Some(p),
        (None, None) => on_path,
    }
}

/// The program that opens URLs.
pub fn find_opener(
    named: Option<Vec<u8>>,
    system: Option<Vec<u8>>,
    on_path: Option<Vec<u8>>,
) -> (r: Option<Vec<u8>>)
    ensures
        path::maybe(r) == opener_found(path::maybe(named), path::maybe(system), path::maybe(on_path)),
{
    if named.is_some() {
        return named;
    }
    if system.is_some() {
        return system;
    }
    on_path
}

/// A program to start, with its arguments.
#[derive(Debug, Clone, PartialEq, Eq)]
pub struct Launch {
    pub program: Vec<u8>,
    pub args: Vec<String>,
}

/// `Launch` by its contents.
pub struct LaunchView {
    pub program: Seq<u8>,
    pub args: Seq<Seq<char>>,
}

impl View for Launch {
    type V = LaunchView;

    open spec fn view(&self) -> LaunchView {
        LaunchView { program: self.program@, args: text::texts(self.args@) }
    }
}

/// What is said when there is no `code` CLI.
pub const NO_CODE: &'static str =
    "could not find the `code` CLI — install VS Code's shell command or set BACKCHANNEL_CODE";

/// What is said when nothing opens URLs.
pub const NO_OPENER: &'static str =
    "no URL opener found — install xdg-open, or set BACKCHANNEL_OPENER to a command that takes a URL argument";

/// How to run the `code` CLI with `args`, or what is said without one.
pub open spec fn code_launch(code: Option<Seq<u8>>, args: Seq<Seq<char>>) -> Result<
    LaunchView,
    Seq<char>,
> {
    match code {
        Some(program) => Ok(LaunchView { program, args }),
        None => Err(NO_CODE@),
    }
}

/// How to run the `code` CLI with `args`.
pub fn run_code(code: Option<Vec<u8>>, args: Vec<String>) -> (r: Result<Launch, String>)
    ensures
        match code_launch(path::maybe(code), text::texts(args@)) {
            Ok(launch) => r is Ok && r->Ok_0@ == launch,
            Err(e) => r is Err && r->Err_0@ == e,
        },
{
    match code {
        Some(program) => Ok(Launch { program, args }),
        None => Err(NO_CODE.to_owned()),
    }
}

/// How to open a URL in the local default browser, or what is said when
/// nothing does.
pub open spec fn url_launch(opener: Option<Seq<u8>>, url: Seq<char>) -> Result<
    LaunchView,
    Seq<char>,
> {
    match opener {
        Some(program) => Ok(LaunchView { program, args: seq![url] }),
        None => Err(NO_OPENER@),
    }
}

/// How to open a URL in the local default browser.
pub fn open_url(opener: Option<Vec<u8>>, url: &str) -> (r: Result<Launch, String>)
    ensures
        match url_launch(path::maybe(opener), url@) {
            Ok(launch) => r is Ok && r->Ok_0@ == launch,
            Err(e) => r is Err && r->Err_0@ == e,
        },
{
    broadcast use text::lemma_texts_push;

    match opener {
        Some(program) => {
            let mut args: Vec<String> = Vec::new();
            assert(text::texts(args@) =~= Seq::empty());
            args.push(url.to_owned());
            assert(text::texts(args@) =~= seq![url@]);
            Ok(Launch { program, args })
        },
        None => Err(NO_OPENER.to_owned()),
    }
}

/// What is said when `program` cannot be started.
pub open spec fn spawn_failure(program: Seq<u8>, error: Seq<char>) -> Seq<char> {
    "spawning "@ + text::text_of(program) + ": "@ + error
}

/// What is said when `program` cannot be started.
pub fn spawn_error(program: &[u8], error: &str) -> (r: String)
    ensures
        r@ == spawn_failure(program@, error@),
{
    "spawning ".to_owned().concat(lossy(program).as_str()).concat(": ").concat(error)
}

/// How a launched program ended.
#[derive(Debug, Clone, PartialEq, Eq)]
pub enum Reaped {
    Success,
    /// It failed, with this status and this on stderr.
    Failure { status: String, stderr: Vec<u8> },
    /// It could not be waited for.
    Lost { error: String },
}

/// What is logged of a launched program's end: nothing when it went well.
pub open spec fn reap_note(program: Seq<u8>, reaped: Reaped) -> Option<Seq<char>> {
    match reaped {
        Reaped::Success => None,
        Reaped::Failure { status, stderr } => Some(
            text::text_of(program) + " exited with "@ + status@ + ": "@ + text::trimmed(
                text::text_of(stderr@),
            ),
        ),
        Reaped::Lost { error } => Some(
            "waiting on "@ + text::text_of(program) + ": "@ + error@,
        ),
    }
}

/// What to log of a launched program's end. Launchers exit almost at once
/// after handing off to the running app, so this is where their failures
/// show.
pub fn reap(program: &[u8], reaped: &Reaped) -> (r: Option<String>)
    ensures
        text::maybe(r) == reap_note(program@, *reaped),
{
    match reaped {
        Reaped::Success => None,
        Reaped::Failure { status, stderr } => {
            let said = trim(lossy(stderr.as_slice()).as_str());
            Some(
                lossy(program).concat(" exited with ").concat(status.as_str()).concat(
                    ": ",
                ).concat(said.as_str()),
            )
        },
        Reaped::Lost { error } => Some(
            "waiting on ".to_owned().concat(lossy(program).as_str()).concat(": ").concat(
                error.as_str(),
            ),
        ),
    }
}

// ---- waiting for the editor ----

/// How the waiting CLI ended.
#[derive(Debug, Clone, PartialEq, Eq)]
pub enum CodeExit {
    Success,
    /// It failed, with this status and this on stderr.
    Failure { status: String, stderr: String },
    /// Its status could not be had.
    Lost { error: String },
    /// Whoever waited for it is gone.
    WaiterGone,
}

/// What a look at the client's connection showed.
#[derive(Debug, Clone, Copy, PartialEq, Eq, Structural)]
pub enum ClientState {
    /// The client hung up.
    Closed,
    /// The client sent something; it is still unread.
    Pending,
    /// The look was interrupted.
    Interrupted,
    /// The connection failed.
    Broken,
}

/// What happens while the editor is open.
#[derive(Debug, Clone, PartialEq, Eq)]
pub enum WaitEvent {
    /// Sleeping was interrupted, or nothing had happened after all.
    Nothing,
    /// Sleeping failed.
    PollFailed { error: String },
    /// The CLI exited: the editor was closed, or the CLI was killed.
    Exited(CodeExit),
    /// The client's connection has news.
    Client(ClientState),
}

/// `CodeExit` with its strings taken as characters.
pub enum CodeExitView {
    Success,
    Failure { status: Seq<char>, stderr: Seq<char> },
    Lost { error: Seq<char> },
    WaiterGone,
}

/// `WaitEvent` with its strings taken as characters.
pub enum WaitEventView {
    Nothing,
    PollFailed { error: Seq<char> },
    Exited(CodeExitView),
    Client(ClientState),
}

impl View for CodeExit {
    type V = CodeExitView;

    open spec fn view(&self) -> CodeExitView {
        match self {
            CodeExit::Success => CodeExitView::Success,
            CodeExit::Failure { status, stderr } => CodeExitView::Failure {
                status: status@,
                stderr: stderr@,
            },
            CodeExit::Lost { error } => CodeExitView::Lost { error: error@ },
            CodeExit::WaiterGone => CodeExitView::WaiterGone,
        }
    }
}

impl View for WaitEvent {
    type V = WaitEventView;

    open spec fn view(&self) -> WaitEventView {
        match self {
            WaitEvent::Nothing => WaitEventView::Nothing,
            WaitEvent::PollFailed { error } => WaitEventView::PollFailed { error: error@ },
            WaitEvent::Exited(e) => WaitEventView::Exited(e@),
            WaitEvent::Client(c) => WaitEventView::Client(*c),
        }
    }
}

/// A spawned `code --wait` CLI that a client waits for.
#[derive(Debug, Clone, Copy, PartialEq, Eq)]
pub struct WaitingCode {
    /// The client's connection is still looked at.
    watching: bool,
    /// The client is gone.
    disconnected: bool,
}

/// `WaitingCode` by its contents.
#[verifier::ext_equal]
pub struct WaitingCodeView {
    pub watching: bool,
    pub disconnected: bool,
}

impl View for WaitingCode {
    type V = WaitingCodeView;

    closed spec fn view(&self) -> WaitingCodeView {
        WaitingCodeView { watching: self.watching, disconnected: self.disconnected }
    }
}

/// What to do about an event.
#[derive(Debug, Clone, PartialEq, Eq)]
pub struct WaitStep {
    /// Terminate the waiting CLI.
    pub kill: bool,
    /// Log that the client's data stays queued.
    pub note_queued: bool,
    /// The wait is over, with this result.
    pub done: Option<Result<(), String>>,
}

/// `WaitStep` with its strings taken as characters.
pub struct WaitStepView {
    pub kill: bool,
    pub note_queued: bool,
    pub done: Option<Result<(), Seq<char>>>,
}

impl View for WaitStep {
    type V = WaitStepView;

    open spec fn view(&self) -> WaitStepView {
        WaitStepView {
            kill: self.kill,
            note_queued: self.note_queued,
            done: match self.done {
                None => None,
                Some(Ok(())) => Some(Ok(())),
                Some(Err(e)) => Some(Err(e@)),
            },
        }
    }
}

/// What is said when the client hung up before the editor was closed.
pub const DISCONNECTED: &'static str = "remote client disconnected during --wait";

/// What the CLI's exit means for a client that is gone or still there.
pub open spec fn exit_result(disconnected: bool, exit: CodeExitView) -> Result<(), Seq<char>> {
    match exit {
        CodeExitView::Lost { error } => Err("waiting on code: "@ + error),
        CodeExitView::WaiterGone => Err("child waiter thread vanished"@),
        CodeExitView::Success => if disconnected {
            Err(DISCONNECTED@)
        } else {
            Ok(())
        },
        CodeExitView::Failure { status, stderr } => if disconnected {
            Err(DISCONNECTED@)
        } else {
            Err("code exited with "@ + status + ": "@ + text::trimmed(stderr))
        },
    }
}

impl WaitingCodeView {
    /// The state after `event`.
    pub open spec fn next(self, event: WaitEventView) -> WaitingCodeView {
        match event {
            WaitEventView::Client(c) if self.watching => match c {
                ClientState::Closed | ClientState::Broken => WaitingCodeView {
                    watching: false,
                    disconnected: true,
                },
                ClientState::Pending => WaitingCodeView { watching: false, ..self },
                ClientState::Interrupted => self,
            },
            _ => self,
        }
    }

    /// What to do about `event`.
    pub open spec fn step(self, event: WaitEventView) -> WaitStepView {
        WaitStepView {
            kill: event is PollFailed || (self.watching && (event == WaitEventView::Client(
                ClientState::Closed,
            ) || event == WaitEventView::Client(ClientState::Broken))),
            note_queued: self.watching && event == WaitEventView::Client(ClientState::Pending),
            done: match event {
                WaitEventView::PollFailed { error } => Some(
                    Err("poll failed during --wait: "@ + error),
                ),
                WaitEventView::Exited(exit) => Some(exit_result(self.disconnected, exit)),
                _ => None,
            },
        }
    }
}

/// The state in which a wait begins.
pub open spec fn wait_begins() -> WaitingCodeView {
    WaitingCodeView { watching: true, disconnected: false }
}

/// How to start a `code` CLI that a client waits for, and the wait for it.
pub fn spawn_code_waiting(code: Option<Vec<u8>>, args: Vec<String>) -> (r: Result<
    (Launch, WaitingCode),
    String,
>)
    ensures
        match code_launch(path::maybe(code), text::texts(args@)) {
            Ok(l) => r matches Ok((launch, wc)) && launch@ == l && wc@ == wait_begins(),
            Err(e) => r is Err && r->Err_0@ == e,
        },
{
    match run_code(code, args) {
        Ok(launch) => Ok((launch, WaitingCode { watching: true, disconnected: false })),
        Err(e) => Err(e),
    }
}

/// Takes one event of the wait for an editor. The wait is over when the CLI
/// exits (the editor was closed). When the client's connection dies first
/// (remote Ctrl-C, dropped ssh session), the CLI is killed so it doesn't wait
/// forever; its exit then ends the wait. The editor window itself stays open
/// either way. What a client sends meanwhile is never read here, so it stays
/// intact for whoever reads frames once the wait is over.
pub fn wait_until_closed(wc: &mut WaitingCode, event: WaitEvent) -> (r: WaitStep)
    ensures
        final(wc)@ == old(wc)@.next(event@),
        r@ == old(wc)@.step(event@),
{
    let mut step = WaitStep { kill: false, note_queued: false, done: None };
    match event {
        WaitEvent::Nothing => {},
        WaitEvent::PollFailed { error } => {
            step.kill = true;
            step.done = Some(
                Err("poll failed during --wait: ".to_owned().concat(error.as_str())),
            );
        },
        WaitEvent::Exited(exit) => {
            let result = match exit {
                CodeExit::Lost { error } => Err(
                    "waiting on code: ".to_owned().concat(error.as_str()),
                ),
                CodeExit::WaiterGone => Err("child waiter thread vanished".to_owned()),
                CodeExit::Success => if wc.disconnected {
                    Err(DISCONNECTED.to_owned())
                } else {
                    Ok(())
                },
                CodeExit::Failure { status, stderr } => if wc.disconnected {
                    Err(DISCONNECTED.to_owned())
                } else {
                    Err(
                        "code exited with ".to_owned().concat(status.as_str()).concat(": ").concat(
                            trim(stderr.as_str()).as_str(),
                        ),
                    )
                },
            };
            step.done = Some(result);
        },
        WaitEvent::Client(state) => {
            if wc.watching {
                match state {
                    ClientState::Closed => {
                        step.kill = true;
                        wc.disconnected = true;
                        wc.watching = false;
                    },
                    ClientState::Broken => {
                        step.kill = true;
                        wc.disconnected = true;
                        wc.watching = false;
                    },
                    ClientState::Pending => {
                        step.note_queued = true;
                        wc.watching = false;
                    },
                    ClientState::Interrupted => {},
                }
            }
        },
    }
    step
}

impl WaitingCode {
    /// Whether the client's connection is still to be looked at.
    pub fn watches_client(&self) -> (r: bool)
        ensures
            r == self@.watching,
    {
        self.watching
    }
}

// ---- what holds of a whole wait ----

/// The state after `events`, in their order.
pub open spec fn wait_after(events: Seq<WaitEventView>) -> WaitingCodeView
    decreases events.len(),
{
    if events.len() == 0 {
        wait_begins()
    } else {
        wait_after(events.drop_last()).next(events.last())
    }
}

/// The event ends the client's part: it hung up, failed or sent something.
pub open spec fn settles(event: WaitEventView) -> bool {
    event matches WaitEventView::Client(c) && c != ClientState::Interrupted
}

/// The first thing that settled the client's part was its end.
pub open spec fn client_lost(events: Seq<WaitEventView>) -> bool {
    exists|i: int|
        #![trigger events[i]]
        0 <= i < events.len() && settles(events[i]) && events[i] != WaitEventView::Client(
            ClientState::Pending,
        ) && forall|j: int| 0 <= j < i ==> !settles(#[trigger] events[j])
}

/// How often the CLI was killed over `events`.
pub open spec fn kills(events: Seq<WaitEventView>) -> nat
    decreases events.len(),
{
    if events.len() == 0 {
        0
    } else {
        kills(events.drop_last()) + (if wait_after(events.drop_last()).step(events.last()).kill {
            1nat
        } else {
            0nat
        })
    }
}

/// The connection is watched until something settles the client's part, and
/// the client counts as gone exactly when that was its end.
pub proof fn law_wait_state(events: Seq<WaitEventView>)
    ensures
        wait_after(events).watching == (forall|i: int|
            0 <= i < events.len() ==> !settles(#[trigger] events[i])),
        wait_after(events).disconnected == client_lost(events),
    decreases events.len(),
{
    if events.len() > 0 {
        let init = events.drop_last();
        let last = events.last();
        law_wait_state(init);
        assert(forall|i: int| 0 <= i < init.len() ==> init[i] == events[i]);
        if client_lost(init) {
            let k = choose|i: int|
                #![trigger init[i]]
                0 <= i < init.len() && settles(init[i]) && init[i] != WaitEventView::Client(
                    ClientState::Pending,
                ) && forall|j: int| 0 <= j < i ==> !settles(#[trigger] init[j]);
            assert(events[k] == init[k]);
            assert(client_lost(events));
            assert(!wait_after(init).watching);
        } else {
            if wait_after(events).disconnected {
                assert(events[events.len() - 1] == last);
                assert(client_lost(events));
            }
            if client_lost(events) {
                let k = choose|i: int|
                    #![trigger events[i]]
                    0 <= i < events.len() && settles(events[i]) && events[i]
                        != WaitEventView::Client(ClientState::Pending) && forall|j: int|
                        0 <= j < i ==> !settles(#[trigger] events[j]);
                if k < init.len() {
                    assert(init[k] == events[k]);
                    assert(client_lost(init));
                }
                assert(k == events.len() - 1);
                assert(wait_after(init).watching);
            }
        }
        if wait_after(events).watching {
            assert(wait_after(init).watching);
        }
        if forall|i: int| 0 <= i < events.len() ==> !settles(#[trigger] events[i]) {
            assert(!settles(events[events.len() - 1]));
            assert(forall|i: int| 0 <= i < init.len() ==> !settles(#[trigger] init[i]));
        }
        if wait_after(init).watching && !settles(last) {
            assert forall|i: int| 0 <= i < events.len() implies !settles(#[trigger] events[i]) by {
                if i < init.len() {
                    assert(events[i] == init[i]);
                }
            }
        }
        if !wait_after(init).watching {
            let k = choose|i: int| 0 <= i < init.len() && settles(#[trigger] init[i]);
            assert(settles(events[k]));
        }
    }
}

/// A wait succeeds exactly when the editor closed cleanly and the client did
/// not hang up first: a client that is gone is never told of success, and one
/// that sent something early still is.
pub proof fn law_wait_outcome(events: Seq<WaitEventView>, exit: CodeExitView)
    ensures
        wait_after(events).step(WaitEventView::Exited(exit)).done == Some(
            Ok::<(), Seq<char>>(()),
        ) <==> exit is Success && !client_lost(events),
        wait_after(events).step(WaitEventView::Exited(exit)).done is Some,
{
    law_wait_state(events);
}

/// While sleeping works, the CLI is killed once when the client is lost, and
/// otherwise never.
pub proof fn law_one_kill(events: Seq<WaitEventView>)
    requires
        forall|i: int| 0 <= i < events.len() ==> !(#[trigger] events[i] is PollFailed),
    ensures
        kills(events) == (if client_lost(events) {
            1nat
        } else {
            0nat
        }),
    decreases events.len(),
{
    law_wait_state(events);
    if events.len() > 0 {
        let init = events.drop_last();
        assert forall|i: int| 0 <= i < init.len() implies !(#[trigger] init[i] is PollFailed) by {
            assert(init[i] == events[i]);
        }
        law_one_kill(init);
        law_wait_state(init);
        assert(!(events[events.len() - 1] is PollFailed));
        if client_lost(init) {
            let k = choose|i: int|
                #![trigger init[i]]
                0 <= i < init.len() && settles(init[i]) && init[i] != WaitEventView::Client(
                    ClientState::Pending,
                ) && forall|j: int| 0 <= j < i ==> !settles(#[trigger] init[j]);
            assert(!wait_after(init).watching);
        }
    }
}

// ---- what every command line holds ----

/// Whatever is opened, the flags stand in front of it, each exactly when it
/// was asked for: `--wait` first, then the window's; and what follows them is
/// the same as without any.
pub proof fn law_flags_in_front(alias: Seq<char>, action: ActionView, window: WindowMode, wait: bool)
    requires
        !(action is Url),
    ensures
        ({
            let args = code_command(alias, action, window, wait);
            let plain = code_command(alias, action, WindowMode::Default, false);
            let w = if wait { 1int } else { 0int };
            let n = if window == WindowMode::Default { w } else { w + 1 };
            &&& args.len() == n + plain.len()
            &&& args.skip(n) == plain
            &&& wait ==> args[0] == "--wait"@
            &&& window == WindowMode::New ==> args[w] == "--new-window"@
            &&& window == WindowMode::Reuse ==> args[w] == "--reuse-window"@
            &&& plain.len() >= 2
            &&& plain[0] == "--folder-uri"@ || plain[0] == "--remote"@
        }),
{
    let args = code_command(alias, action, window, wait);
    let plain = code_command(alias, action, WindowMode::Default, false);
    let w = if wait { 1int } else { 0int };
    let n = if window == WindowMode::Default { w } else { w + 1 };
    let target = target_args(alias, action);
    assert(plain =~= target);
    assert(args.skip(n) =~= target);
}

/// Flags come from what was asked and from nothing else: in front of the
/// target `--wait` stands exactly when waiting was asked for, `--new-window`
/// exactly for a new window and `--reuse-window` exactly for the last one.
pub proof fn law_no_other_flags(alias: Seq<char>, action: ActionView, window: WindowMode, wait: bool)
    requires
        !(action is Url),
    ensures
        ({
            let args = code_command(alias, action, window, wait);
            let n = args.len() - code_command(alias, action, WindowMode::Default, false).len();
            &&& args.take(n).contains("--wait"@) <==> wait
            &&& args.take(n).contains("--new-window"@) <==> window == WindowMode::New
            &&& args.take(n).contains("--reuse-window"@) <==> window == WindowMode::Reuse
        }),
{
    law_flags_in_front(alias, action, window, wait);
    reveal_strlit("--wait");
    reveal_strlit("--new-window");
    reveal_strlit("--reuse-window");
    assert("--wait"@.len() == 6 && "--new-window"@.len() == 12 && "--reuse-window"@.len() == 14);
    let args = code_command(alias, action, window, wait);
    let n = args.len() - code_command(alias, action, WindowMode::Default, false).len();
    let w = if wait { 1int } else { 0int };
    let flags = args.take(n);
    if wait {
        assert(flags[0] == "--wait"@);
    }
    if window != WindowMode::Default {
        assert(flags[w] == args[w]);
    }
    assert forall|i: int| 0 <= i < n implies (flags[i] == "--wait"@ && wait) || (flags[i]
        == "--new-window"@ && window == WindowMode::New) || (flags[i] == "--reuse-window"@
        && window == WindowMode::Reuse) by {
        assert(i == 0 || i == w);
    }
}

/// A folder is opened by a URI that names the host as its user does and
/// gives the whole path back; a position changes nothing.
pub proof fn law_folder_target(alias: Seq<char>, path: Seq<char>, line: u32, col: u32)
    ensures
        ({
            let folder = ActionView::Open { kind: Kind::Folder, path, line, col };
            let args = code_command(alias, folder, WindowMode::Default, false);
            let front = "vscode-remote://ssh-remote+"@ + alias;
            &&& args.len() == 2
            &&& args[0] == "--folder-uri"@
            &&& text::starts_with(args[1], front)
            &&& uri::unescaped(args[1].skip(front.len() as int)) == Some(encode_utf8(path))
        }),
{
    let folder = ActionView::Open { kind: Kind::Folder, path, line, col };
    let args = code_command(alias, folder, WindowMode::Default, false);
    assert(args =~= target_args(alias, folder));
    text::lemma_prefixed("vscode-remote://ssh-remote+"@ + alias, uri::escaped_path(path));
    uri::law_path_survives(path);
}

/// A file is opened on its host at its path, with the line and the column
/// that were given: none without a line, no column without one.
pub proof fn law_file_target(alias: Seq<char>, path: Seq<char>, line: u32, col: u32)
    ensures
        ({
            let file = ActionView::Open { kind: Kind::File, path, line, col };
            let args = code_command(alias, file, WindowMode::Default, false);
            &&& args.len() == 4
            &&& args[0] == "--remote"@
            &&& args[1] == "ssh-remote+"@ + alias
            &&& args[2] == "--goto"@
            &&& text::starts_with(args[3], path)
            &&& line == 0 ==> args[3] == path
            &&& line > 0 && col == 0 ==> args[3].skip(path.len() as int) == seq![':']
                + text::decimal(line as nat)
            &&& line > 0 && col > 0 ==> args[3].skip(path.len() as int) == seq![':']
                + text::decimal(line as nat) + seq![':'] + text::decimal(col as nat)
        }),
{
    reveal_strlit(":");
    let file = ActionView::Open { kind: Kind::File, path, line, col };
    let args = code_command(alias, file, WindowMode::Default, false);
    assert(args =~= target_args(alias, file));
    let l = text::decimal(line as nat);
    let c = text::decimal(col as nat);
    assert(":"@ =~= seq![':']);
    if line == 0 {
        assert(path.subrange(0, path.len() as int) =~= path);
    } else if col == 0 {
        text::lemma_prefixed(path, seq![':'] + l);
        assert(path + ":"@ + l =~= path + (seq![':'] + l));
    } else {
        text::lemma_prefixed(path, seq![':'] + l + seq![':'] + c);
        assert(path + ":"@ + l + ":"@ + c =~= path + (seq![':'] + l + seq![':'] + c));
    }
}

/// A pair is compared on its host, the left path before the right.
pub proof fn law_diff_target(alias: Seq<char>, left: Seq<char>, right: Seq<char>)
    ensures
        code_command(alias, ActionView::Diff { left, right }, WindowMode::Default, false) == seq![
            "--remote"@,
            "ssh-remote+"@ + alias,
            "--diff"@,
            left,
            right,
        ],
{
    let diff = ActionView::Diff { left, right };
    assert(code_command(alias, diff, WindowMode::Default, false) =~= target_args(alias, diff));
}

/// The program that runs is the one the user named; without one the one on
/// `PATH`; and a fallback only where there is neither, the first that is
/// there.
pub proof fn law_code_preferred(
    named: Option<Seq<u8>>,
    on_path: Option<Seq<u8>>,
    home: Option<Seq<u8>>,
    is_file: Seq<bool>,
)
    requires
        is_file.len() == fallbacks_of(home).len(),
    ensures
        named is Some ==> code_found(named, on_path, home, is_file) == named,
        named is None && on_path is Some ==> code_found(named, on_path, home, is_file) == on_path,
        named is None && on_path is None ==> match code_found(named, on_path, home, is_file) {
            Some(p) => exists|i: int|
                0 <= i < is_file.len() && is_file[i] && fallbacks_of(home)[i] == p && (forall|j: int|
                    0 <= j < i ==> !is_file[j]),
            None => forall|i: int| 0 <= i < is_file.len() ==> !is_file[i],
        },
        fallbacks_of(home).len() == (if home is Some { 4int } else { 3int }),
        fallbacks_of(home).contains(encode_utf8("/usr/local/bin/code"@)),
        fallbacks_of(home).contains(encode_utf8("/usr/bin/code"@)),
{
    path::law_first_where(fallbacks_of(home), is_file);
    let n = fallbacks_of(home).len() as int;
    assert(fallbacks_of(home)[n - 2] == encode_utf8("/usr/local/bin/code"@));
    assert(fallbacks_of(home)[n - 1] == encode_utf8("/usr/bin/code"@));
}

/// The opener is the one the user named, else the system's, else the one on
/// `PATH`; a URL is handed to it as it is, and so are the arguments to the
/// `code` CLI.
pub proof fn law_opener_preferred(
    named: Option<Seq<u8>>,
    system: Option<Seq<u8>>,
    on_path: Option<Seq<u8>>,
    program: Seq<u8>,
    url: Seq<char>,
    args: Seq<Seq<char>>,
)
    ensures
        named is Some ==> opener_found(named, system, on_path) == named,
        named is None && system is Some ==> opener_found(named, system, on_path) == system,
        named is None && system is None ==> opener_found(named, system, on_path) == on_path,
        url_launch(Some(program), url) matches Ok(l) && l.program == program && l.args.len() == 1
            && l.args[0] == url,
        url_launch(None, url) == Err::<LaunchView, Seq<char>>(NO_OPENER@),
        code_launch(Some(program), args) matches Ok(l) && l.program == program && l.args == args,
        code_launch(None, args) == Err::<LaunchView, Seq<char>>(NO_CODE@),
{
}

/// A launched program that succeeded is not spoken of; of one that failed
/// the log names the program and its status and ends in what it said.
pub proof fn law_reap_note(program: Seq<u8>, reaped: Reaped)
    ensures
        reap_note(program, reaped) is None <==> reaped is Success,
        reaped matches Reaped::Failure { status, stderr } ==> {
            let said = text::trimmed(text::text_of(stderr@));
            let note = reap_note(program, reaped)->0;
            &&& text::starts_with(note, text::text_of(program))
            &&& text::contains(note, status@)
            &&& said.len() <= note.len()
            &&& note.skip(note.len() - said.len()) == said
        },
        reaped matches Reaped::Lost { error } ==> {
            let note = reap_note(program, reaped)->0;
            &&& text::contains(note, text::text_of(program))
            &&& error@.len() <= note.len()
            &&& note.skip(note.len() - error@.len()) == error@
        },
{
    let p = text::text_of(program);
    match reaped {
        Reaped::Success => {},
        Reaped::Failure { status, stderr } => {
            let said = text::trimmed(text::text_of(stderr@));
            let note = reap_note(program, reaped)->0;
            let at = (p.len() + " exited with "@.len()) as int;
            assert(note.subrange(0, p.len() as int) =~= p);
            assert(note.subrange(at, at + status@.len()) =~= status@);
            assert(text::stands_at(note, at, status@));
            assert(note.skip(note.len() - said.len()) =~= said);
        },
        Reaped::Lost { error } => {
            let note = reap_note(program, reaped)->0;
            let at = "waiting on "@.len() as int;
            assert(note.subrange(at, at + p.len()) =~= p);
            assert(text::stands_at(note, at, p));
            assert(note.skip(note.len() - error@.len()) =~= error@);
        },
    }
}

/// A wait ends well only for a client that is still there and an editor that
/// was closed in good order; the failure of the CLI is told with its status
/// and what it said.
pub proof fn law_exit_told(disconnected: bool, exit: CodeExitView)
    ensures
        exit_result(disconnected, exit) is Ok <==> !disconnected && exit is Success,
        exit matches CodeExitView::Failure { status, stderr } ==> !disconnected ==> {
            let said = text::trimmed(stderr);
            let told = exit_result(disconnected, exit)->Err_0;
            &&& text::contains(told, status)
            &&& said.len() <= told.len()
            &&& told.skip(told.len() - said.len()) == said
        },
        exit matches CodeExitView::Lost { error } ==> text::contains(
            exit_result(disconnected, exit)->Err_0,
            error,
        ),
        disconnected && (exit is Success || exit is Failure) ==> exit_result(disconnected, exit)
            == Err::<(), Seq<char>>("remote client disconnected during --wait"@),
{
    match exit {
        CodeExitView::Failure { status, stderr } => {
            let said = text::trimmed(stderr);
            if !disconnected {
                let told = exit_result(disconnected, exit)->Err_0;
                let at = "code exited with "@.len() as int;
                assert(told.subrange(at, at + status.len()) =~= status);
                assert(text::stands_at(told, at, status));
                assert(told.skip(told.len() - said.len()) =~= said);
            }
        },
        CodeExitView::Lost { error } => {
            let told = exit_result(disconnected, exit)->Err_0;
            let at = "waiting on code: "@.len() as int;
            assert(told.subrange(at, at + error.len()) =~= error);
            assert(text::stands_at(told, at, error));
        },
        _ => {},
    }
}

/// VS Code's CLI has the same name in every application directory.
pub proof fn lemma_app_code(home: Seq<u8>)
    ensures
        path::base_name(path::joined(encode_utf8("/"@), encode_utf8(APP_CODE@))) == Some(
            encode_utf8("code"@),
        ),
        path::base_name(path::joined(home, encode_utf8(APP_CODE@))) == Some(encode_utf8("code"@)),
{
    let front = "Applications/Visual Studio Code.app/Contents/Resources/app/bin/"@;
    reveal_strlit("Applications/Visual Studio Code.app/Contents/Resources/app/bin/");
    reveal_strlit("Applications/Visual Studio Code.app/Contents/Resources/app/bin/code");
    reveal_strlit("code");
    assert(APP_CODE@ =~= front + "code"@);
    uri::lemma_encode_concat(front, "code"@);
    is_ascii_chars_encode_utf8(front);
    is_ascii_chars_encode_utf8("code"@);
    let f = encode_utf8(front);
    let name = encode_utf8("code"@);
    assert(name[0] == 99 && name[1] == 111 && name[2] == 100 && name[3] == 101 && name.len() == 4);
    assert(path::plain_name(name));
    assert(f[0] == 65 && f.last() == 47);
    let whole = f + name;
    assert(!path::rooted(whole));
    lemma_app_behind(encode_utf8("/"@), f, name);
    lemma_app_behind(home, f, name);
}

proof fn lemma_app_behind(base: Seq<u8>, f: Seq<u8>, name: Seq<u8>)
    requires
        f.len() > 0,
        f.last() == path::SLASH,
        !path::rooted(f + name),
        path::plain_name(name),
    ensures
        path::base_name(path::joined(base, f + name)) == Some(name),
{
    let front = path::joined(base, f + name).take(path::joined(base, f + name).len() - name.len());
    let whole = path::joined(base, f + name);
    assert(front.last() == path::SLASH);
    path::law_base_name(front.drop_last(), name);
    assert(front.drop_last().push(path::SLASH) + name =~= whole);
}

/// What is said of a program that cannot be started names it and why.
pub proof fn law_spawn_failure(program: Seq<u8>, error: Seq<char>)
    ensures
        text::contains(spawn_failure(program, error), text::text_of(program)),
        text::contains(spawn_failure(program, error), error),
{
    let p = text::text_of(program);
    text::lemma_contained("spawning "@, p, ": "@ + error);
    assert("spawning "@ + p + (": "@ + error) =~= spawn_failure(program, error));
    text::lemma_contained("spawning "@ + p + ": "@, error, Seq::empty());
}

/// A program is found in the first directory that has it, by its own name,
/// and nowhere where none has.
pub proof fn law_found_first(name: Seq<char>, dirs: Seq<Seq<u8>>, is_file: Seq<bool>)
    requires
        is_file.len() == dirs.len(),
        path::plain_name(encode_utf8(name)),
    ensures
        match found_in(name, dirs, is_file) {
            Some(p) => exists|i: int|
                0 <= i < dirs.len() && #[trigger] is_file[i] && text::starts_with(p, dirs[i])
                    && path::base_name(p) == Some(encode_utf8(name)) && (forall|j: int|
                    0 <= j < i ==> !is_file[j]),
            None => forall|i: int| 0 <= i < is_file.len() ==> !is_file[i],
        },
{
    let all = path::in_each(dirs, encode_utf8(name));
    path::law_first_where(all, is_file);
    if let Some(p) = found_in(name, dirs, is_file) {
        let i = choose|i: int|
            0 <= i < all.len() && is_file[i] && all[i] == p && (forall|j: int|
                0 <= j < i ==> !is_file[j]);
        path::law_in_each(dirs, encode_utf8(name), i);
        assert(is_file[i]);
    }
}

}
