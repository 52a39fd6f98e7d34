//! The remote side: what to send down `$SSH_AUTH_SOCK`, which ssh has
//! forwarded back to the backchannel daemon on the local machine, and what
//! its replies mean.

use vstd::prelude::*;
use vstd::slice::slice_subrange;
use vstd::utf8::*;

use crate::install;
use crate::install::has_our_name;
use crate::launch;
use crate::path;
use crate::path::{bytes_of, clean, file_name, join, same_bytes, same_path};
use crate::proto;
use crate::proto::{Action, ActionView, Cursor, Kind, OpenMessage, OpenMessageView, OpenRequest, OpenRequestView, WindowMode};
use crate::proto::{SSH_AGENT_EXTENSION_FAILURE, SSH_AGENT_FAILURE, SSH_AGENT_SUCCESS};
use crate::text;
use crate::text::{chars_of, join_spaced, lossy, parse_u32, slice_text, text_starts_with};
use crate::url;
use crate::url::is_web;

verus! {

// ---- where this process runs ----

/// A variable that is set to something.
pub open spec fn set_var(v: Option<Seq<u8>>) -> bool {
    v matches Some(s) && s.len() > 0
}

/// Whether a variable is set to something.
fn is_set(v: &Option<Vec<u8>>) -> (r: bool)
    ensures
        r == set_var(path::maybe(*v)),
{
    match v {
        Some(s) => s.len() > 0,
        None => false,
    }
}

/// `$SSH_AUTH_SOCK` answers as a backchannel daemon.
pub open spec fn channel_live(sock: Option<Seq<u8>>, answer: Option<Seq<u8>>) -> bool {
    set_var(sock) && (answer matches Some(frame) && proto::decoded_ping(frame) is Some)
}

/// Whether `$SSH_AUTH_SOCK` answers as a backchannel daemon: `answer` is what
/// came back for a ping, if anything did.
pub fn channel_is_backchannel(sock: &Option<Vec<u8>>, answer: &Option<Vec<u8>>) -> (r: bool)
    ensures
        r == channel_live(path::maybe(*sock), path::maybe(*answer)),
{
    if !is_set(sock) {
        return false;
    }
    match answer {
        Some(frame) => crate::daemon::ping(frame.as_slice()).is_some(),
        None => false,
    }
}

/// This is an ssh session, by `$SSH_CONNECTION`, `$SSH_CLIENT` or `$SSH_TTY`.
pub open spec fn ssh_session(
    connection: Option<Seq<u8>>,
    client: Option<Seq<u8>>,
    tty: Option<Seq<u8>>,
) -> bool {
    set_var(connection) || set_var(client) || set_var(tty)
}

/// Whether this is an ssh session, by `$SSH_CONNECTION`, `$SSH_CLIENT` and
/// `$SSH_TTY`.
pub fn in_ssh_session(
    connection: &Option<Vec<u8>>,
    client: &Option<Vec<u8>>,
    tty: &Option<Vec<u8>>,
) -> (r: bool)
    ensures
        r == ssh_session(path::maybe(*connection), path::maybe(*client), path::maybe(*tty)),
{
    is_set(connection) || is_set(client) || is_set(tty)
}

/// The program was started under the name `code`, with an extension or not.
pub open spec fn named_code(program: Seq<u8>) -> bool {
    path::base_name(program) matches Some(name) && (name == encode_utf8("code"@) || (
    text::starts_with(name, encode_utf8("code."@)) && forall|i: int|
        encode_utf8("code."@).len() <= i < name.len() ==> name[i] != path::DOT))
}

/// Whether this process was started as the `code` shim.
pub fn is_code_shim(program: &[u8]) -> (r: bool)
    ensures
        r == named_code(program@),
{
    let name = match file_name(program) {
        Some(name) => name,
        None => {
            return false;
        },
    };
    if same_bytes(name.as_slice(), "code".as_bytes()) {
        return true;
    }
    let stem = "code.".as_bytes();
    if !text::bytes_stand_at(name.as_slice(), 0, stem) {
        return false;
    }
    let mut i: usize = stem.len();
    while i < name.len()
        invariant
            stem@.len() <= i <= name@.len(),
            stem@ == encode_utf8("code."@),
            path::base_name(program@) == Some(name@),
            name@ != encode_utf8("code"@),
            forall|j: int| stem@.len() <= j < i ==> name@[j] != path::DOT,
        decreases name@.len() - i,
    {
        if name[i] == path::DOT {
            return false;
        }
        i += 1;
    }
    true
}

/// The machine's name: the bytes up to the first NUL, and "unknown" where it
/// could not be had.
pub open spec fn host_named(buf: Option<Seq<u8>>) -> Seq<char> {
    match buf {
        None => "unknown"@,
        Some(b) => text::text_of(text::pieces(b, |x: u8| x == 0)[0]),
    }
}

/// The first piece is what stands before the first separator.
proof fn lemma_first_piece(s: Seq<u8>, n: int)
    requires
        0 <= n <= s.len(),
        forall|i: int| 0 <= i < n ==> s[i] != 0,
        n == s.len() || s[n] == 0,
    ensures
        text::pieces(s, |x: u8| x == 0).len() > 0,
        text::pieces(s, |x: u8| x == 0)[0] == s.take(n),
        (n == s.len()) == (text::pieces(s, |x: u8| x == 0).len() == 1),
    decreases s.len(),
{
    let sep = |x: u8| x == 0;
    if s.len() == 0 {
        assert(s.take(n) =~= Seq::empty());
    } else {
        let init = s.drop_last();
        assert forall|i: int| 0 <= i < init.len() implies init[i] == s[i] by {}
        if n == s.len() {
            lemma_first_piece(init, n - 1);
            assert(init.take(n - 1).push(s.last()) =~= s.take(n));
            assert(text::pieces(s, sep)[0] =~= s.take(n));
        } else {
            lemma_first_piece(init, n);
            assert(init.take(n) =~= s.take(n));
            if n == init.len() {
                assert(s.last() == 0);
            }
        }
    }
}

/// The machine's name, from what the system filled in.
pub fn hostname(buf: &Option<Vec<u8>>) -> (r: String)
    ensures
        r@ == host_named(path::maybe(*buf)),
{
    match buf {
        None => "unknown".to_owned(),
        Some(b) => {
            let n: usize = b.len();
            let mut end: usize = 0;
            while end < n && b[end] != 0
                invariant
                    end <= n == b@.len(),
                    forall|i: int| 0 <= i < end ==> b@[i] != 0,
                ensures
                    end <= n,
                    forall|i: int| 0 <= i < end ==> b@[i] != 0,
                    end == n || b@[end as int] == 0,
                decreases n - end,
            {
                end += 1;
            }
            proof {
                lemma_first_piece(b@, end as int);
                assert(b@.subrange(0, end as int) =~= b@.take(end as int));
            }
            lossy(slice_subrange(b.as_slice(), 0, end))
        },
    }
}

// ---- other programs named code ----

/// A `code` on PATH: whether a file is there, and what it resolves to.
#[derive(Debug, Clone, PartialEq, Eq)]
pub struct CodeCandidate {
    pub path: Vec<u8>,
    pub is_file: bool,
    pub resolved: Option<Vec<u8>>,
}

/// `CodeCandidate` by its contents.
pub struct CodeCandidateView {
    pub path: Seq<u8>,
    pub is_file: bool,
    pub resolved: Option<Seq<u8>>,
}

impl View for CodeCandidate {
    type V = CodeCandidateView;

    open spec fn view(&self) -> CodeCandidateView {
        CodeCandidateView {
            path: self.path@,
            is_file: self.is_file,
            resolved: path::maybe(self.resolved),
        }
    }
}

/// The candidates, each by its contents.
pub open spec fn candidates_of(v: Seq<CodeCandidate>) -> Seq<CodeCandidateView> {
    v.map_values(|c: CodeCandidate| c@)
}

/// A real `code`: it can be resolved, and not to this binary nor to another
/// shim, so that the shim can never recurse into itself.
pub open spec fn real_code(c: CodeCandidateView, self_exe: Option<Seq<u8>>) -> bool {
    c.is_file && c.resolved is Some && !install::our_name(c.resolved->0) && !(
    self_exe matches Some(e) && path::path_eq(c.resolved->0, e))
}

/// The first real `code` among the candidates.
pub open spec fn first_real(
    candidates: Seq<CodeCandidateView>,
    self_exe: Option<Seq<u8>>,
) -> Option<Seq<u8>>
    decreases candidates.len(),
{
    if candidates.len() == 0 {
        None
    } else if real_code(candidates[0], self_exe) {
        Some(candidates[0].path)
    } else {
        first_real(candidates.skip(1), self_exe)
    }
}

/// The machine's own `code`: the first real one on PATH, else what is
/// installed off it.
pub open spec fn local_code_found(
    on_path: Seq<CodeCandidateView>,
    self_exe: Option<Seq<u8>>,
    off_path: Option<Seq<u8>>,
) -> Option<Seq<u8>> {
    match first_real(on_path, self_exe) {
        Some(p) => Some(p),
        None => off_path,
    }
}

/// The machine's own `code`.
pub fn find_local_code(
    on_path: &[CodeCandidate],
    self_exe: &Option<Vec<u8>>,
    off_path: Option<Vec<u8>>,
) -> (r: Option<Vec<u8>>)
    ensures
        path::maybe(r) == local_code_found(
            candidates_of(on_path@),
            path::maybe(*self_exe),
            path::maybe(off_path),
        ),
{
    let ghost all = candidates_of(on_path@);
    let ghost own = path::maybe(*self_exe);
    let mut i: usize = 0;
    assert(all.skip(0) =~= all);
    while i < on_path.len()
        invariant
            i <= on_path@.len(),
            all == candidates_of(on_path@),
            own == path::maybe(*self_exe),
            first_real(all, own) == first_real(all.skip(i as int), own),
        decreases on_path@.len() - i,
    {
        assert(all.skip(i as int)[0] == on_path@[i as int]@);
        assert(all.skip(i as int).skip(1) =~= all.skip(i + 1));
        let c = &on_path[i];
        if c.is_file {
            if let Some(target) = &c.resolved {
                let own_exe = match self_exe {
                    Some(e) => same_path(target.as_slice(), e.as_slice()),
                    None => false,
                };
                if !own_exe && !has_our_name(target.as_slice()) {
                    return Some(bytes_of(c.path.as_slice()));
                }
            }
        }
        i += 1;
    }
    off_path
}

/// Where a `code` may be installed off PATH, in order.
pub open spec fn off_path_of(home: Option<Seq<u8>>) -> Seq<Seq<u8>> {
    let shared = path::joined(encode_utf8("/"@), encode_utf8(launch::APP_CODE@));
    match home {
        None => seq![shared],
        Some(h) => seq![shared, path::joined(h, encode_utf8(launch::APP_CODE@))],
    }
}

/// Where a `code` may be installed off PATH, in order.
pub fn off_path_codes(home: &Option<Vec<u8>>) -> (r: Vec<Vec<u8>>)
    ensures
        path::deep(r@) == off_path_of(path::maybe(*home)),
{
    broadcast use path::lemma_deep_push;

    let mut out: Vec<Vec<u8>> = Vec::new();
    assert(path::deep(out@) =~= Seq::empty());
    out.push(join("/".as_bytes(), launch::APP_CODE.as_bytes()));
    if let Some(h) = home {
        out.push(join(h.as_slice(), launch::APP_CODE.as_bytes()));
    }
    assert(path::deep(out@) =~= off_path_of(path::maybe(*home)));
    out
}

/// What the shim runs never is the shim: where a `code` is taken from PATH,
/// it resolves to a program that is neither this binary nor named like it.
pub proof fn law_no_recursion(candidates: Seq<CodeCandidateView>, self_exe: Seq<u8>)
    ensures
        first_real(candidates, Some(self_exe)) matches Some(p) ==> exists|i: int|
            #![trigger candidates[i]]
            0 <= i < candidates.len() && candidates[i].path == p && candidates[i].is_file
                && candidates[i].resolved is Some && !path::path_eq(
                candidates[i].resolved->0,
                self_exe,
            ) && !install::our_name(candidates[i].resolved->0),
    decreases candidates.len(),
{
    if let Some(p) = first_real(candidates, Some(self_exe)) {
        if real_code(candidates[0], Some(self_exe)) {
            assert(candidates[0].path == p);
        } else {
            let rest = candidates.skip(1);
            law_no_recursion(rest, self_exe);
            let k = choose|i: int|
                #![trigger rest[i]]
                0 <= i < rest.len() && rest[i].path == p && rest[i].is_file
                    && rest[i].resolved is Some && !path::path_eq(rest[i].resolved->0, self_exe)
                    && !install::our_name(rest[i].resolved->0);
            assert(candidates[k + 1] == rest[k]);
        }
    }
}

// ---- VS Code's own CLI ----

/// A directory whose children hold VS Code servers, and where each has its
/// CLI.
#[derive(Debug, Clone, PartialEq, Eq)]
pub struct ServerDir {
    pub dir: Vec<u8>,
    pub cli: Vec<u8>,
}

/// `ServerDir` by its contents.
#[verifier::ext_equal]
pub struct ServerDirView {
    pub dir: Seq<u8>,
    pub cli: Seq<u8>,
}

impl View for ServerDir {
    type V = ServerDirView;

    open spec fn view(&self) -> ServerDirView {
        ServerDirView { dir: self.dir@, cli: self.cli@ }
    }
}

/// One layout of VS Code servers below the home directory.
pub open spec fn server_layout(
    home: Seq<u8>,
    server: Seq<char>,
    children: Seq<char>,
    cli: Seq<char>,
) -> ServerDirView {
    ServerDirView {
        dir: path::joined(path::joined(home, encode_utf8(server)), encode_utf8(children)),
        cli: encode_utf8(cli),
    }
}

/// The layouts of VS Code servers: `cli/servers/<commit>` is the newer one,
/// `bin/<commit>` the older.
pub open spec fn server_layouts(home: Seq<u8>) -> Seq<ServerDirView> {
    seq![
        server_layout(home, ".vscode-server"@, "cli/servers"@, "server/bin/remote-cli/code"@),
        server_layout(home, ".vscode-server"@, "bin"@, "bin/remote-cli/code"@),
        server_layout(
            home,
            ".vscode-server-insiders"@,
            "cli/servers"@,
            "server/bin/remote-cli/code-insiders"@,
        ),
        server_layout(
            home,
            ".vscode-server-insiders"@,
            "bin"@,
            "bin/remote-cli/code-insiders"@,
        ),
    ]
}

/// The servers, each by its contents.
pub open spec fn servers_of(v: Seq<ServerDir>) -> Seq<ServerDirView> {
    v.map_values(|d: ServerDir| d@)
}

/// One layout of VS Code servers below the home directory.
fn layout(home: &[u8], server: &str, children: &str, cli: &str) -> (r: ServerDir)
    ensures
        r@ == server_layout(home@, server@, children@, cli@),
{
    let base = join(home, server.as_bytes());
    ServerDir {
        dir: join(base.as_slice(), children.as_bytes()),
        cli: bytes_of(cli.as_bytes()),
    }
}

/// Where VS Code servers are looked for below the home directory.
pub fn server_dirs(home: &[u8]) -> (r: Vec<ServerDir>)
    ensures
        servers_of(r@) == server_layouts(home@),
{
    let mut out: Vec<ServerDir> = Vec::new();
    out.push(layout(home, ".vscode-server", "cli/servers", "server/bin/remote-cli/code"));
    out.push(layout(home, ".vscode-server", "bin", "bin/remote-cli/code"));
    out.push(
        layout(
            home,
            ".vscode-server-insiders",
            "cli/servers",
            "server/bin/remote-cli/code-insiders",
        ),
    );
    out.push(
        layout(home, ".vscode-server-insiders", "bin", "bin/remote-cli/code-insiders"),
    );
    assert(servers_of(out@) =~= server_layouts(home@));
    out
}

/// A CLI that was found, and when it was last modified, in nanoseconds since
/// the epoch, where that is known.
#[derive(Debug, Clone, PartialEq, Eq)]
pub struct FoundCli {
    pub path: Vec<u8>,
    pub modified: Option<i128>,
}

/// `a` is not newer than `b`; an unknown time is older than any.
pub open spec fn no_newer(a: Option<i128>, b: Option<i128>) -> bool {
    match (a, b) {
        (None, _) => true,
        (Some(_), None) => false,
        (Some(x), Some(y)) => x <= y,
    }
}

/// Whether `a` is not newer than `b`.
fn is_no_newer(a: Option<i128>, b: Option<i128>) -> (r: bool)
    ensures
        r == no_newer(a, b),
{
    match (a, b) {
        (None, _) => true,
        (Some(_), None) => false,
        (Some(x), Some(y)) => x <= y,
    }
}

/// The `i`-th CLI is the newest: none before it is newer, and all after it
/// are older.
pub open spec fn newest_at(found: Seq<FoundCli>, i: int) -> bool {
    &&& 0 <= i < found.len()
    &&& forall|j: int| 0 <= j < i ==> no_newer((#[trigger] found[j]).modified, found[i].modified)
    &&& forall|j: int|
        i < j < found.len() ==> !no_newer(found[i].modified, (#[trigger] found[j]).modified)
}

/// This is a VS Code terminal, and there is a CLI of VS Code's to answer.
pub open spec fn cli_answers(hook: Option<Seq<u8>>, found: Seq<FoundCli>) -> bool {
    set_var(hook) && found.len() > 0
}

/// Inside a VS Code terminal, the CLI that should handle the request.
/// Several server versions may coexist; the newest is the live one, and the
/// last of several equally new ones.
pub fn vscode_terminal_cli(hook: &Option<Vec<u8>>, found: &[FoundCli]) -> (r: Option<Vec<u8>>)
    ensures
        r is Some <==> cli_answers(path::maybe(*hook), found@),
        r matches Some(p) ==> exists|i: int|
            #[trigger] newest_at(found@, i) && found@[i].path@ == p@,
{
    if !is_set(hook) || found.len() == 0 {
        return None;
    }
    let mut best: usize = 0;
    let mut i: usize = 1;
    while i < found.len()
        invariant
            best < i <= found@.len(),
            forall|j: int|
                0 <= j < best ==> no_newer(
                    (#[trigger] found@[j]).modified,
                    found@[best as int].modified,
                ),
            forall|j: int|
                best < j < i ==> !no_newer(
                    found@[best as int].modified,
                    (#[trigger] found@[j]).modified,
                ),
        decreases found@.len() - i,
    {
        if is_no_newer(found[best].modified, found[i].modified) {
            best = i;
        }
        i += 1;
    }
    assert(newest_at(found@, best as int));
    Some(bytes_of(found[best].path.as_slice()))
}

/// There is only one newest CLI.
pub proof fn law_newest_unique(found: Seq<FoundCli>, i: int, j: int)
    requires
        newest_at(found, i),
        newest_at(found, j),
    ensures
        i == j,
{
    if i < j {
        assert(no_newer(found[i].modified, found[j].modified));
        assert(!no_newer(found[i].modified, found[j].modified));
    } else if j < i {
        assert(no_newer(found[j].modified, found[i].modified));
        assert(!no_newer(found[j].modified, found[i].modified));
    }
}

// ---- the code shim ----

/// What the `code` shim does.
#[derive(Debug, Clone, PartialEq, Eq)]
pub enum ShimAction {
    /// Become this program.
    Exec { cli: Vec<u8>, args: Vec<String> },
    /// Ask the daemon to open these paths.
    Send { paths: Vec<String> },
}

/// `ShimAction` by its contents.
pub enum ShimActionView {
    Exec { cli: Seq<u8>, args: Seq<Seq<char>> },
    Send { paths: Seq<Seq<char>> },
}

impl View for ShimAction {
    type V = ShimActionView;

    open spec fn view(&self) -> ShimActionView {
        match self {
            ShimAction::Exec { cli, args } => ShimActionView::Exec {
                cli: cli@,
                args: text::texts(args@),
            },
            ShimAction::Send { paths } => ShimActionView::Send { paths: text::texts(paths@) },
        }
    }
}

/// An argument that is a flag.
pub open spec fn flag(arg: Seq<char>) -> bool {
    arg.len() > 0 && arg[0] == '-'
}

/// The arguments that are flags, or those that are not, in their order.
pub open spec fn with_flags(args: Seq<Seq<char>>, flags: bool) -> Seq<Seq<char>>
    decreases args.len(),
{
    if args.len() == 0 {
        Seq::empty()
    } else if flag(args.last()) == flags {
        with_flags(args.drop_last(), flags).push(args.last())
    } else {
        with_flags(args.drop_last(), flags)
    }
}

/// The first of the arguments that is a web URL.
pub open spec fn first_url(args: Seq<Seq<char>>) -> Option<Seq<char>>
    decreases args.len(),
{
    if args.len() == 0 {
        None
    } else if url::web(args[0]) {
        Some(args[0])
    } else {
        first_url(args.skip(1))
    }
}

/// What is said of flags that do not go over the channel.
pub open spec fn flags_unsupported(flags: Seq<Seq<char>>) -> Seq<char> {
    "unsupported flag(s) "@ + text::spaced(flags)
        + ": over backchannel this `code` shim only accepts file/folder paths"@
}

/// What is said of a URL that the shim is given.
pub open spec fn url_unsupported(url: Seq<char>) -> Seq<char> {
    "`code` opens files and folders; to open a URL in your local browser, run: back open "@ + url
}

/// What is said in an ssh session without a channel.
pub const NO_CHANNEL: &'static str =
    "no backchannel in this ssh session — is the daemon running on your local machine, and was this session opened after it started? `back status` has details.";

/// What is said on a machine without VS Code.
pub const NO_LOCAL_CODE: &'static str =
    "no VS Code installation found on this machine (looked through PATH)";

/// What the `code` shim does over a live channel.
pub open spec fn shim_over_channel(args: Seq<Seq<char>>) -> Result<ShimActionView, Seq<char>> {
    let flags = with_flags(args, true);
    let paths = with_flags(args, false);
    if flags.len() > 0 {
        Err(flags_unsupported(flags))
    } else if paths.len() == 0 {
        Err("usage: code <path>..."@)
    } else {
        match first_url(paths) {
            Some(url) => Err(url_unsupported(url)),
            None => Ok(ShimActionView::Send { paths }),
        }
    }
}

/// What the `code` shim does.
pub open spec fn shim_action(
    args: Seq<Seq<char>>,
    terminal_cli: Option<Seq<u8>>,
    channel: bool,
    in_ssh: bool,
    local_code: Option<Seq<u8>>,
) -> Result<ShimActionView, Seq<char>> {
    match terminal_cli {
        Some(cli) => Ok(ShimActionView::Exec { cli, args }),
        None => if channel {
            shim_over_channel(args)
        } else if in_ssh {
            Err(NO_CHANNEL@)
        } else {
            match local_code {
                Some(cli) => Ok(ShimActionView::Exec { cli, args }),
                None => Err(NO_LOCAL_CODE@),
            }
        },
    }
}

/// The arguments that are flags, or those that are not.
fn select(args: &[String], flags: bool) -> (r: Vec<String>)
    ensures
        text::texts(r@) == with_flags(text::texts(args@), flags),
{
    broadcast use text::lemma_texts_push;

    let ghost all = text::texts(args@);
    let mut out: Vec<String> = Vec::new();
    let mut i: usize = 0;
    assert(all.take(0) =~= Seq::empty());
    assert(text::texts(out@) =~= with_flags(all.take(0), flags));
    while i < args.len()
        invariant
            i <= args@.len(),
            all == text::texts(args@),
            text::texts(out@) == with_flags(all.take(i as int), flags),
        decreases args@.len() - i,
    {
        let arg = args[i].as_str();
        proof {
            assert(all.take(i + 1).drop_last() =~= all.take(i as int));
            assert(all.take(i + 1).last() == arg@);
            reveal_strlit("-");
        }
        let is_flag = text_starts_with(arg, "-");
        proof {
            if arg@.len() > 0 {
                assert(arg@.subrange(0, 1)[0] == arg@[0]);
                assert("-"@[0] == '-');
                if arg@[0] == '-' {
                    assert(arg@.subrange(0, 1) =~= "-"@);
                }
            }
            assert(is_flag == flag(arg@));
        }
        if is_flag == flags {
            out.push(arg.to_owned());
        }
        i += 1;
    }
    assert(all.take(i as int) =~= all);
    out
}

/// The first of the arguments that is a web URL.
fn find_url(args: &[String]) -> (r: Option<String>)
    ensures
        text::maybe(r) == first_url(text::texts(args@)),
{
    let ghost all = text::texts(args@);
    let mut i: usize = 0;
    assert(all.skip(0) =~= all);
    while i < args.len()
        invariant
            i <= args@.len(),
            all == text::texts(args@),
            first_url(all) == first_url(all.skip(i as int)),
        decreases args@.len() - i,
    {
        assert(all.skip(i as int)[0] == args@[i as int]@);
        if is_web(args[i].as_str()) {
            return Some(args[i].as_str().to_owned());
        }
        assert(all.skip(i as int).skip(1) =~= all.skip(i + 1));
        i += 1;
    }
    None
}

/// What to do when invoked via a symlink named `code`. Precedence: VS Code's
/// own remote CLI (its terminals), then a live backchannel (remote ssh
/// sessions), then the machine's real VS Code — so on a desktop that also
/// gets remoted into, `code` keeps behaving exactly like the real thing in
/// person. A broken channel in an ssh session is an error: launching a local
/// (likely headless) VS Code there would be far more confusing.
pub fn run_as_code_shim(
    args: Vec<String>,
    terminal_cli: Option<Vec<u8>>,
    channel: bool,
    in_ssh: bool,
    local_code: Option<Vec<u8>>,
) -> (r: Result<ShimAction, String>)
    ensures
        match shim_action(
            text::texts(args@),
            path::maybe(terminal_cli),
            channel,
            in_ssh,
            path::maybe(local_code),
        ) {
            Ok(a) => r is Ok && r->Ok_0@ == a,
            Err(e) => r is Err && r->Err_0@ == e,
        },
{
    if let Some(cli) = terminal_cli {
        return Ok(ShimAction::Exec { cli, args });
    }
    if channel {
        let flags = select(args.as_slice(), true);
        assert(text::texts(flags@).len() == flags@.len());
        if flags.len() > 0 {
            return Err(
                "unsupported flag(s) ".to_owned().concat(
                    join_spaced(flags.as_slice()).as_str(),
                ).concat(": over backchannel this `code` shim only accepts file/folder paths"),
            );
        }
        let paths = select(args.as_slice(), false);
        assert(text::texts(paths@).len() == paths@.len());
        if paths.len() == 0 {
            return Err("usage: code <path>...".to_owned());
        }
        if let Some(url) = find_url(paths.as_slice()) {
            return Err(
                "`code` opens files and folders; to open a URL in your local browser, run: back open ".to_owned().concat(
                    url.as_str(),
                ),
            );
        }
        return Ok(ShimAction::Send { paths });
    }
    if in_ssh {
        return Err(NO_CHANNEL.to_owned());
    }
    match local_code {
        Some(cli) => Ok(ShimAction::Exec { cli, args }),
        None => Err(NO_LOCAL_CODE.to_owned()),
    }
}

/// In person, and in VS Code's own terminals, the shim passes every argument
/// on unchanged to a real `code`.
pub proof fn law_shim_is_transparent(
    args: Seq<Seq<char>>,
    terminal_cli: Option<Seq<u8>>,
    in_ssh: bool,
    local_code: Option<Seq<u8>>,
)
    requires
        terminal_cli is Some || (!in_ssh && local_code is Some),
    ensures
        shim_action(args, terminal_cli, false, in_ssh, local_code) matches Ok(
            ShimActionView::Exec { args: passed, .. },
        ) && passed == args,
{
}

// ---- what is asked for ----

/// The path as seen from the working directory, with `.` and `..` resolved by
/// text; the root stands in for a working directory that cannot be had.
pub open spec fn absolute(p: Seq<u8>, cwd: Option<Seq<u8>>) -> Seq<u8> {
    path::clean_path(
        path::joined(
            match cwd {
                Some(d) => d,
                None => encode_utf8("/"@),
            },
            p,
        ),
    )
}

/// Absolute and lexically cleaned (`.`, `..`), symlinks left alone so the
/// window opens on the path the user typed rather than its resolution.
pub fn absolutize(p: &[u8], cwd: &Option<Vec<u8>>) -> (r: Vec<u8>)
    ensures
        r@ == absolute(p@, path::maybe(*cwd)),
{
    let whole = match cwd {
        Some(d) => join(d.as_slice(), p),
        None => join("/".as_bytes(), p),
    };
    clean(whole.as_slice())
}

/// A path is absolute once it is made so, with no `.`, `..` or empty segment
/// in it, and making it so again changes nothing.
pub proof fn law_absolutize(p: Seq<u8>, cwd: Seq<u8>)
    requires
        path::rooted(cwd),
    ensures
        path::rooted(absolute(p, Some(cwd))),
        absolute(absolute(p, Some(cwd)), Some(cwd)) == absolute(p, Some(cwd)),
        path::plain_names(path::cleaned(path::segments(path::joined(cwd, p)))),
{
    let whole = path::joined(cwd, p);
    path::law_clean_path_plain(whole);
    path::law_clean_path_idempotent(whole);
}

/// What a path leads to.
#[derive(Debug, Clone, Copy, PartialEq, Eq, Structural)]
pub enum FileState {
    Directory,
    File,
    Missing,
}

/// The kind of window a path opens in: whatever is not a directory is a file,
/// to be created if need be.
pub open spec fn kind_of(state: FileState) -> Kind {
    if state == FileState::Directory {
        Kind::Folder
    } else {
        Kind::File
    }
}

/// What is said of a path that is not there.
pub open spec fn missing_note(state: FileState, shown: Seq<char>) -> Option<Seq<char>> {
    if state == FileState::Missing {
        Some("note: "@ + shown + " does not exist; opening as a file"@)
    } else {
        None
    }
}

/// The kind of window the path `abs` opens in, the path as it is sent, and
/// what the user is told.
pub fn classify(abs: &[u8], state: FileState) -> (r: (Kind, String, Option<String>))
    ensures
        r.0 == kind_of(state),
        r.1@ == text::text_of(abs@),
        text::maybe(r.2) == missing_note(state, text::text_of(abs@)),
{
    let shown = lossy(abs);
    match state {
        FileState::Directory => (Kind::Folder, shown, None),
        FileState::File => (Kind::File, shown, None),
        FileState::Missing => {
            let note = "note: ".to_owned().concat(shown.as_str()).concat(
                " does not exist; opening as a file",
            );
            (Kind::File, shown, Some(note))
        },
    }
}

/// The position of the last colon.
pub open spec fn last_colon(s: Seq<char>) -> Option<int>
    decreases s.len(),
{
    if s.len() == 0 {
        None
    } else if s.last() == ':' {
        Some(s.len() - 1)
    } else {
        last_colon(s.drop_last())
    }
}

/// What precedes a last `:<number>`, and the number, which counts from one.
pub open spec fn cut_number(s: Seq<char>) -> Option<(Seq<char>, u32)> {
    match last_colon(s) {
        Some(i) if i > 0 => match text::parsed_u32(s.skip(i + 1)) {
            Some(n) if n > 0 => Some((s.take(i), n)),
            _ => None,
        },
        _ => None,
    }
}

/// `path:line[:col]` taken apart; a missing column is 0.
pub open spec fn position_in(arg: Seq<char>) -> Option<(Seq<char>, u32, u32)> {
    match cut_number(arg) {
        None => None,
        Some((head, n)) => match cut_number(head) {
            Some((path, line)) => Some((path, line, n)),
            None => Some((head, n, 0)),
        },
    }
}

/// What precedes a last `:<number>`, by its length, and the number.
fn split_number(s: &[char]) -> (r: Option<(usize, u32)>)
    ensures
        match cut_number(s@) {
            None => r is None,
            Some((head, n)) => r matches Some((i, m)) && m == n && i <= s@.len() && s@.take(
                i as int,
            ) == head,
        },
{
    let mut i: usize = s.len();
    assert(s@.take(i as int) =~= s@);
    while i > 0
        invariant
            i <= s@.len(),
            last_colon(s@.take(i as int)) == last_colon(s@),
        decreases i,
    {
        assert(s@.take(i as int).last() == s@[i - 1]);
        if s[i - 1] == ':' {
            if i == 1 {
                return None;
            }
            let digits = slice_subrange(s, i, s.len());
            assert(digits@ =~= s@.skip(i as int));
            return match parse_u32(digits) {
                Some(n) => if n > 0 {
                    Some((i - 1, n))
                } else {
                    None
                },
                None => None,
            };
        }
        assert(s@.take(i as int).drop_last() =~= s@.take(i - 1));
        i -= 1;
    }
    None
}

/// Takes `path:line[:col]` apart.
pub fn split_position(arg: &str) -> (r: Option<(String, u32, u32)>)
    ensures
        match position_in(arg@) {
            None => r is None,
            Some((p, l, c)) => r matches Some((path, line, col)) && path@ == p && line == l && col
                == c,
        },
{
    let cs = chars_of(arg);
    let (i, n) = split_number(cs.as_slice())?;
    let head = slice_subrange(cs.as_slice(), 0, i);
    assert(head@ =~= cs@.take(i as int));
    match split_number(head) {
        Some((j, line)) => {
            assert(head@.subrange(0, j as int) =~= head@.take(j as int));
            Some((slice_text(head, 0, j), line, n))
        },
        None => {
            assert(head@.subrange(0, i as int) =~= head@);
            Some((slice_text(head, 0, i), n, 0))
        },
    }
}

/// A number behind a colon is cut off again.
proof fn lemma_cut_number(head: Seq<char>, n: u32)
    requires
        head.len() > 0,
        n > 0,
    ensures
        cut_number(head + ":"@ + text::decimal(n as nat)) == Some((head, n)),
{
    let digits = text::decimal(n as nat);
    reveal_strlit(":");
    let start = head + ":"@;
    let s = start + digits;
    text::law_decimal_round_trip(n as nat);
    lemma_last_colon(start, digits);
    assert(start.last() == ':');
    assert(last_colon(s) == Some(head.len() as int));
    assert(s.skip(head.len() as int + 1) =~= digits);
    assert(s.take(head.len() as int) =~= head);
}

/// Digits hold no colon.
proof fn lemma_last_colon(start: Seq<char>, digits: Seq<char>)
    requires
        text::all_digits(digits),
    ensures
        last_colon(start + digits) == last_colon(start),
    decreases digits.len(),
{
    let s = start + digits;
    if digits.len() == 0 {
        assert(s =~= start);
    } else {
        assert(text::is_digit(digits[digits.len() - 1]));
        assert(s.last() == digits.last());
        assert(s.drop_last() =~= start + digits.drop_last());
        assert forall|i: int| 0 <= i < digits.drop_last().len() implies text::is_digit(
            #[trigger] digits.drop_last()[i],
        ) by {
            assert(digits.drop_last()[i] == digits[i]);
        }
        lemma_last_colon(start, digits.drop_last());
    }
}

/// A position is read back from the way it is written, line and column as
/// well as a line alone, unless the path itself ends like a position.
pub proof fn law_position_round_trip(path: Seq<char>, line: u32, col: u32)
    requires
        path.len() > 0,
        line > 0,
        col > 0 || cut_number(path) is None,
    ensures
        position_in(launch::positioned(path, line, col)) == Some((path, line, col)),
{
    let first = path + ":"@ + text::decimal(line as nat);
    lemma_cut_number(path, line);
    if col > 0 {
        lemma_cut_number(first, col);
    }
}

/// The options of `back code`.
#[derive(Debug, Clone, PartialEq, Eq)]
pub struct OpenOptions {
    pub window: WindowMode,
    /// Read arguments as `path:line[:col]` even where a file of the literal
    /// name exists.
    pub force_goto: bool,
    pub diff: Option<(String, String)>,
    pub wait: bool,
    pub paths: Vec<String>,
}

/// The window that the two flags ask for.
pub open spec fn window_asked(new_window: bool, reuse_window: bool) -> WindowMode {
    if new_window {
        WindowMode::New
    } else if reuse_window {
        WindowMode::Reuse
    } else {
        WindowMode::Default
    }
}

/// The window that the two flags ask for.
pub fn window_mode(new_window: bool, reuse_window: bool) -> (r: WindowMode)
    ensures
        r == window_asked(new_window, reuse_window),
{
    if new_window {
        WindowMode::New
    } else if reuse_window {
        WindowMode::Reuse
    } else {
        WindowMode::Default
    }
}

/// What an argument asks to open: the path and the position to jump to. An
/// argument is a path with a position only where no file of its literal name
/// exists, or where it must be.
pub open spec fn target_of(arg: Seq<char>, force_goto: bool, literal: FileState) -> (
    Seq<char>,
    u32,
    u32,
) {
    if !force_goto && literal != FileState::Missing {
        (arg, 0, 0)
    } else {
        match position_in(arg) {
            Some(t) => t,
            None => (arg, 0, 0),
        }
    }
}

/// What an argument asks to open.
pub fn read_target(arg: &str, force_goto: bool, literal: FileState) -> (r: (String, u32, u32))
    ensures
        r.0@ == target_of(arg@, force_goto, literal).0,
        r.1 == target_of(arg@, force_goto, literal).1,
        r.2 == target_of(arg@, force_goto, literal).2,
{
    let exists = match literal {
        FileState::Missing => false,
        _ => true,
    };
    if !force_goto && exists {
        return (arg.to_owned(), 0, 0);
    }
    match split_position(arg) {
        Some(t) => t,
        None => (arg.to_owned(), 0, 0),
    }
}

/// What a sender says of itself.
#[derive(Debug, Clone, PartialEq, Eq)]
pub struct Sender {
    pub hostname: String,
    pub user: String,
    pub ssh_connection: String,
}

/// The message that asks for `action`.
pub open spec fn message_for(
    action: ActionView,
    window: WindowMode,
    wait: bool,
    sender: Sender,
) -> OpenMessageView {
    OpenMessageView {
        request: OpenRequestView { action, window, wait, hostname: sender.hostname@ },
        user: sender.user@,
        ssh_connection: sender.ssh_connection@,
    }
}

/// The message that asks for `action`.
pub fn message(action: Action, window: WindowMode, wait: bool, sender: &Sender) -> (r: OpenMessage)
    ensures
        r@ == message_for(action@, window, wait, *sender),
{
    OpenMessage {
        request: OpenRequest {
            action,
            window,
            wait,
            hostname: sender.hostname.as_str().to_owned(),
        },
        user: sender.user.as_str().to_owned(),
        ssh_connection: sender.ssh_connection.as_str().to_owned(),
    }
}

/// A request with what the user is told of it.
#[derive(Debug, Clone, PartialEq, Eq)]
pub struct Request {
    pub message: OpenMessage,
    /// What is opened.
    pub shown: String,
    /// What the user is told beforehand.
    pub note: Option<String>,
}

/// `Request` by its contents.
pub struct RequestView {
    pub message: OpenMessageView,
    pub shown: Seq<char>,
    pub note: Option<Seq<char>>,
}

impl View for Request {
    type V = RequestView;

    open spec fn view(&self) -> RequestView {
        RequestView {
            message: self.message@,
            shown: self.shown@,
            note: text::maybe(self.note),
        }
    }
}

/// The requests, each by its contents.
pub open spec fn requests_of(v: Seq<Request>) -> Seq<RequestView> {
    v.map_values(|q: Request| q@)
}

/// `requests_of` commutes with `push`.
pub broadcast proof fn lemma_requests_push(v: Seq<Request>, q: Request)
    ensures
        #[trigger] requests_of(v.push(q)) == requests_of(v).push(q@),
{
    assert(requests_of(v.push(q)) =~= requests_of(v).push(q@));
}

/// What the paths of an argument lead to: the argument taken literally, and
/// without its position.
#[derive(Debug, Clone, Copy, PartialEq, Eq, Structural)]
pub struct ArgState {
    pub literal: FileState,
    pub bare: FileState,
}

/// The request for one argument.
pub open spec fn path_request(
    arg: Seq<char>,
    state: ArgState,
    opts: OpenOptions,
    cwd: Option<Seq<u8>>,
    sender: Sender,
) -> RequestView {
    let (path, line, col) = target_of(arg, opts.force_goto, state.literal);
    let found = if line == 0 {
        state.literal
    } else {
        state.bare
    };
    let shown = text::text_of(absolute(encode_utf8(path), cwd));
    RequestView {
        message: message_for(
            ActionView::Open { kind: kind_of(found), path: shown, line, col },
            opts.window,
            opts.wait,
            sender,
        ),
        shown,
        note: missing_note(found, shown),
    }
}

/// The request that compares two files.
pub open spec fn diff_request(
    left: Seq<char>,
    right: Seq<char>,
    opts: OpenOptions,
    cwd: Option<Seq<u8>>,
    sender: Sender,
) -> RequestView {
    let l = text::text_of(absolute(encode_utf8(left), cwd));
    let r = text::text_of(absolute(encode_utf8(right), cwd));
    RequestView {
        message: message_for(
            ActionView::Diff { left: l, right: r },
            opts.window,
            opts.wait,
            sender,
        ),
        shown: l + " <-> "@ + r,
        note: None,
    }
}

/// The requests for the first `n` paths.
pub open spec fn path_requests(
    n: nat,
    states: Seq<ArgState>,
    opts: OpenOptions,
    cwd: Option<Seq<u8>>,
    sender: Sender,
) -> Seq<RequestView>
    decreases n,
{
    if n == 0 {
        Seq::empty()
    } else {
        path_requests((n - 1) as nat, states, opts, cwd, sender).push(
            path_request(opts.paths@[n - 1]@, states[n - 1], opts, cwd, sender),
        )
    }
}

/// How many things are to be opened.
pub open spec fn asked_for(opts: OpenOptions) -> nat {
    opts.paths@.len() + (if opts.diff is Some {
        1nat
    } else {
        0nat
    })
}

/// What is said when `--wait` cannot tell what to wait for.
pub const WAIT_NEEDS_ONE: &'static str = "--wait takes exactly one path (or --diff)";

/// What is said when there is no channel to send over.
pub const NO_AUTH_SOCK: &'static str =
    "SSH_AUTH_SOCK is not set — backchannel needs an ssh session with agent forwarding pointed at the backchannel daemon (see README)";

/// The requests to send, or why none is.
pub open spec fn requests_for(
    sock: Option<Seq<u8>>,
    opts: OpenOptions,
    states: Seq<ArgState>,
    cwd: Option<Seq<u8>>,
    sender: Sender,
) -> Result<Seq<RequestView>, Seq<char>> {
    if opts.wait && asked_for(opts) != 1 {
        Err(WAIT_NEEDS_ONE@)
    } else if sock is None {
        Err(NO_AUTH_SOCK@)
    } else {
        let paths = path_requests(opts.paths@.len(), states, opts, cwd, sender);
        match opts.diff {
            Some((left, right)) => Ok(
                seq![diff_request(left@, right@, opts, cwd, sender)] + paths,
            ),
            None => Ok(paths),
        }
    }
}

/// The request for one argument.
fn plan_path(
    arg: &str,
    state: ArgState,
    opts: &OpenOptions,
    cwd: &Option<Vec<u8>>,
    sender: &Sender,
) -> (r: Request)
    ensures
        r@ == path_request(arg@, state, *opts, path::maybe(*cwd), *sender),
{
    let (path, line, col) = read_target(arg, opts.force_goto, state.literal);
    let found = if line == 0 {
        state.literal
    } else {
        state.bare
    };
    let abs = absolutize(path.as_str().as_bytes(), cwd);
    let (kind, shown, note) = classify(abs.as_slice(), found);
    let action = Action::Open { kind, path: shown.as_str().to_owned(), line, col };
    Request { message: message(action, opts.window, opts.wait, sender), shown, note }
}

/// The requests that `back code` sends: the comparison, if one is asked for,
/// then one for each path. `states` says of each path what it leads to.
pub fn send_open(
    sock: &Option<Vec<u8>>,
    opts: &OpenOptions,
    states: &[ArgState],
    cwd: &Option<Vec<u8>>,
    sender: &Sender,
) -> (r: Result<Vec<Request>, String>)
    requires
        states@.len() == opts.paths@.len(),
    ensures
        match requests_for(path::maybe(*sock), *opts, states@, path::maybe(*cwd), *sender) {
            Ok(qs) => r is Ok && requests_of(r->Ok_0@) == qs,
            Err(e) => r is Err && r->Err_0@ == e,
        },
{
    broadcast use lemma_requests_push;

    if opts.wait {
        let one = match &opts.diff {
            Some(_) => opts.paths.len() == 0,
            None => opts.paths.len() == 1,
        };
        if !one {
            return Err(WAIT_NEEDS_ONE.to_owned());
        }
    }
    if sock.is_none() {
        return Err(NO_AUTH_SOCK.to_owned());
    }
    let mut out: Vec<Request> = Vec::new();
    assert(requests_of(out@) =~= Seq::empty());
    if let Some((left, right)) = &opts.diff {
        let l = lossy(absolutize(left.as_str().as_bytes(), cwd).as_slice());
        let r = lossy(absolutize(right.as_str().as_bytes(), cwd).as_slice());
        let shown = l.as_str().to_owned().concat(" <-> ").concat(r.as_str());
        let action = Action::Diff { left: l, right: r };
        out.push(
            Request {
                message: message(action, opts.window, opts.wait, sender),
                shown,
                note: None,
            },
        );
    }
    let ghost head = requests_of(out@);
    let ghost here = path::maybe(*cwd);
    let mut i: usize = 0;
    assert(head + path_requests(0, states@, *opts, here, *sender) =~= head);
    while i < opts.paths.len()
        invariant
            i <= opts.paths@.len() == states@.len(),
            here == path::maybe(*cwd),
            requests_of(out@) == head + path_requests(i as nat, states@, *opts, here, *sender),
        decreases opts.paths@.len() - i,
    {
        let q = plan_path(opts.paths[i].as_str(), states[i], opts, cwd, sender);
        proof {
            let before = path_requests(i as nat, states@, *opts, here, *sender);
            assert(path_requests((i + 1) as nat, states@, *opts, here, *sender) == before.push(q@));
            assert(head + before.push(q@) =~= (head + before).push(q@));
        }
        out.push(q);
        i += 1;
    }
    proof {
        if let Some((left, right)) = &opts.diff {
            assert(head =~= seq![diff_request(left@, right@, *opts, here, *sender)]);
        } else {
            assert(head =~= Seq::empty());
            let all = path_requests(i as nat, states@, *opts, here, *sender);
            assert(head + all =~= all);
        }
    }
    Ok(out)
}

/// The comparison flag with its two files.
pub open spec fn diff_args(diff: Option<(String, String)>) -> Seq<Seq<char>> {
    match diff {
        Some((left, right)) => seq!["--diff"@, left@, right@],
        None => Seq::empty(),
    }
}

/// The options as VS Code's own CLI takes them.
pub open spec fn cli_command(opts: OpenOptions) -> Seq<Seq<char>> {
    launch::wait_args(opts.wait) + launch::window_args(opts.window) + (if opts.force_goto {
        seq!["--goto"@]
    } else {
        Seq::empty()
    }) + diff_args(opts.diff) + text::texts(opts.paths@)
}

/// The options as VS Code's own CLI takes them.
fn cli_args(opts: &OpenOptions) -> (r: Vec<String>)
    ensures
        text::texts(r@) == cli_command(*opts),
{
    broadcast use text::lemma_texts_push;

    let mut out: Vec<String> = Vec::new();
    assert(text::texts(out@) =~= Seq::empty());
    if opts.wait {
        out.push("--wait".to_owned());
    }
    match opts.window {
        WindowMode::New => out.push("--new-window".to_owned()),
        WindowMode::Reuse => out.push("--reuse-window".to_owned()),
        WindowMode::Default => {},
    }
    assert(text::texts(out@) =~= launch::wait_args(opts.wait) + launch::window_args(opts.window));
    let ghost flags = text::texts(out@);
    if opts.force_goto {
        out.push("--goto".to_owned());
    }
    if let Some((left, right)) = &opts.diff {
        out.push("--diff".to_owned());
        out.push(left.as_str().to_owned());
        out.push(right.as_str().to_owned());
    }
    let ghost head = text::texts(out@);
    assert(head =~= flags + (if opts.force_goto {
        seq!["--goto"@]
    } else {
        Seq::empty()
    }) + diff_args(opts.diff));
    let ghost all = text::texts(opts.paths@);
    let mut i: usize = 0;
    assert(head + all.take(0) =~= head);
    while i < opts.paths.len()
        invariant
            i <= opts.paths@.len(),
            all == text::texts(opts.paths@),
            text::texts(out@) == head + all.take(i as int),
        decreases opts.paths@.len() - i,
    {
        out.push(opts.paths[i].as_str().to_owned());
        assert(head + all.take(i + 1) =~= (head + all.take(i as int)).push(all[i as int]));
        i += 1;
    }
    assert(all.take(i as int) =~= all);
    out
}

/// What `back code` becomes inside a VS Code terminal; nothing elsewhere.
pub open spec fn cli_launch(
    terminal_cli: Option<Seq<u8>>,
    opts: OpenOptions,
) -> Option<launch::LaunchView> {
    match terminal_cli {
        Some(program) => Some(launch::LaunchView { program, args: cli_command(opts) }),
        None => None,
    }
}

/// What `back code` does: inside a VS Code terminal, become VS Code's own
/// CLI; elsewhere (None), send the requests of `send_open`.
pub fn run(terminal_cli: Option<Vec<u8>>, opts: &OpenOptions) -> (r: Option<launch::Launch>)
    ensures
        match cli_launch(path::maybe(terminal_cli), *opts) {
            Some(launch) => r is Some && r->0@ == launch,
            None => r is None,
        },
{
    match terminal_cli {
        Some(program) => Some(launch::Launch { program, args: cli_args(opts) }),
        None => None,
    }
}

// ---- what comes back ----

/// A daemon's reply.
#[derive(Debug, Clone, PartialEq, Eq)]
pub enum Reply {
    /// Success, with what it carries.
    Success(Vec<u8>),
    /// The daemon refused, for this reason.
    ExtensionFailure(String),
    /// Whoever answered does not know us.
    Failure,
}

/// `Reply` by its contents.
pub enum ReplyView {
    Success(Seq<u8>),
    ExtensionFailure(Seq<char>),
    Failure,
}

impl View for Reply {
    type V = ReplyView;

    open spec fn view(&self) -> ReplyView {
        match self {
            Reply::Success(rest) => ReplyView::Success(rest@),
            Reply::ExtensionFailure(reason) => ReplyView::ExtensionFailure(reason@),
            Reply::Failure => ReplyView::Failure,
        }
    }
}

/// What is said of a reply that is none of ours.
pub const UNEXPECTED_REPLY: &'static str = "unexpected reply from agent socket";

/// What a reply says; nothing for one that is none of ours.
pub open spec fn reply_in(frame: Seq<u8>) -> Option<ReplyView> {
    if frame.len() == 0 {
        None
    } else if frame[0] == SSH_AGENT_SUCCESS {
        Some(ReplyView::Success(frame.skip(1)))
    } else if frame[0] == SSH_AGENT_EXTENSION_FAILURE {
        Some(
            ReplyView::ExtensionFailure(
                match proto::take_str(frame.skip(1)) {
                    Some((reason, _)) => reason,
                    None => "unknown error"@,
                },
            ),
        )
    } else if frame[0] == SSH_AGENT_FAILURE {
        Some(ReplyView::Failure)
    } else {
        None
    }
}

/// Reads a daemon's reply.
pub fn read_reply(frame: &[u8]) -> (r: Result<Reply, String>)
    ensures
        match reply_in(frame@) {
            Some(v) => r is Ok && r->Ok_0@ == v,
            None => r is Err && r->Err_0@ == UNEXPECTED_REPLY@,
        },
{
    if frame.len() == 0 {
        return Err(UNEXPECTED_REPLY.to_owned());
    }
    let rest = slice_subrange(frame, 1, frame.len());
    assert(rest@ =~= frame@.skip(1));
    if frame[0] == SSH_AGENT_SUCCESS {
        return Ok(Reply::Success(bytes_of(rest)));
    }
    if frame[0] == SSH_AGENT_EXTENSION_FAILURE {
        let mut c = Cursor::new(rest);
        let reason = match c.str() {
            Ok(s) => s,
            Err(_) => "unknown error".to_owned(),
        };
        return Ok(Reply::ExtensionFailure(reason));
    }
    if frame[0] == SSH_AGENT_FAILURE {
        return Ok(Reply::Failure);
    }
    Err(UNEXPECTED_REPLY.to_owned())
}

/// What is said when the agent behind `$SSH_AUTH_SOCK` is not the daemon.
pub const PLAIN_FORWARDING: &'static str =
    "the agent behind SSH_AUTH_SOCK is not the backchannel daemon — this looks like plain agent forwarding. Point ForwardAgent at the backchannel socket in your local ssh config (see README).";

/// What a reply means for the request: what success carries, or what the user
/// is told.
pub open spec fn reply_result(frame: Seq<u8>) -> Result<Seq<u8>, Seq<char>> {
    match reply_in(frame) {
        Some(ReplyView::Success(rest)) => Ok(rest),
        Some(ReplyView::ExtensionFailure(reason)) => Err("daemon error: "@ + reason),
        Some(ReplyView::Failure) => Err(PLAIN_FORWARDING@),
        None => Err(UNEXPECTED_REPLY@),
    }
}

/// What a reply means for the request.
pub fn check_reply(frame: &[u8]) -> (r: Result<Vec<u8>, String>)
    ensures
        match reply_result(frame@) {
            Ok(rest) => r is Ok && r->Ok_0@ == rest,
            Err(e) => r is Err && r->Err_0@ == e,
        },
{
    match read_reply(frame) {
        Ok(reply) => match reply {
            Reply::Success(rest) => Ok(rest),
            Reply::ExtensionFailure(reason) => Err(
                "daemon error: ".to_owned().concat(reason.as_str()),
            ),
            Reply::Failure => Err(PLAIN_FORWARDING.to_owned()),
        },
        Err(e) => Err(e),
    }
}

/// The authority that an acknowledgement names, and how it was found.
pub open spec fn ack_in(rest: Seq<u8>) -> Option<(Seq<char>, Seq<char>)> {
    match proto::take_str(rest) {
        None => None,
        Some((alias, s)) => match proto::take_str(s) {
            None => None,
            Some((how, _)) => Some((alias, how)),
        },
    }
}

/// Reads the authority that an acknowledgement names; older daemons name
/// none.
pub fn read_ack(rest: &[u8]) -> (r: Option<(String, String)>)
    ensures
        match ack_in(rest@) {
            None => r is None,
            Some((a, h)) => r matches Some((alias, how)) && alias@ == a && how@ == h,
        },
{
    let mut c = Cursor::new(rest);
    let alias = c.str().ok()?;
    let how = c.str().ok()?;
    Some((alias, how))
}

/// What a daemon refuses is told with its reason.
pub proof fn law_refusal_told(reason: Seq<char>)
    requires
        proto::fits(reason),
    ensures
        reply_result(proto::extension_failure_msg(reason)) == Err::<Seq<u8>, Seq<char>>(
            "daemon error: "@ + reason,
        ),
{
    let msg = proto::extension_failure_msg(reason);
    let nil = Seq::<u8>::empty();
    assert(msg.skip(1) =~= proto::wire_str(reason) + nil);
    proto::lemma_take_str(reason, nil);
}

/// An acknowledgement tells the sender the authority it was opened under.
pub proof fn law_ack_told(alias: Seq<char>, how: Seq<char>)
    requires
        proto::fits(alias),
        proto::fits(how),
    ensures
        reply_result(proto::ack_msg(alias, how)) matches Ok(rest) && ack_in(rest) == Some(
            (alias, how),
        ),
{
    let nil = Seq::<u8>::empty();
    let r1 = proto::wire_str(how) + nil;
    assert(proto::ack_msg(alias, how).skip(1) =~= proto::wire_str(alias) + r1);
    proto::lemma_take_str(alias, r1);
    proto::lemma_take_str(how, nil);
}

/// What is printed when a path is opened.
pub open spec fn opening_words(shown: Seq<char>) -> Seq<char> {
    "opening "@ + shown + " in VS Code on your local machine"@
}

/// What is printed when a path is opened.
pub fn opening_note(shown: &str) -> (r: String)
    ensures
        r@ == opening_words(shown@),
{
    "opening ".to_owned().concat(shown).concat(" in VS Code on your local machine")
}

/// What is printed while the editor is open.
pub open spec fn waiting_words(shown: Seq<char>) -> Seq<char> {
    shown + ": waiting until closed"@
}

/// What is printed while the editor is open.
pub fn waiting_note(shown: &str) -> (r: String)
    ensures
        r@ == waiting_words(shown@),
{
    shown.to_owned().concat(": waiting until closed")
}

/// What is said when the channel cannot be reached.
pub open spec fn unreachable_words(sock: Seq<u8>, error: Seq<char>) -> Seq<char> {
    "connecting to "@ + text::text_of(sock)
        + " — is the backchannel daemon running on your local machine?: "@ + error
}

/// What is said when the channel cannot be reached.
pub fn connect_error(sock: &[u8], error: &str) -> (r: String)
    ensures
        r@ == unreachable_words(sock@, error@),
{
    "connecting to ".to_owned().concat(lossy(sock).as_str()).concat(
        " — is the backchannel daemon running on your local machine?: ",
    ).concat(error)
}

// ---- what a request carries ----

proof fn lemma_path_requests(
    n: nat,
    states: Seq<ArgState>,
    opts: OpenOptions,
    cwd: Option<Seq<u8>>,
    sender: Sender,
)
    ensures
        path_requests(n, states, opts, cwd, sender).len() == n,
        forall|i: int|
            0 <= i < n ==> #[trigger] path_requests(n, states, opts, cwd, sender)[i]
                == path_request(opts.paths@[i]@, states[i], opts, cwd, sender),
    decreases n,
{
    if n > 0 {
        lemma_path_requests((n - 1) as nat, states, opts, cwd, sender);
    }
}

/// Every request that is sent, for a comparison as for a path, asks for the
/// window and the waiting that the user asked for, and tells of the sender
/// what the sender says of itself.
pub proof fn law_requests_carry_the_options(
    sock: Option<Seq<u8>>,
    opts: OpenOptions,
    states: Seq<ArgState>,
    cwd: Option<Seq<u8>>,
    sender: Sender,
)
    ensures
        requests_for(sock, opts, states, cwd, sender) matches Ok(qs) ==> forall|i: int|
            0 <= i < qs.len() ==> {
                let m = (#[trigger] qs[i]).message;
                &&& m.request.wait == opts.wait
                &&& m.request.window == opts.window
                &&& m.request.hostname == sender.hostname@
                &&& m.user == sender.user@
                &&& m.ssh_connection == sender.ssh_connection@
                &&& !(m.request.action is Url)
            },
{
    lemma_path_requests(opts.paths@.len(), states, opts, cwd, sender);
    if let Ok(qs) = requests_for(sock, opts, states, cwd, sender) {
        let paths = path_requests(opts.paths@.len(), states, opts, cwd, sender);
        let d = if opts.diff is Some { 1int } else { 0int };
        assert forall|i: int| 0 <= i < qs.len() implies {
            let m = (#[trigger] qs[i]).message;
            &&& m.request.wait == opts.wait
            &&& m.request.window == opts.window
            &&& m.request.hostname == sender.hostname@
            &&& m.user == sender.user@
            &&& m.ssh_connection == sender.ssh_connection@
            &&& !(m.request.action is Url)
        } by {
            if i >= d {
                assert(qs[i] == paths[i - d]);
            }
        }
    }
}

/// There is one request for the comparison, if one is asked for, and then one
/// for each path, in their order. None is sent without a channel, nor where
/// it is not clear what to wait for.
pub proof fn law_one_request_each(
    sock: Option<Seq<u8>>,
    opts: OpenOptions,
    states: Seq<ArgState>,
    cwd: Option<Seq<u8>>,
    sender: Sender,
)
    ensures
        ({
            let d = if opts.diff is Some { 1int } else { 0int };
            let r = requests_for(sock, opts, states, cwd, sender);
            &&& r is Ok <==> sock is Some && (opts.wait ==> opts.paths@.len() + d == 1)
            &&& opts.wait && opts.paths@.len() + d != 1 ==> r == Err::<Seq<RequestView>, Seq<char>>(
                WAIT_NEEDS_ONE@,
            )
            &&& r is Err && (opts.wait ==> opts.paths@.len() + d == 1) ==> r->Err_0 == NO_AUTH_SOCK@
            &&& r matches Ok(qs) ==> {
                &&& qs.len() == d + opts.paths@.len()
                &&& forall|i: int|
                    0 <= i < qs.len() ==> ((#[trigger] qs[i]).message.request.action is Diff <==> i
                        < d)
                &&& opts.diff matches Some((left, right)) ==> qs[0].message.request.action
                    == ActionView::Diff {
                    left: text::text_of(absolute(encode_utf8(left@), cwd)),
                    right: text::text_of(absolute(encode_utf8(right@), cwd)),
                }
            }
        }),
{
    lemma_path_requests(opts.paths@.len(), states, opts, cwd, sender);
    if let Ok(qs) = requests_for(sock, opts, states, cwd, sender) {
        let paths = path_requests(opts.paths@.len(), states, opts, cwd, sender);
        let d = if opts.diff is Some { 1int } else { 0int };
        assert forall|i: int| 0 <= i < qs.len() implies ((
        #[trigger] qs[i]).message.request.action is Diff <==> i < d) by {
            if i >= d {
                assert(qs[i] == paths[i - d]);
            }
        }
    }
}

/// The request for the `i`-th path, behind that for a comparison.
proof fn lemma_request_at(
    sock: Option<Seq<u8>>,
    opts: OpenOptions,
    states: Seq<ArgState>,
    cwd: Option<Seq<u8>>,
    sender: Sender,
    i: int,
)
    requires
        requests_for(sock, opts, states, cwd, sender) is Ok,
        0 <= i < opts.paths@.len(),
    ensures
        ({
            let d = if opts.diff is Some { 1int } else { 0int };
            requests_for(sock, opts, states, cwd, sender)->Ok_0[d + i] == path_request(
                opts.paths@[i]@,
                states[i],
                opts,
                cwd,
                sender,
            )
        }),
{
    lemma_path_requests(opts.paths@.len(), states, opts, cwd, sender);
    let paths = path_requests(opts.paths@.len(), states, opts, cwd, sender);
    assert(paths[i] == path_request(opts.paths@[i]@, states[i], opts, cwd, sender));
}

/// A path that is there opens as it was typed, made absolute, and at no
/// position unless one is demanded: a directory as a folder, anything else as
/// a file. One that is not there opens as a file, and the user is told.
pub proof fn law_plain_path_requested(
    sock: Option<Seq<u8>>,
    opts: OpenOptions,
    states: Seq<ArgState>,
    cwd: Option<Seq<u8>>,
    sender: Sender,
    i: int,
)
    requires
        requests_for(sock, opts, states, cwd, sender) is Ok,
        0 <= i < opts.paths@.len(),
        (states[i].literal != FileState::Missing && !opts.force_goto) || position_in(
            opts.paths@[i]@,
        ) is None,
    ensures
        ({
            let d = if opts.diff is Some { 1int } else { 0int };
            let q = requests_for(sock, opts, states, cwd, sender)->Ok_0[d + i];
            let path = text::text_of(absolute(encode_utf8(opts.paths@[i]@), cwd));
            &&& states[i].literal == FileState::Directory ==> q.message.request.action
                == ActionView::Open { kind: Kind::Folder, path, line: 0, col: 0 }
            &&& states[i].literal != FileState::Directory ==> q.message.request.action
                == ActionView::Open { kind: Kind::File, path, line: 0, col: 0 }
            &&& q.shown == path
            &&& q.note is Some <==> states[i].literal == FileState::Missing
            &&& q.note matches Some(told) ==> text::contains(told, path)
        }),
{
    lemma_request_at(sock, opts, states, cwd, sender, i);
    lemma_missing_named(
        states[i].literal,
        text::text_of(absolute(encode_utf8(opts.paths@[i]@), cwd)),
    );
}

/// An argument without a colon has no position, nor has one that ends in a
/// colon or in anything else that is no number from 1 on.
pub proof fn law_no_position(arg: Seq<char>, head: Seq<char>, tail: Seq<char>)
    requires
        !tail.contains(':'),
    ensures
        !arg.contains(':') ==> position_in(arg) is None,
        text::parsed_u32(tail) is None || text::parsed_u32(tail) == Some(0u32) ==> position_in(
            head + seq![':'] + tail,
        ) is None,
{
    if !arg.contains(':') {
        lemma_no_colon(arg);
    }
    let s = head + seq![':'] + tail;
    lemma_colon_before(head, tail);
    assert(s.skip(head.len() as int + 1) =~= tail);
}

proof fn lemma_colon_before(head: Seq<char>, tail: Seq<char>)
    requires
        !tail.contains(':'),
    ensures
        last_colon(head + seq![':'] + tail) == Some(head.len() as int),
    decreases tail.len(),
{
    let s = head + seq![':'] + tail;
    if tail.len() == 0 {
        assert(s.last() == ':');
    } else {
        let init = tail.drop_last();
        assert(s.drop_last() =~= head + seq![':'] + init);
        assert(s.last() == tail.last());
        assert(tail.contains(tail.last()));
        assert(!init.contains(':')) by {
            if init.contains(':') {
                let i = choose|i: int| 0 <= i < init.len() && init[i] == ':';
                assert(tail[i] == ':');
            }
        }
        lemma_colon_before(head, init);
    }
}

proof fn lemma_missing_named(state: FileState, shown: Seq<char>)
    ensures
        missing_note(state, shown) matches Some(told) ==> text::contains(told, shown),
{
    if let Some(told) = missing_note(state, shown) {
        let at = "note: "@.len() as int;
        assert(told.subrange(at, at + shown.len()) =~= shown);
        assert(text::stands_at(told, at, shown));
    }
}

proof fn lemma_no_colon(s: Seq<char>)
    requires
        !s.contains(':'),
    ensures
        last_colon(s) is None,
    decreases s.len(),
{
    if s.len() > 0 {
        assert(s.contains(s.last()));
        assert(!s.drop_last().contains(':')) by {
            if s.drop_last().contains(':') {
                let i = choose|i: int| 0 <= i < s.drop_last().len() && s.drop_last()[i] == ':';
                assert(s[i] == ':');
            }
        }
        lemma_no_colon(s.drop_last());
    }
}

/// A path with a line, or a line and a column, behind it opens at that
/// position of the path without it, unless a file of the whole name is there
/// and no position is demanded.
pub proof fn law_position_requested(
    sock: Option<Seq<u8>>,
    opts: OpenOptions,
    states: Seq<ArgState>,
    cwd: Option<Seq<u8>>,
    sender: Sender,
    i: int,
    path: Seq<char>,
    line: u32,
    col: u32,
)
    requires
        requests_for(sock, opts, states, cwd, sender) is Ok,
        0 <= i < opts.paths@.len(),
        states[i].literal == FileState::Missing || opts.force_goto,
        path.len() > 0,
        line > 0,
        col > 0 || cut_number(path) is None,
        opts.paths@[i]@ == (if col == 0 {
            path + seq![':'] + text::decimal(line as nat)
        } else {
            path + seq![':'] + text::decimal(line as nat) + seq![':'] + text::decimal(col as nat)
        }),
    ensures
        ({
            let d = if opts.diff is Some { 1int } else { 0int };
            let q = requests_for(sock, opts, states, cwd, sender)->Ok_0[d + i];
            let kind = if states[i].bare == FileState::Directory {
                Kind::Folder
            } else {
                Kind::File
            };
            let at = text::text_of(absolute(encode_utf8(path), cwd));
            &&& q.message.request.action == ActionView::Open { kind, path: at, line, col }
            &&& q.shown == at
            &&& q.note is Some <==> states[i].bare == FileState::Missing
        }),
{
    reveal_strlit(":");
    assert(":"@ =~= seq![':']);
    lemma_request_at(sock, opts, states, cwd, sender, i);
    law_position_round_trip(path, line, col);
}

/// A path from the root is the same in every working directory, and a name
/// is an entry of the working directory it is used in.
pub proof fn law_absolute(p: Seq<u8>, name: Seq<u8>, cwd: Seq<u8>, other: Option<Seq<u8>>)
    requires
        path::rooted(cwd),
        path::plain_name(name),
    ensures
        path::rooted(p) ==> absolute(p, Some(cwd)) == absolute(p, other),
        absolute(seq![path::DOT], Some(cwd)) == path::clean_path(cwd),
        cwd.last() != path::SLASH && path::cleaned(path::segments(cwd)).len() > 0 ==> absolute(
            name,
            Some(cwd),
        ) == path::clean_path(cwd).push(path::SLASH) + name,
{
    let here = seq![path::DOT];
    assert(!path::rooted(here));
    if cwd.last() == path::SLASH {
        let dir = cwd.drop_last();
        if dir.len() > 0 {
            path::law_dots(dir, name);
            assert(dir.push(path::SLASH) =~= cwd);
        } else {
            assert(cwd =~= seq![path::SLASH]);
            path::lemma_root_dot();
            assert(cwd + here =~= seq![path::SLASH, path::DOT]);
        }
    } else {
        path::law_dots(cwd, name);
        assert(!path::rooted(name));
        if path::cleaned(path::segments(cwd)).len() > 0 {
            path::law_clean_keeps_names(cwd, name);
        }
    }
}

/// The flags that `back code` was given ask for the window: a new one before
/// the last one used, and neither where there is no flag.
pub proof fn law_window_asked(reuse: bool)
    ensures
        window_asked(true, reuse) == WindowMode::New,
        window_asked(false, true) == WindowMode::Reuse,
        window_asked(false, false) == WindowMode::Default,
{
}

/// Inside a VS Code terminal VS Code's own CLI gets what `back code` was
/// given: each flag exactly when it was given, the pair to compare, and every
/// path as typed, in their order.
pub proof fn law_cli_gets_everything(cli: Seq<u8>, opts: OpenOptions)
    ensures
        cli_launch(None, opts) is None,
        cli_launch(Some(cli), opts) matches Some(l) && l.program == cli && {
            let args = l.args;
            let w = if opts.wait { 1int } else { 0int };
            let g = if opts.window == WindowMode::Default { w } else { w + 1 };
            let d = if opts.force_goto { g + 1 } else { g };
            let n = if opts.diff is Some { d + 3 } else { d };
            &&& args.len() == n + opts.paths@.len()
            &&& opts.wait ==> args[0] == "--wait"@
            &&& opts.window == WindowMode::New ==> args[w] == "--new-window"@
            &&& opts.window == WindowMode::Reuse ==> args[w] == "--reuse-window"@
            &&& opts.force_goto ==> args[g] == "--goto"@
            &&& opts.diff matches Some((left, right)) ==> args[d] == "--diff"@ && args[d + 1]
                == left@ && args[d + 2] == right@
            &&& forall|i: int| 0 <= i < opts.paths@.len() ==> args[n + i] == #[trigger] opts.paths@[i]@
        },
{
    let args = cli_command(opts);
    let w = if opts.wait { 1int } else { 0int };
    let g = if opts.window == WindowMode::Default { w } else { w + 1 };
    let d = if opts.force_goto { g + 1 } else { g };
    let n = if opts.diff is Some { d + 3 } else { d };
    let all = text::texts(opts.paths@);
    assert(args.len() == n + all.len());
    assert forall|i: int| 0 <= i < opts.paths@.len() implies args[n + i]
        == #[trigger] opts.paths@[i]@ by {
        assert(args[n + i] == all[i]);
    }
}

// ---- what the shim does ----

/// Inside a VS Code terminal the shim becomes VS Code's own CLI, with or
/// without a channel; over a channel it never runs a program; in an ssh
/// session without one it does nothing; and in person it becomes the
/// machine's own `code`.
pub proof fn law_shim_order(
    args: Seq<Seq<char>>,
    cli: Seq<u8>,
    channel: bool,
    in_ssh: bool,
    local: Option<Seq<u8>>,
)
    ensures
        shim_action(args, Some(cli), channel, in_ssh, local) matches Ok(ShimActionView::Exec {
            cli: run,
            args: passed,
        }) && run == cli && passed == args,
        !(shim_action(args, None, true, in_ssh, local) matches Ok(ShimActionView::Exec { .. })),
        shim_action(args, None, false, true, local) == Err::<ShimActionView, Seq<char>>(NO_CHANNEL@),
        local is None ==> shim_action(args, None, false, false, local) == Err::<
            ShimActionView,
            Seq<char>,
        >(NO_LOCAL_CODE@),
        args.len() == 0 ==> shim_action(args, None, true, in_ssh, local) == Err::<
            ShimActionView,
            Seq<char>,
        >("usage: code <path>..."@),
        local matches Some(code) ==> (shim_action(args, None, false, false, local) matches Ok(
            ShimActionView::Exec { cli: run, args: passed },
        ) && run == code && passed == args),
{
}

proof fn lemma_with_flags(args: Seq<Seq<char>>)
    ensures
        with_flags(args, true).len() == 0 <==> forall|i: int|
            0 <= i < args.len() ==> !flag(#[trigger] args[i]),
        with_flags(args, true).len() == 0 ==> with_flags(args, false) == args,
    decreases args.len(),
{
    if args.len() > 0 {
        let init = args.drop_last();
        lemma_with_flags(init);
        assert(init.push(args.last()) =~= args);
        if with_flags(args, true).len() == 0 {
            assert forall|i: int| 0 <= i < args.len() implies !flag(#[trigger] args[i]) by {
                if i < init.len() {
                    assert(init[i] == args[i]);
                }
            }
        } else if forall|i: int| 0 <= i < args.len() ==> !flag(#[trigger] args[i]) {
            assert forall|i: int| 0 <= i < init.len() implies !flag(#[trigger] init[i]) by {
                assert(init[i] == args[i]);
            }
            assert(!flag(args[args.len() - 1]));
        }
    }
}

proof fn lemma_first_url(args: Seq<Seq<char>>)
    ensures
        first_url(args) is None <==> forall|i: int|
            0 <= i < args.len() ==> !url::web(#[trigger] args[i]),
        first_url(args) matches Some(u) ==> args.contains(u) && url::web(u),
    decreases args.len(),
{
    if args.len() > 0 {
        let rest = args.skip(1);
        lemma_first_url(rest);
        if url::web(args[0]) {
            assert(args.contains(args[0]));
        } else if let Some(u) = first_url(rest) {
            let i = choose|i: int| 0 <= i < rest.len() && rest[i] == u;
            assert(args[i + 1] == u);
        } else {
            assert forall|i: int| 0 <= i < args.len() implies !url::web(#[trigger] args[i]) by {
                if i > 0 {
                    assert(rest[i - 1] == args[i]);
                }
            }
        }
    }
}

/// Over a channel the shim sends what it was given, all of it and in its
/// order, exactly when that is one path or more, with no flag and no URL
/// among them; and a URL it will not send is in what the user is told.
pub proof fn law_shim_sends_paths(args: Seq<Seq<char>>, in_ssh: bool, local: Option<Seq<u8>>)
    ensures
        ({
            let r = shim_action(args, None, true, in_ssh, local);
            let no_flags = forall|i: int|
                0 <= i < args.len() ==> !((#[trigger] args[i]).len() > 0 && args[i][0] == '-');
            let no_urls = forall|i: int| 0 <= i < args.len() ==> !url::web(#[trigger] args[i]);
            &&& r is Ok <==> args.len() > 0 && no_flags && no_urls
            &&& r matches Ok(a) ==> a == ShimActionView::Send { paths: args }
            &&& args.len() > 0 && no_flags && !no_urls ==> exists|i: int|
                0 <= i < args.len() && url::web(#[trigger] args[i]) && text::contains(
                    r->Err_0,
                    args[i],
                )
        }),
{
    lemma_with_flags(args);
    lemma_first_url(args);
    let r = shim_action(args, None, true, in_ssh, local);
    let no_flags = forall|i: int|
        0 <= i < args.len() ==> !((#[trigger] args[i]).len() > 0 && args[i][0] == '-');
    assert(no_flags <==> with_flags(args, true).len() == 0) by {
        if with_flags(args, true).len() == 0 {
            assert forall|i: int| 0 <= i < args.len() implies !((#[trigger] args[i]).len() > 0
                && args[i][0] == '-') by {
                assert(!flag(args[i]));
            }
        } else if no_flags {
            assert forall|i: int| 0 <= i < args.len() implies !flag(#[trigger] args[i]) by {}
        }
    }
    if args.len() > 0 && no_flags && first_url(args) is Some {
        let u = first_url(args)->0;
        let told = r->Err_0;
        let i = choose|i: int| 0 <= i < args.len() && args[i] == u;
        let at = told.len() - u.len();
        assert(told.subrange(at, at + u.len()) =~= u);
        assert(text::stands_at(told, at, u));
        assert(url::web(args[i]));
    }
}

/// The first file on PATH that leads to a program which is neither this one
/// nor named like it is the machine's own `code`; what lies off PATH counts
/// only where there is none.
pub proof fn law_local_code(
    candidates: Seq<CodeCandidateView>,
    self_exe: Option<Seq<u8>>,
    off_path: Option<Seq<u8>>,
    i: int,
)
    requires
        0 <= i <= candidates.len(),
        forall|j: int|
            0 <= j < i ==> !(#[trigger] candidates[j]).is_file || candidates[j].resolved is None
                || install::our_name(candidates[j].resolved->0) || (self_exe is Some
                && path::path_eq(candidates[j].resolved->0, self_exe->0)),
    ensures
        i == candidates.len() ==> local_code_found(candidates, self_exe, off_path) == off_path,
        i < candidates.len() && candidates[i].is_file && (candidates[i].resolved matches Some(
            target,
        ) && !install::our_name(target) && (self_exe matches Some(e) ==> !path::path_eq(target, e)))
            ==> local_code_found(candidates, self_exe, off_path) == Some(candidates[i].path),
    decreases i,
{
    if i > 0 {
        let rest = candidates.skip(1);
        assert(!real_code(candidates[0], self_exe));
        assert forall|j: int| 0 <= j < i - 1 implies !(#[trigger] rest[j]).is_file
            || rest[j].resolved is None || install::our_name(rest[j].resolved->0) || (
        self_exe is Some && path::path_eq(rest[j].resolved->0, self_exe->0)) by {
            assert(rest[j] == candidates[j + 1]);
        }
        law_local_code(rest, self_exe, off_path, i - 1);
        if i < candidates.len() {
            assert(rest[i - 1] == candidates[i]);
        }
    }
}

/// A program is the shim by its own name, `code` or `code` and one
/// extension, wherever it lies.
pub proof fn law_shim_by_name(dir: Seq<u8>, name: Seq<u8>, ext: Seq<u8>)
    requires
        path::plain_name(name),
    ensures
        name == encode_utf8("code"@) ==> named_code(name) && named_code(
            dir.push(path::SLASH) + name,
        ),
        name == encode_utf8("code."@) + ext && !ext.contains(path::DOT) ==> named_code(
            dir.push(path::SLASH) + name,
        ),
        named_code(dir.push(path::SLASH) + name) ==> text::starts_with(name, encode_utf8("code"@)),
        named_code(dir.push(path::SLASH) + name) && name.len() > 4 ==> name[4] == path::DOT
            && forall|i: int| 5 <= i < name.len() ==> name[i] != path::DOT,
{
    path::law_base_name(dir, name);
    reveal_strlit("code");
    reveal_strlit("code.");
    is_ascii_chars_encode_utf8("code"@);
    is_ascii_chars_encode_utf8("code."@);
    let plain = encode_utf8("code"@);
    let dotted = encode_utf8("code."@);
    assert(plain.len() == 4 && dotted.len() == 5 && dotted[4] == path::DOT);
    assert(dotted.take(4) =~= plain);
    assert(plain.subrange(0, 4) =~= plain);
    if name == dotted + ext && !ext.contains(path::DOT) {
        text::lemma_prefixed(dotted, ext);
        assert forall|i: int| 5 <= i < name.len() implies name[i] != path::DOT by {
            assert(ext.contains(ext[i - 5]));
        }
    }
    if text::starts_with(name, dotted) {
        text::lemma_prefix_apart(name, dotted);
        assert(name.subrange(0, 4) =~= plain);
    }
}

/// A channel is live where its variable is set and a daemon answers there; an
/// ssh session is told by any of its variables; and an empty variable is not
/// set.
pub proof fn law_surroundings(sock: Seq<u8>, me: proto::PingReplyView, var: Seq<u8>)
    requires
        me.fits(),
        var.len() > 0,
    ensures
        sock.len() > 0 ==> channel_live(Some(sock), Some(me.encoded())),
        !channel_live(None, Some(me.encoded())),
        !channel_live(Some(Seq::empty()), Some(me.encoded())),
        !channel_live(Some(sock), None),
        ssh_session(Some(var), None, None),
        ssh_session(None, Some(var), None),
        ssh_session(None, None, Some(var)),
        !ssh_session(None, None, None),
        !ssh_session(Some(Seq::empty()), Some(Seq::empty()), Some(Seq::empty())),
{
    proto::law_ping_round_trip(me);
}

/// The machine's name ends at the first NUL.
pub proof fn law_host_name(name: Seq<char>, rest: Seq<u8>)
    requires
        !encode_utf8(name).contains(0),
    ensures
        host_named(Some(encode_utf8(name))) == name,
        host_named(Some(encode_utf8(name).push(0) + rest)) == name,
        host_named(None) == "unknown"@,
{
    let b = encode_utf8(name);
    let n = b.len() as int;
    assert forall|i: int| 0 <= i < n implies b[i] != 0 by {
        assert(b.contains(b[i]));
    }
    lemma_first_piece(b, n);
    assert(b.take(n) =~= b);
    let whole = b.push(0) + rest;
    assert forall|i: int| 0 <= i < n implies whole[i] != 0 by {
        assert(whole[i] == b[i]);
    }
    assert(whole[n] == 0);
    lemma_first_piece(whole, n);
    assert(whole.take(n) =~= b);
    text::lemma_text_of_utf8(name);
}

/// The servers that VS Code leaves below a home directory, where they lie.
pub proof fn law_server_layouts(home: Seq<u8>)
    requires
        home.len() > 0,
        home.last() != path::SLASH,
    ensures
        ({
            let at = server_layouts(home);
            &&& at.len() == 4
            &&& at[0].dir == home + encode_utf8("/.vscode-server/cli/servers"@)
            &&& at[1].dir == home + encode_utf8("/.vscode-server/bin"@)
            &&& at[2].dir == home + encode_utf8("/.vscode-server-insiders/cli/servers"@)
            &&& at[3].dir == home + encode_utf8("/.vscode-server-insiders/bin"@)
            &&& at[0].cli == encode_utf8("server/bin/remote-cli/code"@)
            &&& at[1].cli == encode_utf8("bin/remote-cli/code"@)
            &&& at[2].cli == encode_utf8("server/bin/remote-cli/code-insiders"@)
            &&& at[3].cli == encode_utf8("bin/remote-cli/code-insiders"@)
        }),
{
    lemma_below(home, "/.vscode-server/cli/servers"@, ".vscode-server"@, "cli/servers"@);
    lemma_below(home, "/.vscode-server/bin"@, ".vscode-server"@, "bin"@);
    lemma_below(
        home,
        "/.vscode-server-insiders/cli/servers"@,
        ".vscode-server-insiders"@,
        "cli/servers"@,
    );
    lemma_below(home, "/.vscode-server-insiders/bin"@, ".vscode-server-insiders"@, "bin"@);
    reveal_strlit("/.vscode-server/cli/servers");
    reveal_strlit("/.vscode-server/bin");
    reveal_strlit("/.vscode-server-insiders/cli/servers");
    reveal_strlit("/.vscode-server-insiders/bin");
    reveal_strlit(".vscode-server");
    reveal_strlit(".vscode-server-insiders");
    reveal_strlit("cli/servers");
    reveal_strlit("bin");
    assert("/.vscode-server/cli/servers"@ =~= seq!['/'] + ".vscode-server"@ + seq!['/']
        + "cli/servers"@);
    assert("/.vscode-server/bin"@ =~= seq!['/'] + ".vscode-server"@ + seq!['/'] + "bin"@);
    assert("/.vscode-server-insiders/cli/servers"@ =~= seq!['/'] + ".vscode-server-insiders"@
        + seq!['/'] + "cli/servers"@);
    assert("/.vscode-server-insiders/bin"@ =~= seq!['/'] + ".vscode-server-insiders"@ + seq!['/']
        + "bin"@);
}

/// Two names behind a directory, with slashes between them.
proof fn lemma_below(home: Seq<u8>, whole: Seq<char>, a: Seq<char>, b: Seq<char>)
    requires
        home.len() > 0,
        home.last() != path::SLASH,
    ensures
        whole == seq!['/'] + a + seq!['/'] + b && is_ascii_chars(a) && is_ascii_chars(b) && a.len()
            > 0 && a[0] != '/' && a.last() != '/' && b.len() > 0 && b[0] != '/' ==> path::joined(
            path::joined(home, encode_utf8(a)),
            encode_utf8(b),
        ) == home + encode_utf8(whole),
{
    let slash = seq!['/'];
    if whole == slash + a + slash + b && is_ascii_chars(a) && is_ascii_chars(b) && a.len() > 0
        && a[0] != '/' && a.last() != '/' && b.len() > 0 && b[0] != '/' {
        is_ascii_chars_encode_utf8(a);
        is_ascii_chars_encode_utf8(b);
        assert(is_ascii_chars(slash));
        is_ascii_chars_encode_utf8(slash);
        crate::uri::lemma_encode_concat(slash + a + slash, b);
        crate::uri::lemma_encode_concat(slash + a, slash);
        crate::uri::lemma_encode_concat(slash, a);
        assert(encode_utf8(slash) =~= seq![path::SLASH]);
        let x = encode_utf8(a);
        let y = encode_utf8(b);
        assert(x[0] == a[0] as u8 && x.last() == a[a.len() - 1] as u8 && y[0] == b[0] as u8);
        let inner = home.push(path::SLASH) + x;
        assert(path::joined(home, x) == inner);
        assert(inner.last() == x.last());
        assert(path::joined(inner, y) == inner.push(path::SLASH) + y);
        assert(inner.push(path::SLASH) + y =~= home + (seq![path::SLASH] + x + seq![path::SLASH]
            + y));
    }
}

/// A success carries what follows its byte, whatever that is; a plain failure
/// and anything unknown are errors.
pub proof fn law_replies_read(first: u8, rest: Seq<u8>)
    ensures
        reply_result(seq![6u8] + rest) == Ok::<Seq<u8>, Seq<char>>(rest),
        reply_result(seq![first] + rest) is Ok <==> first == 6,
        reply_result(Seq::empty()) is Err,
        reply_result(seq![5u8] + rest) == Err::<Seq<u8>, Seq<char>>(PLAIN_FORWARDING@),
{
    assert((seq![6u8] + rest).skip(1) =~= rest);
}

/// Without a working directory a name is an entry of the root.
pub proof fn law_absolute_without_cwd(name: Seq<u8>)
    requires
        path::plain_name(name),
    ensures
        absolute(name, None) == seq![path::SLASH] + name,
{
    reveal_strlit("/");
    is_ascii_chars_encode_utf8("/"@);
    let root = encode_utf8("/"@);
    assert(root =~= seq![path::SLASH]);
    assert(!path::rooted(name));
    path::law_clean_name(name);
}

/// A position is what stands behind the path: a colon and the line, and where
/// there is a column another colon and the column; neither is ever 0.
pub proof fn law_position_sound(arg: Seq<char>)
    ensures
        position_in(arg) matches Some((p, line, col)) ==> p.len() > 0 && line > 0 && exists|
            l: Seq<char>,
            c: Seq<char>,
        |
            {
                &&& arg == #[trigger] (p + l + c)
                &&& l.len() > 1 && l[0] == ':' && text::parsed_u32(l.skip(1)) == Some(line)
                &&& if col == 0 {
                    c.len() == 0
                } else {
                    c.len() > 1 && c[0] == ':' && text::parsed_u32(c.skip(1)) == Some(col)
                }
            },
{
    if let Some((p, line, col)) = position_in(arg) {
        let (head, n) = cut_number(arg)->0;
        lemma_cut_sound(arg);
        let last = arg.skip(head.len() as int);
        if cut_number(head) is Some {
            lemma_cut_sound(head);
            let l = head.skip(p.len() as int);
            assert(arg =~= p + l + last);
        } else {
            let none = Seq::<char>::empty();
            assert(arg =~= p + last + none);
        }
    }
}

proof fn lemma_cut_sound(s: Seq<char>)
    ensures
        cut_number(s) matches Some((head, n)) ==> {
            let tail = s.skip(head.len() as int);
            &&& 0 < head.len() < s.len()
            &&& head == s.take(head.len() as int)
            &&& n > 0
            &&& tail.len() > 1
            &&& tail[0] == ':'
            &&& text::parsed_u32(tail.skip(1)) == Some(n)
        },
{
    if let Some((head, n)) = cut_number(s) {
        lemma_colon_there(s);
        let i = last_colon(s)->0;
        let tail = s.skip(i);
        assert(tail.skip(1) =~= s.skip(i + 1));
        assert(text::parsed_u32(s.skip(i + 1)) is Some);
        assert(s.skip(i + 1).len() > 0);
    }
}

proof fn lemma_colon_there(s: Seq<char>)
    ensures
        last_colon(s) matches Some(i) ==> 0 <= i < s.len() && s[i] == ':',
    decreases s.len(),
{
    if s.len() > 0 && s.last() != ':' {
        lemma_colon_there(s.drop_last());
    }
}

/// The newest CLI was modified no earlier than any other, and later than each
/// that stands behind it; one whose time is known is newer than one whose
/// time is not.
pub proof fn law_newest(found: Seq<FoundCli>, i: int, j: int)
    requires
        newest_at(found, i),
        0 <= j < found.len(),
    ensures
        found[j].modified matches Some(t) ==> (found[i].modified matches Some(u) && t <= u),
        i < j ==> found[j].modified != found[i].modified,
{
    if j < i {
        assert(no_newer(found[j].modified, found[i].modified));
    } else if i < j {
        assert(!no_newer(found[i].modified, found[j].modified));
    }
}

/// Off PATH a `code` is looked for in the machine's applications and then in
/// the user's own.
pub proof fn law_off_path(home: Seq<u8>)
    ensures
        off_path_of(None).len() == 1,
        off_path_of(Some(home)).len() == 2,
        off_path_of(Some(home))[0] == off_path_of(None)[0],
        path::base_name(off_path_of(None)[0]) == path::base_name(off_path_of(Some(home))[1]),
        launch::fallbacks_of(None)[0] == off_path_of(None)[0],
        launch::fallbacks_of(Some(home)).take(2) == off_path_of(Some(home)),
{
    assert(launch::fallbacks_of(Some(home)).take(2) =~= off_path_of(Some(home)));
    launch::lemma_app_code(home);
}

/// What is printed names what is opened, and what is said of a channel that
/// cannot be reached names it and why.
pub proof fn law_words_name_their_subject(shown: Seq<char>, sock: Seq<u8>, error: Seq<char>)
    ensures
        text::contains(opening_words(shown), shown),
        text::starts_with(waiting_words(shown), shown),
        text::contains(unreachable_words(sock, error), text::text_of(sock)),
        text::contains(unreachable_words(sock, error), error),
{
    let at = text::text_of(sock);
    let ask = " — is the backchannel daemon running on your local machine?: "@;
    text::lemma_contained("opening "@, shown, " in VS Code on your local machine"@);
    text::lemma_prefixed(shown, ": waiting until closed"@);
    text::lemma_contained("connecting to "@, at, ask + error);
    assert("connecting to "@ + at + (ask + error) =~= unreachable_words(sock, error));
    text::lemma_contained("connecting to "@ + at + ask, error, Seq::empty());
}

/// VS Code's own CLI answers only inside its terminals, which set their hook,
/// and only where one was found.
pub proof fn law_cli_answers(hook: Seq<u8>, found: Seq<FoundCli>)
    ensures
        !cli_answers(None, found),
        !cli_answers(Some(Seq::empty()), found),
        hook.len() > 0 ==> (cli_answers(Some(hook), found) <==> found.len() > 0),
{
}

/// What the shim says of flags that it cannot send holds every one of them,
/// in their order.
pub proof fn law_flags_told(args: Seq<Seq<char>>, in_ssh: bool, local: Option<Seq<u8>>)
    requires
        exists|i: int| 0 <= i < args.len() && flag(#[trigger] args[i]),
    ensures
        shim_action(args, None, true, in_ssh, local) matches Err(told) && text::contains(
            told,
            text::spaced(with_flags(args, true)),
        ),
        forall|i: int|
            0 <= i < with_flags(args, true).len() ==> flag(#[trigger] with_flags(args, true)[i]),
{
    lemma_with_flags(args);
    text::lemma_contained(
        "unsupported flag(s) "@,
        text::spaced(with_flags(args, true)),
        ": over backchannel this `code` shim only accepts file/folder paths"@,
    );
    lemma_only_flags(args);
}

proof fn lemma_only_flags(args: Seq<Seq<char>>)
    ensures
        forall|i: int|
            0 <= i < with_flags(args, true).len() ==> flag(#[trigger] with_flags(args, true)[i]),
    decreases args.len(),
{
    if args.len() > 0 {
        let before = with_flags(args.drop_last(), true);
        lemma_only_flags(args.drop_last());
        assert forall|i: int| 0 <= i < with_flags(args, true).len() implies flag(
            #[trigger] with_flags(args, true)[i],
        ) by {
            if i < before.len() {
                assert(with_flags(args, true)[i] == before[i]);
            }
        }
    }
}

}
