//! `back open`: URLs go to the local browser, files to the local default
//! application. Files are transferred first; what the daemon opens is a copy
//! under a name that leads nowhere else.

use vstd::prelude::*;
use vstd::slice::slice_subrange;
use vstd::utf8::*;

use crate::clipboard::MAX_COPY_BYTES;
use crate::daemon;
use crate::messages;
use crate::messages::OpenFileRequest;
use crate::open::FileState;
use crate::path;
use crate::path::file_name;
use crate::proto;
use crate::proto::{extension, EXT_OPENFILE};
use crate::text;
use crate::text::{chars_of, decimal_text, lossy, slice_text, text_starts_with};
use crate::url;
use crate::url::is_web;

verus! {

// ---- on the remote ----

/// What `back open` is asked to open.
#[derive(Debug, Clone, PartialEq, Eq)]
pub enum OpenTarget {
    /// A URL for the browser.
    Url(String),
    /// A file to be transferred.
    File(String),
}

/// `OpenTarget` with its strings taken as characters.
pub enum OpenTargetView {
    Url(Seq<char>),
    File(Seq<char>),
}

impl View for OpenTarget {
    type V = OpenTargetView;

    open spec fn view(&self) -> OpenTargetView {
        match self {
            OpenTarget::Url(s) => OpenTargetView::Url(s@),
            OpenTarget::File(s) => OpenTargetView::File(s@),
        }
    }
}

/// What an argument of `back open` asks for: a web URL, or a file by its path
/// or its `file://` URL.
pub open spec fn target_in(arg: Seq<char>) -> OpenTargetView {
    if url::web(arg) {
        OpenTargetView::Url(arg)
    } else if text::starts_with(arg, "file://"@) {
        OpenTargetView::File(arg.skip("file://"@.len() as int))
    } else {
        OpenTargetView::File(arg)
    }
}

/// What an argument of `back open` asks for.
pub fn open_target(arg: &str) -> (r: OpenTarget)
    ensures
        r@ == target_in(arg@),
{
    if is_web(arg) {
        return OpenTarget::Url(arg.to_owned());
    }
    if text_starts_with(arg, "file://") {
        proof {
            reveal_strlit("file://");
        }
        let cs = chars_of(arg);
        assert(cs@.subrange(7, cs@.len() as int) =~= arg@.skip(7));
        return OpenTarget::File(slice_text(cs.as_slice(), 7, cs.len()));
    }
    OpenTarget::File(arg.to_owned())
}

/// What is said of a file that is too large to be transferred.
pub open spec fn over_limit(len: nat) -> Seq<char> {
    text::decimal(len) + " bytes exceeds the "@ + text::decimal(200) + " MiB transfer limit"@
}

/// Why a file is not transferred.
pub open spec fn transfer_refused(shown: Seq<char>, state: FileState, len: nat) -> Option<Seq<char>> {
    match state {
        FileState::Directory => Some(
            shown + " is a directory — open it in VS Code with: back code "@ + shown,
        ),
        FileState::Missing => Some(shown + " does not exist"@),
        FileState::File => if len > MAX_COPY_BYTES {
            Some(over_limit(len))
        } else {
            None
        },
    }
}

/// Why a file is not transferred; None when it is.
pub fn refuse_transfer(shown: &str, state: FileState, len: u64) -> (r: Option<String>)
    ensures
        text::maybe(r) == transfer_refused(shown@, state, len as nat),
{
    match state {
        FileState::Directory => Some(
            shown.to_owned().concat(" is a directory — open it in VS Code with: back code ").concat(
                shown,
            ),
        ),
        FileState::Missing => Some(shown.to_owned().concat(" does not exist")),
        FileState::File => if len > MAX_COPY_BYTES as u64 {
            Some(
                decimal_text(len).concat(" bytes exceeds the ").concat(
                    decimal_text((MAX_COPY_BYTES / 1_048_576) as u64).as_str(),
                ).concat(" MiB transfer limit"),
            )
        } else {
            None
        },
    }
}

/// The message that transfers a file.
pub open spec fn file_msg(basename: Seq<char>, hostname: Seq<char>, data: Seq<u8>) -> Seq<u8> {
    proto::extension_msg(EXT_OPENFILE@, messages::transfer_wire(basename, hostname, data))
}

/// The message that transfers a file.
pub fn send_file(basename: &str, hostname: &str, data: Vec<u8>) -> (r: Vec<u8>)
    ensures
        r@ == file_msg(basename@, hostname@, data@),
{
    let req = OpenFileRequest {
        basename: basename.to_owned(),
        hostname: hostname.to_owned(),
        data,
    };
    extension(EXT_OPENFILE, req.encode().as_slice())
}

/// What is printed when a URL is opened, through a tunnel to `alias` or not.
pub open spec fn url_note(url: Seq<char>, tunneled_to: Option<Seq<char>>) -> Seq<char> {
    match tunneled_to {
        None => "opening "@ + url + " in your local browser"@,
        Some(alias) => "opening "@ + url + " in your local browser, tunneled to "@ + alias,
    }
}

/// What is printed when a URL is opened, through a tunnel to `alias` or not.
pub fn browsing_note(url: &str, tunneled_to: &Option<String>) -> (r: String)
    ensures
        r@ == url_note(url@, text::maybe(*tunneled_to)),
{
    let head = "opening ".to_owned().concat(url);
    match tunneled_to {
        None => head.concat(" in your local browser"),
        Some(alias) => head.concat(" in your local browser, tunneled to ").concat(alias.as_str()),
    }
}

/// What is printed when a file is opened.
pub open spec fn file_words(shown: Seq<char>) -> Seq<char> {
    "opening "@ + shown + " with the default app on your local machine"@
}

/// What is printed when a file is opened.
pub fn file_note(shown: &str) -> (r: String)
    ensures
        r@ == file_words(shown@),
{
    "opening ".to_owned().concat(shown).concat(" with the default app on your local machine")
}

// ---- at the daemon ----

/// An ASCII letter in lower case; every other byte as it is.
pub open spec fn lower(b: u8) -> u8 {
    if 65 <= b <= 90 {
        (b + 32) as u8
    } else {
        b
    }
}

/// The bytes with their ASCII letters in lower case.
pub open spec fn lowered(s: Seq<u8>) -> Seq<u8> {
    s.map_values(|b: u8| lower(b))
}

/// `s` ends in `suffix`, in whatever case.
pub open spec fn ends_like(s: Seq<u8>, suffix: Seq<char>) -> bool {
    let e = encode_utf8(suffix);
    s.len() >= e.len() && lowered(s.skip(s.len() - e.len())) == e
}

/// A name whose file would be run rather than shown.
pub open spec fn runs(name: Seq<u8>) -> bool {
    ends_like(name, ".command"@) || ends_like(name, ".desktop"@) || ends_like(name, ".app"@)
}

/// The name under which a transferred file is opened: the last component of
/// the one it was sent under; nothing where that is no name, or one of a file
/// that would be run.
pub open spec fn safe_name(basename: Seq<char>) -> Option<Seq<u8>> {
    match path::base_name(encode_utf8(basename)) {
        Some(name) if !runs(name) => Some(name),
        _ => None,
    }
}

/// A copy with ASCII letters in lower case.
fn to_lower(s: &[u8]) -> (r: Vec<u8>)
    ensures
        r@ == lowered(s@),
{
    let mut out: Vec<u8> = Vec::new();
    let mut i: usize = 0;
    while i < s.len()
        invariant
            i <= s@.len(),
            out@ == lowered(s@).take(i as int),
        decreases s@.len() - i,
    {
        let b: u8 = s[i];
        if 65 <= b && b <= 90 {
            out.push(b + 32);
        } else {
            out.push(b);
        }
        assert(lowered(s@).take(i + 1) =~= lowered(s@).take(i as int).push(lower(b)));
        i += 1;
    }
    assert(lowered(s@).take(i as int) =~= lowered(s@));
    out
}

/// Whether `s` ends in `suffix`, in whatever case.
fn has_ending(s: &[u8], suffix: &str) -> (r: bool)
    ensures
        r == ends_like(s@, suffix@),
{
    let e = suffix.as_bytes();
    if s.len() < e.len() {
        return false;
    }
    let tail = slice_subrange(s, s.len() - e.len(), s.len());
    assert(tail@ =~= s@.skip(s@.len() - e@.len()));
    path::same_bytes(to_lower(tail).as_slice(), e)
}

/// The name under which a transferred file is opened.
pub fn sanitize(basename: &str) -> (r: Option<Vec<u8>>)
    ensures
        path::maybe(r) == safe_name(basename@),
{
    let name = file_name(basename.as_bytes())?;
    if has_ending(name.as_slice(), ".command") || has_ending(name.as_slice(), ".desktop")
        || has_ending(name.as_slice(), ".app") {
        return None;
    }
    Some(name)
}

/// A transferred file, ready to be opened.
#[derive(Debug, Clone, PartialEq, Eq)]
pub struct FilePlan {
    /// The name it gets, in a directory of its own.
    pub name: Vec<u8>,
    pub data: Vec<u8>,
    /// What is logged.
    pub note: String,
}

/// `FilePlan` by its contents.
pub struct FilePlanView {
    pub name: Seq<u8>,
    pub data: Seq<u8>,
    pub note: Seq<char>,
}

impl View for FilePlan {
    type V = FilePlanView;

    open spec fn view(&self) -> FilePlanView {
        FilePlanView { name: self.name@, data: self.data@, note: self.note@ }
    }
}

/// What is said of a name under which nothing is opened.
pub open spec fn name_refused(basename: Seq<char>) -> Seq<char> {
    "refusing to open a file named "@ + text::debug_quoted(basename)
}

/// What a transferred file is opened as, or what its client is told.
pub open spec fn file_plan(data: Seq<u8>) -> Result<FilePlanView, Seq<char>> {
    match messages::take_transfer(data) {
        Err(e) => Err("decoding openfile request: "@ + e.message()),
        Ok((basename, hostname, bytes)) => match safe_name(basename) {
            None => Err(name_refused(basename)),
            Some(name) => Ok(
                FilePlanView {
                    name,
                    data: bytes,
                    note: "open file "@ + text::text_of(name) + " ("@ + text::decimal(bytes.len())
                        + " bytes) from host '"@ + hostname + "'"@,
                },
            ),
        },
    }
}

/// Reads a transferred file; the error is what the client is told.
pub fn handle_open_file(data: &[u8]) -> (r: Result<FilePlan, String>)
    ensures
        match file_plan(data@) {
            Ok(plan) => r is Ok && r->Ok_0@ == plan,
            Err(e) => r is Err && r->Err_0@ == e,
        },
{
    match OpenFileRequest::decode(data) {
        Err(e) => Err("decoding openfile request: ".to_owned().concat(e.message().as_str())),
        Ok(q) => match sanitize(q.basename.as_str()) {
            None => Err(
                "refusing to open a file named ".to_owned().concat(
                    text::quoted(q.basename.as_str()).as_str(),
                ),
            ),
            Some(name) => {
                let note = "open file ".to_owned().concat(lossy(name.as_slice()).as_str()).concat(
                    " (",
                ).concat(decimal_text(q.data.len() as u64).as_str()).concat(
                    " bytes) from host '",
                ).concat(q.hostname.as_str()).concat("'");
                Ok(FilePlan { name, data: q.data, note })
            },
        },
    }
}

/// A transferred file is opened under a name that leads to an entry of one
/// directory and nowhere else, and never under that of a program.
pub proof fn law_safe_name(basename: Seq<char>)
    ensures
        safe_name(basename) matches Some(name) ==> path::plain_name(name) && !runs(name),
{
    path::law_base_name_plain(encode_utf8(basename));
}

/// A transferred file reaches the daemon's handler with its data as sent.
proof fn lemma_file_routed(
    payload: Seq<u8>,
    me: proto::PingReplyView,
    peer: Option<crate::peer::PeerInfo>,
)
    ensures
        daemon::route(proto::extension_msg(EXT_OPENFILE@, payload), me, peer)
            == daemon::ClientStepView::OpenFile(payload),
{
    reveal_strlit("openfile@backchannel");
    reveal_strlit("copy@backchannel");
    reveal_strlit("open@backchannel");
    reveal_strlit("ping@backchannel");
    reveal_strlit("shutdown@backchannel");
    assert(EXT_OPENFILE@[0] == 'o' && EXT_OPENFILE@.len() != proto::EXT_OPEN@.len());
    assert(proto::EXT_PING@[0] == 'p' && proto::EXT_SHUTDOWN@[0] == 's' && proto::EXT_COPY@[0]
        == 'c');
    is_ascii_chars_encode_utf8(EXT_OPENFILE@);
    proto::law_extension_round_trip(EXT_OPENFILE@, payload);
}

/// What is transferred is what the daemon opens: the same bytes, under the
/// last component of the same name.
pub proof fn law_file_delivered(
    basename: Seq<char>,
    hostname: Seq<char>,
    data: Seq<u8>,
    me: proto::PingReplyView,
    peer: Option<crate::peer::PeerInfo>,
)
    requires
        proto::fits(basename),
        proto::fits(hostname),
    ensures
        daemon::route(file_msg(basename, hostname, data), me, peer) matches
            daemon::ClientStepView::OpenFile(payload) && messages::take_transfer(payload) == Ok::<
            (Seq<char>, Seq<char>, Seq<u8>),
            proto::ProtoErrorView,
        >((basename, hostname, data)),
{
    lemma_file_routed(messages::transfer_wire(basename, hostname, data), me, peer);
    messages::law_transfer_round_trip(basename, hostname, data);
}

/// A web URL is opened as it was typed; anything else is a file, by its path
/// or by the path of its `file://` URL.
pub proof fn law_targets(arg: Seq<char>, rest: Seq<char>)
    ensures
        target_in("http://"@ + rest) == OpenTargetView::Url("http://"@ + rest),
        target_in("https://"@ + rest) == OpenTargetView::Url("https://"@ + rest),
        target_in("file://"@ + rest) == OpenTargetView::File(rest),
        !text::starts_with(arg, "http://"@) && !text::starts_with(arg, "https://"@)
            && !text::starts_with(arg, "file://"@) ==> target_in(arg) == OpenTargetView::File(arg),
{
    reveal_strlit("http://");
    reveal_strlit("https://");
    reveal_strlit("file://");
    url::law_web(arg, rest);
    text::lemma_prefixed("file://"@, rest);
    let file = "file://"@ + rest;
    assert(file[0] == 'f');
    text::lemma_not_prefixed(file, "http://"@, 0);
    text::lemma_not_prefixed(file, "https://"@, 0);
}

/// A file goes over the channel exactly when it is one and fits; what is
/// said of another names it.
pub proof fn law_transferable(shown: Seq<char>, state: FileState, len: nat)
    ensures
        transfer_refused(shown, state, len) is None <==> state == FileState::File && len
            <= 209_715_200,
        state == FileState::Directory ==> text::starts_with(
            transfer_refused(shown, state, len)->0,
            shown + " is a directory"@,
        ),
        state == FileState::Missing ==> transfer_refused(shown, state, len) == Some(
            shown + " does not exist"@,
        ),
        state == FileState::File && len > 209_715_200 ==> text::starts_with(
            transfer_refused(shown, state, len)->0,
            text::decimal(len),
        ),
{
    let n = text::decimal(len);
    if let Some(told) = transfer_refused(shown, state, len) {
        if state == FileState::File {
            assert(told.subrange(0, n.len() as int) =~= n);
        } else if state == FileState::Directory {
            let middle = " is a directory — open it in VS Code with: back code "@;
            reveal_strlit(" is a directory — open it in VS Code with: back code ");
            reveal_strlit(" is a directory");
            let front = shown + " is a directory"@;
            assert(middle.take(15) =~= " is a directory"@);
            assert(told.subrange(0, front.len() as int) =~= front);
        }
    }
}

/// Nothing is opened under the name of a program, however its letters are
/// cased and wherever it was sent from.
pub proof fn law_programs_refused(dir: Seq<char>, name: Seq<char>, tail: Seq<u8>, kind: Seq<char>)
    requires
        kind == ".command"@ || kind == ".desktop"@ || kind == ".app"@,
        path::plain_name(encode_utf8(name)),
        tail.len() == encode_utf8(kind).len() <= encode_utf8(name).len(),
        tail == encode_utf8(name).skip(encode_utf8(name).len() - tail.len()),
        forall|i: int|
            0 <= i < tail.len() ==> #[trigger] tail[i] == encode_utf8(kind)[i] || (65 <= tail[i]
                <= 90 && tail[i] + 32 == encode_utf8(kind)[i]),
    ensures
        safe_name(name) is None,
        safe_name(dir + seq!['/'] + name) is None,
{
    reveal_strlit(".command");
    reveal_strlit(".desktop");
    reveal_strlit(".app");
    is_ascii_chars_encode_utf8(kind);
    let e = encode_utf8(kind);
    assert forall|i: int| 0 <= i < tail.len() implies lower(#[trigger] tail[i]) == e[i] by {
        assert(e[i] == kind[i] as u8);
        assert(kind[i] == '.' || 'a' <= kind[i] <= 'z');
    }
    assert(lowered(tail) =~= e);
    lemma_named(dir, name);
}

/// The last component of a path that ends in a name is the name.
proof fn lemma_named(dir: Seq<char>, name: Seq<char>)
    requires
        path::plain_name(encode_utf8(name)),
    ensures
        path::base_name(encode_utf8(name)) == Some(encode_utf8(name)),
        path::base_name(encode_utf8(dir + seq!['/'] + name)) == Some(encode_utf8(name)),
{
    let slash = seq!['/'];
    path::law_base_name(encode_utf8(dir), encode_utf8(name));
    crate::uri::lemma_encode_concat(dir + slash, name);
    crate::uri::lemma_encode_concat(dir, slash);
    assert(encode_utf8(slash) =~= seq![path::SLASH]) by {
        assert(is_ascii_chars(slash));
        is_ascii_chars_encode_utf8(slash);
    }
    assert(encode_utf8(dir) + seq![path::SLASH] =~= encode_utf8(dir).push(path::SLASH));
}

/// A name is too short for an ending, or differs from it in some place by
/// more than the case of a letter.
pub open spec fn ends_otherwise(s: Seq<u8>, ending: Seq<char>) -> bool {
    s.len() < ending.len() || exists|i: int|
        0 <= i < ending.len() && {
            let b = #[trigger] s[s.len() - ending.len() + i];
            b != ending[i] as u8 && !(65 <= b <= 90 && b + 32 == ending[i] as u8)
        }
}

/// A file that ends like no program keeps its name, wherever it was sent
/// from.
pub proof fn law_files_keep_their_names(dir: Seq<char>, name: Seq<char>)
    requires
        path::plain_name(encode_utf8(name)),
        ends_otherwise(encode_utf8(name), ".command"@),
        ends_otherwise(encode_utf8(name), ".desktop"@),
        ends_otherwise(encode_utf8(name), ".app"@),
    ensures
        safe_name(name) == Some(encode_utf8(name)),
        safe_name(dir + seq!['/'] + name) == Some(encode_utf8(name)),
{
    lemma_named(dir, name);
    reveal_strlit(".command");
    reveal_strlit(".desktop");
    reveal_strlit(".app");
    lemma_ends_otherwise(encode_utf8(name), ".command"@);
    lemma_ends_otherwise(encode_utf8(name), ".desktop"@);
    lemma_ends_otherwise(encode_utf8(name), ".app"@);
}

proof fn lemma_ends_otherwise(s: Seq<u8>, suffix: Seq<char>)
    requires
        is_ascii_chars(suffix),
        ends_otherwise(s, suffix),
    ensures
        !ends_like(s, suffix),
{
    is_ascii_chars_encode_utf8(suffix);
    let e = encode_utf8(suffix);
    let n = e.len() as int;
    if ends_like(s, suffix) {
        let tail = s.skip(s.len() - n);
        let i = choose|i: int|
            0 <= i < n && {
                let b = #[trigger] s[s.len() - n + i];
                b != suffix[i] as u8 && !(65 <= b <= 90 && b + 32 == suffix[i] as u8)
            };
        assert(tail[i] == s[s.len() - n + i]);
        assert(lowered(tail)[i] == lower(tail[i]));
        assert(e[i] == suffix[i] as u8);
    }
}

/// What is transferred is what is opened: the bytes as sent, under the name
/// that is safe, or nothing where none is.
pub proof fn law_file_opened_as_sent(basename: Seq<char>, hostname: Seq<char>, data: Seq<u8>)
    requires
        proto::fits(basename),
        proto::fits(hostname),
    ensures
        match safe_name(basename) {
            Some(name) => file_plan(messages::transfer_wire(basename, hostname, data)) matches Ok(
                plan,
            ) && plan.name == name && plan.data == data,
            None => file_plan(messages::transfer_wire(basename, hostname, data)) == Err::<
                FilePlanView,
                Seq<char>,
            >(name_refused(basename)),
        },
        messages::take_transfer(data) is Err ==> file_plan(data) is Err,
{
    messages::law_transfer_round_trip(basename, hostname, data);
}

/// What is printed names what is opened, and the host that a URL is tunneled
/// to.
pub proof fn law_opening_told(shown: Seq<char>, alias: Seq<char>)
    ensures
        text::contains(file_words(shown), shown),
        text::contains(url_note(shown, None), shown),
        text::contains(url_note(shown, Some(alias)), shown),
        text::contains(url_note(shown, Some(alias)), alias),
{
    let through = " in your local browser, tunneled to "@;
    text::lemma_contained("opening "@, shown, " with the default app on your local machine"@);
    text::lemma_contained("opening "@, shown, " in your local browser"@);
    text::lemma_contained("opening "@, shown, through + alias);
    assert("opening "@ + shown + (through + alias) =~= url_note(shown, Some(alias)));
    text::lemma_contained("opening "@ + shown + through, alias, Seq::empty());
}

/// What is said of a name that is refused holds the name.
pub proof fn law_refused_name_told(basename: Seq<char>)
    ensures
        text::contains(name_refused(basename), text::debug_quoted(basename)),
{
    text::lemma_contained(
        "refusing to open a file named "@,
        text::debug_quoted(basename),
        Seq::empty(),
    );
}

}
