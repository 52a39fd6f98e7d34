//! What goes to the local clipboard, and through which tool: text and images
//! go through the tools every desktop already has (pbcopy/osascript on macOS,
//! wl-copy/xclip on Linux).

use vstd::prelude::*;
use vstd::utf8::*;

use crate::launch;
use crate::launch::Reaped;
use crate::path;
use crate::path::{bytes_of, join};
use crate::text;
use crate::text::{bytes_stand_at, decimal_text, is_utf8, lossy, quoted, same, trim};

verus! {

/// The most that is copied or transferred at once, 200 MiB; a frame
/// (`proto::MAX_FRAME`) leaves headroom above this.
pub const MAX_COPY_BYTES: usize = 209_715_200;

// ---- what the data is ----

/// The data starts like a PNG image.
pub open spec fn png(data: Seq<u8>) -> bool {
    text::starts_with(data, seq![0x89u8, 0x50u8, 0x4Eu8, 0x47u8])
}

/// The data starts like a JPEG image.
pub open spec fn jpeg(data: Seq<u8>) -> bool {
    text::starts_with(data, seq![0xFFu8, 0xD8u8, 0xFFu8])
}

/// The data starts like a GIF image: `GIF87a` or `GIF89a`.
pub open spec fn gif(data: Seq<u8>) -> bool {
    text::starts_with(data, seq![0x47u8, 0x49u8, 0x46u8, 0x38u8, 0x37u8, 0x61u8])
        || text::starts_with(data, seq![0x47u8, 0x49u8, 0x46u8, 0x38u8, 0x39u8, 0x61u8])
}

/// The data starts like a TIFF image, little-endian or big-endian.
pub open spec fn tiff(data: Seq<u8>) -> bool {
    text::starts_with(data, seq![0x49u8, 0x49u8, 0x2Au8, 0x00u8]) || text::starts_with(
        data,
        seq![0x4Du8, 0x4Du8, 0x00u8, 0x2Au8],
    )
}

/// The kind of the data: known image magics first, then UTF-8 text.
pub open spec fn kind_in(data: Seq<u8>) -> Option<Seq<char>> {
    if png(data) {
        Some("image/png"@)
    } else if jpeg(data) {
        Some("image/jpeg"@)
    } else if gif(data) {
        Some("image/gif"@)
    } else if tiff(data) {
        Some("image/tiff"@)
    } else if valid_utf8(data) {
        Some("text"@)
    } else {
        None
    }
}

/// Whether the data starts with the bytes `magic`.
fn begins(data: &[u8], magic: Vec<u8>) -> (r: bool)
    ensures
        r == text::starts_with(data@, magic@),
{
    bytes_stand_at(data, 0, magic.as_slice())
}

/// Sniff content: known image magics first, then UTF-8 text. None means
/// "refuse rather than corrupt someone's clipboard".
pub fn detect_kind(data: &[u8]) -> (r: Option<&'static str>)
    ensures
        match kind_in(data@) {
            Some(k) => r is Some && r->0@ == k,
            None => r is None,
        },
{
    if begins(data, vec![0x89u8, 0x50u8, 0x4Eu8, 0x47u8]) {
        return Some("image/png");
    }
    if begins(data, vec![0xFFu8, 0xD8u8, 0xFFu8]) {
        return Some("image/jpeg");
    }
    if begins(data, vec![0x47u8, 0x49u8, 0x46u8, 0x38u8, 0x37u8, 0x61u8]) || begins(
        data,
        vec![0x47u8, 0x49u8, 0x46u8, 0x38u8, 0x39u8, 0x61u8],
    ) {
        return Some("image/gif");
    }
    if begins(data, vec![0x49u8, 0x49u8, 0x2Au8, 0x00u8]) || begins(
        data,
        vec![0x4Du8, 0x4Du8, 0x00u8, 0x2Au8],
    ) {
        return Some("image/tiff");
    }
    if is_utf8(data) {
        return Some("text");
    }
    None
}

/// Any text can be copied: it is text, or it starts like an image.
pub proof fn law_text_copies(s: Seq<char>)
    ensures
        kind_in(encode_utf8(s)) is Some,
{
    encode_utf8_valid_utf8(s);
}

// ---- which tool takes it ----

/// What a system offers for its clipboard.
#[derive(Debug, Clone, PartialEq, Eq)]
pub enum Desktop {
    Macos {
        /// Where a temporary file can stand.
        temp_dir: Vec<u8>,
        pid: u32,
    },
    Linux {
        /// `$WAYLAND_DISPLAY`.
        wayland: Option<Vec<u8>>,
        wl_copy: Option<Vec<u8>>,
        xclip: Option<Vec<u8>>,
    },
    Other,
}

/// How data gets to the clipboard.
#[derive(Debug, Clone, PartialEq, Eq)]
pub enum ClipPlan {
    /// Run the program with the data on its stdin, and, where asked, with
    /// `LC_CTYPE=UTF-8`: pbcopy interprets its input per locale, and daemons
    /// often have none set.
    Pipe { program: Vec<u8>, args: Vec<String>, utf8_locale: bool },
    /// Write the data to the file, have osascript run the script, and remove
    /// the file: pbcopy takes text only, AppleScript needs a file.
    Script { file: Vec<u8>, script: String },
}

/// `ClipPlan` by its contents.
pub enum ClipPlanView {
    Pipe { program: Seq<u8>, args: Seq<Seq<char>>, utf8_locale: bool },
    Script { file: Seq<u8>, script: Seq<char> },
}

impl View for ClipPlan {
    type V = ClipPlanView;

    open spec fn view(&self) -> ClipPlanView {
        match self {
            ClipPlan::Pipe { program, args, utf8_locale } => ClipPlanView::Pipe {
                program: program@,
                args: text::texts(args@),
                utf8_locale: *utf8_locale,
            },
            ClipPlan::Script { file, script } => ClipPlanView::Script {
                file: file@,
                script: script@,
            },
        }
    }
}

/// What is said on a system without a clipboard we know.
pub const NO_CLIPBOARD: &'static str = "clipboard not implemented on this platform";

/// What is said on a Linux desktop without a clipboard tool.
pub const NO_TOOL: &'static str =
    "no clipboard tool found — install wl-clipboard (wayland) or xclip (x11)";

/// AppleScript's class of an image kind.
pub open spec fn mac_class(kind: Seq<char>) -> Option<Seq<char>> {
    if kind == "image/png"@ {
        Some("PNGf"@)
    } else if kind == "image/jpeg"@ {
        Some("JPEG"@)
    } else if kind == "image/gif"@ {
        Some("GIFf"@)
    } else if kind == "image/tiff"@ {
        Some("TIFF"@)
    } else {
        None
    }
}

/// The file that an image passes through.
pub open spec fn mac_file(temp_dir: Seq<u8>, pid: u32, len: nat) -> Seq<u8> {
    path::joined(
        temp_dir,
        encode_utf8("backchannel-clip-"@ + text::decimal(pid as nat) + "-"@ + text::decimal(len)),
    )
}

/// The script that takes an image from a file.
pub open spec fn mac_script(file: Seq<u8>, class: Seq<char>) -> Seq<char> {
    "set the clipboard to (read (POSIX file \""@ + text::text_of(file) + "\") as «class "@ + class
        + "»)"@
}

/// How an image gets to the clipboard on macOS.
pub open spec fn mac_image(
    kind: Seq<char>,
    len: nat,
    temp_dir: Seq<u8>,
    pid: u32,
) -> Result<ClipPlanView, Seq<char>> {
    match mac_class(kind) {
        Some(class) => {
            let file = mac_file(temp_dir, pid, len);
            Ok(ClipPlanView::Script { file, script: mac_script(file, class) })
        },
        None => Err("unsupported image kind "@ + text::debug_quoted(kind)),
    }
}

/// How text gets to the clipboard on macOS.
pub open spec fn mac_text() -> ClipPlanView {
    ClipPlanView::Pipe {
        program: encode_utf8("/usr/bin/pbcopy"@),
        args: Seq::empty(),
        utf8_locale: true,
    }
}

/// The flag that names a type other than text.
pub open spec fn mime_args(mime: Option<Seq<char>>) -> Seq<Seq<char>> {
    match mime {
        Some(m) => seq!["-t"@, m],
        None => Seq::empty(),
    }
}

/// How data gets to the clipboard on Linux: by wl-copy under wayland where it
/// is there, else by xclip.
pub open spec fn linux_plan(
    mime: Option<Seq<char>>,
    wayland: Option<Seq<u8>>,
    wl_copy: Option<Seq<u8>>,
    xclip: Option<Seq<u8>>,
) -> Result<ClipPlanView, Seq<char>> {
    if crate::open::set_var(wayland) && wl_copy is Some {
        Ok(
            ClipPlanView::Pipe {
                program: wl_copy->0,
                args: mime_args(mime),
                utf8_locale: false,
            },
        )
    } else if xclip is Some {
        Ok(
            ClipPlanView::Pipe {
                program: xclip->0,
                args: seq!["-selection"@, "clipboard"@, "-i"@] + mime_args(mime),
                utf8_locale: false,
            },
        )
    } else {
        Err(NO_TOOL@)
    }
}

/// How data of a kind gets to the clipboard of a desktop.
pub open spec fn desktop_plan(kind: Seq<char>, len: nat, desktop: Desktop) -> Result<
    ClipPlanView,
    Seq<char>,
> {
    match desktop {
        Desktop::Macos { temp_dir, pid } => if kind == "text"@ {
            Ok(mac_text())
        } else {
            mac_image(kind, len, temp_dir@, pid)
        },
        Desktop::Linux { wayland, wl_copy, xclip } => linux_plan(
            if kind == "text"@ {
                None
            } else {
                Some(kind)
            },
            path::maybe(wayland),
            path::maybe(wl_copy),
            path::maybe(xclip),
        ),
        Desktop::Other => Err(NO_CLIPBOARD@),
    }
}

/// How data of a kind gets to the clipboard: by the program that
/// `$BACKCHANNEL_CLIPBOARD` names, invoked with the kind, else by the
/// desktop's own.
pub open spec fn clip_plan(kind: Seq<char>, len: nat, named: Option<Seq<u8>>, desktop: Desktop) -> Result<
    ClipPlanView,
    Seq<char>,
> {
    match named {
        Some(program) => Ok(
            ClipPlanView::Pipe { program, args: seq![kind], utf8_locale: false },
        ),
        None => desktop_plan(kind, len, desktop),
    }
}

/// AppleScript's class of an image kind.
fn class_of(kind: &str) -> (r: Option<&'static str>)
    ensures
        match mac_class(kind@) {
            Some(c) => r is Some && r->0@ == c,
            None => r is None,
        },
{
    if same(kind, "image/png") {
        Some("PNGf")
    } else if same(kind, "image/jpeg") {
        Some("JPEG")
    } else if same(kind, "image/gif") {
        Some("GIFf")
    } else if same(kind, "image/tiff") {
        Some("TIFF")
    } else {
        None
    }
}

/// How an image gets to the clipboard on macOS. The temporary file's name is
/// generated, so the script has nothing to quote.
pub fn set_image(kind: &str, len: usize, temp_dir: &[u8], pid: u32) -> (r: Result<ClipPlan, String>)
    ensures
        match mac_image(kind@, len as nat, temp_dir@, pid) {
            Ok(p) => r is Ok && r->Ok_0@ == p,
            Err(e) => r is Err && r->Err_0@ == e,
        },
{
    let class = match class_of(kind) {
        Some(c) => c,
        None => {
            return Err("unsupported image kind ".to_owned().concat(quoted(kind).as_str()));
        },
    };
    let name = "backchannel-clip-".to_owned().concat(decimal_text(pid as u64).as_str()).concat(
        "-",
    ).concat(decimal_text(len as u64).as_str());
    let file = join(temp_dir, name.as_str().as_bytes());
    let script = "set the clipboard to (read (POSIX file \"".to_owned().concat(
        lossy(file.as_slice()).as_str(),
    ).concat("\") as «class ").concat(class).concat("»)");
    Ok(ClipPlan::Script { file, script })
}

/// How data gets to the clipboard on Linux.
pub fn linux_clip(
    mime: Option<&str>,
    wayland: &Option<Vec<u8>>,
    wl_copy: &Option<Vec<u8>>,
    xclip: &Option<Vec<u8>>,
) -> (r: Result<ClipPlan, String>)
    ensures
        match linux_plan(
            match mime {
                Some(m) => Some(m@),
                None => None,
            },
            path::maybe(*wayland),
            path::maybe(*wl_copy),
            path::maybe(*xclip),
        ) {
            Ok(p) => r is Ok && r->Ok_0@ == p,
            Err(e) => r is Err && r->Err_0@ == e,
        },
{
    broadcast use text::lemma_texts_push;

    let mut args: Vec<String> = Vec::new();
    assert(text::texts(args@) =~= Seq::empty());
    let under_wayland = match wayland {
        Some(w) => w.len() > 0,
        None => false,
    };
    if under_wayland {
        if let Some(program) = wl_copy {
            if let Some(m) = mime {
                args.push("-t".to_owned());
                args.push(m.to_owned());
                assert(text::texts(args@) =~= seq!["-t"@, m@]);
            }
            return Ok(
                ClipPlan::Pipe {
                    program: bytes_of(program.as_slice()),
                    args,
                    utf8_locale: false,
                },
            );
        }
    }
    if let Some(program) = xclip {
        args.push("-selection".to_owned());
        args.push("clipboard".to_owned());
        args.push("-i".to_owned());
        let ghost head = seq!["-selection"@, "clipboard"@, "-i"@];
        assert(text::texts(args@) =~= head);
        match mime {
            Some(m) => {
                args.push("-t".to_owned());
                args.push(m.to_owned());
                assert(text::texts(args@) =~= head + mime_args(Some(m@)));
            },
            None => {
                assert(text::texts(args@) =~= head + mime_args(None));
            },
        }
        return Ok(
            ClipPlan::Pipe { program: bytes_of(program.as_slice()), args, utf8_locale: false },
        );
    }
    Err(NO_TOOL.to_owned())
}

/// How `len` bytes of a kind get to the clipboard.
pub fn set(kind: &str, len: usize, named: &Option<Vec<u8>>, desktop: &Desktop) -> (r: Result<
    ClipPlan,
    String,
>)
    ensures
        match clip_plan(kind@, len as nat, path::maybe(*named), *desktop) {
            Ok(p) => r is Ok && r->Ok_0@ == p,
            Err(e) => r is Err && r->Err_0@ == e,
        },
{
    broadcast use text::lemma_texts_push;

    if let Some(program) = named {
        let mut args: Vec<String> = Vec::new();
        assert(text::texts(args@) =~= Seq::empty());
        args.push(kind.to_owned());
        assert(text::texts(args@) =~= seq![kind@]);
        return Ok(
            ClipPlan::Pipe { program: bytes_of(program.as_slice()), args, utf8_locale: false },
        );
    }
    let is_text = same(kind, "text");
    match desktop {
        Desktop::Macos { temp_dir, pid } => if is_text {
            let args: Vec<String> = Vec::new();
            assert(text::texts(args@) =~= Seq::empty());
            Ok(
                ClipPlan::Pipe {
                    program: bytes_of("/usr/bin/pbcopy".as_bytes()),
                    args,
                    utf8_locale: true,
                },
            )
        } else {
            set_image(kind, len, temp_dir.as_slice(), *pid)
        },
        Desktop::Linux { wayland, wl_copy, xclip } => if is_text {
            linux_clip(None, wayland, wl_copy, xclip)
        } else {
            linux_clip(Some(kind), wayland, wl_copy, xclip)
        },
        Desktop::Other => Err(NO_CLIPBOARD.to_owned()),
    }
}

/// Why a clipboard tool did not do its work: it failed, or it could not be
/// waited for, and the system said why.
pub open spec fn pipe_error(program: Seq<u8>, reaped: Reaped) -> Option<Seq<char>> {
    match reaped {
        Reaped::Success => None,
        Reaped::Failure { .. } => launch::reap_note(program, reaped),
        Reaped::Lost { error } => Some(error@),
    }
}

/// What the end of a clipboard tool means.
pub fn pipe_result(program: &[u8], reaped: &Reaped) -> (r: Result<(), String>)
    ensures
        match pipe_error(program@, *reaped) {
            None => r is Ok,
            Some(e) => r is Err && r->Err_0@ == e,
        },
{
    match reaped {
        Reaped::Lost { error } => Err(error.as_str().to_owned()),
        _ => match launch::reap(program, reaped) {
            None => Ok(()),
            Some(e) => Err(e),
        },
    }
}

/// What is said when osascript fails, with this on its stderr.
pub open spec fn script_failure(stderr: Seq<u8>) -> Seq<char> {
    "osascript failed: "@ + text::trimmed(text::text_of(stderr))
}

/// What is said when the script fails.
pub fn script_error(stderr: &[u8]) -> (r: String)
    ensures
        r@ == script_failure(stderr@),
{
    "osascript failed: ".to_owned().concat(trim(lossy(stderr).as_str()).as_str())
}

/// Every kind that is detected has a way to the clipboard on macOS, and on a
/// Linux desktop that has one of the tools.
pub proof fn law_detected_kinds_settable(data: Seq<u8>, desktop: Desktop)
    requires
        kind_in(data) is Some,
        match desktop {
            Desktop::Macos { .. } => true,
            Desktop::Linux { xclip, .. } => xclip is Some,
            Desktop::Other => false,
        },
    ensures
        clip_plan(kind_in(data)->0, data.len(), None, desktop) is Ok,
{
}

// ---- what goes to which tool ----

/// An image is known by the bytes it begins with, whatever follows them.
pub proof fn law_images_by_their_first_bytes(rest: Seq<u8>)
    ensures
        kind_in(seq![0x89u8, 0x50u8, 0x4Eu8, 0x47u8] + rest) == Some("image/png"@),
        kind_in(seq![0xFFu8, 0xD8u8, 0xFFu8] + rest) == Some("image/jpeg"@),
        kind_in(seq![0x47u8, 0x49u8, 0x46u8, 0x38u8, 0x37u8, 0x61u8] + rest) == Some("image/gif"@),
        kind_in(seq![0x47u8, 0x49u8, 0x46u8, 0x38u8, 0x39u8, 0x61u8] + rest) == Some("image/gif"@),
        kind_in(seq![0x49u8, 0x49u8, 0x2Au8, 0x00u8] + rest) == Some("image/tiff"@),
        kind_in(seq![0x4Du8, 0x4Du8, 0x00u8, 0x2Au8] + rest) == Some("image/tiff"@),
{
    let p = seq![0x89u8, 0x50u8, 0x4Eu8, 0x47u8];
    let j = seq![0xFFu8, 0xD8u8, 0xFFu8];
    let g7 = seq![0x47u8, 0x49u8, 0x46u8, 0x38u8, 0x37u8, 0x61u8];
    let g9 = seq![0x47u8, 0x49u8, 0x46u8, 0x38u8, 0x39u8, 0x61u8];
    let ti = seq![0x49u8, 0x49u8, 0x2Au8, 0x00u8];
    let tm = seq![0x4Du8, 0x4Du8, 0x00u8, 0x2Au8];
    text::lemma_prefixed(p, rest);
    text::lemma_prefixed(j, rest);
    text::lemma_prefixed(g7, rest);
    text::lemma_prefixed(g9, rest);
    text::lemma_prefixed(ti, rest);
    text::lemma_prefixed(tm, rest);
    text::lemma_not_prefixed(j + rest, p, 0);
    text::lemma_not_prefixed(g7 + rest, p, 0);
    text::lemma_not_prefixed(g7 + rest, j, 0);
    text::lemma_not_prefixed(g9 + rest, p, 0);
    text::lemma_not_prefixed(g9 + rest, j, 0);
    lemma_tiff_only(ti + rest);
    lemma_tiff_only(tm + rest);
}

proof fn lemma_tiff_only(data: Seq<u8>)
    requires
        data.len() > 0,
        data[0] == 0x49u8 || data[0] == 0x4Du8,
    ensures
        !png(data) && !jpeg(data) && !gif(data),
{
    text::lemma_not_prefixed(data, seq![0x89u8, 0x50u8, 0x4Eu8, 0x47u8], 0);
    text::lemma_not_prefixed(data, seq![0xFFu8, 0xD8u8, 0xFFu8], 0);
    text::lemma_not_prefixed(data, seq![0x47u8, 0x49u8, 0x46u8, 0x38u8, 0x37u8, 0x61u8], 0);
    text::lemma_not_prefixed(data, seq![0x47u8, 0x49u8, 0x46u8, 0x38u8, 0x39u8, 0x61u8], 0);
}

/// What begins like no image is text where it is UTF-8, and nothing that a
/// clipboard takes where it is not.
pub proof fn law_text_by_its_encoding(data: Seq<u8>)
    requires
        !text::starts_with(data, seq![0x89u8, 0x50u8, 0x4Eu8, 0x47u8]),
        !text::starts_with(data, seq![0xFFu8, 0xD8u8, 0xFFu8]),
        !text::starts_with(data, seq![0x47u8, 0x49u8, 0x46u8, 0x38u8, 0x37u8, 0x61u8]),
        !text::starts_with(data, seq![0x47u8, 0x49u8, 0x46u8, 0x38u8, 0x39u8, 0x61u8]),
        !text::starts_with(data, seq![0x49u8, 0x49u8, 0x2Au8, 0x00u8]),
        !text::starts_with(data, seq![0x4Du8, 0x4Du8, 0x00u8, 0x2Au8]),
    ensures
        valid_utf8(data) ==> kind_in(data) == Some("text"@),
        !valid_utf8(data) ==> kind_in(data) is None,
{
}

/// A tool that the user named is used on every system, and is told the kind
/// of the data and nothing else.
pub proof fn law_named_tool(kind: Seq<char>, len: nat, program: Seq<u8>, desktop: Desktop)
    ensures
        clip_plan(kind, len, Some(program), desktop) matches Ok(ClipPlanView::Pipe {
            program: run,
            args,
            ..
        }) && run == program && args.len() == 1 && args[0] == kind,
{
}

/// Under Wayland its own tool is used, elsewhere and without that tool the one
/// for X; an image is announced to either by its kind, and text is not.
pub proof fn law_linux_tools(
    kind: Seq<char>,
    wayland: Seq<u8>,
    wl_copy: Option<Seq<u8>>,
    xclip: Option<Seq<u8>>,
)
    requires
        wayland.len() > 0,
    ensures
        wl_copy matches Some(wl) ==> (linux_plan(Some(kind), Some(wayland), wl_copy, xclip) matches Ok(
            ClipPlanView::Pipe { program, args, utf8_locale },
        ) && program == wl && args == seq!["-t"@, kind] && !utf8_locale),
        wl_copy matches Some(wl) ==> (linux_plan(None, Some(wayland), wl_copy, xclip) matches Ok(
            ClipPlanView::Pipe { program, args, utf8_locale },
        ) && program == wl && args.len() == 0 && !utf8_locale),
        xclip matches Some(x) ==> (linux_plan(Some(kind), None, wl_copy, xclip) matches Ok(
            ClipPlanView::Pipe { program, args, utf8_locale },
        ) && program == x && args == seq!["-selection"@, "clipboard"@, "-i"@, "-t"@, kind]
            && !utf8_locale),
        xclip matches Some(x) ==> (linux_plan(None, None, wl_copy, xclip) matches Ok(
            ClipPlanView::Pipe { program, args, utf8_locale },
        ) && program == x && args == seq!["-selection"@, "clipboard"@, "-i"@] && !utf8_locale),
        linux_plan(Some(kind), Some(wayland), None, xclip) == linux_plan(
            Some(kind),
            None,
            wl_copy,
            xclip,
        ),
        linux_plan(Some(kind), Some(Seq::empty()), wl_copy, xclip) == linux_plan(
            Some(kind),
            None,
            wl_copy,
            xclip,
        ),
        xclip is None ==> linux_plan(Some(kind), None, wl_copy, xclip) == Err::<
            ClipPlanView,
            Seq<char>,
        >(NO_TOOL@),
{
    let head = seq!["-selection"@, "clipboard"@, "-i"@];
    assert(head + mime_args(Some(kind)) =~= seq!["-selection"@, "clipboard"@, "-i"@, "-t"@, kind]);
    assert(head + mime_args(None) =~= head);
}

/// Data goes to the clipboard as what it is: text as text, in UTF-8, and an
/// image as its kind.
pub proof fn law_desktop_told_the_kind(kind: Seq<char>, len: nat, desktop: Desktop)
    ensures
        desktop matches Desktop::Linux { wayland, wl_copy, xclip } ==> clip_plan(
            kind,
            len,
            None,
            desktop,
        ) == linux_plan(
            if kind == "text"@ {
                None
            } else {
                Some(kind)
            },
            path::maybe(wayland),
            path::maybe(wl_copy),
            path::maybe(xclip),
        ),
        desktop is Macos && kind == "text"@ ==> (clip_plan(kind, len, None, desktop) matches Ok(
            ClipPlanView::Pipe { program, args, utf8_locale },
        ) && program == encode_utf8("/usr/bin/pbcopy"@) && args.len() == 0 && utf8_locale),
        desktop is Macos && kind != "text"@ ==> (clip_plan(kind, len, None, desktop) is Ok <==> kind
            == "image/png"@ || kind == "image/jpeg"@ || kind == "image/gif"@ || kind
            == "image/tiff"@),
        desktop is Other ==> clip_plan(kind, len, None, desktop) == Err::<ClipPlanView, Seq<char>>(
            NO_CLIPBOARD@,
        ),
{
}

/// On macOS an image is read back from the file it was put in, as the class
/// that its kind has there.
pub proof fn law_mac_images(len: nat, temp_dir: Seq<u8>, pid: u32, kind: Seq<char>)
    ensures
        mac_image(kind, len, temp_dir, pid) matches Ok(p) ==> (p matches ClipPlanView::Script {
            file,
            script,
        } && text::contains(script, text::text_of(file)) && mac_class(kind) is Some && text::contains(
            script,
            mac_class(kind)->0,
        ) && text::starts_with(file, temp_dir)),
        mac_class("image/png"@) == Some("PNGf"@),
        mac_class("image/jpeg"@) == Some("JPEG"@),
        mac_class("image/gif"@) == Some("GIFf"@),
        mac_class("image/tiff"@) == Some("TIFF"@),
{
    reveal_strlit("image/png");
    reveal_strlit("image/jpeg");
    reveal_strlit("image/gif");
    reveal_strlit("image/tiff");
    assert("image/png"@[6] == 'p' && "image/jpeg"@[6] == 'j' && "image/gif"@[6] == 'g'
        && "image/tiff"@[6] == 't');
    if let Ok(ClipPlanView::Script { file, script }) = mac_image(kind, len, temp_dir, pid) {
        let class = mac_class(kind)->0;
        let shown = text::text_of(file);
        let at = "set the clipboard to (read (POSIX file \""@.len() as int;
        assert(script.subrange(at, at + shown.len()) =~= shown);
        assert(text::stands_at(script, at, shown));
        let c = (at + shown.len() + "\") as «class "@.len()) as int;
        assert(script.subrange(c, c + class.len()) =~= class);
        assert(text::stands_at(script, c, class));
        lemma_mac_file(temp_dir, pid, len);
    }
}

proof fn lemma_mac_file(temp_dir: Seq<u8>, pid: u32, len: nat)
    ensures
        text::starts_with(mac_file(temp_dir, pid, len), temp_dir),
{
    let tail = text::decimal(pid as nat) + "-"@ + text::decimal(len);
    let front = "backchannel-clip-"@;
    reveal_strlit("backchannel-clip-");
    is_ascii_chars_encode_utf8(front);
    crate::uri::lemma_encode_concat(front, tail);
    assert(front + text::decimal(pid as nat) + "-"@ + text::decimal(len) =~= front + tail);
    let name = encode_utf8(front + tail);
    assert(name[0] == encode_utf8(front)[0]);
    assert(!path::rooted(name));
    path::law_joined(temp_dir, name);
}

/// A tool that takes the data in good order has failed at nothing; of one
/// that did not, the user hears.
pub proof fn law_tool_failures_told(program: Seq<u8>, reaped: Reaped)
    ensures
        pipe_error(program, reaped) is None <==> reaped is Success,
        reaped matches Reaped::Lost { error } ==> pipe_error(program, reaped) == Some(error@),
        reaped matches Reaped::Failure { status, .. } ==> text::contains(
            pipe_error(program, reaped)->0,
            status@,
        ),
{
    launch::law_reap_note(program, reaped);
}

/// What is said of a script that failed holds what it said itself.
pub proof fn law_script_failure(stderr: Seq<u8>)
    ensures
        text::contains(script_failure(stderr), text::trimmed(text::text_of(stderr))),
{
    text::lemma_contained(
        "osascript failed: "@,
        text::trimmed(text::text_of(stderr)),
        Seq::empty(),
    );
}

}
