//! `back install-as-code`: the `code` shim — a symlink named `code` pointing
//! at the `back` binary — and whether it wins `code` lookup on this shell's
//! PATH.
//!
//! Shadowing every other `code` is safe by design: the shim defers to VS
//! Code's own CLI in integrated terminals and runs the machine's real `code`
//! outside an ssh session, so first-on-PATH is always the right place for it.
//! The failure mode worth diagnosing is the shim sitting *behind* a system VS
//! Code — hence the report and the `--at` suggestion pointing at an earlier
//! user-writable directory.
//!
//! The diagnosis can only see the PATH of the shell it runs in; the messages
//! say "this shell" deliberately.

use vstd::prelude::*;
use vstd::utf8::*;

use crate::path;
use crate::path::{bytes_of, file_name, is_absolute, join, parent, same_bytes, same_path, starts_with, trim_segments};
use crate::say;
use crate::say::{Line, LineView};
use crate::text;
use crate::text::{decimal_text, lossy};

verus! {

// ---- what is known of the file system ----

/// What a path leads to, symlinks followed.
#[derive(Debug, Clone, Copy, PartialEq, Eq, Structural)]
pub struct FileMeta {
    pub is_file: bool,
    pub mode: u32,
}

/// What a directory on PATH is.
#[derive(Debug, Clone, Copy, PartialEq, Eq, Structural)]
pub enum DirState {
    Missing,
    NotADirectory,
    Directory { writable: bool },
}

/// A directory on PATH and the `code` in it.
#[derive(Debug, Clone, PartialEq, Eq)]
pub struct PathDir {
    pub dir: Vec<u8>,
    pub state: DirState,
    /// What `code` in it leads to, if it leads anywhere.
    pub code: Option<FileMeta>,
    /// `code` in it with every symlink resolved, if that can be done.
    pub resolved: Option<Vec<u8>>,
}

/// `PathDir` by its contents.
pub struct PathDirView {
    pub dir: Seq<u8>,
    pub state: DirState,
    pub code: Option<FileMeta>,
    pub resolved: Option<Seq<u8>>,
}

impl View for PathDir {
    type V = PathDirView;

    open spec fn view(&self) -> PathDirView {
        PathDirView {
            dir: self.dir@,
            state: self.state,
            code: self.code,
            resolved: path::maybe(self.resolved),
        }
    }
}

/// The directories, each by its contents.
pub open spec fn dirs_of(v: Seq<PathDir>) -> Seq<PathDirView> {
    v.map_values(|d: PathDir| d@)
}

/// A file that a shell would run.
pub open spec fn runnable(meta: Option<FileMeta>) -> bool {
    meta matches Some(m) && m.is_file && m.mode & 0o111 != 0
}

/// Whether a shell's PATH search would stop at this file. A dangling link
/// leads nowhere and is passed over.
pub fn is_executable_file(meta: &Option<FileMeta>) -> (r: bool)
    ensures
        r == runnable(*meta),
{
    match meta {
        Some(m) => m.is_file && m.mode & 0o111 != 0,
        None => false,
    }
}

/// A binary of ours, by its name.
pub open spec fn our_name(p: Seq<u8>) -> bool {
    path::base_name(p) == Some(encode_utf8("back"@)) || path::base_name(p) == Some(
        encode_utf8("backchannel"@),
    )
}

/// Whether a path names a binary of ours.
pub fn has_our_name(p: &[u8]) -> (r: bool)
    ensures
        r == our_name(p@),
{
    match file_name(p) {
        None => false,
        Some(name) => same_bytes(name.as_slice(), "back".as_bytes()) || same_bytes(
            name.as_slice(),
            "backchannel".as_bytes(),
        ),
    }
}

/// A candidate that resolves to this binary, or to one of our name.
pub open spec fn ours(resolved: Option<Seq<u8>>, self_exe: Seq<u8>) -> bool {
    resolved matches Some(c) && (path::path_eq(c, self_exe) || our_name(c))
}

/// Whether a candidate is a backchannel shim; one that cannot be resolved is
/// not.
pub fn is_shim(resolved: &Option<Vec<u8>>, self_exe: &[u8]) -> (r: bool)
    ensures
        r == ours(path::maybe(*resolved), self_exe@),
{
    match resolved {
        None => false,
        Some(c) => same_path(c.as_slice(), self_exe) || has_our_name(c.as_slice()),
    }
}

/// A directory worth suggesting via `--at`: absolute, strictly under the home
/// directory (never a system directory), and either writable or still to be
/// created.
pub open spec fn suggestable(d: PathDirView, home: Option<Seq<u8>>) -> bool {
    home matches Some(h) && path::rooted(d.dir) && path::under(d.dir, h) && !path::path_eq(
        d.dir,
        h,
    ) && (d.state == DirState::Missing || d.state == DirState::Directory { writable: true })
}

/// Whether a directory is worth suggesting via `--at`.
pub fn is_suggestable(d: &PathDir, home: &Option<Vec<u8>>) -> (r: bool)
    ensures
        r == suggestable(d@, path::maybe(*home)),
{
    let h = match home {
        Some(h) => h,
        None => {
            return false;
        },
    };
    let dir = d.dir.as_slice();
    if !is_absolute(dir) || !starts_with(dir, h.as_slice()) || same_path(dir, h.as_slice()) {
        return false;
    }
    match d.state {
        DirState::Missing => true,
        DirState::NotADirectory => false,
        DirState::Directory { writable } => writable,
    }
}

// ---- the diagnosis ----

/// One executable `code` on PATH.
#[derive(Debug, Clone, PartialEq, Eq)]
pub struct Entry {
    pub path: Vec<u8>,
    pub is_shim: bool,
}

/// `Entry` by its contents.
#[verifier::ext_equal]
pub struct EntryView {
    pub path: Seq<u8>,
    pub is_shim: bool,
}

impl View for Entry {
    type V = EntryView;

    open spec fn view(&self) -> EntryView {
        EntryView { path: self.path@, is_shim: self.is_shim }
    }
}

/// The entries, each by its contents.
pub open spec fn entries_of(v: Seq<Entry>) -> Seq<EntryView> {
    v.map_values(|e: Entry| e@)
}

/// `entries_of` commutes with `push`.
pub broadcast proof fn lemma_entries_push(v: Seq<Entry>, e: Entry)
    ensures
        #[trigger] entries_of(v.push(e)) == entries_of(v).push(e@),
{
    assert(entries_of(v.push(e)) =~= entries_of(v).push(e@));
}

/// How `code` resolves in a shell.
#[derive(Debug, Clone, PartialEq, Eq)]
pub struct Diagnosis {
    /// Every executable `code` on PATH, in lookup order.
    pub entries: Vec<Entry>,
    /// A better `--at` target: user-writable, on PATH ahead of the winner.
    pub suggestion: Option<Vec<u8>>,
}

/// `Diagnosis` by its contents.
pub struct DiagnosisView {
    pub entries: Seq<EntryView>,
    pub suggestion: Option<Seq<u8>>,
}

impl View for Diagnosis {
    type V = DiagnosisView;

    open spec fn view(&self) -> DiagnosisView {
        DiagnosisView {
            entries: entries_of(self.entries@),
            suggestion: path::maybe(self.suggestion),
        }
    }
}

/// The directory takes part in the search and has a `code` that would run.
pub open spec fn holds_code(d: PathDirView) -> bool {
    d.dir.len() > 0 && runnable(d.code)
}

/// Every executable `code`, in lookup order. Empty entries of PATH do not
/// count.
pub open spec fn codes_in(dirs: Seq<PathDirView>, self_exe: Seq<u8>) -> Seq<EntryView>
    decreases dirs.len(),
{
    if dirs.len() == 0 {
        Seq::empty()
    } else {
        let before = codes_in(dirs.drop_last(), self_exe);
        let d = dirs.last();
        if holds_code(d) {
            before.push(
                EntryView {
                    path: path::joined(d.dir, encode_utf8("code"@)),
                    is_shim: ours(d.resolved, self_exe),
                },
            )
        } else {
            before
        }
    }
}

/// The first directory with a `code` that would run.
pub open spec fn winner_dir(dirs: Seq<PathDirView>) -> Option<Seq<u8>>
    decreases dirs.len(),
{
    if dirs.len() == 0 {
        None
    } else if holds_code(dirs[0]) {
        Some(dirs[0].dir)
    } else {
        winner_dir(dirs.skip(1))
    }
}

/// The first directory worth suggesting ahead of the winner's. Only
/// directories strictly ahead of the winning `code` help.
pub open spec fn suggested(
    dirs: Seq<PathDirView>,
    home: Option<Seq<u8>>,
    winner: Option<Seq<u8>>,
) -> Option<Seq<u8>>
    decreases dirs.len(),
{
    if dirs.len() == 0 {
        None
    } else if dirs[0].dir.len() == 0 {
        suggested(dirs.skip(1), home, winner)
    } else if winner matches Some(w) && path::path_eq(dirs[0].dir, w) {
        None
    } else if suggestable(dirs[0], home) {
        Some(dirs[0].dir)
    } else {
        suggested(dirs.skip(1), home, winner)
    }
}

/// How `code` resolves on this PATH.
pub open spec fn diagnosis(
    dirs: Seq<PathDirView>,
    home: Option<Seq<u8>>,
    self_exe: Seq<u8>,
) -> DiagnosisView {
    let entries = codes_in(dirs, self_exe);
    DiagnosisView {
        entries,
        suggestion: if entries.len() > 0 && entries[0].is_shim {
            None
        } else {
            suggested(dirs, home, winner_dir(dirs))
        },
    }
}

/// The position of the first directory with a `code` that would run.
fn find_winner(dirs: &[PathDir]) -> (r: Option<usize>)
    ensures
        match winner_dir(dirs_of(dirs@)) {
            None => r is None,
            Some(w) => r matches Some(i) && i < dirs@.len() && dirs@[i as int].dir@ == w,
        },
{
    let ghost all = dirs_of(dirs@);
    let mut i: usize = 0;
    assert(all.skip(0) =~= all);
    while i < dirs.len()
        invariant
            i <= dirs@.len(),
            all == dirs_of(dirs@),
            winner_dir(all) == winner_dir(all.skip(i as int)),
        decreases dirs@.len() - i,
    {
        assert(all.skip(i as int)[0] == dirs@[i as int]@);
        if dirs[i].dir.len() > 0 && is_executable_file(&dirs[i].code) {
            return Some(i);
        }
        assert(all.skip(i as int).skip(1) =~= all.skip(i + 1));
        i += 1;
    }
    None
}

/// The first directory worth suggesting ahead of the winner's.
fn find_suggestion(
    dirs: &[PathDir],
    home: &Option<Vec<u8>>,
    winner: Option<usize>,
) -> (r: Option<Vec<u8>>)
    requires
        winner matches Some(i) ==> i < dirs@.len(),
    ensures
        path::maybe(r) == suggested(
            dirs_of(dirs@),
            path::maybe(*home),
            match winner {
                None => None,
                Some(i) => Some(dirs@[i as int].dir@),
            },
        ),
{
    let ghost all = dirs_of(dirs@);
    let ghost w: Option<Seq<u8>> = match winner {
        None => None,
        Some(i) => Some(dirs@[i as int].dir@),
    };
    let ghost h = path::maybe(*home);
    let mut i: usize = 0;
    assert(all.skip(0) =~= all);
    while i < dirs.len()
        invariant
            i <= dirs@.len(),
            all == dirs_of(dirs@),
            h == path::maybe(*home),
            winner matches Some(k) ==> k < dirs@.len(),
            w == (match winner {
                None => None,
                Some(k) => Some(dirs@[k as int].dir@),
            }),
            suggested(all, h, w) == suggested(all.skip(i as int), h, w),
        decreases dirs@.len() - i,
    {
        assert(all.skip(i as int)[0] == dirs@[i as int]@);
        assert(all.skip(i as int).skip(1) =~= all.skip(i + 1));
        if dirs[i].dir.len() > 0 {
            if let Some(k) = winner {
                if same_path(dirs[i].dir.as_slice(), dirs[k].dir.as_slice()) {
                    return None;
                }
            }
            if is_suggestable(&dirs[i], home) {
                return Some(bytes_of(dirs[i].dir.as_slice()));
            }
        }
        i += 1;
    }
    None
}

/// Finds every `code` on PATH, and where a shim would come first.
pub fn diagnose(dirs: &[PathDir], home: &Option<Vec<u8>>, self_exe: &[u8]) -> (r: Diagnosis)
    ensures
        r@ == diagnosis(dirs_of(dirs@), path::maybe(*home), self_exe@),
{
    broadcast use lemma_entries_push;

    let ghost all = dirs_of(dirs@);
    let mut entries: Vec<Entry> = Vec::new();
    let mut i: usize = 0;
    assert(all.take(0) =~= Seq::empty());
    assert(entries_of(entries@) =~= codes_in(all.take(0), self_exe@));
    while i < dirs.len()
        invariant
            i <= dirs@.len(),
            all == dirs_of(dirs@),
            entries_of(entries@) == codes_in(all.take(i as int), self_exe@),
        decreases dirs@.len() - i,
    {
        proof {
            assert(all.take(i + 1).drop_last() =~= all.take(i as int));
            assert(all.take(i + 1).last() == dirs@[i as int]@);
        }
        let d = &dirs[i];
        if d.dir.len() > 0 && is_executable_file(&d.code) {
            let path = join(d.dir.as_slice(), "code".as_bytes());
            let e = Entry { path, is_shim: is_shim(&d.resolved, self_exe) };
            entries.push(e);
        }
        i += 1;
    }
    assert(all.take(i as int) =~= all);
    assert(entries_of(entries@).len() == entries@.len());
    if entries.len() > 0 && entries[0].is_shim {
        assert(entries_of(entries@)[0].is_shim);
        return Diagnosis { entries, suggestion: None };
    }
    proof {
        if entries@.len() > 0 {
            assert(entries_of(entries@)[0] == entries@[0]@);
        }
    }
    let winner = find_winner(dirs);
    let suggestion = find_suggestion(dirs, home, winner);
    Diagnosis { entries, suggestion }
}

/// What is suggested is a directory of PATH that is worth suggesting, and
/// neither it nor any before it holds a `code` that would run: a shim there
/// would win.
pub proof fn law_suggestion_ahead(
    dirs: Seq<PathDirView>,
    home: Option<Seq<u8>>,
    self_exe: Seq<u8>,
)
    ensures
        diagnosis(dirs, home, self_exe).suggestion matches Some(s) ==> exists|i: int|
            #![trigger dirs[i]]
            0 <= i < dirs.len() && dirs[i].dir == s && suggestable(dirs[i], home) && (forall|j: int|
                0 <= j <= i ==> !holds_code(#[trigger] dirs[j])),
{
    if let Some(s) = diagnosis(dirs, home, self_exe).suggestion {
        lemma_suggested(dirs, home, winner_dir(dirs));
        let i = choose|i: int|
            #![trigger dirs[i]]
            0 <= i < dirs.len() && dirs[i].dir == s && suggestable(dirs[i], home) && (forall|j: int|
                0 <= j <= i ==> (#[trigger] dirs[j]).dir.len() == 0 || !(winner_dir(
                    dirs,
                ) matches Some(w) && path::path_eq(dirs[j].dir, w)));
        assert forall|j: int| 0 <= j <= i implies !holds_code(#[trigger] dirs[j]) by {
            if holds_code(dirs[j]) {
                lemma_winner(dirs, j);
            }
        }
    }
}

/// The suggestion stands ahead of the winner's directory.
proof fn lemma_suggested(dirs: Seq<PathDirView>, home: Option<Seq<u8>>, winner: Option<Seq<u8>>)
    ensures
        suggested(dirs, home, winner) matches Some(s) ==> exists|i: int|
            #![trigger dirs[i]]
            0 <= i < dirs.len() && dirs[i].dir == s && suggestable(dirs[i], home) && (forall|j: int|
                0 <= j <= i ==> (#[trigger] dirs[j]).dir.len() == 0 || !(winner matches Some(w)
                    && path::path_eq(dirs[j].dir, w))),
    decreases dirs.len(),
{
    if let Some(s) = suggested(dirs, home, winner) {
        let skips = dirs[0].dir.len() == 0 || !suggestable(dirs[0], home);
        if skips {
            let rest = dirs.skip(1);
            lemma_suggested(rest, home, winner);
            let k = choose|i: int|
                #![trigger rest[i]]
                0 <= i < rest.len() && rest[i].dir == s && suggestable(rest[i], home) && (forall|
                    j: int,
                |
                    0 <= j <= i ==> (#[trigger] rest[j]).dir.len() == 0 || !(winner matches Some(w)
                        && path::path_eq(rest[j].dir, w)));
            assert(dirs[k + 1] == rest[k]);
            assert forall|j: int| 0 <= j <= k + 1 implies (#[trigger] dirs[j]).dir.len() == 0 || !(
            winner matches Some(w) && path::path_eq(dirs[j].dir, w)) by {
                if j > 0 {
                    assert(dirs[j] == rest[j - 1]);
                }
            }
        } else {
            assert(dirs[0].dir == s);
        }
    }
}

/// A directory with a `code` that would run has the winner's, or one that
/// comes before it.
proof fn lemma_winner(dirs: Seq<PathDirView>, j: int)
    requires
        0 <= j < dirs.len(),
        holds_code(dirs[j]),
    ensures
        exists|k: int|
            #![trigger dirs[k]]
            0 <= k <= j && holds_code(dirs[k]) && winner_dir(dirs) == Some(dirs[k].dir),
    decreases dirs.len(),
{
    if holds_code(dirs[0]) {
        assert(winner_dir(dirs) == Some(dirs[0].dir));
    } else {
        let rest = dirs.skip(1);
        assert(rest[j - 1] == dirs[j]);
        lemma_winner(rest, j - 1);
        let k = choose|k: int|
            #![trigger rest[k]]
            0 <= k <= j - 1 && holds_code(rest[k]) && winner_dir(rest) == Some(rest[k].dir);
        assert(dirs[k + 1] == rest[k]);
    }
}

// ---- the report ----

/// The directory that a shim stands in.
pub open spec fn shim_dir(shim: Seq<u8>) -> Seq<u8> {
    match path::parent_of(shim) {
        Some(d) => d,
        None => shim,
    }
}

/// What is suggested.
pub open spec fn suggestion_line(suggestion: Option<Seq<u8>>) -> LineView {
    match suggestion {
        Some(d) => LineView::Stderr(
            "  "@ + text::text_of(d)
                + " comes earlier on PATH and is user-writable — try:\n    back install-as-code --at "@
                + text::text_of(d),
        ),
        None => LineView::Stderr(
            "  no user-writable directory comes earlier on PATH — put the shim's directory ahead in PATH instead (in ~/.zshenv or ~/.bashrc, so non-interactive ssh commands see it too)"@,
        ),
    }
}

/// The first entry that is not a shim.
pub open spec fn real_code(entries: Seq<EntryView>) -> Option<Seq<u8>>
    decreases entries.len(),
{
    if entries.len() == 0 {
        None
    } else if !entries[0].is_shim {
        Some(entries[0].path)
    } else {
        real_code(entries.skip(1))
    }
}

/// One entry of the list of every `code`.
pub open spec fn entry_line(e: EntryView) -> LineView {
    LineView::Stderr(
        "    "@ + text::text_of(e.path) + (if e.is_shim {
            "  (backchannel shim)"@
        } else {
            ""@
        }),
    )
}

/// The report on a PATH without any `code`.
pub open spec fn report_none(diag: DiagnosisView, installed: Option<Seq<u8>>) -> Seq<LineView> {
    seq![
        match installed {
            Some(shim) => LineView::Stderr(
                "warning: "@ + text::text_of(shim_dir(shim))
                    + " is not on this shell's PATH — `code` won't find the shim"@,
            ),
            None => LineView::Stderr("warning: no `code` found on this shell's PATH"@),
        },
        suggestion_line(diag.suggestion),
    ]
}

/// The report on a PATH where the shim wins.
pub open spec fn report_shim(diag: DiagnosisView) -> Seq<LineView> {
    let first = LineView::Stdout(
        "`code` in this shell resolves to the shim: "@ + text::text_of(diag.entries[0].path),
    );
    match real_code(diag.entries) {
        None => seq![first],
        Some(code) => seq![
            first,
            LineView::Stdout(
                "  ("@ + text::text_of(code)
                    + " stays reachable — the shim runs it when you're outside an ssh session)"@,
            ),
        ],
    }
}

/// What else is said when another `code` wins: every `code` there is, or that
/// the shim is not on PATH at all.
pub open spec fn report_others(diag: DiagnosisView, installed: Option<Seq<u8>>) -> Seq<LineView> {
    if diag.entries.len() > 1 {
        seq![LineView::Stderr("  every `code` on this shell's PATH, in order:"@)]
            + diag.entries.map_values(|e: EntryView| entry_line(e))
    } else {
        match installed {
            Some(shim) => seq![
                LineView::Stderr(
                    "  the shim at "@ + text::text_of(shim) + " is not on this shell's PATH"@,
                ),
            ],
            None => Seq::empty(),
        }
    }
}

/// The report on a PATH where another `code` wins.
pub open spec fn report_shadowed(diag: DiagnosisView, installed: Option<Seq<u8>>) -> Seq<LineView> {
    seq![
        LineView::Stderr(
            "warning: `code` in this shell resolves to "@ + text::text_of(diag.entries[0].path)
                + ", not the backchannel shim"@,
        ),
    ] + report_others(diag, installed) + seq![suggestion_line(diag.suggestion)]
}

/// What the user is told of a diagnosis, after a shim was installed or not.
pub open spec fn report_lines(diag: DiagnosisView, installed: Option<Seq<u8>>) -> Seq<LineView> {
    if diag.entries.len() == 0 {
        report_none(diag, installed)
    } else if diag.entries[0].is_shim {
        report_shim(diag)
    } else {
        report_shadowed(diag, installed)
    }
}

/// What is suggested.
pub fn suggest(diag: &Diagnosis) -> (r: Line)
    ensures
        r@ == suggestion_line(diag@.suggestion),
{
    match &diag.suggestion {
        Some(d) => {
            let shown = lossy(d.as_slice());
            Line::Stderr(
                "  ".to_owned().concat(shown.as_str()).concat(
                    " comes earlier on PATH and is user-writable — try:\n    back install-as-code --at ",
                ).concat(shown.as_str()),
            )
        },
        None => Line::Stderr(
            "  no user-writable directory comes earlier on PATH — put the shim's directory ahead in PATH instead (in ~/.zshenv or ~/.bashrc, so non-interactive ssh commands see it too)".to_owned(),
        ),
    }
}

/// The position of the first entry that is not a shim.
fn find_real(entries: &[Entry]) -> (r: Option<usize>)
    ensures
        match real_code(entries_of(entries@)) {
            None => r is None,
            Some(p) => r matches Some(i) && i < entries@.len() && entries@[i as int].path@ == p,
        },
{
    let ghost all = entries_of(entries@);
    let mut i: usize = 0;
    assert(all.skip(0) =~= all);
    while i < entries.len()
        invariant
            i <= entries@.len(),
            all == entries_of(entries@),
            real_code(all) == real_code(all.skip(i as int)),
        decreases entries@.len() - i,
    {
        assert(all.skip(i as int)[0] == entries@[i as int]@);
        if !entries[i].is_shim {
            return Some(i);
        }
        assert(all.skip(i as int).skip(1) =~= all.skip(i + 1));
        i += 1;
    }
    None
}

/// Tells the user how `code` resolves in this shell.
pub fn report(diag: &Diagnosis, installed: &Option<Vec<u8>>) -> (r: Vec<Line>)
    ensures
        say::lines_of(r@) == report_lines(diag@, path::maybe(*installed)),
{
    broadcast use say::lemma_lines_push;

    let mut out: Vec<Line> = Vec::new();
    let ghost all = entries_of(diag.entries@);
    let ghost shim = path::maybe(*installed);
    assert(say::lines_of(out@) =~= Seq::empty());
    assert(all.len() == diag.entries@.len());
    if diag.entries.len() == 0 {
        match installed {
            Some(shim) => {
                let dir = match parent(shim.as_slice()) {
                    Some(d) => lossy(d.as_slice()),
                    None => lossy(shim.as_slice()),
                };
                out.push(
                    Line::Stderr(
                        "warning: ".to_owned().concat(dir.as_str()).concat(
                            " is not on this shell's PATH — `code` won't find the shim",
                        ),
                    ),
                );
            },
            None => {
                out.push(Line::Stderr("warning: no `code` found on this shell's PATH".to_owned()));
            },
        }
        out.push(suggest(diag));
        assert(say::lines_of(out@) =~= report_none(diag@, shim));
        return out;
    }
    assert(all[0] == diag.entries@[0]@);
    let first = lossy(diag.entries[0].path.as_slice());
    if diag.entries[0].is_shim {
        out.push(
            Line::Stdout(
                "`code` in this shell resolves to the shim: ".to_owned().concat(first.as_str()),
            ),
        );
        if let Some(i) = find_real(diag.entries.as_slice()) {
            let other = lossy(diag.entries[i].path.as_slice());
            out.push(
                Line::Stdout(
                    "  (".to_owned().concat(other.as_str()).concat(
                        " stays reachable — the shim runs it when you're outside an ssh session)",
                    ),
                ),
            );
        }
        assert(say::lines_of(out@) =~= report_shim(diag@));
        return out;
    }
    out.push(
        Line::Stderr(
            "warning: `code` in this shell resolves to ".to_owned().concat(first.as_str()).concat(
                ", not the backchannel shim",
            ),
        ),
    );
    let ghost head = say::lines_of(out@);
    if diag.entries.len() > 1 {
        out.push(Line::Stderr("  every `code` on this shell's PATH, in order:".to_owned()));
        let ghost titled = say::lines_of(out@);
        let ghost listed = all.map_values(|e: EntryView| entry_line(e));
        let mut i: usize = 0;
        assert(titled + listed.take(0) =~= titled);
        while i < diag.entries.len()
            invariant
                i <= diag.entries@.len(),
                all == entries_of(diag.entries@),
                listed == all.map_values(|e: EntryView| entry_line(e)),
                say::lines_of(out@) == titled + listed.take(i as int),
            decreases diag.entries@.len() - i,
        {
            let e = &diag.entries[i];
            let tag = if e.is_shim {
                "  (backchannel shim)"
            } else {
                ""
            };
            out.push(
                Line::Stderr(
                    "    ".to_owned().concat(lossy(e.path.as_slice()).as_str()).concat(tag),
                ),
            );
            proof {
                assert(all[i as int] == e@);
                assert(listed[i as int] == entry_line(e@));
                assert(titled + listed.take(i + 1) =~= (titled + listed.take(i as int)).push(
                    listed[i as int],
                ));
            }
            i += 1;
        }
        assert(listed.take(i as int) =~= listed);
        assert(say::lines_of(out@) =~= head + report_others(diag@, shim));
    } else if let Some(at) = installed {
        out.push(
            Line::Stderr(
                "  the shim at ".to_owned().concat(lossy(at.as_slice()).as_str()).concat(
                    " is not on this shell's PATH",
                ),
            ),
        );
        assert(say::lines_of(out@) =~= head + report_others(diag@, shim));
    } else {
        assert(say::lines_of(out@) =~= head + report_others(diag@, shim));
    }
    out.push(suggest(diag));
    assert(say::lines_of(out@) =~= report_shadowed(diag@, shim));
    out
}

// ---- installing ----

/// `--at '~/bin'` arrives literally when quoted: a leading `~` segment stands
/// for the home directory.
pub open spec fn expanded(d: Seq<u8>, home: Option<Seq<u8>>) -> Seq<u8> {
    if home is Some && d.len() > 0 && d[0] == 126 && (d.len() == 1 || d[1] == path::SLASH) {
        path::joined(home->0, path::without_tail(path::without_lead(d.skip(1))))
    } else {
        d
    }
}

/// Expands a leading `~` so it still means what the user meant. (`~user`
/// forms are not handled.)
pub fn expand_tilde(d: &[u8], home: &Option<Vec<u8>>) -> (r: Vec<u8>)
    ensures
        r@ == expanded(d@, path::maybe(*home)),
{
    if let Some(h) = home {
        if d.len() > 0 && d[0] == 126 && (d.len() == 1 || d[1] == path::SLASH) {
            let tail = vstd::slice::slice_subrange(d, 1, d.len());
            assert(tail@ =~= d@.skip(1));
            let rest = trim_segments(tail);
            return join(h.as_slice(), rest.as_slice());
        }
    }
    bytes_of(d)
}

/// Where the shim goes: the directory asked for, else the binary's own.
pub open spec fn install_dir(
    at: Option<Seq<u8>>,
    home: Option<Seq<u8>>,
    self_exe: Seq<u8>,
) -> Seq<u8> {
    match at {
        Some(d) => expanded(d, home),
        None => shim_dir(self_exe),
    }
}

/// What `back install-as-code` installs into: nothing when it only checks.
pub open spec fn install_target(
    at: Option<Seq<u8>>,
    check: bool,
    home: Option<Seq<u8>>,
    self_exe: Seq<u8>,
) -> Option<Seq<u8>> {
    if check {
        None
    } else {
        Some(install_dir(at, home, self_exe))
    }
}

/// What `back install-as-code` installs into: nothing when it only checks.
pub fn run(
    at: &Option<Vec<u8>>,
    check: bool,
    home: &Option<Vec<u8>>,
    self_exe: &[u8],
) -> (r: Option<Vec<u8>>)
    ensures
        path::maybe(r) == install_target(path::maybe(*at), check, path::maybe(*home), self_exe@),
{
    if check {
        return None;
    }
    match at {
        Some(d) => Some(expand_tilde(d.as_slice(), home)),
        None => match parent(self_exe) {
            Some(dir) => Some(dir),
            None => Some(bytes_of(self_exe)),
        },
    }
}

/// What `--check` says when the shim does not win.
pub const NOT_SHIM: &'static str =
    "`code` does not resolve to a backchannel shim in this shell";

/// How `back install-as-code` fails, where it does.
pub open spec fn check_failure(check: bool, diag: DiagnosisView) -> Option<Seq<char>> {
    if check && !(diag.entries.len() > 0 && diag.entries[0].is_shim) {
        Some(NOT_SHIM@)
    } else {
        None
    }
}

/// How `back install-as-code` ends: `--check` fails unless the shim wins.
pub fn verdict(check: bool, diag: &Diagnosis) -> (r: Result<(), String>)
    ensures
        match check_failure(check, diag@) {
            None => r is Ok,
            Some(e) => r is Err && r->Err_0@ == e,
        },
{
    assert(diag@.entries.len() == diag.entries@.len());
    if check {
        if diag.entries.len() == 0 || !diag.entries[0].is_shim {
            proof {
                if diag.entries@.len() > 0 {
                    assert(diag@.entries[0] == diag.entries@[0]@);
                }
            }
            return Err(NOT_SHIM.to_owned());
        }
        assert(diag@.entries[0] == diag.entries@[0]@);
    }
    Ok(())
}

/// What stands where the shim is to go.
#[derive(Debug, Clone, PartialEq, Eq)]
pub struct Occupant {
    pub is_symlink: bool,
    /// It leads somewhere.
    pub resolves: bool,
    /// Where it leads, with every symlink resolved, if that can be done.
    pub resolved: Option<Vec<u8>>,
}

/// What stands there may be replaced without being told to: our own shim, or
/// a dangling link, a leftover from an uninstalled binary.
pub open spec fn replaceable(o: Occupant, self_exe: Seq<u8>) -> bool {
    ours(path::maybe(o.resolved), self_exe) || (o.is_symlink && !o.resolves)
}

/// The link to create and the one it takes the place of.
#[derive(Debug, Clone, PartialEq, Eq)]
pub struct ShimPlan {
    /// Where the new link is made first, so that an existing `code` is never
    /// briefly missing.
    pub tmp: Vec<u8>,
    /// Where it is then moved.
    pub shim: Vec<u8>,
}

/// `ShimPlan` by its contents.
pub struct ShimPlanView {
    pub tmp: Seq<u8>,
    pub shim: Seq<u8>,
}

impl View for ShimPlan {
    type V = ShimPlanView;

    open spec fn view(&self) -> ShimPlanView {
        ShimPlanView { tmp: self.tmp@, shim: self.shim@ }
    }
}

/// The `code` symlink in `dir`, or why none is made.
pub open spec fn shim_plan(
    dir: Seq<u8>,
    occupant: Option<Occupant>,
    self_exe: Seq<u8>,
    force: bool,
    pid: u32,
) -> Result<ShimPlanView, Seq<char>> {
    let shim = path::joined(dir, encode_utf8("code"@));
    if occupant matches Some(o) && !replaceable(o, self_exe) && !force {
        Err(
            text::text_of(shim)
                + " already exists and is not a backchannel shim — pass --force to replace it"@,
        )
    } else {
        Ok(
            ShimPlanView {
                tmp: path::joined(dir, encode_utf8(".code.tmp."@ + text::decimal(pid as nat))),
                shim,
            },
        )
    }
}

/// Plans the `code` symlink in `dir`. Anything there that is not ours stays,
/// unless `force` says otherwise.
pub fn install_shim(
    dir: &[u8],
    occupant: &Option<Occupant>,
    self_exe: &[u8],
    force: bool,
    pid: u32,
) -> (r: Result<ShimPlan, String>)
    ensures
        match shim_plan(dir@, *occupant, self_exe@, force, pid) {
            Ok(plan) => r is Ok && r->Ok_0@ == plan,
            Err(e) => r is Err && r->Err_0@ == e,
        },
{
    let shim = join(dir, "code".as_bytes());
    if let Some(o) = occupant {
        let dangling = o.is_symlink && !o.resolves;
        if !is_shim(&o.resolved, self_exe) && !dangling && !force {
            return Err(
                lossy(shim.as_slice()).concat(
                    " already exists and is not a backchannel shim — pass --force to replace it",
                ),
            );
        }
    }
    let name = ".code.tmp.".to_owned().concat(decimal_text(pid as u64).as_str());
    let tmp = join(dir, name.as_str().as_bytes());
    Ok(ShimPlan { tmp, shim })
}

/// What is printed when the shim is in place.
pub open spec fn installed_words(shim: Seq<u8>, self_exe: Seq<u8>) -> Seq<char> {
    "installed: "@ + text::text_of(shim) + " -> "@ + text::text_of(self_exe)
}

/// What is printed when the shim is in place.
pub fn installed_note(shim: &[u8], self_exe: &[u8]) -> (r: String)
    ensures
        r@ == installed_words(shim@, self_exe@),
{
    "installed: ".to_owned().concat(lossy(shim).as_str()).concat(" -> ").concat(
        lossy(self_exe).as_str(),
    )
}

// ---- what installing promises ----

/// A shell runs what is a file and may be run by anyone at all; what leads
/// nowhere it passes over.
pub proof fn law_runnable(is_file: bool, mode: u32)
    ensures
        runnable(Some(FileMeta { is_file, mode })) ==> is_file,
        is_file && (mode & 0o100 != 0 || mode & 0o010 != 0 || mode & 0o001 != 0) ==> runnable(
            Some(FileMeta { is_file, mode }),
        ),
        mode & 0o100 == 0 && mode & 0o010 == 0 && mode & 0o001 == 0 ==> !runnable(
            Some(FileMeta { is_file, mode }),
        ),
        !runnable(None),
{
    assert(mode & 0o111 == 0 <==> (mode & 0o100 == 0 && mode & 0o010 == 0 && mode & 0o001 == 0))
        by (bit_vector);
}

/// A binary is ours by its own name, wherever it lies, and a candidate is a
/// shim where it leads to this binary or to one of that name.
pub proof fn law_ours(dir: Seq<u8>, name: Seq<u8>, target: Seq<u8>, self_exe: Seq<u8>)
    requires
        path::plain_name(name),
    ensures
        our_name(dir.push(path::SLASH) + name) <==> name == encode_utf8("back"@) || name
            == encode_utf8("backchannel"@),
        ours(Some(self_exe), self_exe),
        ours(Some(target), self_exe) <==> path::path_eq(target, self_exe) || our_name(target),
        !ours(None, self_exe),
{
    path::law_base_name(dir, name);
}

/// A directory is suggested only below the home directory, by its whole path,
/// and only where the user can put something there.
pub proof fn law_suggestable(d: PathDirView, home: Seq<u8>)
    ensures
        suggestable(d, Some(home)) ==> path::rooted(d.dir) && path::under(d.dir, home)
            && !path::path_eq(d.dir, home),
        !suggestable(d, None),
        d.state == DirState::NotADirectory || d.state == (DirState::Directory { writable: false })
            ==> !suggestable(d, Some(home)),
        path::rooted(d.dir) && path::under(d.dir, home) && !path::path_eq(d.dir, home) && (d.state
            == DirState::Missing || d.state == (DirState::Directory { writable: true }))
            ==> suggestable(d, Some(home)),
{
}

/// Every directory with a `code` that would run adds it to the list, behind
/// those before it, and no other directory adds anything.
pub proof fn law_codes_listed(dirs: Seq<PathDirView>, d: PathDirView, self_exe: Seq<u8>)
    ensures
        codes_in(Seq::empty(), self_exe).len() == 0,
        d.dir.len() == 0 || !runnable(d.code) ==> codes_in(dirs.push(d), self_exe) == codes_in(
            dirs,
            self_exe,
        ),
        d.dir.len() > 0 && d.dir.last() != path::SLASH && runnable(d.code) ==> {
            let all = codes_in(dirs.push(d), self_exe);
            &&& all.len() == codes_in(dirs, self_exe).len() + 1
            &&& all.drop_last() == codes_in(dirs, self_exe)
            &&& all.last().path == d.dir + encode_utf8("/code"@)
            &&& all.last().is_shim == ours(d.resolved, self_exe)
        },
{
    assert(dirs.push(d).drop_last() =~= dirs);
    if d.dir.len() > 0 && d.dir.last() != path::SLASH && runnable(d.code) {
        let all = codes_in(dirs.push(d), self_exe);
        assert(all.drop_last() =~= codes_in(dirs, self_exe));
        lemma_code_in(d.dir);
    }
}

proof fn lemma_code_in(dir: Seq<u8>)
    requires
        dir.len() > 0,
        dir.last() != path::SLASH,
    ensures
        path::joined(dir, encode_utf8("code"@)) == dir + encode_utf8("/code"@),
{
    reveal_strlit("code");
    reveal_strlit("/code");
    is_ascii_chars_encode_utf8("code"@);
    is_ascii_chars_encode_utf8("/code"@);
    let n = encode_utf8("code"@);
    assert(n[0] == 99);
    assert(encode_utf8("/code"@) =~= seq![path::SLASH] + n);
    assert(dir.push(path::SLASH) + n =~= dir + (seq![path::SLASH] + n));
}

/// Where a shim wins nothing is suggested; elsewhere the first directory that
/// is worth it is, as long as it comes before the one whose `code` wins.
pub proof fn law_first_suggestion(
    dirs: Seq<PathDirView>,
    home: Option<Seq<u8>>,
    self_exe: Seq<u8>,
    i: int,
)
    requires
        0 <= i <= dirs.len(),
        forall|j: int|
            0 <= j < i ==> (#[trigger] dirs[j]).dir.len() == 0 || (!suggestable(dirs[j], home)
                && !(winner_dir(dirs) matches Some(w) && path::path_eq(dirs[j].dir, w))),
    ensures
        ({
            let diag = diagnosis(dirs, home, self_exe);
            let shim_wins = diag.entries.len() > 0 && diag.entries[0].is_shim;
            &&& shim_wins ==> diag.suggestion is None
            &&& i == dirs.len() ==> diag.suggestion is None
            &&& !shim_wins && i < dirs.len() && dirs[i].dir.len() > 0 && suggestable(dirs[i], home)
                && !(winner_dir(dirs) matches Some(w) && path::path_eq(dirs[i].dir, w))
                ==> diag.suggestion == Some(dirs[i].dir)
            &&& i < dirs.len() && dirs[i].dir.len() > 0 && (winner_dir(dirs) matches Some(w)
                && path::path_eq(dirs[i].dir, w)) ==> diag.suggestion is None
        }),
{
    lemma_first_suggestion(dirs, home, winner_dir(dirs), i);
}

proof fn lemma_first_suggestion(
    dirs: Seq<PathDirView>,
    home: Option<Seq<u8>>,
    winner: Option<Seq<u8>>,
    i: int,
)
    requires
        0 <= i <= dirs.len(),
        forall|j: int|
            0 <= j < i ==> (#[trigger] dirs[j]).dir.len() == 0 || (!suggestable(dirs[j], home)
                && !(winner matches Some(w) && path::path_eq(dirs[j].dir, w))),
    ensures
        suggested(dirs, home, winner) == suggested(dirs.skip(i), home, winner),
    decreases i,
{
    if i == 0 {
        assert(dirs.skip(0) =~= dirs);
    } else {
        let rest = dirs.skip(1);
        assert forall|j: int| 0 <= j < i - 1 implies (#[trigger] rest[j]).dir.len() == 0 || (
        !suggestable(rest[j], home) && !(winner matches Some(w) && path::path_eq(rest[j].dir, w))) by {
            assert(rest[j] == dirs[j + 1]);
        }
        lemma_first_suggestion(rest, home, winner, i - 1);
        assert(rest.skip(i - 1) =~= dirs.skip(i));
        assert(dirs[0].dir.len() == 0 || (!suggestable(dirs[0], home) && !(winner matches Some(w)
            && path::path_eq(dirs[0].dir, w))));
    }
}

/// A tilde stands for the home directory at the start of a path and nowhere
/// else, and only as a segment of its own.
pub proof fn law_tilde(d: Seq<u8>, rest: Seq<u8>, home: Seq<u8>)
    requires
        rest.len() > 0,
        rest[0] != path::SLASH,
        rest[0] == path::DOT ==> rest.len() > 1 && rest[1] != path::SLASH,
        rest.last() != path::SLASH,
        rest.last() != path::DOT,
    ensures
        expanded(seq![126u8, path::SLASH] + rest, Some(home)) == path::joined(home, rest),
        expanded(seq![126u8], Some(home)) == path::joined(home, Seq::empty()),
        d.len() == 0 || d[0] != 126 ==> expanded(d, Some(home)) == d,
        d.len() > 1 && d[1] != path::SLASH ==> expanded(d, Some(home)) == d,
        expanded(d, None) == d,
{
    let whole = seq![126u8, path::SLASH] + rest;
    let tail = whole.skip(1);
    assert(tail =~= seq![path::SLASH] + rest);
    assert(tail.skip(1) =~= rest);
    assert(path::without_lead(rest) == rest);
    assert(path::without_lead(tail) == rest);
    assert(path::without_tail(rest) == rest);
    let none = Seq::<u8>::empty();
    assert(seq![126u8].skip(1) =~= none);
    assert(path::without_lead(none) == none);
    assert(path::without_tail(none) == none);
}

/// The shim goes where the user says, else beside the binary, and nowhere
/// when the user only wants to know.
pub proof fn law_install_target(
    at: Seq<u8>,
    home: Option<Seq<u8>>,
    dir: Seq<u8>,
    name: Seq<u8>,
    self_exe: Seq<u8>,
)
    requires
        path::plain_name(name),
        dir.len() > 0,
        dir.last() != path::SLASH,
        dir.last() != path::DOT,
    ensures
        install_target(Some(at), false, home, self_exe) == Some(expanded(at, home)),
        install_target(None, false, home, dir.push(path::SLASH) + name) == Some(dir),
        install_target(Some(at), true, home, self_exe) is None,
        install_target(None, true, home, self_exe) is None,
{
    path::law_parent(dir, name);
}

/// The shim is the `code` of its directory. It takes the place of nothing, of
/// a shim and of a link that leads nowhere; of anything else only by force.
pub proof fn law_shim_placed(
    dir: Seq<u8>,
    occupant: Option<Occupant>,
    self_exe: Seq<u8>,
    force: bool,
    pid: u32,
)
    requires
        dir.len() > 0,
        dir.last() != path::SLASH,
    ensures
        shim_plan(dir, occupant, self_exe, force, pid) is Ok <==> force || occupant is None || ours(
            path::maybe(occupant->0.resolved),
            self_exe,
        ) || (occupant->0.is_symlink && !occupant->0.resolves),
        shim_plan(dir, occupant, self_exe, force, pid) matches Ok(plan) ==> plan.shim == dir
            + encode_utf8("/code"@) && plan.tmp != plan.shim && text::starts_with(plan.tmp, dir),
{
    lemma_code_in(dir);
    let name = ".code.tmp."@ + text::decimal(pid as nat);
    reveal_strlit(".code.tmp.");
    reveal_strlit("code");
    is_ascii_chars_encode_utf8(".code.tmp."@);
    is_ascii_chars_encode_utf8("code"@);
    crate::uri::lemma_encode_concat(".code.tmp."@, text::decimal(pid as nat));
    let n = encode_utf8(name);
    let c = encode_utf8("code"@);
    assert(n[0] == 46 && c[0] == 99);
    assert(!path::rooted(n));
    path::law_joined(dir, n);
    let tmp = path::joined(dir, n);
    assert(tmp[(dir.len() + 1) as int] == n[0]);
    assert((dir.push(path::SLASH) + c)[(dir.len() + 1) as int] == c[0]);
}

/// A check fails exactly where another `code` comes first, or none at all.
pub proof fn law_check(check: bool, diag: DiagnosisView)
    ensures
        check_failure(false, diag) is None,
        check_failure(true, diag) is None <==> diag.entries.len() > 0 && diag.entries[0].is_shim,
{
}

/// The report says in its first line what `code` runs, on standard output
/// where that is the shim and as a warning where it is not; a warning ends in
/// what to do about it.
pub proof fn law_report(diag: DiagnosisView, installed: Option<Seq<u8>>)
    ensures
        ({
            let lines = report_lines(diag, installed);
            let wins = diag.entries.len() > 0 && diag.entries[0].is_shim;
            &&& lines.len() > 0
            &&& wins <==> lines[0] is Stdout
            &&& wins ==> text::contains(lines[0]->Stdout_0, text::text_of(diag.entries[0].path))
            &&& diag.entries.len() > 0 && !wins ==> text::contains(
                lines[0]->Stderr_0,
                text::text_of(diag.entries[0].path),
            )
            &&& !wins ==> lines.last() == suggestion_line(diag.suggestion)
            &&& !wins && diag.entries.len() > 1 ==> lines.len() == diag.entries.len() + 3
                && forall|i: int|
                0 <= i < diag.entries.len() ==> #[trigger] lines[i + 2] == entry_line(
                    diag.entries[i],
                )
        }),
        diag.suggestion matches Some(d) ==> text::contains(
            suggestion_line(diag.suggestion)->Stderr_0,
            text::text_of(d),
        ),
{
    let lines = report_lines(diag, installed);
    if diag.entries.len() > 0 {
        let p = text::text_of(diag.entries[0].path);
        if diag.entries[0].is_shim {
            text::lemma_contained("`code` in this shell resolves to the shim: "@, p, Seq::empty());
            assert("`code` in this shell resolves to the shim: "@ + p + Seq::<char>::empty()
                =~= "`code` in this shell resolves to the shim: "@ + p);
        } else {
            text::lemma_contained(
                "warning: `code` in this shell resolves to "@,
                p,
                ", not the backchannel shim"@,
            );
            if diag.entries.len() > 1 {
                let listed = diag.entries.map_values(|e: EntryView| entry_line(e));
                assert forall|i: int| 0 <= i < diag.entries.len() implies #[trigger] lines[i + 2]
                    == entry_line(diag.entries[i]) by {
                    assert(lines[i + 2] == listed[i]);
                }
            }
        }
    }
    if let Some(d) = diag.suggestion {
        let shown = text::text_of(d);
        text::lemma_contained(
            "  "@,
            shown,
            " comes earlier on PATH and is user-writable — try:\n    back install-as-code --at "@
                + shown,
        );
        assert("  "@ + shown
            + " comes earlier on PATH and is user-writable — try:\n    back install-as-code --at "@
            + shown =~= "  "@ + shown
            + (" comes earlier on PATH and is user-writable — try:\n    back install-as-code --at "@
            + shown));
    }
}

/// What is printed of an installed shim names it and what it leads to, in
/// this order.
pub proof fn law_installed_words(shim: Seq<u8>, self_exe: Seq<u8>)
    ensures
        text::starts_with(installed_words(shim, self_exe), "installed: "@ + text::text_of(shim)),
        ({
            let w = installed_words(shim, self_exe);
            let t = text::text_of(self_exe);
            t.len() <= w.len() && w.skip(w.len() - t.len()) == t
        }),
{
    let w = installed_words(shim, self_exe);
    let s = text::text_of(shim);
    let t = text::text_of(self_exe);
    text::lemma_prefixed("installed: "@ + s, " -> "@ + t);
    assert("installed: "@ + s + (" -> "@ + t) =~= w);
    assert(w.skip(w.len() - t.len()) =~= t);
}

}
