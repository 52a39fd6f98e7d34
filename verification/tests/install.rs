use backchannel::install::{
    diagnose, expand_tilde, install_shim, installed_note, is_executable_file, is_shim,
    is_suggestable, report, run, verdict, Diagnosis, DirState, FileMeta, Occupant, PathDir,
    NOT_SHIM,
};
use backchannel::say::Line;

const SELF: &str = "/base/home/back";
const HOME: &str = "/base/home";

fn b(s: &str) -> Vec<u8> {
    s.as_bytes().to_vec()
}

fn home() -> Option<Vec<u8>> {
    Some(b(HOME))
}

fn empty(dir: &str) -> PathDir {
    PathDir {
        dir: b(dir),
        state: DirState::Directory { writable: true },
        code: None,
        resolved: None,
    }
}

fn runnable() -> Option<FileMeta> {
    Some(FileMeta {
        is_file: true,
        mode: 0o100755,
    })
}

fn with_real_code(dir: &str) -> PathDir {
    PathDir {
        code: runnable(),
        resolved: Some(b(&format!("{dir}/code"))),
        ..empty(dir)
    }
}

fn with_shim(dir: &str) -> PathDir {
    PathDir {
        code: runnable(),
        resolved: Some(b(SELF)),
        ..empty(dir)
    }
}

fn diagnosis(dirs: &[PathDir]) -> Diagnosis {
    diagnose(dirs, &home(), SELF.as_bytes())
}

#[test]
fn shim_first_wins() {
    let d = diagnosis(&[with_shim("/base/shimdir"), with_real_code("/base/sysdir")]);
    assert_eq!(d.entries.len(), 2);
    assert!(d.entries[0].is_shim);
    assert!(!d.entries[1].is_shim);
    assert!(d.suggestion.is_none());
}

#[test]
fn shadowed_shim_suggests_earlier_home_dir() {
    let d = diagnosis(&[
        empty("/base/home/local-bin"),
        with_real_code("/base/sysdir"),
        with_shim("/base/shimdir"),
    ]);
    assert!(!d.entries[0].is_shim);
    assert!(d.entries[1].is_shim);
    assert_eq!(d.suggestion, Some(b("/base/home/local-bin")));
}

#[test]
fn no_suggestion_without_earlier_home_dir() {
    let d = diagnosis(&[
        empty("/base/outside-home"),
        with_real_code("/base/sysdir"),
        with_shim("/base/shimdir"),
    ]);
    assert!(!d.entries[0].is_shim);
    assert!(d.suggestion.is_none());
}

#[test]
fn missing_home_dir_on_path_is_suggested() {
    let ghost = PathDir {
        state: DirState::Missing,
        ..empty("/base/home/not-created-yet")
    };
    let d = diagnosis(&[ghost, with_real_code("/base/sysdir")]);
    assert_eq!(d.suggestion, Some(b("/base/home/not-created-yet")));
}

#[test]
fn dangling_code_symlink_is_skipped() {
    let d = diagnosis(&[empty("/base/brokendir"), with_real_code("/base/sysdir")]);
    assert_eq!(d.entries.len(), 1);
    assert_eq!(d.entries[0].path, b("/base/sysdir/code"));
}

#[test]
fn non_executable_code_is_ignored() {
    let plain = PathDir {
        code: Some(FileMeta {
            is_file: true,
            mode: 0o100644,
        }),
        ..empty("/base/plaindir")
    };
    assert!(diagnosis(&[plain]).entries.is_empty());
    let dir = Some(FileMeta {
        is_file: false,
        mode: 0o40755,
    });
    assert!(!is_executable_file(&dir));
    for mode in [0o100, 0o010, 0o001] {
        assert!(is_executable_file(&Some(FileMeta {
            is_file: true,
            mode
        })));
    }
    assert!(!is_executable_file(&None));
}

#[test]
fn suggestions_stay_ahead_of_the_winner() {
    let d = diagnosis(&[
        with_real_code("/base/sysdir"),
        empty("/base/home/late"),
        with_shim("/base/shimdir"),
    ]);
    assert_eq!(d.suggestion, None);
    let d = diagnosis(&[empty(""), empty("/base/home/a"), empty("/base/home/b")]);
    assert_eq!(d.suggestion, Some(b("/base/home/a")));
    assert!(d.entries.is_empty());
    let spelled = diagnosis(&[
        empty("/base/home/bin/"),
        with_real_code("/base/home/bin"),
    ]);
    assert_eq!(spelled.suggestion, None);
}

#[test]
fn empty_path_entries_do_not_count() {
    let here = PathDir {
        code: runnable(),
        ..empty("")
    };
    assert!(diagnosis(&[here]).entries.is_empty());
}

#[test]
fn suggestable_directories() {
    let suggest = |dir: &str, state| {
        is_suggestable(
            &PathDir {
                state,
                ..empty(dir)
            },
            &home(),
        )
    };
    let writable = DirState::Directory { writable: true };
    assert!(suggest("/base/home/bin", writable));
    assert!(suggest("/base//home/./bin", DirState::Missing));
    assert!(!suggest(
        "/base/home/bin",
        DirState::Directory { writable: false }
    ));
    assert!(!suggest("/base/home/bin", DirState::NotADirectory));
    assert!(!suggest("/base/home", writable));
    assert!(!suggest("/base/home/", writable));
    assert!(!suggest("/base/homely/bin", writable));
    assert!(!suggest("base/home/bin", writable));
    assert!(!is_suggestable(&empty("/base/home/bin"), &None));
}

#[test]
fn shims_are_told_by_what_they_resolve_to() {
    let shim = |p: &str| is_shim(&Some(b(p)), SELF.as_bytes());
    assert!(shim(SELF));
    assert!(shim("/base//home/back"));
    assert!(shim("/elsewhere/back"));
    assert!(shim("/elsewhere/backchannel"));
    assert!(!shim("/elsewhere/back.old"));
    assert!(!shim("/back/code"));
    assert!(!is_shim(&None, SELF.as_bytes()));
}

// ---- the report ----

#[test]
fn report_on_a_winning_shim() {
    let d = diagnosis(&[with_shim("/s"), with_real_code("/usr/bin")]);
    assert_eq!(
        report(&d, &None),
        vec![
            Line::Stdout("`code` in this shell resolves to the shim: /s/code".into()),
            Line::Stdout(
                "  (/usr/bin/code stays reachable — the shim runs it when you're outside an ssh \
                 session)"
                    .into()
            ),
        ]
    );
    assert_eq!(report(&diagnosis(&[with_shim("/s")]), &None).len(), 1);
}

#[test]
fn report_on_no_code_at_all() {
    let d = diagnosis(&[]);
    let hint = Line::Stderr(
        "  no user-writable directory comes earlier on PATH — put the shim's directory ahead in \
         PATH instead (in ~/.zshenv or ~/.bashrc, so non-interactive ssh commands see it too)"
            .into(),
    );
    assert_eq!(
        report(&d, &None),
        vec![
            Line::Stderr("warning: no `code` found on this shell's PATH".into()),
            hint.clone()
        ]
    );
    assert_eq!(
        report(&d, &Some(b("/base/bin/code"))),
        vec![
            Line::Stderr(
                "warning: /base/bin is not on this shell's PATH — `code` won't find the shim"
                    .into()
            ),
            hint
        ]
    );
}

#[test]
fn report_on_a_shadowed_shim() {
    let d = diagnosis(&[
        empty("/base/home/bin"),
        with_real_code("/usr/bin"),
        with_shim("/s"),
    ]);
    assert_eq!(
        report(&d, &Some(b("/s/code"))),
        vec![
            Line::Stderr(
                "warning: `code` in this shell resolves to /usr/bin/code, not the backchannel shim"
                    .into()
            ),
            Line::Stderr("  every `code` on this shell's PATH, in order:".into()),
            Line::Stderr("    /usr/bin/code".into()),
            Line::Stderr("    /s/code  (backchannel shim)".into()),
            Line::Stderr(
                "  /base/home/bin comes earlier on PATH and is user-writable — try:\n    back \
                 install-as-code --at /base/home/bin"
                    .into()
            ),
        ]
    );
    let alone = diagnosis(&[with_real_code("/usr/bin")]);
    assert_eq!(
        report(&alone, &Some(b("/s/code")))[1],
        Line::Stderr("  the shim at /s/code is not on this shell's PATH".into())
    );
    assert_eq!(report(&alone, &None).len(), 2);
}

#[test]
fn checks() {
    let shim = diagnosis(&[with_shim("/s")]);
    let real = diagnosis(&[with_real_code("/s")]);
    assert_eq!(verdict(true, &shim), Ok(()));
    assert_eq!(verdict(true, &real), Err(NOT_SHIM.to_string()));
    assert_eq!(verdict(true, &diagnosis(&[])), Err(NOT_SHIM.to_string()));
    assert_eq!(verdict(false, &real), Ok(()));
}

// ---- installing ----

fn occupant(is_symlink: bool, resolved: Option<&str>) -> Option<Occupant> {
    Some(Occupant {
        is_symlink,
        resolves: resolved.is_some(),
        resolved: resolved.map(b),
    })
}

fn install(o: Option<Occupant>, force: bool) -> Result<(Vec<u8>, Vec<u8>), String> {
    install_shim(b"/base/bin", &o, SELF.as_bytes(), force, 42).map(|p| (p.shim, p.tmp))
}

#[test]
fn install_creates_and_refreshes() {
    let planned = Ok((b("/base/bin/code"), b("/base/bin/.code.tmp.42")));
    assert_eq!(install(None, false), planned);
    // Re-running over our own shim is fine without --force.
    assert_eq!(install(occupant(true, Some(SELF)), false), planned);
    assert_eq!(
        installed_note(b"/base/bin/code", SELF.as_bytes()),
        "installed: /base/bin/code -> /base/home/back"
    );
}

#[test]
fn install_replaces_dangling_link_without_force() {
    assert!(install(occupant(true, None), false).is_ok());
}

#[test]
fn install_refuses_foreign_code_unless_forced() {
    let foreign = || occupant(false, Some("/base/bin/code"));
    let err = install(foreign(), false).unwrap_err();
    assert!(err.contains("--force"), "got: {err}");
    assert_eq!(
        err,
        "/base/bin/code already exists and is not a backchannel shim — pass --force to replace it"
    );
    assert!(install(foreign(), true).is_ok());
    // A file that cannot be resolved is not a dangling link.
    assert!(install(occupant(false, None), false).is_err());
}

#[test]
fn tilde_expansion() {
    let home = Some(b("/home/u"));
    assert_eq!(expand_tilde(b"~/bin", &home), b("/home/u/bin"));
    assert_eq!(expand_tilde(b"/abs/bin", &home), b("/abs/bin"));
    assert_eq!(expand_tilde(b"~/bin", &None), b("~/bin"));
}

#[test]
fn tilde_edges() {
    let home = Some(b("/home/u"));
    let std = |d: &str| match std::path::Path::new(d).strip_prefix("~") {
        Ok(rest) => std::path::Path::new("/home/u").join(rest),
        Err(_) => std::path::PathBuf::from(d),
    };
    for d in [
        "~", "~/", "~//bin", "~/./bin/.", "~user/bin", "x/~", "~/..", "~/a/./b//", "", "~/.x",
        "~/.", "~/./", "~/bin/..",
    ] {
        let got = expand_tilde(d.as_bytes(), &home);
        assert_eq!(String::from_utf8(got).unwrap(), std(d).to_str().unwrap(), "{d}");
    }
}

#[test]
fn where_the_shim_goes() {
    let home = Some(b("/home/u"));
    let exe = b"/opt/bc/back";
    assert_eq!(run(&None, false, &home, exe), Some(b("/opt/bc")));
    assert_eq!(
        run(&Some(b("~/bin")), false, &home, exe),
        Some(b("/home/u/bin"))
    );
    assert_eq!(run(&Some(b("~/bin")), true, &home, exe), None);
}
