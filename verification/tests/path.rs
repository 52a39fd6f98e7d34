use backchannel::path::{
    clean, components_of, file_name, first_of, is_absolute, join, join_each, parent, same_path,
    split, starts_with,
};
use backchannel::paths::{aliases_path, base_dir, log_path, socket_path};
use std::path::Path;

fn b(s: &str) -> Vec<u8> {
    s.as_bytes().to_vec()
}

const SAMPLES: [&str; 26] = [
    "", "/", "//", ".", "./", "..", "../", "/.", "/..", "a", "a/", "/a", "a/b", "/a/b/", "a//b",
    "a/./b", "./a", "./.", "a/.", "a/..", "/a/../b", "../a/b", "a/b/../..", ".a", "/a/./", "~/x",
];

fn text(p: Option<Vec<u8>>) -> Option<String> {
    p.map(|v| String::from_utf8(v).unwrap())
}

#[test]
fn paths_agree_with_std() {
    for s in SAMPLES {
        let p = Path::new(s);
        assert_eq!(is_absolute(s.as_bytes()), p.is_absolute(), "{s}");
        assert_eq!(
            text(file_name(s.as_bytes())),
            p.file_name().map(|n| n.to_str().unwrap().to_string()),
            "{s}"
        );
        assert_eq!(
            text(parent(s.as_bytes())),
            p.parent().map(|n| n.to_str().unwrap().to_string()),
            "{s}"
        );
        let parts: Vec<Vec<u8>> = p
            .components()
            .map(|c| b(c.as_os_str().to_str().unwrap()))
            .collect();
        assert_eq!(components_of(s.as_bytes()), parts, "{s}");
        for t in SAMPLES {
            let q = Path::new(t);
            assert_eq!(
                join(s.as_bytes(), t.as_bytes()),
                b(p.join(q).to_str().unwrap()),
                "{s} {t}"
            );
            assert_eq!(same_path(s.as_bytes(), t.as_bytes()), p == q, "{s} {t}");
            assert_eq!(
                starts_with(s.as_bytes(), t.as_bytes()),
                p.starts_with(q),
                "{s} {t}"
            );
        }
    }
}

#[test]
fn cleaning() {
    let cleaned = |s: &str| String::from_utf8(clean(s.as_bytes())).unwrap();
    assert_eq!(cleaned("/a/b/../c/./d"), "/a/c/d");
    assert_eq!(cleaned("/.."), "/");
    assert_eq!(cleaned("//"), "/");
    assert_eq!(cleaned("a/../.."), "");
    for s in SAMPLES {
        assert_eq!(cleaned(&cleaned(s)), cleaned(s), "{s}");
    }
}

#[test]
fn splitting() {
    assert_eq!(split(b"a//b"), vec![b("a"), b(""), b("b")]);
    assert_eq!(split(b""), vec![b("")]);
}

#[test]
fn looking_through_directories() {
    let dirs = [b("/x"), b("y/"), b("")];
    let all = join_each(&dirs, b"n");
    assert_eq!(all, vec![b("/x/n"), b("y/n"), b("n")]);
    assert_eq!(first_of(&all, &[false, true, true]), Some(b("y/n")));
    assert_eq!(first_of(&all, &[false, false, false]), None);
}

#[test]
fn where_things_are_kept() {
    let home = Some(b("/home/u"));
    let base = base_dir(&None, &home);
    assert_eq!(base, b("/home/u/.backchannel"));
    assert_eq!(base_dir(&Some(b("/tmp/t")), &home), b("/tmp/t"));
    assert_eq!(base_dir(&Some(b("/tmp/t")), &None), b("/tmp/t"));
    assert_eq!(socket_path(&base), b("/home/u/.backchannel/agent.sock"));
    assert_eq!(log_path(&base), b("/home/u/.backchannel/daemon.log"));
    assert_eq!(aliases_path(&base), b("/home/u/.backchannel/aliases"));
}
