use backchannel::ssh_argv::{clean, destination};

fn argv(parts: &[&str]) -> Vec<String> {
    parts.iter().map(|s| s.to_string()).collect()
}

#[test]
fn plain() {
    assert_eq!(
        destination(&argv(&["ssh", "test-host"])).unwrap(),
        "test-host"
    );
}

#[test]
fn absolute_path_and_user() {
    assert_eq!(
        destination(&argv(&["/usr/bin/ssh", "-p", "2222", "user@host", "uptime"])).unwrap(),
        "user@host"
    );
}

#[test]
fn options_with_arguments() {
    assert_eq!(
        destination(&argv(&[
            "ssh",
            "-o",
            "ForwardAgent=yes",
            "-J",
            "jump",
            "test-host"
        ]))
        .unwrap(),
        "test-host"
    );
}

#[test]
fn clustered_flags_with_inline_arg() {
    assert_eq!(
        destination(&argv(&["ssh", "-4Ap2222", "host"])).unwrap(),
        "host"
    );
}

#[test]
fn clustered_flags_with_separate_arg() {
    assert_eq!(
        destination(&argv(&["ssh", "-4Ap", "2222", "host"])).unwrap(),
        "host"
    );
}

#[test]
fn double_dash() {
    assert_eq!(destination(&argv(&["ssh", "--", "host"])).unwrap(), "host");
}

#[test]
fn uri_form() {
    assert_eq!(
        destination(&argv(&["ssh", "ssh://user@h:2222/"])).unwrap(),
        "user@h:2222"
    );
}

#[test]
fn mux_master_is_inconclusive() {
    assert!(destination(&argv(&["ssh: /tmp/ctl [mux]"])).is_none());
}

#[test]
fn non_ssh_process_is_inconclusive() {
    assert!(destination(&argv(&["vs-connect", "open", "."])).is_none());
}

#[test]
fn flag_only_argv_is_inconclusive() {
    assert!(destination(&argv(&["ssh", "-v"])).is_none());
}

#[test]
fn inconclusive_forms() {
    assert!(destination(&[]).is_none());
    assert!(destination(&argv(&["ssh"])).is_none());
    assert!(destination(&argv(&["ssh", "-", "host"])).is_none());
    assert!(destination(&argv(&["ssh", "--"])).is_none());
    assert!(destination(&argv(&["ssh", "-p"])).is_none());
    assert!(destination(&argv(&["ssh", "ssh:///x"])).is_none());
    assert!(destination(&argv(&["ssh", ""])).is_none());
    assert!(destination(&argv(&["/", "host"])).is_none());
}

#[test]
fn wrappers_named_like_ssh_count() {
    assert_eq!(
        destination(&argv(&["/opt/autossh/", "-M", "0", "host"])),
        Some("0".to_string())
    );
    assert_eq!(
        destination(&argv(&["/opt/ssh/sshpass", "-v", "host/x"])),
        Some("host".to_string())
    );
    assert!(destination(&argv(&["/opt/ssh/other", "host"])).is_none());
}

#[test]
fn every_option_that_takes_an_argument() {
    for c in "BbcDEeFIiJLlmOoPpRSWw".chars() {
        let flag = format!("-{c}");
        assert_eq!(
            destination(&argv(&["ssh", &flag, "value", "host"])),
            Some("host".to_string()),
            "{flag}"
        );
    }
    for c in "46AaCfGgKkMNnqsTtVvXxYy".chars() {
        let flag = format!("-{c}");
        assert_eq!(
            destination(&argv(&["ssh", &flag, "host", "value"])),
            Some("host".to_string()),
            "{flag}"
        );
    }
}

#[test]
fn cleaned_destinations_stay() {
    for (dest, cleaned) in [
        ("host", "host"),
        ("ssh://user@h:2222/x", "user@h:2222"),
        ("h/ssh://x", "h"),
        ("ssh://ssh://x", "ssh:"),
        ("-", "-"),
    ] {
        assert_eq!(clean(dest), Some(cleaned.to_string()));
        assert_eq!(clean(cleaned), Some(cleaned.to_string()));
    }
    for dest in ["", "/x", "ssh://", "ssh:///x"] {
        assert_eq!(clean(dest), None);
    }
}

#[test]
fn what_follows_the_destination_is_ignored() {
    let long = argv(&["ssh", "-p", "22", "host", "-v", "--", "other", "ls"]);
    for n in 4..=long.len() {
        assert_eq!(destination(&long[..n]), Some("host".to_string()));
    }
}
