//! Recovers the ssh destination ("test-host", "user@host") from an ssh
//! client's argv. This is how the daemon learns which host alias a request
//! came from: the process connecting to its socket is the ssh client carrying
//! that session, and its command line names the destination the user typed —
//! which is exactly the authority VS Code needs for vscode-remote://.

use vstd::prelude::*;
use vstd::utf8::*;

use crate::path;
use crate::path::file_name;
use crate::text;
use crate::text::{
    before_char, bytes_contain, chars_of, same, slice_text, text_contains, text_starts_with,
};

verus! {

/// The ssh options that consume a following argument.
pub open spec fn takes_argument(c: char) -> bool {
    ||| c == 'B' || c == 'b' || c == 'c' || c == 'D' || c == 'E' || c == 'e' || c == 'F'
    ||| c == 'I' || c == 'i' || c == 'J' || c == 'L' || c == 'l' || c == 'm' || c == 'O'
    ||| c == 'o' || c == 'P' || c == 'p' || c == 'R' || c == 'S' || c == 'W' || c == 'w'
}

/// Whether ssh option `c` consumes a following argument.
fn option_takes_argument(c: char) -> (r: bool)
    ensures
        r == takes_argument(c),
{
    c == 'B' || c == 'b' || c == 'c' || c == 'D' || c == 'E' || c == 'e' || c == 'F' || c == 'I'
        || c == 'i' || c == 'J' || c == 'L' || c == 'l' || c == 'm' || c == 'O' || c == 'o' || c
        == 'P' || c == 'p' || c == 'R' || c == 'S' || c == 'W' || c == 'w'
}

/// A cluster of options takes the next token: the first of them that takes an
/// argument is the last of the cluster. Otherwise that argument is the rest of
/// the token itself.
pub open spec fn takes_next(flags: Seq<char>) -> bool
    decreases flags.len(),
{
    if flags.len() == 0 {
        false
    } else if takes_argument(flags[0]) {
        flags.len() == 1
    } else {
        takes_next(flags.skip(1))
    }
}

/// The destination that an argument names: without `ssh://`, and up to the
/// first slash.
pub open spec fn named_destination(arg: Seq<char>) -> Option<Seq<char>> {
    let bare = if text::starts_with(arg, "ssh://"@) {
        arg.skip("ssh://"@.len() as int)
    } else {
        arg
    };
    let host = text::until(bare, '/');
    if host.len() == 0 {
        None
    } else {
        Some(host)
    }
}

/// The destination among the arguments behind the program's name: the first
/// that is neither an option nor the argument of one. `--` ends the options; a
/// bare `-` is no ssh usage.
pub open spec fn destination_among(args: Seq<Seq<char>>) -> Option<Seq<char>>
    decreases args.len(),
{
    if args.len() == 0 {
        None
    } else if args[0] == "--"@ {
        if args.len() > 1 {
            named_destination(args[1])
        } else {
            None
        }
    } else if args[0].len() > 0 && args[0][0] == '-' {
        if args[0].len() == 1 {
            None
        } else if !takes_next(args[0].skip(1)) {
            destination_among(args.skip(1))
        } else if args.len() > 1 {
            destination_among(args.skip(2))
        } else {
            None
        }
    } else {
        named_destination(args[0])
    }
}

/// The program is an ssh client whose command line still says where it goes.
/// ControlPersist masters rewrite their title ("ssh: /path/ctl [mux]"); no
/// destination is recoverable there.
pub open spec fn is_ssh(program: Seq<char>) -> bool {
    &&& !text::contains(program, "[mux]"@)
    &&& path::base_name(encode_utf8(program)) matches Some(name)
    &&& text::contains(name, encode_utf8("ssh"@))
}

/// The destination that a command line names.
pub open spec fn destination_of(argv: Seq<Seq<char>>) -> Option<Seq<char>> {
    if argv.len() > 0 && is_ssh(argv[0]) {
        destination_among(argv.skip(1))
    } else {
        None
    }
}

/// The destination that an ssh client's command line names.
pub fn destination(argv: &[String]) -> (r: Option<String>)
    ensures
        text::maybe(r) == destination_of(text::texts(argv@)),
{
    if argv.len() == 0 {
        return None;
    }
    assert(text::texts(argv@)[0] == argv@[0]@);
    let prog = argv[0].as_str();
    if text_contains(prog, "[mux]") {
        return None;
    }
    match file_name(prog.as_bytes()) {
        None => {
            return None;
        },
        Some(name) => {
            if !bytes_contain(name.as_slice(), "ssh".as_bytes()) {
                return None;
            }
        },
    }
    let ghost all = text::texts(argv@);
    let n: usize = argv.len();
    let mut i: usize = 1;
    while i < n
        invariant
            1 <= i <= n == argv@.len(),
            all == text::texts(argv@),
            destination_of(all) == destination_among(all.skip(i as int)),
        decreases n - i,
    {
        let arg = argv[i].as_str();
        let ghost rest = all.skip(i as int);
        assert(rest[0] == arg@);
        assert(rest.skip(1) =~= all.skip(i + 1));
        if same(arg, "--") {
            if n - i < 2 {
                return None;
            }
            assert(rest[1] == argv@[i + 1]@);
            return clean(argv[i + 1].as_str());
        }
        let cs = chars_of(arg);
        if cs.len() > 0 && cs[0] == '-' {
            if cs.len() == 1 {
                return None;
            }
            let next = cluster_takes_next(cs.as_slice());
            if !next {
                i += 1;
            } else if n - i < 2 {
                return None;
            } else {
                assert(rest.skip(2) =~= all.skip(i + 2));
                i += 2;
            }
        } else {
            return clean(arg);
        }
    }
    None
}

/// Whether the token `-...` takes the next one.
fn cluster_takes_next(token: &[char]) -> (r: bool)
    requires
        token@.len() > 1,
    ensures
        r == takes_next(token@.skip(1)),
{
    let n: usize = token.len();
    let mut i: usize = 1;
    while i < n
        invariant
            1 <= i <= n == token@.len(),
            takes_next(token@.skip(1)) == takes_next(token@.skip(i as int)),
        decreases n - i,
    {
        assert(token@.skip(i as int)[0] == token@[i as int]);
        if option_takes_argument(token[i]) {
            return n - i == 1;
        }
        assert(token@.skip(i as int).skip(1) =~= token@.skip(i + 1));
        i += 1;
    }
    false
}

/// The destination that an argument names: without `ssh://`, and up to the
/// first slash; None where nothing is left.
pub fn clean(dest: &str) -> (r: Option<String>)
    ensures
        text::maybe(r) == named_destination(dest@),
{
    let host = if text_starts_with(dest, "ssh://") {
        let cs = chars_of(dest);
        proof {
            reveal_strlit("ssh://");
            assert(cs@.subrange(6, cs@.len() as int) =~= dest@.skip(6));
        }
        let bare = slice_text(cs.as_slice(), 6, cs.len());
        before_char(bare.as_str(), '/')
    } else {
        before_char(dest, '/')
    };
    if host.as_str().is_empty() {
        None
    } else {
        Some(host)
    }
}

/// A destination is a usable authority: it is not empty and holds no slash.
pub proof fn law_destination_usable(argv: Seq<Seq<char>>)
    ensures
        destination_of(argv) matches Some(d) ==> d.len() > 0 && !d.contains('/'),
{
    if argv.len() > 0 {
        lemma_destination_usable(argv.skip(1));
    }
}

proof fn lemma_destination_usable(args: Seq<Seq<char>>)
    ensures
        destination_among(args) matches Some(d) ==> d.len() > 0 && !d.contains('/'),
    decreases args.len(),
{
    if args.len() > 0 {
        lemma_named_usable(args[0]);
        if args.len() > 1 {
            lemma_named_usable(args[1]);
            lemma_destination_usable(args.skip(2));
        }
        lemma_destination_usable(args.skip(1));
    }
}

proof fn lemma_named_usable(arg: Seq<char>)
    ensures
        named_destination(arg) matches Some(d) ==> d.len() > 0 && !d.contains('/'),
{
    let bare = if text::starts_with(arg, "ssh://"@) {
        arg.skip("ssh://"@.len() as int)
    } else {
        arg
    };
    text::lemma_until(bare, '/');
}

/// Options that take no argument, in front of the destination, change
/// nothing.
pub proof fn law_flags_are_skipped(flag: Seq<char>, rest: Seq<Seq<char>>)
    requires
        flag.len() > 1,
        flag[0] == '-',
        flag != "--"@,
        !takes_next(flag.skip(1)),
    ensures
        destination_among(seq![flag] + rest) == destination_among(rest),
{
    assert((seq![flag] + rest).skip(1) =~= rest);
}

/// An option with its argument, in front of the destination, changes nothing,
/// whatever the argument is.
pub proof fn law_option_arguments_are_skipped(flag: Seq<char>, arg: Seq<char>, rest: Seq<Seq<char>>)
    requires
        flag.len() > 1,
        flag[0] == '-',
        flag != "--"@,
        takes_next(flag.skip(1)),
    ensures
        destination_among(seq![flag, arg] + rest) == destination_among(rest),
{
    assert((seq![flag, arg] + rest).skip(2) =~= rest);
}

/// Cleaning a destination that was cleaned changes nothing.
pub proof fn law_cleaning_settles(dest: Seq<char>)
    ensures
        named_destination(dest) matches Some(d) ==> named_destination(d) == Some(d),
{
    if let Some(d) = named_destination(dest) {
        lemma_named_usable(dest);
        reveal_strlit("ssh://");
        if text::starts_with(d, "ssh://"@) {
            assert(d.subrange(0, 6)[4] == '/');
            assert(d[4] == '/');
        }
        text::lemma_until(d, '/');
        let n = text::until(d, '/').len() as int;
        if n < d.len() {
            assert(d[n] == '/');
        }
        assert(d.take(d.len() as int) =~= d);
    }
}

/// What stands behind the destination, such as a command to run there,
/// changes nothing.
pub proof fn law_later_arguments_ignored(argv: Seq<Seq<char>>, more: Seq<Seq<char>>)
    requires
        destination_of(argv) is Some,
    ensures
        destination_of(argv + more) == destination_of(argv),
{
    assert((argv + more).skip(1) =~= argv.skip(1) + more);
    lemma_later_ignored(argv.skip(1), more);
}

proof fn lemma_later_ignored(args: Seq<Seq<char>>, more: Seq<Seq<char>>)
    requires
        destination_among(args) is Some,
    ensures
        destination_among(args + more) == destination_among(args),
    decreases args.len(),
{
    let all = args + more;
    assert(all[0] == args[0]);
    if args.len() > 1 {
        assert(all[1] == args[1]);
    }
    if args[0] != "--"@ && args[0].len() > 1 && args[0][0] == '-' {
        if !takes_next(args[0].skip(1)) {
            assert(all.skip(1) =~= args.skip(1) + more);
            lemma_later_ignored(args.skip(1), more);
        } else {
            assert(all.skip(2) =~= args.skip(2) + more);
            lemma_later_ignored(args.skip(2), more);
        }
    }
}

/// The options that take an argument are those that ssh's own usage gives
/// one.
pub proof fn law_options_with_arguments(c: char)
    ensures
        takes_argument(c) <==> "BbcDEeFIiJLlmOoPpRSWw"@.contains(c),
{
    reveal_strlit("BbcDEeFIiJLlmOoPpRSWw");
    let all = "BbcDEeFIiJLlmOoPpRSWw"@;
    assert(all[0] == 'B' && all[1] == 'b' && all[2] == 'c' && all[3] == 'D' && all[4] == 'E');
    assert(all[5] == 'e' && all[6] == 'F' && all[7] == 'I' && all[8] == 'i' && all[9] == 'J');
    assert(all[10] == 'L' && all[11] == 'l' && all[12] == 'm' && all[13] == 'O' && all[14] == 'o');
    assert(all[15] == 'P' && all[16] == 'p' && all[17] == 'R' && all[18] == 'S' && all[19] == 'W');
    assert(all[20] == 'w' && all.len() == 21);
}

/// A cluster of options takes the next token exactly when its last option
/// takes an argument and none before it does.
pub proof fn law_clusters(flags: Seq<char>, last: char)
    ensures
        takes_next(flags.push(last)) <==> takes_argument(last) && (forall|i: int|
            0 <= i < flags.len() ==> !takes_argument(#[trigger] flags[i])),
        !takes_next(Seq::empty()),
    decreases flags.len(),
{
    let all = flags.push(last);
    if flags.len() == 0 {
        assert(all.skip(1) =~= Seq::empty());
        assert(!takes_next(Seq::empty()));
    } else {
        let rest = flags.skip(1);
        assert(all.skip(1) =~= rest.push(last));
        assert(all[0] == flags[0]);
        law_clusters(rest, last);
        if forall|i: int| 0 <= i < rest.len() ==> !takes_argument(#[trigger] rest[i]) {
            if !takes_argument(flags[0]) {
                assert forall|i: int| 0 <= i < flags.len() implies !takes_argument(
                    #[trigger] flags[i],
                ) by {
                    if i > 0 {
                        assert(flags[i] == rest[i - 1]);
                    }
                }
            }
        } else {
            let i = choose|i: int| 0 <= i < rest.len() && takes_argument(#[trigger] rest[i]);
            assert(flags[i + 1] == rest[i]);
        }
    }
}

/// A destination is what was typed, user and all: with `ssh://` in front of
/// it or a path behind it, which are left out, or without.
pub proof fn law_named_as_typed(d: Seq<char>, t: Seq<char>)
    requires
        d.len() > 0,
        !d.contains('/'),
    ensures
        named_destination(d) == Some(d),
        named_destination("ssh://"@ + d) == Some(d),
        named_destination("ssh://"@ + (d + seq!['/'] + t)) == Some(d),
        d != "ssh:"@ ==> named_destination(d + seq!['/'] + t) == Some(d),
        named_destination("ssh://"@) is None,
        named_destination(Seq::empty()) is None,
{
    reveal_strlit("ssh://");
    reveal_strlit("ssh:");
    let front = "ssh://"@;
    let none = Seq::<char>::empty();
    assert forall|i: int| 0 <= i < d.len() implies d[i] != '/' by {
        assert(d.contains(d[i]));
    }
    assert(!text::starts_with(d, front)) by {
        text::lemma_not_prefixed(d, front, 4);
    }
    assert(text::until(d, '/') == d) by {
        text::lemma_until(d, '/');
        assert(d.take(d.len() as int) =~= d);
    }
    text::lemma_prefixed(front, d);
    let long = d + seq!['/'] + t;
    text::lemma_prefixed(front, long);
    assert(text::until(long, '/') == d) by {
        text::lemma_until(long, '/');
        let n = text::until(long, '/').len() as int;
        assert(long[d.len() as int] == '/');
        if n < d.len() {
            assert(long[n] == d[n]);
        }
        assert(long.take(d.len() as int) =~= d);
    }
    if d != "ssh:"@ && text::starts_with(long, front) {
        text::lemma_prefix_apart(long, front);
        assert(long[4] == '/' && long[0] == 's' && long[1] == 's' && long[2] == 'h' && long[3]
            == ':');
        if d.len() > 4 {
            assert(long[4] == d[4]);
        } else {
            assert(long[d.len() as int] == '/');
            assert(d =~= "ssh:"@);
        }
    }
    text::lemma_prefixed(front, none);
    assert(front + none =~= front);
}

/// A program is an ssh client by its own name, wherever it lies, unless it
/// carries other sessions too.
pub proof fn law_clients_by_name(dir: Seq<char>, name: Seq<char>)
    requires
        path::plain_name(encode_utf8(name)),
    ensures
        is_ssh(name) <==> !text::contains(name, "[mux]"@) && text::contains(
            encode_utf8(name),
            encode_utf8("ssh"@),
        ),
        is_ssh(dir + seq!['/'] + name) <==> !text::contains(dir + seq!['/'] + name, "[mux]"@)
            && text::contains(encode_utf8(name), encode_utf8("ssh"@)),
{
    let slash = seq!['/'];
    path::law_base_name(encode_utf8(dir), encode_utf8(name));
    crate::uri::lemma_encode_concat(dir + slash, name);
    crate::uri::lemma_encode_concat(dir, slash);
    assert(encode_utf8(slash) =~= seq![path::SLASH]) by {
        assert(is_ascii_chars(slash));
        is_ascii_chars_encode_utf8(slash);
    }
    assert(encode_utf8(dir) + seq![path::SLASH] =~= encode_utf8(dir).push(path::SLASH));
}

/// What an ssh client was given behind its name is where it goes, user and
/// all; `--` may stand in front of it, and then it may begin with a dash.
pub proof fn law_destination_as_typed(program: Seq<char>, d: Seq<char>)
    requires
        is_ssh(program),
        d.len() > 0,
        !d.contains('/'),
    ensures
        d[0] != '-' ==> destination_of(seq![program, d]) == Some(d),
        destination_of(seq![program, "--"@, d]) == Some(d),
        destination_of(seq![program]) is None,
        destination_of(seq![program, "--"@]) is None,
        destination_of(seq![program, "-"@, d]) is None,
{
    law_named_as_typed(d, Seq::empty());
    reveal_strlit("--");
    reveal_strlit("-");
    let one = seq![program, d];
    assert(one.skip(1) =~= seq![d]);
    if d[0] != '-' {
        assert(d != "--"@) by {
            assert("--"@[0] == '-');
        }
        assert(destination_among(seq![d]) == named_destination(d));
    }
    let two = seq![program, "--"@, d];
    assert(two.skip(1) =~= seq!["--"@, d]);
    assert(destination_among(seq!["--"@, d]) == named_destination(d));
    assert(seq![program].skip(1) =~= Seq::empty());
    assert(seq![program, "--"@].skip(1) =~= seq!["--"@]);
    let bare = seq!["-"@, d];
    assert(seq![program, "-"@, d].skip(1) =~= bare);
    assert("-"@.len() == 1 && "--"@.len() == 2);
    assert(bare[0] != "--"@);
}

/// `ssh` itself is an ssh client, and a client that only carries others'
/// sessions says nothing of where it goes.
pub proof fn law_ssh_itself(argv: Seq<Seq<char>>)
    ensures
        is_ssh("ssh"@),
        argv.len() == 0 ==> destination_of(argv) is None,
        argv.len() > 0 && text::contains(argv[0], "[mux]"@) ==> destination_of(argv) is None,
{
    reveal_strlit("ssh");
    reveal_strlit("[mux]");
    let name = encode_utf8("ssh"@);
    is_ascii_chars_encode_utf8("ssh"@);
    assert(name.len() == 3 && name[0] == 115 && name[1] == 115 && name[2] == 104);
    assert(path::plain_name(name));
    assert(name.subrange(0, 3) =~= name);
    assert(text::stands_at(name, 0, name));
    law_clients_by_name(Seq::empty(), "ssh"@);
}

}
