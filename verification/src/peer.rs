//! The process on the other end of a unix-socket connection. The daemon uses
//! it to (a) reject other users outright and (b) read the ssh client's argv
//! to learn which host alias a request arrived through.

use vstd::prelude::*;

use crate::text;
use crate::text::lossy;

verus! {

/// Who is on the other end.
#[derive(Debug, Clone, Copy, PartialEq, Eq, Structural)]
pub struct PeerInfo {
    pub pid: i32,
    pub uid: u32,
}

/// A process's command line as its system hands it out.
#[derive(Debug, Clone, PartialEq, Eq)]
pub enum RawArgv {
    /// `/proc/<pid>/cmdline`: the arguments, each ended by a NUL.
    Cmdline(Vec<u8>),
    /// `KERN_PROCARGS2`: the number of arguments in four bytes, the exec path
    /// (NUL-terminated, NUL-padded), the arguments, then the environment.
    ProcArgs(Vec<u8>),
    /// This system does not say.
    Unknown,
}

/// What stands between the NULs.
pub open spec fn nul_pieces(s: Seq<u8>) -> Seq<Seq<u8>> {
    text::pieces(s, |b: u8| b == 0)
}

/// Each byte string as text.
pub open spec fn as_texts(ps: Seq<Seq<u8>>) -> Seq<Seq<char>> {
    ps.map_values(|p: Seq<u8>| text::text_of(p))
}

/// The pieces without the empty ones at the end.
pub open spec fn without_empty_tail(ps: Seq<Seq<u8>>) -> Seq<Seq<u8>>
    decreases ps.len(),
{
    if ps.len() > 0 && ps.last().len() == 0 {
        without_empty_tail(ps.drop_last())
    } else {
        ps
    }
}

/// A list that is not empty.
pub open spec fn some_unless_empty(ts: Seq<Seq<char>>) -> Option<Seq<Seq<char>>> {
    if ts.len() == 0 {
        None
    } else {
        Some(ts)
    }
}

/// `s` from its first NUL on, or from its first other byte on.
pub open spec fn from_first(s: Seq<u8>, nul: bool) -> Seq<u8>
    decreases s.len(),
{
    if s.len() == 0 || (s[0] == 0) == nul {
        s
    } else {
        from_first(s.skip(1), nul)
    }
}

/// The number in the first four bytes, least significant byte first, as every
/// machine with this layout has it; nothing where it is negative.
pub open spec fn argument_count(buf: Seq<u8>) -> nat {
    if buf[3] >= 128 {
        0
    } else {
        (buf[0] + 0x100 * buf[1] + 0x1_0000 * buf[2] + 0x100_0000 * buf[3]) as nat
    }
}

/// The arguments in a `KERN_PROCARGS2` buffer: as many as it counts, or as
/// many as there are.
pub open spec fn counted_arguments(buf: Seq<u8>) -> Seq<Seq<u8>> {
    let args = nul_pieces(from_first(from_first(buf.skip(4), true), false));
    if argument_count(buf) < args.len() {
        args.take(argument_count(buf) as int)
    } else {
        args
    }
}

/// The command line in `raw`, where it holds one.
pub open spec fn argv_in(raw: RawArgv) -> Option<Seq<Seq<char>>> {
    match raw {
        RawArgv::Cmdline(bytes) => some_unless_empty(
            as_texts(without_empty_tail(nul_pieces(bytes@))),
        ),
        RawArgv::ProcArgs(buf) => if buf@.len() < 4 {
            None
        } else {
            some_unless_empty(as_texts(counted_arguments(buf@)))
        },
        RawArgv::Unknown => None,
    }
}

/// Splits `s`, from `from` on, at its NULs, into no more than `most` texts.
fn split_nul(s: &[u8], from: usize, most: Option<usize>) -> (r: Vec<String>)
    requires
        from <= s@.len(),
    ensures
        text::texts(r@) == as_texts(capped(nul_pieces(s@.skip(from as int)), most)),
        r@.len() <= nul_pieces(s@.skip(from as int)).len(),
        forall|k: int|
            0 <= k < r@.len() ==> text::read_from(
                (#[trigger] r@[k])@,
                nul_pieces(s@.skip(from as int))[k],
            ),
{
    broadcast use text::lemma_texts_push;

    let ghost sep = |b: u8| b == 0;
    let ghost whole = s@.skip(from as int);
    let n: usize = s.len();
    let mut out: Vec<String> = Vec::new();
    let mut start: usize = from;
    let mut i: usize = from;
    assert(whole.take(0) =~= Seq::empty());
    assert(s@.subrange(start as int, i as int) =~= Seq::empty());
    assert(nul_pieces(whole.take(0)) =~= seq![s@.subrange(start as int, i as int)]);
    assert(nul_pieces(whole.take(0)).drop_last() =~= Seq::empty());
    assert(text::texts(out@) =~= as_texts(capped(Seq::empty(), most)));
    while i < n
        invariant
            from <= start <= i <= n == s@.len(),
            whole == s@.skip(from as int),
            sep == (|b: u8| b == 0),
            nul_pieces(whole.take(i - from)).len() > 0,
            nul_pieces(whole.take(i - from)).last() == s@.subrange(start as int, i as int),
            text::texts(out@) == as_texts(
                capped(nul_pieces(whole.take(i - from)).drop_last(), most),
            ),
            out@.len() < nul_pieces(whole.take(i - from)).len(),
            forall|k: int|
                0 <= k < out@.len() ==> text::read_from(
                    (#[trigger] out@[k])@,
                    nul_pieces(whole.take(i - from))[k],
                ),
        decreases n - i,
    {
        let ghost before = nul_pieces(whole.take(i - from));
        let ghost after = nul_pieces(whole.take(i + 1 - from));
        proof {
            assert(whole.take(i + 1 - from).drop_last() =~= whole.take(i - from));
            assert(whole.take(i + 1 - from).last() == s@[i as int]);
        }
        if s[i] == 0 {
            proof {
                assert(after =~= before.push(Seq::empty()));
                assert(after.drop_last() =~= before);
                lemma_capped_step(before, most);
                assert(s@.subrange(i + 1, i + 1) =~= Seq::empty());
            }
            if has_room(out.len(), most) {
                out.push(lossy(vstd::slice::slice_subrange(s, start, i)));
            }
            start = i + 1;
        } else {
            proof {
                assert(after =~= before.drop_last().push(before.last().push(s@[i as int])));
                assert(after.drop_last() =~= before.drop_last());
                assert(s@.subrange(start as int, i + 1) =~= s@.subrange(
                    start as int,
                    i as int,
                ).push(s@[i as int]));
            }
        }
        i += 1;
    }
    assert(whole.take(n - from) =~= whole);
    proof {
        lemma_capped_step(nul_pieces(whole), most);
    }
    if has_room(out.len(), most) {
        out.push(lossy(vstd::slice::slice_subrange(s, start, n)));
    }
    out
}

/// `n` pieces are fewer than the most there may be.
spec fn room(n: nat, most: Option<usize>) -> bool {
    most matches Some(m) ==> n < m
}

/// Whether `n` pieces are fewer than the most there may be.
fn has_room(n: usize, most: Option<usize>) -> (r: bool)
    ensures
        r == room(n as nat, most),
{
    match most {
        None => true,
        Some(m) => n < m,
    }
}

/// No more than `most` of the pieces.
spec fn capped(ps: Seq<Seq<u8>>, most: Option<usize>) -> Seq<Seq<u8>> {
    match most {
        Some(m) if m < ps.len() => ps.take(m as int),
        _ => ps,
    }
}

proof fn lemma_capped_step(ps: Seq<Seq<u8>>, most: Option<usize>)
    requires
        ps.len() > 0,
    ensures
        ({
            let short = as_texts(capped(ps.drop_last(), most));
            as_texts(capped(ps, most)) == (if room(short.len(), most) {
                short.push(text::text_of(ps.last()))
            } else {
                short
            })
        }),
{
    let short = capped(ps.drop_last(), most);
    if room(short.len(), most) {
        assert(capped(ps, most) =~= short.push(ps.last()));
        assert(as_texts(capped(ps, most)) =~= as_texts(short).push(text::text_of(ps.last())));
    } else {
        assert(capped(ps, most) =~= short);
    }
}

/// A piece is empty exactly when its text is.
proof fn lemma_empty_piece(t: Seq<char>, piece: Seq<u8>)
    requires
        text::read_from(t, piece),
    ensures
        t.len() == 0 <==> piece.len() == 0,
{
    let nothing = Seq::<char>::empty();
    text::lemma_read_exactly(t, piece, nothing);
    assert(vstd::utf8::encode_utf8(nothing) =~= Seq::empty());
    if t.len() == 0 {
        assert(t =~= nothing);
    }
    if piece.len() == 0 {
        assert(piece =~= Seq::empty());
    }
}

/// The position from which `s` begins with a NUL, or with another byte.
fn find_from(s: &[u8], from: usize, nul: bool) -> (r: usize)
    requires
        from <= s@.len(),
    ensures
        from <= r <= s@.len(),
        s@.skip(r as int) == from_first(s@.skip(from as int), nul),
{
    let n: usize = s.len();
    let mut i: usize = from;
    while i < n && (s[i] == 0) != nul
        invariant
            from <= i <= n == s@.len(),
            from_first(s@.skip(i as int), nul) == from_first(s@.skip(from as int), nul),
        ensures
            from <= i <= n,
            s@.skip(i as int) == from_first(s@.skip(from as int), nul),
        decreases n - i,
    {
        assert(s@.skip(i as int).skip(1) =~= s@.skip(i + 1));
        i += 1;
    }
    i
}

/// The command line of a process, from what its system hands out.
pub fn process_argv(raw: &RawArgv) -> (r: Option<Vec<String>>)
    ensures
        match argv_in(*raw) {
            None => r is None,
            Some(argv) => r is Some && text::texts(r->0@) == argv,
        },
{
    match raw {
        RawArgv::Cmdline(bytes) => {
            assert(bytes@.skip(0) =~= bytes@);
            let mut args = split_nul(bytes.as_slice(), 0, None);
            let ghost pieces = nul_pieces(bytes@);
            assert(text::texts(args@).len() == args@.len());
            assert(pieces.take(args@.len() as int) =~= pieces);
            while args.len() > 0 && args[args.len() - 1].as_str().is_empty()
                invariant
                    args@.len() <= pieces.len(),
                    text::texts(args@) == as_texts(pieces.take(args@.len() as int)),
                    forall|k: int|
                        0 <= k < args@.len() ==> text::read_from((#[trigger] args@[k])@, pieces[k]),
                    without_empty_tail(pieces.take(args@.len() as int)) == without_empty_tail(pieces),
                ensures
                    text::texts(args@) == as_texts(without_empty_tail(pieces)),
                decreases args@.len(),
            {
                let ghost before = args@;
                let ghost n = before.len() as int;
                proof {
                    lemma_empty_piece(before[n - 1]@, pieces[n - 1]);
                    assert(pieces.take(n).last() == pieces[n - 1]);
                    assert(pieces.take(n).drop_last() =~= pieces.take(n - 1));
                }
                let _ = args.pop();
                assert(text::texts(args@) =~= as_texts(pieces.take(n - 1))) by {
                    assert(text::texts(before) == as_texts(pieces.take(n)));
                    assert forall|k: int| 0 <= k < n - 1 implies text::texts(args@)[k] == as_texts(
                        pieces.take(n - 1),
                    )[k] by {
                        assert(text::texts(before)[k] == as_texts(pieces.take(n))[k]);
                    }
                }
            }
            if args.len() == 0 {
                assert(text::texts(args@).len() == 0);
                None
            } else {
                assert(text::texts(args@).len() > 0);
                Some(args)
            }
        },
        RawArgv::ProcArgs(buf) => {
            if buf.len() < 4 {
                return None;
            }
            let count: usize = if buf[3] >= 128 {
                0
            } else {
                buf[0] as usize + 0x100 * buf[1] as usize + 0x1_0000 * buf[2] as usize
                    + 0x100_0000 * buf[3] as usize
            };
            let path_end = find_from(buf.as_slice(), 4, true);
            let start = find_from(buf.as_slice(), path_end, false);
            let args = split_nul(buf.as_slice(), start, Some(count));
            if args.len() == 0 {
                None
            } else {
                Some(args)
            }
        },
        RawArgv::Unknown => None,
    }
}

/// Bytes that are all NUL fall into empty pieces, and no others do.
proof fn lemma_all_nul(s: Seq<u8>)
    ensures
        nul_pieces(s).len() > 0,
        (forall|k: int| 0 <= k < nul_pieces(s).len() ==> (#[trigger] nul_pieces(s)[k]).len() == 0)
            <==> (forall|i: int| 0 <= i < s.len() ==> #[trigger] s[i] == 0),
    decreases s.len(),
{
    if s.len() > 0 {
        let init = s.drop_last();
        let before = nul_pieces(init);
        let after = nul_pieces(s);
        lemma_all_nul(init);
        assert(forall|i: int| 0 <= i < init.len() ==> init[i] == s[i]);
        assert(s[s.len() - 1] == s.last());
        if s.last() == 0 {
            assert(after == before.push(Seq::empty()));
            assert forall|k: int| 0 <= k < before.len() implies after[k] == before[k] by {}
            if forall|k: int| 0 <= k < after.len() ==> (#[trigger] after[k]).len() == 0 {
                assert forall|k: int| 0 <= k < before.len() implies (#[trigger] before[k]).len()
                    == 0 by {
                    assert(after[k].len() == 0);
                }
                assert forall|i: int| 0 <= i < s.len() implies #[trigger] s[i] == 0 by {
                    if i < init.len() {
                        assert(init[i] == 0);
                    }
                }
            }
            if forall|i: int| 0 <= i < s.len() ==> #[trigger] s[i] == 0 {
                assert(forall|i: int| 0 <= i < init.len() ==> #[trigger] init[i] == 0);
            }
        } else {
            assert(after == before.drop_last().push(before.last().push(s.last())));
            assert(after[after.len() - 1].len() > 0);
        }
    }
}

/// Nothing is left exactly when all pieces are empty.
proof fn lemma_nothing_left(ps: Seq<Seq<u8>>)
    ensures
        without_empty_tail(ps).len() == 0 <==> (forall|k: int|
            0 <= k < ps.len() ==> (#[trigger] ps[k]).len() == 0),
    decreases ps.len(),
{
    if ps.len() > 0 {
        assert(ps[ps.len() - 1] == ps.last());
        if ps.last().len() == 0 {
            let init = ps.drop_last();
            lemma_nothing_left(init);
            assert(forall|k: int| 0 <= k < init.len() ==> init[k] == ps[k]);
            if forall|k: int| 0 <= k < init.len() ==> (#[trigger] init[k]).len() == 0 {
                assert forall|k: int| 0 <= k < ps.len() implies (#[trigger] ps[k]).len() == 0 by {
                    if k < init.len() {
                        assert(init[k].len() == 0);
                    }
                }
            }
        }
    }
}

/// `/proc/<pid>/cmdline` holds a command line unless there is nothing but
/// NULs in it.
pub proof fn law_cmdline_missing(bytes: Vec<u8>)
    ensures
        argv_in(RawArgv::Cmdline(bytes)) is None <==> (forall|i: int|
            0 <= i < bytes@.len() ==> #[trigger] bytes@[i] == 0),
{
    lemma_all_nul(bytes@);
    lemma_nothing_left(nul_pieces(bytes@));
}

/// A command line is never empty.
pub proof fn law_argv_nonempty(raw: RawArgv)
    ensures
        argv_in(raw) matches Some(argv) ==> argv.len() > 0,
{
}

/// Where the process's command line is to be read.
pub open spec fn cmdline_of(pid: int) -> Seq<char> {
    "/proc/"@ + text::signed_decimal(pid) + "/cmdline"@
}

/// Where the process's command line is to be read.
pub fn cmdline_path(pid: i32) -> (r: String)
    ensures
        r@ == cmdline_of(pid as int),
{
    "/proc/".to_owned().concat(text::signed_text(pid).as_str()).concat("/cmdline")
}

/// Arguments as a system hands them out: each ended by a NUL.
pub open spec fn nul_ended(args: Seq<Seq<u8>>) -> Seq<u8>
    decreases args.len(),
{
    if args.len() == 0 {
        Seq::empty()
    } else {
        nul_ended(args.drop_last()) + args.last().push(0)
    }
}

/// No argument holds a NUL.
pub open spec fn nul_free(args: Seq<Seq<u8>>) -> bool {
    forall|i: int, j: int| 0 <= i < args.len() && 0 <= j < args[i].len() ==> #[trigger] args[i][j] != 0
}

proof fn lemma_nul_pieces(args: Seq<Seq<u8>>)
    requires
        args.len() > 0,
        nul_free(args),
    ensures
        nul_pieces(nul_ended(args.drop_last()) + args.last()) == args,
    decreases args.len(),
{
    let sep = |b: u8| b == 0;
    let init = args.drop_last();
    let last = args.last();
    assert forall|j: int| 0 <= j < last.len() implies !sep(#[trigger] last[j]) by {
        assert(args[args.len() - 1][j] != 0);
    }
    text::lemma_one_piece(last, sep);
    if init.len() == 0 {
        assert(nul_ended(init) + last =~= last);
        assert(seq![last] =~= args);
    } else {
        assert forall|i: int, j: int| 0 <= i < init.len() && 0 <= j < init[i].len() implies
            #[trigger] init[i][j] != 0 by {
            assert(args[i][j] != 0);
        }
        lemma_nul_pieces(init);
        let front = nul_ended(init.drop_last()) + init.last();
        assert(nul_ended(init) =~= front.push(0));
        text::lemma_pieces_joined(front, 0u8, last, sep);
        assert(init + seq![last] =~= args);
    }
}

/// The arguments that a process was started with are read back, one by one
/// and in their order.
pub proof fn law_cmdline_read(bytes: Vec<u8>, args: Seq<Seq<u8>>)
    requires
        args.len() > 0,
        args.last().len() > 0,
        nul_free(args),
        bytes@ == nul_ended(args),
    ensures
        argv_in(RawArgv::Cmdline(bytes)) matches Some(argv) && argv.len() == args.len() && (forall|
            i: int,
        |
            0 <= i < args.len() ==> #[trigger] argv[i] == text::text_of(args[i])),
{
    let sep = |b: u8| b == 0;
    let front = nul_ended(args.drop_last()) + args.last();
    let none = Seq::<u8>::empty();
    lemma_nul_pieces(args);
    assert(bytes@ =~= front.push(0) + none);
    text::lemma_pieces_joined(front, 0u8, none, sep);
    text::lemma_one_piece(none, sep);
    let all = nul_pieces(bytes@);
    assert(all =~= args.push(none));
    assert(all.drop_last() =~= args);
    assert(without_empty_tail(args) == args);
    assert(without_empty_tail(all) == args);
}

proof fn lemma_from_first(front: Seq<u8>, rest: Seq<u8>, nul: bool)
    requires
        forall|i: int| 0 <= i < front.len() ==> (#[trigger] front[i] == 0) != nul,
        rest.len() > 0,
        (rest[0] == 0) == nul,
    ensures
        from_first(front + rest, nul) == rest,
    decreases front.len(),
{
    if front.len() == 0 {
        assert(front + rest =~= rest);
    } else {
        let less = front.skip(1);
        assert((front + rest)[0] == front[0]);
        assert((front + rest).skip(1) =~= less + rest);
        assert forall|i: int| 0 <= i < less.len() implies (#[trigger] less[i] == 0) != nul by {
            assert(less[i] == front[i + 1]);
        }
        lemma_from_first(less, rest, nul);
    }
}

/// Behind the number of arguments, the path of the program and its padding
/// stand the arguments; as many as are counted are read, and nothing of the
/// environment that follows them.
pub proof fn law_procargs_read(
    buf: Vec<u8>,
    program: Seq<u8>,
    padding: Seq<u8>,
    args: Seq<Seq<u8>>,
    environment: Seq<u8>,
)
    requires
        args.len() > 0,
        args[0].len() > 0,
        nul_free(args),
        forall|i: int| 0 <= i < program.len() ==> #[trigger] program[i] != 0,
        padding.len() > 0,
        forall|i: int| 0 <= i < padding.len() ==> #[trigger] padding[i] == 0,
        buf@.len() >= 4,
        buf@[0] + 256 * buf@[1] + 65536 * buf@[2] + 16777216 * buf@[3] == args.len(),
        buf@[3] < 128,
        buf@.skip(4) == program + (padding + (nul_ended(args) + environment)),
    ensures
        argv_in(RawArgv::ProcArgs(buf)) matches Some(argv) && argv.len() == args.len() && (forall|
            i: int,
        |
            0 <= i < args.len() ==> #[trigger] argv[i] == text::text_of(args[i])),
{
    let sep = |b: u8| b == 0;
    let body = nul_ended(args) + environment;
    let front = nul_ended(args.drop_last()) + args.last();
    lemma_nul_pieces(args);
    assert(nul_ended(args) =~= front.push(0));
    lemma_begins(args);
    assert(body[0] == nul_ended(args)[0]);
    lemma_from_first(program, padding + body, true);
    lemma_from_first(padding, body, false);
    text::lemma_pieces_joined(front, 0u8, environment, sep);
    let all = nul_pieces(body);
    assert(all.take(args.len() as int) =~= args);
}

proof fn lemma_begins(args: Seq<Seq<u8>>)
    requires
        args.len() > 0,
        args[0].len() > 0,
        nul_free(args),
    ensures
        nul_ended(args).len() > 0,
        nul_ended(args)[0] == args[0][0],
        nul_ended(args)[0] != 0,
    decreases args.len(),
{
    assert(args[0][0] != 0);
    if args.len() > 1 {
        let init = args.drop_last();
        assert forall|i: int, j: int| 0 <= i < init.len() && 0 <= j < init[i].len() implies
            #[trigger] init[i][j] != 0 by {
            assert(args[i][j] != 0);
        }
        lemma_begins(init);
    } else {
        assert(nul_ended(args.drop_last()) =~= Seq::empty());
    }
}

/// A system that does not tell gives no command line.
pub proof fn law_unknown_argv(buf: Vec<u8>)
    ensures
        argv_in(RawArgv::Unknown) is None,
        buf@.len() < 4 ==> argv_in(RawArgv::ProcArgs(buf)) is None,
{
}

/// A command line is read from the directory that the system keeps for its
/// process.
pub proof fn law_cmdline_of(pid: nat)
    ensures
        cmdline_of(pid as int) == "/proc/"@ + text::decimal(pid) + "/cmdline"@,
{
}

}
