//! Where everything is kept. All state lives in one directory so the whole
//! tool can be pointed elsewhere with a single env var.

use vstd::prelude::*;
use vstd::utf8::*;

use crate::path;
use crate::path::{bytes_of, join};

verus! {

/// The directory that everything is kept in.
pub open spec fn base_of(named: Option<Seq<u8>>, home: Option<Seq<u8>>) -> Seq<u8> {
    match named {
        Some(d) => d,
        None => path::joined(home->0, encode_utf8(".backchannel"@)),
    }
}

/// The directory that everything is kept in: the one that `$BACKCHANNEL_DIR`
/// names, else `.backchannel` in the home directory, which must be known.
pub fn base_dir(named: &Option<Vec<u8>>, home: &Option<Vec<u8>>) -> (r: Vec<u8>)
    requires
        named is Some || home is Some,
    ensures
        r@ == base_of(path::maybe(*named), path::maybe(*home)),
{
    if let Some(d) = named {
        return bytes_of(d.as_slice());
    }
    match home {
        Some(h) => join(h.as_slice(), ".backchannel".as_bytes()),
        None => Vec::new(),
    }
}

/// The socket that the daemon listens on.
pub open spec fn socket_in(base: Seq<u8>) -> Seq<u8> {
    path::joined(base, encode_utf8("agent.sock"@))
}

/// The socket that the daemon listens on.
pub fn socket_path(base: &[u8]) -> (r: Vec<u8>)
    ensures
        r@ == socket_in(base@),
{
    join(base, "agent.sock".as_bytes())
}

/// The daemon's log.
pub open spec fn log_in(base: Seq<u8>) -> Seq<u8> {
    path::joined(base, encode_utf8("daemon.log"@))
}

/// The daemon's log.
pub fn log_path(base: &[u8]) -> (r: Vec<u8>)
    ensures
        r@ == log_in(base@),
{
    join(base, "daemon.log".as_bytes())
}

/// The aliases file.
pub open spec fn aliases_in(base: Seq<u8>) -> Seq<u8> {
    path::joined(base, encode_utf8("aliases"@))
}

/// Optional fallback map for hosts whose ssh alias can't be recovered from
/// the connecting ssh process. Lines of `<hostname> <alias>`, `#` comments.
pub fn aliases_path(base: &[u8]) -> (r: Vec<u8>)
    ensures
        r@ == aliases_in(base@),
{
    join(base, "aliases".as_bytes())
}

proof fn lemma_entry(base: Seq<u8>, name: Seq<char>)
    requires
        base.len() > 0,
        base.last() != path::SLASH,
        is_ascii_chars(name),
        name.len() > 0,
        name[0] != '/',
    ensures
        path::joined(base, encode_utf8(name)) == base + encode_utf8(seq!['/'] + name),
{
    let slash = seq!['/'];
    is_ascii_chars_encode_utf8(name);
    assert(is_ascii_chars(slash));
    is_ascii_chars_encode_utf8(slash);
    crate::uri::lemma_encode_concat(slash, name);
    assert(encode_utf8(slash) =~= seq![path::SLASH]);
    let n = encode_utf8(name);
    assert(n[0] == name[0] as u8);
    assert(base.push(path::SLASH) + n =~= base + (seq![path::SLASH] + n));
}

/// Everything is kept in the directory that was named, and without one in a
/// directory of its own in the home directory.
pub proof fn law_base(named: Seq<u8>, home: Seq<u8>, any: Option<Seq<u8>>)
    requires
        home.len() > 0,
        home.last() != path::SLASH,
    ensures
        base_of(Some(named), any) == named,
        base_of(None, Some(home)) == home + encode_utf8("/.backchannel"@),
{
    reveal_strlit(".backchannel");
    reveal_strlit("/.backchannel");
    lemma_entry(home, ".backchannel"@);
    assert("/.backchannel"@ =~= seq!['/'] + ".backchannel"@);
}

/// The socket, the log and the aliases file are entries of that directory, each
/// under a name of its own.
pub proof fn law_entries(base: Seq<u8>)
    requires
        base.len() > 0,
        base.last() != path::SLASH,
    ensures
        socket_in(base) == base + encode_utf8("/agent.sock"@),
        log_in(base) == base + encode_utf8("/daemon.log"@),
        aliases_in(base) == base + encode_utf8("/aliases"@),
{
    reveal_strlit("agent.sock");
    reveal_strlit("/agent.sock");
    reveal_strlit("daemon.log");
    reveal_strlit("/daemon.log");
    reveal_strlit("aliases");
    reveal_strlit("/aliases");
    lemma_entry(base, "agent.sock"@);
    lemma_entry(base, "daemon.log"@);
    lemma_entry(base, "aliases"@);
    assert("/agent.sock"@ =~= seq!['/'] + "agent.sock"@);
    assert("/daemon.log"@ =~= seq!['/'] + "daemon.log"@);
    assert("/aliases"@ =~= seq!['/'] + "aliases"@);
}

}
