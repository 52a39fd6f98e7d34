//! The daemon's tunnels: ssh processes that carry a local port to the same
//! port of a remote host.

use vstd::prelude::*;

use crate::messages;
use crate::messages::{tunnels_reply, TunnelEntry, TunnelEntryView};
use crate::proto;
use crate::proto::{extension_failure, put_str, success_frame, Cursor};
use crate::text;
use crate::text::{decimal_text, same};

verus! {

/// The tunnel that holds a local port.
pub open spec fn holder(es: Seq<TunnelEntryView>, port: u16) -> Option<TunnelEntryView>
    decreases es.len(),
{
    if es.len() == 0 {
        None
    } else if es.last().local_port == port {
        Some(es.last())
    } else {
        holder(es.drop_last(), port)
    }
}

/// The tunnels that do not hold a local port, in their order.
pub open spec fn without(es: Seq<TunnelEntryView>, port: u16) -> Seq<TunnelEntryView>
    decreases es.len(),
{
    if es.len() == 0 {
        Seq::empty()
    } else if es.last().local_port == port {
        without(es.drop_last(), port)
    } else {
        without(es.drop_last(), port).push(es.last())
    }
}

/// The tunnels with one more, in the place of whatever held its port.
pub open spec fn with_put(es: Seq<TunnelEntryView>, e: TunnelEntryView) -> Seq<TunnelEntryView> {
    without(es, e.local_port).push(e)
}

/// No two tunnels hold the same local port.
pub open spec fn distinct(es: Seq<TunnelEntryView>) -> bool {
    forall|i: int, j: int|
        0 <= i < j < es.len() ==> (#[trigger] es[i]).local_port != (#[trigger] es[j]).local_port
}

/// What a request for a tunnel takes.
#[derive(Debug, Clone, Copy, PartialEq, Eq, Structural)]
pub enum TunnelStep {
    /// The tunnel is there already.
    Reuse,
    /// The process with this pid holds the port for someone else: end it
    /// first.
    Replace { pid: u32 },
    /// Start one.
    Start,
}

/// What a request for a tunnel takes.
pub open spec fn step_for(es: Seq<TunnelEntryView>, alias: Seq<char>, port: u16) -> TunnelStep {
    match holder(es, port) {
        None => TunnelStep::Start,
        Some(e) => if e.alias == alias && e.remote_port == port {
            TunnelStep::Reuse
        } else {
            TunnelStep::Replace { pid: e.pid }
        },
    }
}

/// The tunnels there are.
pub struct TunnelTable {
    entries: Vec<TunnelEntry>,
}

impl View for TunnelTable {
    type V = Seq<TunnelEntryView>;

    closed spec fn view(&self) -> Seq<TunnelEntryView> {
        messages::entries_of(self.entries@)
    }
}

/// What holds of the port's tunnel, by its position.
proof fn lemma_holder_at(es: Seq<TunnelEntryView>, port: u16, i: int)
    requires
        distinct(es),
        0 <= i < es.len(),
        es[i].local_port == port,
    ensures
        holder(es, port) == Some(es[i]),
        without(es, port) == es.remove(i),
    decreases es.len(),
{
    let init = es.drop_last();
    assert(forall|k: int| 0 <= k < init.len() ==> init[k] == es[k]);
    if i == es.len() - 1 {
        assert forall|k: int| 0 <= k < init.len() implies (#[trigger] init[k]).local_port != port by {
            assert(init[k] == es[k]);
        }
        lemma_without_absent(init, port);
        assert(es.remove(i) =~= init);
    } else {
        assert(es[es.len() - 1].local_port != port);
        lemma_holder_at(init, port, i);
        assert(es.remove(i) =~= init.remove(i).push(es.last()));
    }
}

/// A port that no tunnel holds.
proof fn lemma_without_absent(es: Seq<TunnelEntryView>, port: u16)
    requires
        forall|k: int| 0 <= k < es.len() ==> (#[trigger] es[k]).local_port != port,
    ensures
        holder(es, port) is None,
        without(es, port) == es,
    decreases es.len(),
{
    if es.len() > 0 {
        let init = es.drop_last();
        assert forall|k: int| 0 <= k < init.len() implies (#[trigger] init[k]).local_port != port by {
            assert(init[k] == es[k]);
        }
        lemma_without_absent(init, port);
        assert(es[es.len() - 1].local_port != port);
        assert(init.push(es.last()) =~= es);
    } else {
        assert(es =~= Seq::empty());
    }
}

/// Where a port was taken out, nothing holds it, everything else stays, and
/// ports stay distinct.
pub proof fn law_without(es: Seq<TunnelEntryView>, port: u16)
    requires
        distinct(es),
    ensures
        distinct(without(es, port)),
        holder(without(es, port), port) is None,
        forall|k: int|
            0 <= k < without(es, port).len() ==> (#[trigger] without(es, port)[k]).local_port
                != port,
        forall|p: u16| p != port ==> #[trigger] holder(without(es, port), p) == holder(es, p),
    decreases es.len(),
{
    if es.len() > 0 {
        let init = es.drop_last();
        assert(forall|k: int| 0 <= k < init.len() ==> init[k] == es[k]);
        law_without(init, port);
        let rest = without(init, port);
        let out = without(es, port);
        if es.last().local_port != port {
            assert forall|k: int| 0 <= k < rest.len() implies (#[trigger] rest[k]).local_port
                != es.last().local_port by {
                lemma_without_member(init, port, k);
                let m = choose|m: int|
                    #![trigger init[m]]
                    0 <= m < init.len() && init[m] == rest[k];
                assert(es[m].local_port != es[es.len() - 1].local_port);
            }
            assert(out.drop_last() =~= rest);
            assert forall|i: int, j: int| 0 <= i < j < out.len() implies (
            #[trigger] out[i]).local_port != (#[trigger] out[j]).local_port by {
                assert(out[i] == rest[i]);
                if j < rest.len() {
                    assert(out[j] == rest[j]);
                }
            }
            assert forall|k: int| 0 <= k < out.len() implies (#[trigger] out[k]).local_port
                != port by {
                if k < rest.len() {
                    assert(out[k] == rest[k]);
                }
            }
            assert forall|p: u16| p != port implies #[trigger] holder(out, p) == holder(
                es,
                p,
            ) by {
                assert(holder(rest, p) == holder(init, p));
            }
            assert(holder(out, port) == holder(rest, port));
        } else {
            assert forall|p: u16| p != port implies #[trigger] holder(out, p) == holder(
                es,
                p,
            ) by {
                assert(holder(rest, p) == holder(init, p));
            }
        }
    }
}

/// What is left was there before.
proof fn lemma_without_member(es: Seq<TunnelEntryView>, port: u16, k: int)
    requires
        0 <= k < without(es, port).len(),
    ensures
        exists|m: int| #![trigger es[m]] 0 <= m < es.len() && es[m] == without(es, port)[k],
    decreases es.len(),
{
    let init = es.drop_last();
    let rest = without(init, port);
    if k < rest.len() {
        lemma_without_member(init, port, k);
        let m = choose|m: int| #![trigger init[m]] 0 <= m < init.len() && init[m] == rest[k];
        assert(es[m] == without(es, port)[k]);
    } else {
        assert(es[es.len() - 1] == without(es, port)[k]);
    }
}

/// There are no more tunnels than ports.
pub proof fn law_one_tunnel_for_a_port(es: Seq<TunnelEntryView>)
    requires
        distinct(es),
    ensures
        es.len() <= 0x1_0000,
{
    let ports = es.map_values(|e: TunnelEntryView| e.local_port as int);
    let all = vstd::set_lib::set_int_range(0, 0x1_0000);
    assert(ports.no_duplicates());
    ports.unique_seq_to_set();
    assert(ports.to_set().subset_of(all)) by {
        assert forall|p: int| ports.to_set().contains(p) implies all.contains(p) by {
            let i = choose|i: int| 0 <= i < ports.len() && ports[i] == p;
            assert(ports[i] == es[i].local_port);
        }
    }
    vstd::set_lib::lemma_int_range(0, 0x1_0000);
    vstd::set_lib::lemma_len_subset(ports.to_set(), all);
}

impl TunnelTable {
    #[verifier::type_invariant]
    spec fn wf(self) -> bool {
        distinct(messages::entries_of(self.entries@))
    }

    /// No tunnels.
    pub fn new() -> (r: TunnelTable)
        ensures
            r@ == Seq::<TunnelEntryView>::empty(),
    {
        let entries: Vec<TunnelEntry> = Vec::new();
        assert(messages::entries_of(entries@) =~= Seq::empty());
        TunnelTable { entries }
    }

    /// The tunnels there are; no two hold the same local port.
    pub fn entries(&self) -> (r: &Vec<TunnelEntry>)
        ensures
            messages::entries_of(r@) == self@,
            distinct(self@),
    {
        proof {
            use_type_invariant(self);
        }
        &self.entries
    }

    /// The reply that lists the tunnels there are.
    pub fn reply(&self) -> (r: Vec<u8>)
        ensures
            r@ == messages::tunnels_msg(self@),
    {
        proof {
            use_type_invariant(self);
            law_one_tunnel_for_a_port(self@);
        }
        assert(self@.len() == self.entries@.len());
        tunnels_reply(self.entries.as_slice())
    }

    /// The position of the tunnel that holds a port.
    fn position(&self, port: u16) -> (r: Option<usize>)
        ensures
            match r {
                Some(i) => i < self@.len() && self@[i as int].local_port == port && holder(
                    self@,
                    port,
                ) == Some(self@[i as int]) && without(self@, port) == self@.remove(i as int),
                None => holder(self@, port) is None && without(self@, port) == self@,
            },
    {
        proof {
            use_type_invariant(self);
        }
        let n: usize = self.entries.len();
        let ghost es = self@;
        let mut i: usize = 0;
        while i < n
            invariant
                i <= n == self.entries@.len(),
                es == messages::entries_of(self.entries@),
                distinct(es),
                es == self@,
                forall|k: int| 0 <= k < i ==> (#[trigger] es[k]).local_port != port,
            decreases n - i,
        {
            assert(es[i as int] == self.entries@[i as int]@);
            if self.entries[i].local_port == port {
                proof {
                    lemma_holder_at(es, port, i as int);
                }
                return Some(i);
            }
            i += 1;
        }
        proof {
            lemma_without_absent(es, port);
        }
        None
    }

    /// What a request for a tunnel takes: the same target is reused, another
    /// host's tunnel on the same port is torn down.
    pub fn plan(&self, alias: &str, port: u16) -> (r: TunnelStep)
        ensures
            r == step_for(self@, alias@, port),
    {
        match self.position(port) {
            None => TunnelStep::Start,
            Some(i) => {
                let e = &self.entries[i];
                assert(self@[i as int] == e@);
                if same(e.alias.as_str(), alias) && e.remote_port == port {
                    TunnelStep::Reuse
                } else {
                    TunnelStep::Replace { pid: e.pid }
                }
            },
        }
    }

    /// Takes the tunnel that holds a port out of the table.
    pub fn stop(&mut self, port: u16) -> (r: Option<TunnelEntry>)
        ensures
            final(self)@ == without(old(self)@, port),
            match holder(old(self)@, port) {
                None => r is None,
                Some(e) => r is Some && r->0@ == e,
            },
    {
        proof {
            use_type_invariant(&*self);
        }
        match self.position(port) {
            None => None,
            Some(i) => {
                let ghost before = self.entries@;
                let mut entries: Vec<TunnelEntry> = Vec::new();
                assert(messages::entries_of(entries@) =~= Seq::empty());
                std::mem::swap(&mut entries, &mut self.entries);
                let e = entries.remove(i);
                proof {
                    assert(messages::entries_of(entries@) =~= messages::entries_of(before).remove(
                        i as int,
                    ));
                    law_without(messages::entries_of(before), port);
                }
                self.entries = entries;
                Some(e)
            },
        }
    }

    /// Takes every tunnel out of the table.
    pub fn stop_all(&mut self) -> (r: Vec<TunnelEntry>)
        ensures
            messages::entries_of(r@) == old(self)@,
            final(self)@ == Seq::<TunnelEntryView>::empty(),
    {
        let mut entries: Vec<TunnelEntry> = Vec::new();
        assert(messages::entries_of(entries@) =~= Seq::empty());
        std::mem::swap(&mut entries, &mut self.entries);
        entries
    }

    /// Adds a tunnel in the place of whatever held its port.
    pub fn put(&mut self, entry: TunnelEntry)
        ensures
            final(self)@ == with_put(old(self)@, entry@),
    {
        broadcast use messages::lemma_entries_push;

        proof {
            use_type_invariant(&*self);
            law_without(self@, entry.local_port);
        }
        let _ = self.stop(entry.local_port);
        let mut entries: Vec<TunnelEntry> = Vec::new();
        assert(messages::entries_of(entries@) =~= Seq::empty());
        std::mem::swap(&mut entries, &mut self.entries);
        entries.push(entry);
        self.entries = entries;
    }
}

/// A tunnel that was put in place is found there and reused, and every other
/// port is held as before.
pub proof fn law_put_is_reused(es: Seq<TunnelEntryView>, e: TunnelEntryView)
    requires
        distinct(es),
        e.remote_port == e.local_port,
    ensures
        distinct(with_put(es, e)),
        holder(with_put(es, e), e.local_port) == Some(e),
        step_for(with_put(es, e), e.alias, e.local_port) == TunnelStep::Reuse,
        forall|p: u16| p != e.local_port ==> #[trigger] holder(with_put(es, e), p) == holder(es, p),
{
    let rest = without(es, e.local_port);
    let out = rest.push(e);
    law_without(es, e.local_port);
    assert(out.drop_last() =~= rest);
    assert forall|i: int, j: int| 0 <= i < j < out.len() implies (#[trigger] out[i]).local_port != (
    #[trigger] out[j]).local_port by {
        assert(out[i] == rest[i]);
        if j < rest.len() {
            assert(out[j] == rest[j]);
        }
    }
    assert forall|p: u16| p != e.local_port implies #[trigger] holder(out, p) == holder(es, p) by {
        assert(holder(rest, p) == holder(es, p));
    }
}

// ---- requests to stop ----

/// What a request to stop tunnels is answered, with the port it names (0 for
/// all) and the tunnels there are.
pub open spec fn stop_reply(es: Seq<TunnelEntryView>, port: u32) -> Seq<u8> {
    if port == 0 {
        seq![proto::SSH_AGENT_SUCCESS] + proto::wire_str(
            "stopped "@ + text::decimal(es.len()) + " tunnel(s)"@,
        )
    } else if port < 0x1_0000 && holder(es, port as u16) is Some {
        seq![proto::SSH_AGENT_SUCCESS] + proto::wire_str(
            "stopped tunnel on local port "@ + text::decimal(port as nat),
        )
    } else {
        proto::extension_failure_msg("no tunnel on local port "@ + text::decimal(port as nat))
    }
}

/// What is left after a request to stop tunnels.
pub open spec fn after_stop(es: Seq<TunnelEntryView>, port: u32) -> Seq<TunnelEntryView> {
    if port == 0 {
        Seq::empty()
    } else if port < 0x1_0000 {
        without(es, port as u16)
    } else {
        es
    }
}

/// The tunnels that a request stops.
pub open spec fn stopped_by(es: Seq<TunnelEntryView>, port: u32) -> Seq<TunnelEntryView> {
    if port == 0 {
        es
    } else if port < 0x1_0000 && holder(es, port as u16) is Some {
        seq![holder(es, port as u16)->0]
    } else {
        Seq::empty()
    }
}

/// What a request to stop tunnels leaves, what it stops and what it is
/// answered.
pub open spec fn stop_served(es: Seq<TunnelEntryView>, data: Seq<u8>) -> (
    Seq<TunnelEntryView>,
    Seq<TunnelEntryView>,
    Seq<u8>,
) {
    match proto::take_u32(data) {
        None => (
            es,
            Seq::empty(),
            proto::extension_failure_msg(
                "decoding proxy-stop request: "@ + proto::ProtoErrorView::Truncated.message(),
            ),
        ),
        Some((port, _)) => (after_stop(es, port), stopped_by(es, port), stop_reply(es, port)),
    }
}

/// Serves a request to stop tunnels: the tunnels whose processes are to be
/// ended, and the reply.
pub fn handle_stop(table: &mut TunnelTable, data: &[u8]) -> (r: (Vec<TunnelEntry>, Vec<u8>))
    ensures
        final(table)@ == stop_served(old(table)@, data@).0,
        messages::entries_of(r.0@) == stop_served(old(table)@, data@).1,
        r.1@ == stop_served(old(table)@, data@).2,
{
    broadcast use messages::lemma_entries_push;

    let mut stopped: Vec<TunnelEntry> = Vec::new();
    assert(messages::entries_of(stopped@) =~= Seq::empty());
    let mut c = Cursor::new(data);
    let port: u32 = match c.u32() {
        Ok(p) => p,
        Err(e) => {
            let reason = "decoding proxy-stop request: ".to_owned().concat(e.message().as_str());
            return (stopped, extension_failure(reason.as_str()));
        },
    };
    if port == 0 {
        let all = table.stop_all();
        assert(messages::entries_of(all@).len() == all@.len());
        let said = "stopped ".to_owned().concat(decimal_text(all.len() as u64).as_str()).concat(
            " tunnel(s)",
        );
        let mut reply = success_frame();
        put_str(&mut reply, said.as_str());
        return (all, reply);
    }
    if port < 0x1_0000 {
        if let Some(e) = table.stop(port as u16) {
            stopped.push(e);
            assert(messages::entries_of(stopped@) =~= seq![e@]);
            let said = "stopped tunnel on local port ".to_owned().concat(
                decimal_text(port as u64).as_str(),
            );
            let mut reply = success_frame();
            put_str(&mut reply, said.as_str());
            return (stopped, reply);
        }
    }
    let reason = "no tunnel on local port ".to_owned().concat(decimal_text(port as u64).as_str());
    (stopped, extension_failure(reason.as_str()))
}

/// The arguments of the ssh process that carries a port.
pub open spec fn carrier_args(alias: Seq<char>, port: u16) -> Seq<Seq<char>> {
    seq![
        "-N"@,
        "-L"@,
        text::decimal(port as nat) + ":127.0.0.1:"@ + text::decimal(port as nat),
        alias,
    ]
}

/// The arguments of the ssh process that carries a port.
pub fn tunnel_args(alias: &str, port: u16) -> (r: Vec<String>)
    ensures
        text::texts(r@) == carrier_args(alias@, port),
{
    broadcast use text::lemma_texts_push;

    let p = decimal_text(port as u64);
    let mut args: Vec<String> = Vec::new();
    assert(text::texts(args@) =~= Seq::empty());
    args.push("-N".to_owned());
    args.push("-L".to_owned());
    args.push(p.as_str().to_owned().concat(":127.0.0.1:").concat(p.as_str()));
    args.push(alias.to_owned());
    assert(text::texts(args@) =~= seq![
        "-N"@,
        "-L"@,
        text::decimal(port as nat) + ":127.0.0.1:"@ + text::decimal(port as nat),
        alias@,
    ]);
    args
}

// ---- a tunnel that comes up ----

/// How often a new tunnel is looked for before it is given up.
pub const TUNNEL_POLLS: u32 = 300;

/// The pause between two looks, in milliseconds.
pub const TUNNEL_POLL_MS: u64 = 50;

/// What to do about a tunnel that was started.
#[derive(Debug, Clone, PartialEq, Eq)]
pub enum TunnelWait {
    /// It is up.
    Up,
    /// Look again after a pause.
    Pause,
    /// It does not come up; its process is still to be ended, or not.
    Failed { error: String, kill: bool },
}

/// `TunnelWait` with its strings taken as characters.
pub enum TunnelWaitView {
    Up,
    Pause,
    Failed { error: Seq<char>, kill: bool },
}

impl View for TunnelWait {
    type V = TunnelWaitView;

    open spec fn view(&self) -> TunnelWaitView {
        match self {
            TunnelWait::Up => TunnelWaitView::Up,
            TunnelWait::Pause => TunnelWaitView::Pause,
            TunnelWait::Failed { error, kill } => TunnelWaitView::Failed {
                error: error@,
                kill: *kill,
            },
        }
    }
}

/// What to do about a tunnel to `alias` after `looks` looks in vain, when its
/// port now answers or not, and its process has exited with a status or not.
pub open spec fn tunnel_wait(
    alias: Seq<char>,
    looks: u32,
    answers: bool,
    exited: Option<Seq<char>>,
) -> TunnelWaitView {
    if answers {
        TunnelWaitView::Up
    } else {
        match exited {
            Some(status) => TunnelWaitView::Failed {
                error: "the tunnel to "@ + alias + " exited with "@ + status,
                kill: false,
            },
            None => if looks >= TUNNEL_POLLS {
                TunnelWaitView::Failed {
                    error: "the tunnel to "@ + alias + " did not come up"@,
                    kill: true,
                }
            } else {
                TunnelWaitView::Pause
            },
        }
    }
}

/// What to do about a tunnel that was started: it has a while to come up.
pub fn await_tunnel(alias: &str, looks: u32, answers: bool, exited: &Option<String>) -> (r:
    TunnelWait)
    ensures
        r@ == tunnel_wait(alias@, looks, answers, text::maybe(*exited)),
{
    if answers {
        return TunnelWait::Up;
    }
    match exited {
        Some(status) => TunnelWait::Failed {
            error: "the tunnel to ".to_owned().concat(alias).concat(" exited with ").concat(
                status.as_str(),
            ),
            kill: false,
        },
        None => if looks >= TUNNEL_POLLS {
            TunnelWait::Failed {
                error: "the tunnel to ".to_owned().concat(alias).concat(" did not come up"),
                kill: true,
            }
        } else {
            TunnelWait::Pause
        },
    }
}

// ---- what a table promises ----

/// A port is held by the tunnel that has it, and by none where none has it;
/// taking it out takes that tunnel out and keeps the others in their order.
pub proof fn law_holder(es: Seq<TunnelEntryView>, port: u16, i: int)
    requires
        distinct(es),
    ensures
        0 <= i < es.len() && es[i].local_port == port ==> holder(es, port) == Some(es[i])
            && without(es, port) == es.remove(i),
        (forall|k: int| 0 <= k < es.len() ==> (#[trigger] es[k]).local_port != port) ==> holder(
            es,
            port,
        ) is None && without(es, port) == es,
{
    if 0 <= i < es.len() && es[i].local_port == port {
        lemma_holder_at(es, port, i);
    }
    if forall|k: int| 0 <= k < es.len() ==> (#[trigger] es[k]).local_port != port {
        lemma_without_absent(es, port);
    }
}

/// A tunnel is reused exactly where the port already leads to the same port
/// of the same host; where it leads elsewhere its process is the one to end;
/// and a free port is simply taken.
pub proof fn law_steps(es: Seq<TunnelEntryView>, alias: Seq<char>, port: u16, i: int)
    requires
        distinct(es),
    ensures
        0 <= i < es.len() && es[i].local_port == port && es[i].alias == alias && es[i].remote_port
            == port ==> step_for(es, alias, port) == TunnelStep::Reuse,
        0 <= i < es.len() && es[i].local_port == port && (es[i].alias != alias || es[i].remote_port
            != port) ==> step_for(es, alias, port) == (TunnelStep::Replace { pid: es[i].pid }),
        (forall|k: int| 0 <= k < es.len() ==> (#[trigger] es[k]).local_port != port) ==> step_for(
            es,
            alias,
            port,
        ) == TunnelStep::Start,
{
    law_holder(es, port, i);
}

/// Port 0 stops every tunnel; a port that a tunnel holds stops that tunnel
/// and no other; any other port stops none, and the client is told so.
pub proof fn law_stops(es: Seq<TunnelEntryView>, port: u32, i: int)
    requires
        distinct(es),
    ensures
        stopped_by(es, 0) == es && after_stop(es, 0).len() == 0,
        crate::open::reply_result(stop_reply(es, 0)) is Ok,
        port > 0 && 0 <= i < es.len() && es[i].local_port == port ==> stopped_by(es, port) == seq![
            es[i],
        ] && after_stop(es, port) == es.remove(i) && crate::open::reply_result(stop_reply(es, port))
            is Ok,
        port > 0 && (forall|k: int| 0 <= k < es.len() ==> (#[trigger] es[k]).local_port != port)
            ==> stopped_by(es, port).len() == 0 && after_stop(es, port) == es
            && crate::open::reply_result(stop_reply(es, port)) is Err,
{
    if port < 0x1_0000 {
        let p = port as u16;
        law_holder(es, p, i);
        if forall|k: int| 0 <= k < es.len() ==> (#[trigger] es[k]).local_port != port {
            assert forall|k: int| 0 <= k < es.len() implies (#[trigger] es[k]).local_port
                != p by {}
        }
    }
}

/// The carrier runs no command, and joins the port here to the same port of
/// the host it is given, and of no other machine.
pub proof fn law_carrier(alias: Seq<char>, port: u16)
    ensures
        ({
            let args = carrier_args(alias, port);
            let p = text::decimal(port as nat);
            &&& args.len() == 4
            &&& args[0] == "-N"@
            &&& args[1] == "-L"@
            &&& args[3] == alias
            &&& text::starts_with(args[2], p + ":127.0.0.1:"@)
            &&& args[2].skip(args[2].len() - p.len()) == p
            &&& args[2].len() == 2 * p.len() + 11
        }),
{
    reveal_strlit(":127.0.0.1:");
    let p = text::decimal(port as nat);
    let joined = p + ":127.0.0.1:"@ + p;
    text::lemma_prefixed(p + ":127.0.0.1:"@, p);
    assert(joined.skip(joined.len() - p.len()) =~= p);
}

/// A tunnel is up as soon as its port answers; one whose process is gone has
/// failed with its status; and one that stays silent is looked for three
/// hundred times and then ended.
pub proof fn law_tunnel_awaited(
    alias: Seq<char>,
    looks: u32,
    status: Seq<char>,
    exited: Option<Seq<char>>,
)
    ensures
        tunnel_wait(alias, looks, true, exited) == TunnelWaitView::Up,
        tunnel_wait(alias, looks, false, Some(status)) matches TunnelWaitView::Failed { error, kill }
            && !kill && text::contains(error, alias) && text::contains(error, status),
        looks < 300 ==> tunnel_wait(alias, looks, false, None) == TunnelWaitView::Pause,
        looks >= 300 ==> (tunnel_wait(alias, looks, false, None) matches TunnelWaitView::Failed {
            error,
            kill,
        } && kill && text::contains(error, alias)),
{
    let e = "the tunnel to "@ + alias + " exited with "@ + status;
    let a = "the tunnel to "@.len() as int;
    assert(e.subrange(a, a + alias.len()) =~= alias);
    assert(text::stands_at(e, a, alias));
    let b = e.len() - status.len();
    assert(e.subrange(b, b + status.len()) =~= status);
    assert(text::stands_at(e, b, status));
    let silent = "the tunnel to "@ + alias + " did not come up"@;
    assert(silent.subrange(a, a + alias.len()) =~= alias);
    assert(text::stands_at(silent, a, alias));
}

/// A request to stop tunnels does what the port in it says, whatever follows
/// the port; one that is too short stops nothing and is refused.
pub proof fn law_stop_served(es: Seq<TunnelEntryView>, port: u32, rest: Seq<u8>, short: Seq<u8>)
    requires
        short.len() < 4,
    ensures
        stop_served(es, proto::be32(port) + rest) == (
            after_stop(es, port),
            stopped_by(es, port),
            stop_reply(es, port),
        ),
        stop_served(es, short).0 == es,
        stop_served(es, short).1.len() == 0,
        crate::open::reply_result(stop_served(es, short).2) is Err,
{
    proto::lemma_take_u32(port, rest);
}

}
