//! What holds of every fleet.

use crate::fleet;
use crate::fleet::FleetState;
use crate::fleet::RuntimeState;
use crate::fleet::Status;
use crate::sender;
use crate::sender::FrameCfg;
use crate::text;
use vstd::prelude::*;

verus! {

/// What a run prints, and that it ends, changes nothing once its agent was
/// launched again.
pub proof fn old_runs_are_ignored(
    s: FleetState,
    id: u64,
    pid: Option<u32>,
    started_at: Seq<char>,
    run: u64,
    is_stdout: bool,
    line: Seq<char>,
    killed: bool,
)
    requires
        s.wf(),
        s.runs < u64::MAX,
        run < s.runs,
    ensures
        ({
            let t = s.restarted(id, pid, started_at);
            t.heard(id, run, is_stdout, line) == t && t.ended(id, run, killed) == t
        }),
{
}

/// What a run prints, and that it ends, changes nothing once its agent was
/// deleted.
pub proof fn deleted_agents_are_ignored(
    s: FleetState,
    id: u64,
    run: u64,
    is_stdout: bool,
    line: Seq<char>,
    killed: bool,
)
    ensures
        ({
            let t = s.deleted(id);
            t.heard(id, run, is_stdout, line) == t && t.ended(id, run, killed) == t && t.stopped(id) == t
        }),
{
}

/// An agent that was stopped is not running and has nothing left to kill, so that
/// no process is killed twice.
pub proof fn stopping_is_final(s: FleetState, id: u64)
    requires
        s.agents.contains_key(id),
    ensures
        ({
            let t = s.stopped(id);
            &&& t.agents[id].rt.status == Status::Stopped
            &&& t.doomed(id) is None
            &&& t.stopped(id) == t
        }),
{
    let t = s.stopped(id);
    assert(t.stopped(id) =~= t);
}

/// Stopping an agent kills its process exactly while that is running.
pub proof fn stopping_kills_what_runs(s: FleetState, id: u64)
    requires
        s.wf(),
        s.agents.contains_key(id),
    ensures
        s.doomed(id) == (if s.agents[id].rt.status == Status::Running {
            Some(s.agents[id].rt.run)
        } else {
            None
        }),
{
}

/// When the current run of an agent ends, the agent is reported as stopped if it
/// was killed and as exited if not, without a process id and with nothing left to
/// kill.
pub proof fn the_end_is_reported(s: FleetState, id: u64, run: u64, killed: bool)
    requires
        s.current(id, run),
    ensures
        ({
            let t = s.ended(id, run, killed);
            let r = t.agents[id].report();
            &&& t.agents.contains_key(id)
            &&& r.status == (if killed {
                "stopped"@
            } else {
                "exited"@
            })
            &&& r.pid is None
            &&& t.doomed(id) is None
        }),
{
}

/// A stop, a launch or an event of one agent leaves every other agent as it is.
pub proof fn other_agents_are_untouched(
    s: FleetState,
    id: u64,
    other: u64,
    pid: Option<u32>,
    started_at: Seq<char>,
    cfg: fleet::CfgState,
    run: u64,
    is_stdout: bool,
    line: Seq<char>,
    killed: bool,
)
    requires
        id != other,
    ensures
        ({
            let same = |t: FleetState|
                t.agents.contains_key(other) == s.agents.contains_key(other) && t.agents[other] == s.agents[other];
            &&& same(s.adopted(id, cfg, pid, started_at))
            &&& same(s.restarted(id, pid, started_at))
            &&& same(s.stopped(id))
            &&& same(s.deleted(id))
            &&& same(s.heard(id, run, is_stdout, line))
            &&& same(s.ended(id, run, killed))
        }),
{
}

/// An agent that was launched again streams as before, and its log starts empty.
pub proof fn restart_keeps_the_configuration(s: FleetState, id: u64, pid: Option<u32>, started_at: Seq<char>)
    requires
        s.agents.contains_key(id),
    ensures
        ({
            let a = s.restarted(id, pid, started_at).agents[id];
            &&& a.id == s.agents[id].id
            &&& a.cfg == s.agents[id].cfg
            &&& a.started_at == started_at
            &&& a.rt == RuntimeState::launched(s.runs, pid)
            &&& a.rt.status == Status::Running
        }),
{
}

/// The log holds the last lines that the process printed: hearing one more line
/// drops at most the oldest.
pub proof fn log_keeps_the_newest(rt: RuntimeState, is_stdout: bool, line: Seq<char>)
    requires
        rt.wf(),
    ensures
        ({
            let logs = rt.heard(is_stdout, line).logs;
            &&& logs.len() == (if rt.logs.len() < fleet::LOG_CAP {
                rt.logs.len() + 1
            } else {
                fleet::LOG_CAP as nat
            })
            &&& logs.last() == line
            &&& logs.drop_last() == (if rt.logs.len() < fleet::LOG_CAP {
                rt.logs
            } else {
                rt.logs.skip(1)
            })
        }),
{
    let logs = rt.heard(is_stdout, line).logs;
    let all = rt.logs.push(line);
    if rt.logs.len() < fleet::LOG_CAP {
        assert(logs.drop_last() =~= rt.logs);
    } else {
        assert(logs =~= all.skip(1));
        assert(logs.drop_last() =~= rt.logs.skip(1));
    }
}

/// The fleet after `n` ids were taken.
pub open spec fn after_reservations(s: FleetState, n: nat) -> FleetState
    decreases n,
{
    if n == 0 {
        s
    } else {
        after_reservations(s, (n - 1) as nat).reserved()
    }
}

/// Ids count up from the first one, and none is given out twice before all have
/// been.
pub proof fn ids_are_fresh(s: FleetState, n: nat)
    ensures
        after_reservations(s, n).next_id == (s.next_id + n) % 0x1_0000_0000_0000_0000,
        0 < n < 0x1_0000_0000_0000_0000 ==> after_reservations(s, n).next_id != s.next_id,
        after_reservations(s, n).agents == s.agents,
    decreases n,
{
    if n > 0 {
        ids_are_fresh(s, (n - 1) as nat);
    }
}

/// A request without the token never passes where one is asked for, and every
/// request passes where none is.
pub proof fn token_is_asked_for(token: Seq<char>, header: Seq<char>, given: Option<Seq<char>>)
    ensures
        fleet::admitted(None, given),
        !fleet::admitted(Some(token), None),
        fleet::admitted(Some(token), Some("Bearer "@ + token)),
        fleet::admitted(Some(token), Some("Bearer "@ + header)) ==> header == token,
{
    let a = "Bearer "@ + header;
    let b = "Bearer "@ + token;
    if a == b {
        let n = "Bearer "@.len() as int;
        assert(a.skip(n) =~= header);
        assert(b.skip(n) =~= token);
    }
}

/// Whether the mark of a node id stands nowhere in `s`.
pub open spec fn unmarked(s: Seq<char>) -> bool {
    forall|i: int| !#[trigger] text::stands_at(s, fleet::NODE_ID_MARK@, i)
}

/// No character of `s` is an `n`, with which the mark starts.
spec fn without_n(s: Seq<char>) -> bool {
    forall|i: int| 0 <= i < s.len() ==> s[i] != 'n'
}

proof fn lemma_mark()
    ensures
        fleet::NODE_ID_MARK@ == seq!['n', 'o', 'd', 'e', ' ', 'i', 'd', ':'],
{
    reveal_strlit("node id:");
    assert(fleet::NODE_ID_MARK@ =~= seq!['n', 'o', 'd', 'e', ' ', 'i', 'd', ':']);
}

/// Where a pattern stands nowhere, it is not found.
proof fn lemma_not_found(s: Seq<char>, pat: Seq<char>, from: int)
    requires
        forall|i: int| from <= i ==> !#[trigger] text::stands_at(s, pat, i),
    ensures
        text::find_from(s, pat, from) is None,
    decreases s.len() - from + 1,
{
    if from + pat.len() <= s.len() {
        assert(!text::stands_at(s, pat, from));
        lemma_not_found(s, pat, from + 1);
    }
}

/// An unmarked line announces nothing.
proof fn lemma_unmarked(line: Seq<char>)
    requires
        unmarked(line),
    ensures
        fleet::announced(line) is None,
{
    lemma_not_found(line, fleet::NODE_ID_MARK@, 0);
}

/// The mark does not start inside a part without `n`.
proof fn lemma_prefix(a: Seq<char>, b: Seq<char>)
    requires
        without_n(a),
        unmarked(b),
    ensures
        unmarked(a + b),
{
    let s = a + b;
    let mark = fleet::NODE_ID_MARK@;
    lemma_mark();
    assert forall|i: int| !#[trigger] text::stands_at(s, mark, i) by {
        if text::stands_at(s, mark, i) {
            let part = s.subrange(i, i + mark.len());
            assert(part[0] == 'n');
            if i < a.len() {
                assert(s[i] == a[i]);
            } else {
                assert(b.subrange(i - a.len(), i - a.len() + mark.len()) =~= part);
                assert(text::stands_at(b, mark, i - a.len()));
            }
        }
    }
}

/// A text without `n` is unmarked.
proof fn lemma_plain(a: Seq<char>)
    requires
        without_n(a),
    ensures
        unmarked(a),
{
    let none = Seq::<char>::empty();
    lemma_mark();
    assert(unmarked(none));
    lemma_prefix(a, none);
    assert(a + none =~= a);
}

proof fn lemma_digits(n: nat)
    ensures
        without_n(text::decimal(n)),
{
    text::lemma_digits(n);
}

/// The line with the node id announces it.
pub proof fn node_id_line_announces(id: Seq<char>)
    requires
        unmarked(id),
    ensures
        fleet::announced(sender::node_id_line(id)) == Some(text::trimmed(id)),
{
    let line = sender::node_id_line(id);
    let mark = fleet::NODE_ID_MARK@;
    lemma_mark();
    reveal_strlit("  node id: ");
    let lead = "  node id: "@;
    assert(lead =~= seq![' ', ' ', 'n', 'o', 'd', 'e', ' ', 'i', 'd', ':', ' ']);
    assert(line.subrange(2, 10) =~= mark);
    assert(text::stands_at(line, mark, 2));
    assert(line.subrange(0, 8)[0] == ' ' && line.subrange(1, 9)[0] == ' ');
    assert(!text::stands_at(line, mark, 0) && !text::stands_at(line, mark, 1));
    reveal_with_fuel(text::find_from, 3);
    assert(text::find_from(line, mark, 0) == Some(2int));
    let rest = seq![' '] + id;
    lemma_prefix(seq![' '], id);
    assert forall|i: int| 10 <= i implies !#[trigger] text::stands_at(line, mark, i) by {
        if text::stands_at(line, mark, i) {
            assert(rest.subrange(i - 10, i - 10 + mark.len()) =~= line.subrange(i, i + mark.len()));
            assert(text::stands_at(rest, mark, i - 10));
        }
    }
    lemma_not_found(line, mark, 10);
    assert(line.subrange(10, line.len() as int) =~= rest);
    assert(rest.drop_first() =~= id);
    assert(text::trim_start(rest) == text::trim_start(id));
}

/// The state of a process after it printed lines on its standard output.
pub open spec fn after_lines(rt: RuntimeState, lines: Seq<Seq<char>>) -> RuntimeState
    decreases lines.len(),
{
    if lines.len() == 0 {
        rt
    } else {
        after_lines(rt, lines.drop_last()).heard(true, lines.last())
    }
}

/// Of lines that announce nothing but for line `k`, what line `k` announces stays.
proof fn lemma_after(rt: RuntimeState, lines: Seq<Seq<char>>, k: int, id: Seq<char>)
    requires
        0 <= k < lines.len(),
        fleet::announced(lines[k]) == Some(id),
        forall|i: int| k < i < lines.len() ==> fleet::announced(#[trigger] lines[i]) is None,
    ensures
        after_lines(rt, lines).node_id == Some(id),
    decreases lines.len(),
{
    if k < lines.len() - 1 {
        assert(lines.drop_last()[k] == lines[k]);
        assert forall|i: int| k < i < lines.len() - 1 implies fleet::announced(
            #[trigger] lines.drop_last()[i],
        ) is None by {
            assert(lines.drop_last()[i] == lines[i]);
        }
        lemma_after(rt, lines.drop_last(), k, id);
        assert(fleet::announced(lines[lines.len() - 1]) is None);
    }
}

proof fn lemma_source_line(cfg: FrameCfg)
    ensures
        unmarked(sender::source_line(cfg)),
{
    reveal_strlit("  source : ");
    reveal_strlit("x");
    reveal_strlit(" @ ");
    reveal_strlit("fps, jpeg q");
    lemma_digits(cfg.width as nat);
    lemma_digits(cfg.height as nat);
    lemma_digits(cfg.fps as nat);
    lemma_digits(cfg.quality as nat);
    assert("  source : "@ =~= seq![' ', ' ', 's', 'o', 'u', 'r', 'c', 'e', ' ', ':', ' ']);
    assert("fps, jpeg q"@ =~= seq!['f', 'p', 's', ',', ' ', 'j', 'p', 'e', 'g', ' ', 'q']);
    assert(" @ "@ =~= seq![' ', '@', ' ']);
    assert("x"@ =~= seq!['x']);
    let line = sender::source_line(cfg);
    assert(without_n(line));
    lemma_plain(line);
}

proof fn lemma_fixed_lines()
    ensures
        unmarked(""@),
        unmarked("Start a receiver with:"@),
        without_n("    viroh-receiver "@),
        unmarked("Waiting for receivers (Ctrl-C to quit)..."@),
{
    reveal_strlit("");
    reveal_strlit("Start a receiver with:");
    reveal_strlit("    viroh-receiver ");
    reveal_strlit("Waiting for receivers (Ctrl-C to quit)...");
    lemma_mark();
    lemma_plain(""@);
    assert("Start a receiver with:"@ =~= seq![
        'S', 't', 'a', 'r', 't', ' ', 'a', ' ', 'r', 'e', 'c', 'e', 'i', 'v', 'e', 'r', ' ', 'w', 'i', 't', 'h', ':',
    ]);
    lemma_plain("Start a receiver with:"@);
    assert("    viroh-receiver "@ =~= seq![
        ' ', ' ', ' ', ' ', 'v', 'i', 'r', 'o', 'h', '-', 'r', 'e', 'c', 'e', 'i', 'v', 'e', 'r', ' ',
    ]);
    let head = seq!['W', 'a', 'i', 't', 'i'];
    let tail = seq![
        'g', ' ', 'f', 'o', 'r', ' ', 'r', 'e', 'c', 'e', 'i', 'v', 'e', 'r', 's', ' ', '(', 'C', 't', 'r', 'l', '-',
        'C', ' ', 't', 'o', ' ', 'q', 'u', 'i', 't', ')', '.', '.', '.',
    ];
    let n = seq!['n'];
    assert("Waiting for receivers (Ctrl-C to quit)..."@ =~= head + (n + tail));
    lemma_plain(tail);
    let mark = fleet::NODE_ID_MARK@;
    assert forall|i: int| !#[trigger] text::stands_at(n + tail, mark, i) by {
        if text::stands_at(n + tail, mark, i) {
            let part = (n + tail).subrange(i, i + mark.len());
            assert(part[0] == 'n' && part[1] == 'o');
            if i > 0 {
                assert(tail.subrange(i - 1, i - 1 + mark.len()) =~= part);
                assert(text::stands_at(tail, mark, i - 1));
            }
        }
    }
    lemma_prefix(head, n + tail);
}

proof fn lemma_relay_line(relay_url: Option<Seq<char>>)
    requires
        relay_url matches Some(url) ==> unmarked(url),
    ensures
        unmarked(sender::relay_line(relay_url)),
{
    let mark = fleet::NODE_ID_MARK@;
    lemma_mark();
    match relay_url {
        None => {
            reveal_strlit("  relay  : n0 default");
            let head = seq![' ', ' ', 'r', 'e', 'l', 'a', 'y', ' ', ' ', ':', ' '];
            let tail = seq!['n', '0', ' ', 'd', 'e', 'f', 'a', 'u', 'l', 't'];
            assert("  relay  : n0 default"@ =~= head + tail);
            assert forall|i: int| !#[trigger] text::stands_at(tail, mark, i) by {
                if text::stands_at(tail, mark, i) {
                    let part = tail.subrange(i, i + mark.len());
                    assert(part[0] == 'n' && part[1] == 'o');
                }
            }
            lemma_prefix(head, tail);
        },
        Some(url) => {
            reveal_strlit("  relay  : ");
            reveal_strlit(" (custom)");
            let head = "  relay  : "@;
            let end = " (custom)"@;
            assert(head =~= seq![' ', ' ', 'r', 'e', 'l', 'a', 'y', ' ', ' ', ':', ' ']);
            assert(end =~= seq![' ', '(', 'c', 'u', 's', 't', 'o', 'm', ')']);
            let s = url + end;
            assert forall|i: int| !#[trigger] text::stands_at(s, mark, i) by {
                if text::stands_at(s, mark, i) {
                    let part = s.subrange(i, i + mark.len());
                    let k = url.len() - i;
                    assert(part[0] == s[i] && part[0] == 'n');
                    if k <= 0 {
                        assert(s[i] == end[i - url.len()]);
                    } else if k < mark.len() {
                        assert(part[k] == s[i + k] && s[i + k] == end[0]);
                        assert(k == 4);
                        assert(part[5] == s[i + 5] && s[i + 5] == end[1]);
                    } else {
                        assert(url.subrange(i, i + mark.len()) =~= part);
                        assert(text::stands_at(url, mark, i));
                    }
                }
            }
            lemma_prefix(head, s);
            assert(head + s =~= sender::relay_line(relay_url));
        },
    }
}

/// A fleet that hears what a sender prints when it is ready learns its node id,
/// whatever the agent is called.
pub proof fn banner_announces_the_node_id(
    rt: RuntimeState,
    name: Seq<char>,
    id: Seq<char>,
    cfg: FrameCfg,
    relay_url: Option<Seq<char>>,
)
    requires
        unmarked(id),
        relay_url matches Some(url) ==> unmarked(url),
    ensures
        after_lines(rt, sender::banner_text(name, id, cfg, relay_url)).node_id == Some(text::trimmed(id)),
{
    let lines = sender::banner_text(name, id, cfg, relay_url);
    node_id_line_announces(id);
    lemma_source_line(cfg);
    lemma_relay_line(relay_url);
    lemma_fixed_lines();
    lemma_prefix("    viroh-receiver "@, id);
    assert forall|i: int| 2 < i < lines.len() implies fleet::announced(#[trigger] lines[i]) is None by {
        assert(unmarked(lines[i]));
        lemma_unmarked(lines[i]);
    }
    lemma_after(rt, lines, 2, text::trimmed(id));
}

} // verus!
