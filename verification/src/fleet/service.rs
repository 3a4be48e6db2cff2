//! What a fleet does for those who ask: agents run as asked for, and reports tell
//! how they are.

use crate::fleet;
use crate::fleet::AgentState;
use crate::fleet::CfgState;
use crate::fleet::FleetState;
use crate::fleet::Report;
use crate::fleet::RuntimeState;
use crate::fleet::Status;
use crate::text;
use crate::text::laws::all_digits;
use crate::text::laws::value;
use vstd::prelude::*;

verus! {

/// Whether a report shows a configuration.
pub open spec fn shows_configuration(r: Report, cfg: CfgState) -> bool {
    &&& r.cfg.name == cfg.name
    &&& r.cfg.fps == cfg.fps
    &&& r.cfg.quality == cfg.quality
    &&& r.cfg.width == cfg.width
    &&& r.cfg.height == cfg.height
}

/// A launched agent streams as asked: it is filed under its id with exactly the
/// configuration that was given, it is reported as running with that configuration
/// and with its process, and its run is one that no agent had before. Its log is
/// empty and its node id unknown.
pub proof fn launched_agents_stream_as_asked(
    s: FleetState,
    id: u64,
    cfg: CfgState,
    pid: Option<u32>,
    started_at: Seq<char>,
)
    requires
        s.wf(),
        s.runs < u64::MAX,
    ensures
        ({
            let t = s.adopted(id, cfg, pid, started_at);
            let a = t.agents[id];
            let r = a.report();
            &&& t.agents.contains_key(id)
            &&& a.cfg.name == cfg.name && a.cfg.fps == cfg.fps && a.cfg.quality == cfg.quality && a.cfg.width == cfg.width
                && a.cfg.height == cfg.height
            &&& shows_configuration(r, cfg)
            &&& r.id == id && r.pid == pid && r.started_at == started_at
            &&& r.status == "running"@ && r.node_id is None && r.log_tail.len() == 0
            &&& a.rt.status == Status::Running && a.rt.logs.len() == 0
            &&& t.doomed(id) == Some(a.rt.run)
            &&& forall|other: u64| #[trigger] s.agents.contains_key(other) ==> s.agents[other].rt.run != a.rt.run
            &&& t.runs == s.runs + 1
            &&& t.next_id == s.next_id
        }),
{
}

/// An agent that is launched again is reported as running, with the configuration
/// that it had, the new process and the new time, under a run that no agent had
/// before. An agent that is gone stays gone.
pub proof fn restarted_agents_stream_as_before(s: FleetState, id: u64, pid: Option<u32>, started_at: Seq<char>)
    requires
        s.wf(),
        s.runs < u64::MAX,
    ensures
        ({
            let t = s.restarted(id, pid, started_at);
            let a = t.agents[id];
            let r = a.report();
            &&& t.agents.contains_key(id) == s.agents.contains_key(id)
            &&& s.agents.contains_key(id) ==> {
                &&& shows_configuration(r, s.agents[id].cfg)
                &&& r.id == id && r.pid == pid && r.started_at == started_at
                &&& r.status == "running"@ && r.node_id is None && r.log_tail.len() == 0
                &&& t.doomed(id) == Some(a.rt.run)
                &&& forall|other: u64| #[trigger] s.agents.contains_key(other) ==> s.agents[other].rt.run != a.rt.run
            }
            &&& t.runs == s.runs + 1
            &&& t.next_id == s.next_id
        }),
{
}

/// A report tells the agent's id, its configuration, its start, its process, its
/// node id and its state, and ends its log with the last six lines, or with all
/// where there are fewer.
pub proof fn reports_tell_how_agents_are(a: AgentState)
    ensures
        ({
            let r = a.report();
            &&& r.id == a.id
            &&& shows_configuration(r, a.cfg)
            &&& r.started_at == a.started_at
            &&& r.pid == a.rt.pid
            &&& r.node_id == a.rt.node_id
            &&& a.rt.status == Status::Running <==> r.status == "running"@
            &&& a.rt.status == Status::Stopped <==> r.status == "stopped"@
            &&& a.rt.status == Status::Exited <==> r.status == "exited"@
            &&& r.log_tail.len() == (if a.rt.logs.len() < 6 {
                a.rt.logs.len()
            } else {
                6
            })
            &&& forall|i: int|
                0 < i <= r.log_tail.len() ==> #[trigger] r.log_tail[r.log_tail.len() - i] == a.rt.logs[a.rt.logs.len() - i]
        }),
{
    reveal_strlit("running");
    reveal_strlit("stopped");
    reveal_strlit("exited");
    assert("running"@[0] == 'r');
    assert("stopped"@[0] == 's');
    assert("exited"@[0] == 'e');
}

/// A line changes the log and perhaps the node id of its agent, and nothing else.
/// A line on standard error never changes the node id, and neither does one without
/// the mark.
pub proof fn lines_change_the_log_alone(rt: RuntimeState, is_stdout: bool, line: Seq<char>)
    ensures
        ({
            let t = rt.heard(is_stdout, line);
            &&& t.run == rt.run && t.status == rt.status && t.pid == rt.pid && t.killable == rt.killable
            &&& t.logs.len() > 0 && t.logs.last() == line
            &&& is_stdout && fleet::announced(line) is Some ==> t.node_id == fleet::announced(line)
            &&& !is_stdout || fleet::announced(line) is None ==> t.node_id == rt.node_id
        }),
{
    let all = rt.logs.push(line);
    if all.len() > fleet::LOG_CAP {
        assert(all.skip(all.len() - fleet::LOG_CAP).last() == line);
    }
}

/// A line and the end of a process reach the agent whose run it is: its process is
/// then in the state after the line, or after the end. Lines and ends of other runs
/// change nothing.
pub proof fn events_reach_their_agent(
    s: FleetState,
    id: u64,
    run: u64,
    is_stdout: bool,
    line: Seq<char>,
    killed: bool,
)
    ensures
        s.agents.contains_key(id) && s.agents[id].rt.run == run ==> {
            let a = s.heard(id, run, is_stdout, line).agents[id];
            let b = s.ended(id, run, killed).agents[id];
            &&& a.rt == s.agents[id].rt.heard(is_stdout, line)
            &&& a.id == s.agents[id].id && a.cfg == s.agents[id].cfg && a.started_at == s.agents[id].started_at
            &&& b.rt.status == (if killed {
                Status::Stopped
            } else {
                Status::Exited
            })
            &&& b.rt.pid is None
        },
        !s.agents.contains_key(id) || s.agents[id].rt.run != run ==> s.heard(id, run, is_stdout, line) == s && s.ended(
            id,
            run,
            killed,
        ) == s,
{
}

/// What stands before a node id.
pub open spec fn mark() -> Seq<char> {
    seq!['n', 'o', 'd', 'e', ' ', 'i', 'd', ':']
}

/// A line announces what stands between the first mark and the next one, or the end
/// of the line, without the white space around it. A line without the mark
/// announces nothing.
pub proof fn node_ids_follow_the_mark(line: Seq<char>)
    ensures
        (match fleet::announced(line) {
            None => forall|j: int| 0 <= j && j + 8 <= line.len() ==> #[trigger] line.subrange(j, j + 8) != mark(),
            Some(id) => exists|i: int, e: int| #[trigger] between_marks(line, i, e) && id == text::trimmed(line.subrange(i + 8, e)),
        }),
{
    reveal_strlit("node id:");
    assert(fleet::NODE_ID_MARK@ =~= mark());
    text::laws::found_is_first(line, mark(), 0);
    match text::find_from(line, mark(), 0) {
        None => {},
        Some(i) => {
            text::laws::found_is_first(line, mark(), i + 8);
            let e = match text::find_from(line, mark(), i + 8) {
                None => line.len() as int,
                Some(j) => j,
            };
            assert(between_marks(line, i, e));
        },
    }
}

/// Whether the first mark stands at `i`, and the next one at `e` or there is none
/// and the line ends at `e`.
pub open spec fn between_marks(line: Seq<char>, i: int, e: int) -> bool {
    &&& 0 <= i && i + 8 <= e <= line.len()
    &&& line.subrange(i, i + 8) == mark()
    &&& forall|j: int| 0 <= j < i ==> #[trigger] line.subrange(j, j + 8) != mark()
    &&& forall|j: int| i + 8 <= j < e && j + 8 <= line.len() ==> #[trigger] line.subrange(j, j + 8) != mark()
    &&& e == line.len() || e + 8 <= line.len() && line.subrange(e, e + 8) == mark()
}

/// Stopping an agent, and the end of its process, leave its configuration, its
/// start, its log, its node id and its run as they are; a stop leaves the process
/// as well.
pub proof fn stops_and_ends_keep_the_rest(s: FleetState, id: u64, run: u64, killed: bool)
    requires
        s.agents.contains_key(id),
    ensures
        ({
            let a = s.agents[id];
            let b = s.stopped(id).agents[id];
            let c = s.ended(id, run, killed).agents[id];
            &&& b.id == a.id && b.cfg == a.cfg && b.started_at == a.started_at
            &&& b.rt.logs == a.rt.logs && b.rt.node_id == a.rt.node_id && b.rt.run == a.rt.run && b.rt.pid == a.rt.pid
            &&& b.report().status == "stopped"@
            &&& c.id == a.id && c.cfg == a.cfg && c.started_at == a.started_at
            &&& c.rt.logs == a.rt.logs && c.rt.node_id == a.rt.node_id && c.rt.run == a.rt.run
            &&& s.stopped(id).runs == s.runs && s.stopped(id).next_id == s.next_id
            &&& s.ended(id, run, killed).runs == s.runs && s.ended(id, run, killed).next_id == s.next_id
        }),
{
}

/// A deleted agent is gone, and its id and its runs stay taken.
pub proof fn deleted_agents_are_gone(s: FleetState, id: u64)
    ensures
        !s.deleted(id).agents.contains_key(id),
        s.deleted(id).runs == s.runs,
        s.deleted(id).next_id == s.next_id,
{
}

/// A list reports on every agent, and on nothing else, in the order of ids.
pub proof fn lists_report_on_every_agent(s: FleetState, reports: Seq<Report>, id: u64, i: int)
    requires
        s.wf(),
        s.listed(reports),
    ensures
        s.agents.contains_key(id) ==> exists|k: int|
            0 <= k < reports.len() && (#[trigger] reports[k]).id == id && reports[k] == s.agents[id].report(),
        0 <= i < reports.len() ==> s.agents.contains_key(reports[i].id),
        0 < i < reports.len() ==> reports[i - 1].id < reports[i].id,
        reports.len() == s.agents.dom().len(),
{
    if s.agents.contains_key(id) {
        let k = choose|k: int| 0 <= k < reports.len() && (#[trigger] reports[k]).id == id;
        assert(reports[k] == s.agents[reports[k].id].report());
    }
    if 0 < i < reports.len() {
        assert(reports[i - 1].id < reports[i].id);
    }
    let ids = reports.map_values(|r: Report| r.id);
    assert(ids.no_duplicates()) by {
        assert forall|a: int, b: int| 0 <= a < ids.len() && 0 <= b < ids.len() && a != b implies ids[a] != ids[b] by {
            assert(ids[a] == reports[a].id && ids[b] == reports[b].id);
            if a < b {
                assert(reports[a].id < reports[b].id);
            } else {
                assert(reports[b].id < reports[a].id);
            }
        }
    }
    assert(ids.to_set() =~= s.agents.dom()) by {
        assert forall|k: u64| ids.to_set().contains(k) == s.agents.dom().contains(k) by {
            if s.agents.contains_key(k) {
                let j = choose|j: int| 0 <= j < reports.len() && (#[trigger] reports[j]).id == k;
                assert(ids[j] == k);
                assert(ids.contains(k));
            }
            if ids.contains(k) {
                let j = choose|j: int| 0 <= j < ids.len() && ids[j] == k;
                assert(s.agents.contains_key(reports[j].id));
            }
        }
    }
    ids.unique_seq_to_set();
}

/// An agent's process is launched as configured: each option is followed by its
/// value, and the numbers read back.
pub proof fn arguments_tell_the_configuration(cfg: CfgState, relay_url: Option<Seq<char>>)
    ensures
        ({
            let a = fleet::arguments(cfg, relay_url);
            &&& a.len() == (if relay_url is Some {
                12
            } else {
                10int
            })
            &&& a[0] == "--name"@ && a[1] == cfg.name
            &&& a[2] == "--fps"@ && value(a[3]) == cfg.fps && all_digits(a[3])
            &&& a[4] == "--quality"@ && value(a[5]) == cfg.quality && all_digits(a[5])
            &&& a[6] == "--width"@ && value(a[7]) == cfg.width && all_digits(a[7])
            &&& a[8] == "--height"@ && value(a[9]) == cfg.height && all_digits(a[9])
            &&& relay_url matches Some(url) ==> a[10] == "--relay-url"@ && a[11] == url
        }),
{
    text::laws::decimal_reads_back(cfg.fps as nat);
    text::laws::decimal_reads_back(cfg.quality as nat);
    text::laws::decimal_reads_back(cfg.width as nat);
    text::laws::decimal_reads_back(cfg.height as nat);
}

/// Where a token is asked for, a request passes only with `Bearer` and that token.
pub proof fn only_the_token_passes(token: Seq<char>, header: Seq<char>)
    ensures
        fleet::admitted(Some(token), Some(header)) <==> header.len() == 7 + token.len() && header.take(7) == seq![
            'B',
            'e',
            'a',
            'r',
            'e',
            'r',
            ' ',
        ] && header.skip(7) == token,
{
    reveal_strlit("Bearer ");
    let lead = seq!['B', 'e', 'a', 'r', 'e', 'r', ' '];
    assert("Bearer "@ =~= lead);
    if header == "Bearer "@ + token {
        assert(header.take(7) =~= lead);
        assert(header.skip(7) =~= token);
    }
    if header.len() == 7 + token.len() && header.take(7) == lead && header.skip(7) == token {
        assert(header =~= header.take(7) + header.skip(7));
    }
}

/// A request that cannot be carried out is answered with the status of its kind,
/// and with the reason where there is one.
pub proof fn failures_are_answered(e: fleet::ApiError)
    ensures
        e is NotFound ==> e.answer().0 == 404,
        e matches fleet::ApiError::Conflict(m) ==> e.answer() == (409u16, m@),
        e matches fleet::ApiError::Internal(m) ==> e.answer() == (500u16, m@),
{
}

} // verus!
