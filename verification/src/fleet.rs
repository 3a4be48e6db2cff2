//! A fleet of sender agents: which agents there are, what state each is in, and
//! what a request or an event does to them.
//!
//! Every launch of an agent's process is a run with a number of its own. What a
//! process prints, and that it exits, concerns the agent only while that run is
//! the agent's current one.

pub mod laws;
pub mod service;

use crate::text;
use std::collections::BTreeMap;
use std::collections::VecDeque;
use vstd::prelude::*;
use vstd::std_specs::cmp::OrdSpec;
use vstd::std_specs::iter::IteratorSpec;

verus! {

broadcast use {vstd::std_specs::btree::group_btree_axioms, vstd::laws_cmp::group_laws_cmp};

/// How many lines of an agent's output are kept.
pub const LOG_CAP: usize = 300;

/// How many of them a view of the agent shows.
pub const LOG_TAIL: usize = 6;

/// What the line that announces an agent's node id holds before it.
pub const NODE_ID_MARK: &'static str = "node id:";

/// What an agent's process is doing.
#[derive(Debug, Clone, Copy, PartialEq, Eq, Structural)]
pub enum Status {
    /// The process runs.
    Running,
    /// The process was told to stop.
    Stopped,
    /// The process ended by itself.
    Exited,
}

impl Status {
    /// The name of the status.
    pub open spec fn text(self) -> Seq<char> {
        match self {
            Status::Running => "running"@,
            Status::Stopped => "stopped"@,
            Status::Exited => "exited"@,
        }
    }

    /// The name of the status.
    pub fn name(self) -> (s: String)
        ensures
            s@ == self.text(),
    {
        match self {
            Status::Running => "running".to_owned(),
            Status::Stopped => "stopped".to_owned(),
            Status::Exited => "exited".to_owned(),
        }
    }
}

/// How an agent streams.
#[derive(Debug)]
pub struct AgentCfg {
    pub name: String,
    pub fps: u32,
    pub quality: u8,
    pub width: usize,
    pub height: usize,
}

impl Clone for AgentCfg {
    fn clone(&self) -> (r: AgentCfg)
        ensures
            r == *self,
    {
        AgentCfg {
            name: self.name.clone(),
            fps: self.fps,
            quality: self.quality,
            width: self.width,
            height: self.height,
        }
    }
}

/// The frame rate of an agent that asks for none.
pub fn default_fps() -> (r: u32)
    ensures
        r == 30,
{
    30
}

/// The JPEG quality of an agent that asks for none.
pub fn default_quality() -> (r: u8)
    ensures
        r == 90,
{
    90
}

/// The frame width of an agent that asks for none.
pub fn default_width() -> (r: usize)
    ensures
        r == 640,
{
    640
}

/// The frame height of an agent that asks for none.
pub fn default_height() -> (r: usize)
    ensures
        r == 480,
{
    480
}

/// The state of an agent's process.
#[verifier::ext_equal]
pub struct RuntimeState {
    pub run: u64,
    pub status: Status,
    pub node_id: Option<Seq<char>>,
    pub pid: Option<u32>,
    pub logs: Seq<Seq<char>>,
    pub killable: bool,
}

/// The last `n` items of `s`.
pub open spec fn last_of(s: Seq<Seq<char>>, n: nat) -> Seq<Seq<char>> {
    if s.len() > n {
        s.skip(s.len() - n)
    } else {
        s
    }
}

/// The node id that a line announces: what stands between the first mark and
/// the second one or the end of the line, without the white space around it.
pub open spec fn announced(line: Seq<char>) -> Option<Seq<char>> {
    let mark = NODE_ID_MARK@;
    match text::find_from(line, mark, 0) {
        None => None,
        Some(i) => {
            let start = i + mark.len();
            let end = match text::find_from(line, mark, start) {
                None => line.len() as int,
                Some(j) => j,
            };
            Some(text::trimmed(line.subrange(start, end)))
        },
    }
}

impl RuntimeState {
    /// A process that was just launched.
    pub open spec fn launched(run: u64, pid: Option<u32>) -> RuntimeState {
        RuntimeState { run, status: Status::Running, node_id: None, pid, logs: Seq::empty(), killable: true }
    }

    /// The process printed a line. The oldest lines give way to it, and a line on
    /// its standard output may announce the node id.
    pub open spec fn heard(self, is_stdout: bool, line: Seq<char>) -> RuntimeState {
        RuntimeState {
            logs: last_of(self.logs.push(line), LOG_CAP as nat),
            node_id: if is_stdout && announced(line) is Some {
                announced(line)
            } else {
                self.node_id
            },
            ..self
        }
    }

    /// The process ended, because it was killed or by itself.
    pub open spec fn ended(self, killed: bool) -> RuntimeState {
        RuntimeState {
            status: if killed {
                Status::Stopped
            } else {
                Status::Exited
            },
            pid: None,
            killable: false,
            ..self
        }
    }

    /// The process was told to stop.
    pub open spec fn stopped(self) -> RuntimeState {
        RuntimeState { status: Status::Stopped, killable: false, ..self }
    }

    /// The log is within its bound, and the process can be killed exactly while
    /// it is running.
    pub open spec fn wf(self) -> bool {
        &&& self.logs.len() <= LOG_CAP
        &&& self.killable == (self.status == Status::Running)
    }
}

/// The state of an agent's process.
#[derive(Debug)]
pub struct Runtime {
    run: u64,
    status: Status,
    node_id: Option<String>,
    pid: Option<u32>,
    logs: VecDeque<String>,
    killable: bool,
}

impl View for Runtime {
    type V = RuntimeState;

    closed spec fn view(&self) -> RuntimeState {
        RuntimeState {
            run: self.run,
            status: self.status,
            node_id: text::characters(self.node_id),
            pid: self.pid,
            logs: text::lines(self.logs@),
            killable: self.killable,
        }
    }
}

/// The node id that a line announces.
pub fn sniff(line: &String) -> (r: Option<String>)
    ensures
        text::characters(r) == announced(line@),
{
    let chars = text::chars_of(line.as_str());
    let mark = text::chars_of(NODE_ID_MARK);
    let len: usize = chars.len();
    proof {
        reveal_strlit("node id:");
    }
    match text::find(&chars, &mark, 0) {
        None => None,
        Some(i) => {
            let start: usize = i + mark.len();
            let end: usize = match text::find(&chars, &mark, start) {
                None => len,
                Some(j) => j,
            };
            Some(text::trim(&chars, start, end))
        },
    }
}

impl Runtime {
    /// A process that was just launched.
    fn launch(run: u64, pid: Option<u32>) -> (r: Runtime)
        ensures
            r@ == RuntimeState::launched(run, pid),
    {
        let r = Runtime { run, status: Status::Running, node_id: None, pid, logs: VecDeque::new(), killable: true };
        assert(r@ =~= RuntimeState::launched(run, pid));
        r
    }

    /// Takes in a line that the process printed.
    fn hear(&mut self, is_stdout: bool, line: String)
        requires
            old(self)@.wf(),
        ensures
            final(self)@ == old(self)@.heard(is_stdout, line@),
    {
        if is_stdout {
            let id = sniff(&line);
            if id.is_some() {
                self.node_id = id;
            }
        }
        let ghost line_chars = line@;
        self.logs.push_back(line);
        assert(self@.logs =~= old(self)@.logs.push(line_chars));
        if self.logs.len() > LOG_CAP {
            self.logs.pop_front();
        }
        assert(self@.logs =~= last_of(old(self)@.logs.push(line_chars), LOG_CAP as nat));
        assert(self@ =~= old(self)@.heard(is_stdout, line_chars));
    }

    /// Takes in that the process ended.
    fn end(&mut self, killed: bool)
        ensures
            final(self)@ == old(self)@.ended(killed),
    {
        self.status = if killed { Status::Stopped } else { Status::Exited };
        self.pid = None;
        self.killable = false;
    }

    /// Marks the process as stopped. Returns its run where it is to be killed.
    fn stop(&mut self) -> (r: Option<u64>)
        ensures
            final(self)@ == old(self)@.stopped(),
            r == (if old(self)@.killable { Some(old(self)@.run) } else { None::<u64> }),
    {
        let kill: Option<u64> = if self.killable { Some(self.run) } else { None };
        self.killable = false;
        self.status = Status::Stopped;
        kill
    }

    /// Copies of the last `n` lines of output.
    fn tail(&self, n: usize) -> (r: Vec<String>)
        ensures
            text::lines(r@) == last_of(self@.logs, n as nat),
    {
        let mut r: Vec<String> = Vec::new();
        let len: usize = self.logs.len();
        let start: usize = if len > n { len - n } else { 0 };
        let mut i: usize = start;
        while i < len
            invariant
                start <= i <= len,
                len == self.logs@.len(),
                r@ == self.logs@.subrange(start as int, i as int),
            decreases len - i,
        {
            r.push(self.logs[i].clone());
            i = i + 1;
            assert(r@ =~= self.logs@.subrange(start as int, i as int));
        }
        assert(text::lines(r@) =~= last_of(self@.logs, n as nat));
        r
    }
}

/// How an agent streams, by value.
#[verifier::ext_equal]
pub struct CfgState {
    pub name: Seq<char>,
    pub fps: u32,
    pub quality: u8,
    pub width: usize,
    pub height: usize,
}

impl View for AgentCfg {
    type V = CfgState;

    open spec fn view(&self) -> CfgState {
        CfgState {
            name: self.name@,
            fps: self.fps,
            quality: self.quality,
            width: self.width,
            height: self.height,
        }
    }
}

/// The state of an agent.
#[verifier::ext_equal]
pub struct AgentState {
    pub id: u64,
    pub cfg: CfgState,
    pub started_at: Seq<char>,
    pub rt: RuntimeState,
}

/// One managed agent: immutable config plus the state of its process.
#[derive(Debug)]
pub struct Agent {
    id: u64,
    cfg: AgentCfg,
    started_at: String,
    rt: Runtime,
}

impl View for Agent {
    type V = AgentState;

    closed spec fn view(&self) -> AgentState {
        AgentState { id: self.id, cfg: self.cfg@, started_at: self.started_at@, rt: self.rt@ }
    }
}

/// What is reported of an agent.
#[derive(Debug)]
pub struct AgentView {
    pub id: u64,
    pub name: String,
    pub fps: u32,
    pub quality: u8,
    pub width: usize,
    pub height: usize,
    pub status: String,
    pub node_id: Option<String>,
    pub pid: Option<u32>,
    pub started_at: String,
    pub log_tail: Vec<String>,
}

/// What is reported of an agent, by value.
#[verifier::ext_equal]
pub struct Report {
    pub id: u64,
    pub cfg: CfgState,
    pub status: Seq<char>,
    pub node_id: Option<Seq<char>>,
    pub pid: Option<u32>,
    pub started_at: Seq<char>,
    pub log_tail: Seq<Seq<char>>,
}

impl View for AgentView {
    type V = Report;

    open spec fn view(&self) -> Report {
        Report {
            id: self.id,
            cfg: CfgState {
                name: self.name@,
                fps: self.fps,
                quality: self.quality,
                width: self.width,
                height: self.height,
            },
            status: self.status@,
            node_id: text::characters(self.node_id),
            pid: self.pid,
            started_at: self.started_at@,
            log_tail: text::lines(self.log_tail@),
        }
    }
}

impl AgentState {
    /// The report on the agent.
    pub open spec fn report(self) -> Report {
        Report {
            id: self.id,
            cfg: self.cfg,
            status: self.rt.status.text(),
            node_id: self.rt.node_id,
            pid: self.rt.pid,
            started_at: self.started_at,
            log_tail: last_of(self.rt.logs, LOG_TAIL as nat),
        }
    }

    /// The agent with another state of its process.
    pub open spec fn with(self, rt: RuntimeState) -> AgentState {
        AgentState { rt, ..self }
    }
}

/// A copy of an optional string.
fn copy_of(s: &Option<String>) -> (r: Option<String>)
    ensures
        r == *s,
{
    match s {
        Some(s) => Some(s.clone()),
        None => None,
    }
}

/// The report on an agent.
fn view_of(agent: &Agent) -> (r: AgentView)
    ensures
        r@ == agent@.report(),
{
    let r = AgentView {
        id: agent.id,
        name: agent.cfg.name.clone(),
        fps: agent.cfg.fps,
        quality: agent.cfg.quality,
        width: agent.cfg.width,
        height: agent.cfg.height,
        status: agent.rt.status.name(),
        node_id: copy_of(&agent.rt.node_id),
        pid: agent.rt.pid,
        started_at: agent.started_at.clone(),
        log_tail: agent.rt.tail(LOG_TAIL),
    };
    assert(r@ =~= agent@.report());
    r
}

/// Why a request cannot be carried out.
#[derive(Debug)]
pub enum ApiError {
    /// There is no such agent.
    NotFound,
    /// The agent is in the wrong state.
    Conflict(String),
    /// Something went wrong while carrying it out.
    Internal(String),
}

impl ApiError {
    /// The HTTP status and the body of the answer.
    pub open spec fn answer(self) -> (u16, Seq<char>) {
        match self {
            ApiError::NotFound => (404, "agent not found"@),
            ApiError::Conflict(m) => (409, m@),
            ApiError::Internal(m) => (500, m@),
        }
    }

    /// The HTTP status and the body of the answer.
    pub fn reply(self) -> (r: (u16, String))
        ensures
            (r.0, r.1@) == self.answer(),
    {
        match self {
            ApiError::NotFound => (404, "agent not found".to_owned()),
            ApiError::Conflict(m) => (409, m),
            ApiError::Internal(m) => (500, m),
        }
    }

    /// The error for a process that could not be launched.
    pub fn spawn_failed(reason: &str) -> (r: ApiError)
        ensures
            r.answer() == (500u16, "spawn failed: "@ + reason@),
            r is Internal,
    {
        let mut m = "spawn failed: ".to_owned();
        m.append(reason);
        ApiError::Internal(m)
    }
}

/// The state of a fleet: its agents by id, the next id and the number of runs so
/// far.
#[verifier::ext_equal]
pub struct FleetState {
    pub agents: Map<u64, AgentState>,
    pub next_id: u64,
    pub runs: u64,
}

impl FleetState {
    /// Every agent is filed under its id, every run is one that was launched, and
    /// the state of every process is well-formed.
    pub open spec fn wf(self) -> bool {
        &&& self.agents.dom().finite()
        &&& forall|id: u64| #[trigger]
            self.agents.contains_key(id) ==> {
                &&& self.agents[id].id == id
                &&& self.agents[id].rt.run < self.runs
                &&& self.agents[id].rt.wf()
            }
    }

    /// Whether `run` is the current run of agent `id`.
    pub open spec fn current(self, id: u64, run: u64) -> bool {
        self.agents.contains_key(id) && self.agents[id].rt.run == run
    }

    /// The fleet with another state of agent `id`.
    pub open spec fn with(self, id: u64, agent: AgentState) -> FleetState {
        FleetState { agents: self.agents.insert(id, agent), ..self }
    }

    /// The next id was taken.
    pub open spec fn reserved(self) -> FleetState {
        FleetState { next_id: self.next_id.wrapping_add(1), ..self }
    }

    /// A new agent was launched.
    pub open spec fn adopted(self, id: u64, cfg: CfgState, pid: Option<u32>, started_at: Seq<char>) -> FleetState {
        let agent = AgentState { id, cfg, started_at, rt: RuntimeState::launched(self.runs, pid) };
        FleetState { runs: (self.runs + 1) as u64, ..self.with(id, agent) }
    }

    /// An agent was launched again. An agent that is gone by now stays gone.
    pub open spec fn restarted(self, id: u64, pid: Option<u32>, started_at: Seq<char>) -> FleetState {
        let agent = AgentState { started_at, rt: RuntimeState::launched(self.runs, pid), ..self.agents[id] };
        FleetState {
            runs: (self.runs + 1) as u64,
            ..(if self.agents.contains_key(id) {
                self.with(id, agent)
            } else {
                self
            })
        }
    }

    /// A line that run `run` of agent `id` printed.
    pub open spec fn heard(self, id: u64, run: u64, is_stdout: bool, line: Seq<char>) -> FleetState {
        if self.current(id, run) {
            self.with(id, self.agents[id].with(self.agents[id].rt.heard(is_stdout, line)))
        } else {
            self
        }
    }

    /// The end of run `run` of agent `id`.
    pub open spec fn ended(self, id: u64, run: u64, killed: bool) -> FleetState {
        if self.current(id, run) {
            self.with(id, self.agents[id].with(self.agents[id].rt.ended(killed)))
        } else {
            self
        }
    }

    /// Agent `id` was told to stop.
    pub open spec fn stopped(self, id: u64) -> FleetState {
        if self.agents.contains_key(id) {
            self.with(id, self.agents[id].with(self.agents[id].rt.stopped()))
        } else {
            self
        }
    }

    /// The run to kill when agent `id` is stopped or deleted.
    pub open spec fn doomed(self, id: u64) -> Option<u64> {
        if self.agents[id].rt.killable {
            Some(self.agents[id].rt.run)
        } else {
            None
        }
    }

    /// Agent `id` was deleted.
    pub open spec fn deleted(self, id: u64) -> FleetState {
        FleetState { agents: self.agents.remove(id), ..self }
    }

    /// `reports` are the reports on all agents, in the order of their ids.
    pub open spec fn listed(self, reports: Seq<Report>) -> bool {
        &&& forall|i: int, j: int| 0 <= i < j < reports.len() ==> (#[trigger] reports[i]).id < (#[trigger] reports[j]).id
        &&& forall|i: int|
            0 <= i < reports.len() ==> self.agents.contains_key((#[trigger] reports[i]).id) && reports[i]
                == self.agents[reports[i].id].report()
        &&& forall|id: u64| #[trigger]
            self.agents.contains_key(id) ==> exists|i: int| 0 <= i < reports.len() && (#[trigger] reports[i]).id == id
    }
}

/// The agents on one host.
#[derive(Debug)]
pub struct Fleet {
    agents: BTreeMap<u64, Agent>,
    next_id: u64,
    runs: u64,
}

impl View for Fleet {
    type V = FleetState;

    closed spec fn view(&self) -> FleetState {
        FleetState {
            agents: self.agents@.map_values(|a: Agent| a@),
            next_id: self.next_id,
            runs: self.runs,
        }
    }
}

impl Fleet {
    /// A fleet without agents.
    pub fn new() -> (r: Fleet)
        ensures
            r@.wf(),
            r@ == (FleetState { agents: Map::empty(), next_id: 1, runs: 0 }),
    {
        let r = Fleet { agents: BTreeMap::new(), next_id: 1, runs: 0 };
        assert(r@.agents =~= Map::empty());
        r
    }

    /// The number of runs so far.
    pub fn runs(&self) -> (r: u64)
        ensures
            r == self@.runs,
    {
        self.runs
    }

    /// Takes the next id. It stays taken, whether an agent comes of it or not.
    pub fn reserve_id(&mut self) -> (id: u64)
        ensures
            id == old(self)@.next_id,
            final(self)@ == old(self)@.reserved(),
    {
        let id: u64 = self.next_id;
        self.next_id = self.next_id.wrapping_add(1);
        id
    }

    /// Files the agent with id `id`, whose process was launched. Returns the
    /// number of the run and the report on the agent.
    pub fn adopt(&mut self, id: u64, cfg: AgentCfg, pid: Option<u32>, started_at: String) -> (r: (u64, AgentView))
        requires
            old(self)@.wf(),
            old(self)@.runs < u64::MAX,
        ensures
            final(self)@.wf(),
            final(self)@ == old(self)@.adopted(id, cfg@, pid, started_at@),
            final(self)@.agents[id].cfg == cfg@,
            r.0 == old(self)@.runs,
            r.1@ == final(self)@.agents[id].report(),
            r.1@.cfg == cfg@,
    {
        let run: u64 = self.runs;
        let ghost expected = old(self)@.adopted(id, cfg@, pid, started_at@);
        let agent = Agent { id, cfg, started_at, rt: Runtime::launch(run, pid) };
        let view = view_of(&agent);
        self.runs = run + 1;
        self.agents.insert(id, agent);
        assert(self@.agents =~= expected.agents);
        (run, view)
    }

    /// The configuration of agent `id`, which is to be launched again: it must be
    /// there and not be running.
    pub fn config_to_start(&self, id: u64) -> (r: Result<AgentCfg, ApiError>)
        ensures
            r is Ok <==> self@.agents.contains_key(id) && self@.agents[id].rt.status != Status::Running,
            r matches Ok(cfg) ==> cfg@ == self@.agents[id].cfg,
            r matches Err(e) ==> (if self@.agents.contains_key(id) {
                e matches ApiError::Conflict(m) && m@ == "agent already running"@
            } else {
                e is NotFound
            }),
    {
        match self.agents.get(&id) {
            None => Err(ApiError::NotFound),
            Some(agent) => {
                if agent.rt.status == Status::Running {
                    Err(ApiError::Conflict("agent already running".to_owned()))
                } else {
                    Ok(agent.cfg.clone())
                }
            },
        }
    }

    /// Files that the process of agent `id` was launched again. Returns the
    /// number of the run and the report on the agent, if it is still there.
    pub fn restart(&mut self, id: u64, pid: Option<u32>, started_at: String) -> (r: (u64, Result<AgentView, ApiError>))
        requires
            old(self)@.wf(),
            old(self)@.runs < u64::MAX,
        ensures
            final(self)@.wf(),
            final(self)@ == old(self)@.restarted(id, pid, started_at@),
            r.0 == old(self)@.runs,
            r.1 is Ok <==> old(self)@.agents.contains_key(id),
            r.1 matches Ok(v) ==> v@ == final(self)@.agents[id].report(),
            r.1 matches Err(e) ==> e is NotFound,
    {
        let run: u64 = self.runs;
        let ghost expected = old(self)@.restarted(id, pid, started_at@);
        self.runs = run + 1;
        match self.agents.remove(&id) {
            None => {
                assert(self@.agents =~= expected.agents);
                (run, Err(ApiError::NotFound))
            },
            Some(old_agent) => {
                let agent = Agent { id: old_agent.id, cfg: old_agent.cfg, started_at, rt: Runtime::launch(run, pid) };
                let view = view_of(&agent);
                self.agents.insert(id, agent);
                assert(self@.agents =~= expected.agents);
                (run, Ok(view))
            },
        }
    }

    /// Stops agent `id`. Returns the report on it, and the run to kill if there is
    /// one.
    pub fn stop(&mut self, id: u64) -> (r: Result<(AgentView, Option<u64>), ApiError>)
        requires
            old(self)@.wf(),
        ensures
            final(self)@.wf(),
            final(self)@ == old(self)@.stopped(id),
            r is Ok <==> old(self)@.agents.contains_key(id),
            r matches Ok(v) ==> v.0@ == final(self)@.agents[id].report() && v.1 == old(self)@.doomed(id),
            r matches Err(e) ==> e is NotFound,
    {
        let ghost expected = old(self)@.stopped(id);
        match self.agents.remove(&id) {
            None => {
                assert(self@.agents =~= expected.agents);
                Err(ApiError::NotFound)
            },
            Some(old_agent) => {
                let mut agent = old_agent;
                let kill = agent.rt.stop();
                let view = view_of(&agent);
                self.agents.insert(id, agent);
                assert(self@.agents =~= expected.agents);
                Ok((view, kill))
            },
        }
    }

    /// Forgets agent `id`. Returns the run to kill if there is one.
    pub fn delete(&mut self, id: u64) -> (r: Result<Option<u64>, ApiError>)
        requires
            old(self)@.wf(),
        ensures
            final(self)@.wf(),
            final(self)@ == old(self)@.deleted(id),
            r is Ok <==> old(self)@.agents.contains_key(id),
            r matches Ok(kill) ==> kill == old(self)@.doomed(id),
            r matches Err(e) ==> e is NotFound,
    {
        let ghost expected = old(self)@.deleted(id);
        match self.agents.remove(&id) {
            None => {
                assert(self@.agents =~= expected.agents);
                Err(ApiError::NotFound)
            },
            Some(old_agent) => {
                assert(self@.agents =~= expected.agents);
                let mut agent = old_agent;
                Ok(agent.rt.stop())
            },
        }
    }

    /// The lines of agent `id`'s output that are kept.
    pub fn logs(&self, id: u64) -> (r: Result<Vec<String>, ApiError>)
        requires
            self@.wf(),
        ensures
            r is Ok <==> self@.agents.contains_key(id),
            r matches Ok(v) ==> text::lines(v@) == self@.agents[id].rt.logs,
            r matches Err(e) ==> e is NotFound,
    {
        match self.agents.get(&id) {
            None => Err(ApiError::NotFound),
            Some(agent) => {
                assert(self@.agents.contains_key(id) && self@.agents[id] == agent@);
                Ok(agent.rt.tail(LOG_CAP))
            },
        }
    }

    /// The reports on all agents, in the order of their ids.
    pub fn list(&self) -> (r: Vec<AgentView>)
        requires
            self@.wf(),
        ensures
            self@.listed(r@.map_values(|v: AgentView| v@)),
    {
        let mut r: Vec<AgentView> = Vec::new();
        let ghost all = self.agents.iter().remaining();
        for entry in it: self.agents.iter()
            invariant
                it.seq() == all,
                all == self.agents.iter().remaining(),
                r@.len() == it.index(),
                forall|i: int| 0 <= i < r@.len() ==> (#[trigger] r@[i])@ == all[i].1@.report(),
        {
            r.push(view_of(entry.1));
        }
        proof {
            let reports = r@.map_values(|v: AgentView| v@);
            let keys = all.map_values(|kv: (&u64, &Agent)| *kv.0);
            assert forall|i: int| 0 <= i < reports.len() implies self@.agents.contains_key((#[trigger] reports[i]).id)
                && reports[i] == self@.agents[reports[i].id].report() && reports[i].id == keys[i] by {
                assert(self.agents@.contains_key(*all[i].0));
                assert(self@.agents.contains_key(*all[i].0));
                assert(r@[i]@ == all[i].1@.report());
            }
            assert forall|i: int, j: int| 0 <= i < j < reports.len() implies (#[trigger] reports[i]).id < (
            #[trigger] reports[j]).id by {
                assert(keys[i].cmp_spec(&keys[j]) is Less);
            }
            assert forall|id: u64| #[trigger] self@.agents.contains_key(id) implies exists|i: int|
                0 <= i < reports.len() && (#[trigger] reports[i]).id == id by {
                assert(self.agents@.contains_key(id));
                let pair = (&id, &self.agents@[id]);
                assert(all.contains(pair));
                let i = choose|i: int| 0 <= i < all.len() && all[i] == pair;
                assert(reports[i].id == id);
            }
        }
        r
    }

    /// Takes in a line that run `run` of agent `id` printed.
    pub fn hear(&mut self, id: u64, run: u64, is_stdout: bool, line: String)
        requires
            old(self)@.wf(),
        ensures
            final(self)@.wf(),
            final(self)@ == old(self)@.heard(id, run, is_stdout, line@),
    {
        let ghost expected = old(self)@.heard(id, run, is_stdout, line@);
        match self.agents.remove(&id) {
            None => {
                assert(self@.agents =~= expected.agents);
            },
            Some(old_agent) => {
                assert(old(self)@.agents[id] == old_agent@);
                let mut agent = old_agent;
                if agent.rt.run == run {
                    agent.rt.hear(is_stdout, line);
                }
                self.agents.insert(id, agent);
                assert(self@.agents =~= expected.agents);
            },
        }
    }

    /// Takes in that run `run` of agent `id` ended.
    pub fn end(&mut self, id: u64, run: u64, killed: bool)
        requires
            old(self)@.wf(),
        ensures
            final(self)@.wf(),
            final(self)@ == old(self)@.ended(id, run, killed),
    {
        let ghost expected = old(self)@.ended(id, run, killed);
        match self.agents.remove(&id) {
            None => {
                assert(self@.agents =~= expected.agents);
            },
            Some(old_agent) => {
                let mut agent = old_agent;
                if agent.rt.run == run {
                    agent.rt.end(killed);
                }
                self.agents.insert(id, agent);
                assert(self@.agents =~= expected.agents);
            },
        }
    }
}

/// The arguments that launch an agent's process.
pub open spec fn arguments(cfg: CfgState, relay_url: Option<Seq<char>>) -> Seq<Seq<char>> {
    let fixed = seq![
        "--name"@,
        cfg.name,
        "--fps"@,
        text::decimal(cfg.fps as nat),
        "--quality"@,
        text::decimal(cfg.quality as nat),
        "--width"@,
        text::decimal(cfg.width as nat),
        "--height"@,
        text::decimal(cfg.height as nat),
    ];
    match relay_url {
        Some(url) => fixed + seq!["--relay-url"@, url],
        None => fixed,
    }
}

/// `n` in decimal.
fn number(n: u128) -> (s: String)
    ensures
        s@ == text::decimal(n as nat),
{
    let mut s = String::new();
    text::push_decimal(&mut s, n);
    assert(s@ =~= text::decimal(n as nat));
    s
}

/// The arguments that launch an agent's process.
pub fn spawn_args(cfg: &AgentCfg, relay_url: &Option<String>) -> (r: Vec<String>)
    ensures
        text::lines(r@) == arguments(cfg@, text::characters(*relay_url)),
{
    let mut r: Vec<String> = Vec::new();
    r.push("--name".to_owned());
    r.push(cfg.name.clone());
    r.push("--fps".to_owned());
    r.push(number(cfg.fps as u128));
    r.push("--quality".to_owned());
    r.push(number(cfg.quality as u128));
    r.push("--width".to_owned());
    r.push(number(cfg.width as u128));
    r.push("--height".to_owned());
    r.push(number(cfg.height as u128));
    match relay_url {
        Some(url) => {
            r.push("--relay-url".to_owned());
            r.push(url.clone());
        },
        None => {},
    }
    assert(text::lines(r@) =~= arguments(cfg@, text::characters(*relay_url)));
    r
}

/// Whether a request may pass: no token is asked for, or the request's
/// `Authorization` header is `Bearer` and the token.
pub open spec fn admitted(token: Option<Seq<char>>, header: Option<Seq<char>>) -> bool {
    token matches Some(t) ==> header == Some("Bearer "@ + t)
}

/// Bearer-token gate. `header` is the value of the request's `Authorization`
/// header, if it has one that is text.
pub fn authorized(token: &Option<String>, header: &Option<String>) -> (r: bool)
    ensures
        r == admitted(text::characters(*token), text::characters(*header)),
{
    match token {
        None => true,
        Some(expected) => match header {
            None => false,
            Some(given) => {
                let mut line = "Bearer ".to_owned();
                line.append(expected.as_str());
                line == *given
            },
        },
    }
}

/// The HTTP status of an answer to a request that was not admitted.
pub const UNAUTHORIZED: u16 = 401;

/// The body of an answer to a request that was not admitted.
pub const UNAUTHORIZED_BODY: &'static str = "missing or invalid token";

} // verus!
