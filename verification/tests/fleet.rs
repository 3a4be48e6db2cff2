//! The fleet of agents.

use viroh::fleet::{
    authorized, default_fps, default_height, default_quality, default_width, sniff, spawn_args, AgentCfg, AgentView,
    ApiError, Fleet, Status, LOG_CAP, UNAUTHORIZED, UNAUTHORIZED_BODY,
};
use viroh::text;

fn cfg(name: &str) -> AgentCfg {
    AgentCfg { name: name.to_string(), fps: 30, quality: 90, width: 640, height: 480 }
}

fn launch(fleet: &mut Fleet, name: &str, pid: u32) -> (u64, u64, AgentView) {
    let id = fleet.reserve_id();
    let (run, view) = fleet.adopt(id, cfg(name), Some(pid), format!("start of {name}"));
    (id, run, view)
}

fn view(fleet: &Fleet, id: u64) -> AgentView {
    fleet.list().into_iter().find(|v| v.id == id).unwrap()
}

#[test]
fn defaults() {
    assert_eq!((default_fps(), default_quality(), default_width(), default_height()), (30, 90, 640, 480));
}

#[test]
fn a_launched_agent_is_listed() {
    let mut fleet = Fleet::new();
    assert!(fleet.list().is_empty());
    let (id, _, v) = launch(&mut fleet, "a", 77);
    assert_eq!(id, 1);
    assert_eq!((v.id, v.name.as_str(), v.status.as_str()), (1, "a", "running"));
    assert_eq!((v.fps, v.quality, v.width, v.height), (30, 90, 640, 480));
    assert_eq!((v.node_id, v.pid, v.started_at.as_str()), (None, Some(77), "start of a"));
    assert!(v.log_tail.is_empty());
    assert_eq!(fleet.list().len(), 1);
}

#[test]
fn ids_count_up_even_when_a_launch_fails() {
    let mut fleet = Fleet::new();
    assert_eq!(fleet.reserve_id(), 1);
    assert_eq!(fleet.reserve_id(), 2);
    let (id, run, _) = launch(&mut fleet, "a", 1);
    assert_eq!((id, run), (3, 0));
    assert_eq!(fleet.runs(), 1);
}

#[test]
fn list_is_in_the_order_of_ids() {
    let mut fleet = Fleet::new();
    for id in [5, 1, 9, 3] {
        fleet.adopt(id, cfg("x"), None, String::new());
    }
    let ids: Vec<u64> = fleet.list().iter().map(|v| v.id).collect();
    assert_eq!(ids, vec![1, 3, 5, 9]);
}

#[test]
fn unknown_agents_are_not_found() {
    let mut fleet = Fleet::new();
    assert!(matches!(fleet.config_to_start(1), Err(ApiError::NotFound)));
    assert!(matches!(fleet.stop(1), Err(ApiError::NotFound)));
    assert!(matches!(fleet.delete(1), Err(ApiError::NotFound)));
    assert!(matches!(fleet.logs(1), Err(ApiError::NotFound)));
    let (run, r) = fleet.restart(1, None, String::new());
    assert_eq!(run, 0);
    assert!(matches!(r, Err(ApiError::NotFound)));
}

#[test]
fn stop_and_start_again() {
    let mut fleet = Fleet::new();
    let (id, run, _) = launch(&mut fleet, "a", 1);
    match fleet.config_to_start(id) {
        Err(ApiError::Conflict(m)) => assert_eq!(m, "agent already running"),
        other => panic!("{other:?}"),
    }
    let (v, kill) = fleet.stop(id).unwrap();
    assert_eq!((v.status.as_str(), v.pid, kill), ("stopped", Some(1), Some(run)));
    // nothing is killed twice
    assert_eq!(fleet.stop(id).unwrap().1, None);
    let again = fleet.config_to_start(id).unwrap();
    assert_eq!((again.name.as_str(), again.fps), ("a", 30));
    let (second, r) = fleet.restart(id, Some(2), "later".to_string());
    let v = r.unwrap();
    assert_ne!(second, run);
    assert_eq!((v.status.as_str(), v.pid, v.started_at.as_str()), ("running", Some(2), "later"));
    // the first run ends only now
    fleet.end(id, run, true);
    fleet.hear(id, run, true, "node id: old".to_string());
    let v = view(&fleet, id);
    assert_eq!((v.status.as_str(), v.pid, v.node_id), ("running", Some(2), None));
    assert!(fleet.logs(id).unwrap().is_empty());
    fleet.end(id, second, true);
    assert_eq!(view(&fleet, id).status, "stopped");
}

#[test]
fn an_agent_that_exits_is_reported() {
    let mut fleet = Fleet::new();
    let (id, run, _) = launch(&mut fleet, "a", 1);
    fleet.hear(id, run, false, "boom".to_string());
    fleet.end(id, run, false);
    let v = view(&fleet, id);
    assert_eq!((v.status.as_str(), v.pid), ("exited", None));
    assert_eq!(v.log_tail, vec!["boom"]);
    assert!(fleet.config_to_start(id).is_ok());
    // stopping it kills nothing
    let (v, kill) = fleet.stop(id).unwrap();
    assert_eq!((v.status.as_str(), kill), ("stopped", None));
}

#[test]
fn deleted_agents_are_gone() {
    let mut fleet = Fleet::new();
    let (a, run_a, _) = launch(&mut fleet, "a", 1);
    let (b, run_b, _) = launch(&mut fleet, "b", 2);
    assert_eq!(fleet.delete(a).unwrap(), Some(run_a));
    fleet.hear(a, run_a, true, "late".to_string());
    fleet.end(a, run_a, true);
    let all = fleet.list();
    assert_eq!(all.len(), 1);
    assert_eq!((all[0].id, all[0].status.as_str()), (b, "running"));
    fleet.end(b, run_b, false);
    assert_eq!(fleet.delete(b).unwrap(), None);
    assert!(fleet.list().is_empty());
}

#[test]
fn logs_keep_the_newest_lines() {
    let mut fleet = Fleet::new();
    let (id, run, _) = launch(&mut fleet, "a", 1);
    for i in 0..LOG_CAP + 5 {
        fleet.hear(id, run, i % 2 == 0, format!("line {i}"));
    }
    let logs = fleet.logs(id).unwrap();
    assert_eq!(logs.len(), 300);
    assert_eq!((logs[0].as_str(), logs[299].as_str()), ("line 5", "line 304"));
    assert_eq!(
        view(&fleet, id).log_tail,
        vec!["line 299", "line 300", "line 301", "line 302", "line 303", "line 304"]
    );
}

#[test]
fn node_ids_are_taken_from_standard_output() {
    let mut fleet = Fleet::new();
    let (id, run, _) = launch(&mut fleet, "a", 1);
    fleet.hear(id, run, false, "  node id: wrong".to_string());
    assert_eq!(view(&fleet, id).node_id, None);
    fleet.hear(id, run, true, "  node id: bb95f98".to_string());
    assert_eq!(view(&fleet, id).node_id, Some("bb95f98".to_string()));
    fleet.hear(id, run, true, "Waiting".to_string());
    assert_eq!(view(&fleet, id).node_id, Some("bb95f98".to_string()));
}

#[test]
fn node_ids_in_lines() {
    for line in [
        "  node id: bb95",
        "node id:",
        "node id: a node id: b",
        "node id:node id:",
        "xnode id:\u{3000} \t é \u{2028}",
        "node  id: a",
        "Node id: a",
        "node id",
        "",
        "nonode id:: x",
    ] {
        let expected = line.split("node id:").nth(1).map(|s| s.trim().to_string());
        assert_eq!(sniff(&line.to_string()), expected, "{line}");
    }
}

#[test]
fn white_space_is_that_of_unicode() {
    for c in '\0'..=char::MAX {
        assert_eq!(text::is_space(c), c.is_whitespace(), "{c:?}");
    }
}

#[test]
fn arguments_of_an_agent() {
    assert_eq!(
        spawn_args(&cfg("studio A"), &None),
        vec!["--name", "studio A", "--fps", "30", "--quality", "90", "--width", "640", "--height", "480"]
    );
    let with_relay = spawn_args(&cfg("b"), &Some("https://r".to_string()));
    assert_eq!(with_relay[10..], ["--relay-url", "https://r"]);
}

#[test]
fn bearer_tokens() {
    let some = |s: &str| Some(s.to_string());
    assert!(authorized(&None, &None));
    assert!(authorized(&None, &some("anything")));
    assert!(authorized(&some("secret"), &some("Bearer secret")));
    assert!(!authorized(&some("secret"), &None));
    assert!(!authorized(&some("secret"), &some("secret")));
    assert!(!authorized(&some("secret"), &some("bearer secret")));
    assert!(!authorized(&some("secret"), &some("Bearer secret ")));
    assert!(!authorized(&some("secret"), &some("Bearer ")));
    assert!(authorized(&some(""), &some("Bearer ")));
    assert_eq!((UNAUTHORIZED, UNAUTHORIZED_BODY), (401, "missing or invalid token"));
}

#[test]
fn answers_to_requests_that_fail() {
    assert_eq!(ApiError::NotFound.reply(), (404, "agent not found".to_string()));
    assert_eq!(ApiError::Conflict("busy".to_string()).reply(), (409, "busy".to_string()));
    assert_eq!(ApiError::Internal("bad".to_string()).reply(), (500, "bad".to_string()));
    assert_eq!(
        ApiError::spawn_failed("No such file or directory (os error 2)").reply(),
        (500, "spawn failed: No such file or directory (os error 2)".to_string())
    );
    assert_eq!(Status::Running.name(), "running");
}
