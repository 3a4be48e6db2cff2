//! The sender's announcement and cadence.

use std::time::Duration;
use viroh::fleet::sniff;
use viroh::sender::{banner, frame_nanos, Cadence, FrameCfg};

#[test]
fn banner_lines() {
    let cfg = FrameCfg { fps: 30, quality: 90, width: 640, height: 480 };
    assert_eq!(
        banner("studio-A", "bb95f98", cfg, &None),
        vec![
            "viroh sender ready.",
            "  name   : studio-A",
            "  node id: bb95f98",
            "  source : 640x480 @ 30fps, jpeg q90",
            "  relay  : n0 default",
            "",
            "Start a receiver with:",
            "    viroh-receiver bb95f98",
            "",
            "Waiting for receivers (Ctrl-C to quit)...",
        ]
    );
    let relay = Some("https://server.viroh.net".to_string());
    assert_eq!(banner("a", "b", cfg, &relay)[4], "  relay  : https://server.viroh.net (custom)");
}

#[test]
fn banner_announces_the_node_id_once() {
    let cfg = FrameCfg { fps: 1, quality: 2, width: 3, height: 4 };
    for relay in [None, Some("https://node".to_string())] {
        let found: Vec<String> = banner("node id", "84f73", cfg, &relay).iter().filter_map(sniff).collect();
        assert_eq!(found, vec!["84f73"]);
    }
}

#[test]
fn frames_last_as_long_as_doubles_say() {
    assert_eq!(frame_nanos(0), 1_000_000_000);
    assert_eq!(frame_nanos(1), 1_000_000_000);
    assert_eq!(frame_nanos(30), 33_333_333);
    assert_eq!(frame_nanos(60), 16_666_667);
    let mut fps = 1u32;
    while fps < u32::MAX - fps / 97 - 1 {
        let expected = Duration::from_secs_f64(1.0 / fps as f64).as_nanos() as u64;
        assert_eq!(frame_nanos(fps), expected, "{fps}");
        fps += fps / 97 + 1;
    }
    for fps in (1..20_000).chain([1024 * 5, 5120, 10240, 1 << 20, 5 << 20, 999_999_999, 2_000_000_001, u32::MAX]) {
        let expected = Duration::from_secs_f64(1.0 / fps as f64).as_nanos() as u64;
        assert_eq!(frame_nanos(fps), expected, "{fps}");
        let t = frame_nanos(fps) as i128 * fps as i128 - 1_000_000_000;
        assert!(t.abs() <= fps as i128);
    }
}

#[test]
fn cadence_pauses_until_the_next_frame() {
    let mut c = Cadence::new(1_000, 1_000_000);
    assert_eq!((c.next, c.frame), (1_000, 1_000));
    assert_eq!(c.advance(1_300), Some(700));
    assert_eq!(c.next, 2_000);
    // on time: no drift
    assert_eq!(c.advance(2_999), Some(1));
    assert_eq!(c.next, 3_000);
    // exactly due
    assert_eq!(c.advance(4_000), None);
    assert_eq!(c.next, 4_000);
    // far behind: no burst afterwards
    assert_eq!(c.advance(9_000), None);
    assert_eq!(c.next, 9_000);
    assert_eq!(c.advance(9_100), Some(900));
}
