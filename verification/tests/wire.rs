//! The stream format.

use viroh::sender::Streamer;
use viroh::sender::{stream_meta, FrameCfg};
use viroh::video::{decode_jpeg, TimecodeSource};
use viroh::wire::{meta_message, Incoming, Next, Progress, Received, WireError, MAX_FRAME_BYTES};
use viroh::{read_frame, read_meta, write_frame, write_meta, ALPN, FPS, HEIGHT, WIDTH};

#[test]
fn constants() {
    assert_eq!(&ALPN, b"viroh/mjpeg/1");
    assert_eq!((WIDTH, HEIGHT, FPS), (640, 480, 30));
    assert_eq!(MAX_FRAME_BYTES, 16 * 1024 * 1024);
}

#[test]
fn prefix_is_big_endian() {
    let mut out = vec![9];
    write_frame(&mut out, &[5; 258]);
    assert_eq!(out.len(), 1 + 4 + 258);
    assert_eq!(&out[..6], &[9, 0, 0, 1, 2, 5]);
    for n in [0usize, 1, 255, 256, 65535, 65536, 70000, 16_777_215] {
        let mut out = Vec::new();
        write_frame(&mut out, &vec![0; n]);
        assert_eq!(&out[..4], &(n as u32).to_be_bytes());
    }
}

#[test]
fn largest_frame_is_read_and_larger_is_not() {
    let mut out = Vec::new();
    write_frame(&mut out, &vec![7; MAX_FRAME_BYTES as usize]);
    let v = read_frame(&mut Incoming::new(out)).unwrap().unwrap();
    assert_eq!(v.len(), MAX_FRAME_BYTES as usize);
    let mut out = Vec::new();
    write_frame(&mut out, &vec![7; MAX_FRAME_BYTES as usize + 1]);
    let e = read_frame(&mut Incoming::new(out)).unwrap_err();
    assert_eq!(e, WireError::TooLarge(MAX_FRAME_BYTES + 1));
    assert_eq!(e.message(), "frame too large: 16777217 bytes");
}

#[test]
fn length_is_checked_before_the_payload() {
    let e = read_frame(&mut Incoming::new(vec![255, 255, 255, 255])).unwrap_err();
    assert_eq!(e.message(), "frame too large: 4294967295 bytes");
}

#[test]
fn streams_that_break_off() {
    let mut out = Vec::new();
    write_frame(&mut out, &[1, 2, 3]);
    for cut in 0..4 {
        assert_eq!(read_frame(&mut Incoming::new(out[..cut].to_vec())), Ok(None));
    }
    for cut in 4..7 {
        let mut input = Incoming::new(out[..cut].to_vec());
        assert_eq!(read_frame(&mut input), Err(WireError::Truncated));
        assert_eq!(read_frame(&mut input), Ok(None));
    }
    assert_eq!(read_frame(&mut Incoming::new(out)), Ok(Some(vec![1, 2, 3])));
    assert_eq!(WireError::Truncated.message(), "early eof");
}

#[test]
fn metadata_comes_first() {
    let mut out = Vec::new();
    write_meta(&mut out, b"{}");
    write_frame(&mut out, &[4]);
    let mut input = Incoming::new(out);
    assert_eq!(read_meta(&mut input), Ok(b"{}".to_vec()));
    assert_eq!(read_frame(&mut input), Ok(Some(vec![4])));
    assert_eq!(read_frame(&mut input), Ok(None));
    let e = read_meta(&mut Incoming::new(vec![])).unwrap_err();
    assert_eq!(e, WireError::NoMeta);
    assert_eq!(e.message(), "stream closed before metadata");
    assert_eq!(read_meta(&mut Incoming::new(vec![0, 0, 0, 9])), Err(WireError::Truncated));
    assert_eq!(meta_message(Err(WireError::Truncated)), Err(WireError::Truncated));
}

#[test]
fn steps_of_a_transport() {
    assert_eq!(Progress::Prefix.want(), 4);
    assert_eq!(Progress::Payload(9).want(), 9);
    assert!(matches!(Progress::Prefix.step(Received::Closed), Next::End));
    assert!(matches!(
        Progress::Payload(9).step(Received::Closed),
        Next::Fail(WireError::Truncated)
    ));
    assert!(matches!(
        Progress::Prefix.step(Received::Bytes(vec![0, 0, 1, 2])),
        Next::Read(Progress::Payload(258))
    ));
    assert!(matches!(
        Progress::Prefix.step(Received::Bytes(vec![1, 0, 0, 1])),
        Next::Fail(WireError::TooLarge(16_777_217))
    ));
    match Progress::Payload(2).step(Received::Bytes(vec![8, 9])) {
        Next::Message(m) => assert_eq!(m, vec![8, 9]),
        other => panic!("{other:?}"),
    }
}

#[test]
fn session_in_memory() {
    let cfg = FrameCfg { fps: 30, quality: 70, width: 320, height: 240 };
    let meta = stream_meta(&"test-agent".to_string(), &"2026-06-30T00:00:00Z".to_string(), cfg);
    assert_eq!(meta.name, "test-agent");
    assert_eq!(meta.started_at, "2026-06-30T00:00:00Z");
    assert_eq!(meta.kind, "video only");
    assert_eq!((meta.width, meta.height, meta.fps), (320, 240, 30));
    let copy = meta.clone();
    assert_eq!((copy.name, copy.fps), (meta.name, meta.fps));

    let mut out = Vec::new();
    write_meta(&mut out, b"{\"name\":\"test-agent\"}");
    let mut streamer = Streamer::new(cfg);
    for i in 0..3 {
        out.extend(streamer.next_message(i * 33).unwrap());
    }
    let mut input = Incoming::new(out);
    assert_eq!(read_meta(&mut input).unwrap(), b"{\"name\":\"test-agent\"}");
    let mut got = 0;
    while let Some(jpeg) = read_frame(&mut input).expect("read") {
        let f = decode_jpeg(&jpeg).expect("decode");
        assert_eq!((f.width, f.height), (320, 240));
        got += 1;
    }
    assert_eq!(got, 3, "expected 3 streamed frames");
}

#[test]
fn messages_hold_the_frames_of_the_source() {
    let cfg = FrameCfg { fps: 25, quality: 61, width: 100, height: 60 };
    let mut streamer = Streamer::new(cfg);
    let mut src = TimecodeSource::new(100, 60, 25);
    for ms in [0, 40, 80, 100_000] {
        let mut expected = Vec::new();
        write_frame(&mut expected, &viroh::video::encode_jpeg(&src.render(ms), 61).unwrap());
        assert_eq!(streamer.next_message(ms).unwrap(), expected);
    }
    let mut bad = Streamer::new(FrameCfg { fps: 25, quality: 61, width: 65536, height: 40 });
    let e = bad.next_message(0).unwrap_err();
    assert_eq!(e.message(), "jpeg encode failed: Image dimensions must be non zero: 0x40");
}
