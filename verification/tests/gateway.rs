//! The browser gateway.

use viroh::gateway::{part, CONTENT_TYPE};

#[test]
fn parts_hold_the_frames() {
    assert_eq!(CONTENT_TYPE, "multipart/x-mixed-replace; boundary=frame");
    let head = b"--frame\r\nContent-Type: image/jpeg\r\nContent-Length: 3\r\n\r\n";
    let mut expected = head.to_vec();
    expected.extend_from_slice(&[255, 0, 13, 13, 10]);
    assert_eq!(part(&[255, 0, 13]), expected);
    let p = part(&vec![7; 12345]);
    let text = String::from_utf8_lossy(&p);
    assert!(text.contains("Content-Length: 12345\r\n\r\n"));
    assert!(p.ends_with(&[7, 13, 10]));
    assert_eq!(part(&[]).len(), head.len() + 2);
}
