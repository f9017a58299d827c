use offers_studio::pty::PtyError;
use offers_studio::pty::PtyManager;
use offers_studio::pty_raw::read_block;
use offers_studio::pty_raw::wait_child;
use offers_studio::stream::StreamDecoder;

#[test]
fn unknown_ids_report_not_found() {
    let mut m = PtyManager::new();
    assert!(matches!(m.write(0, b"x"), Err(PtyError::NotFound)));
    assert!(matches!(m.resize(0, 80, 24), Err(PtyError::NotFound)));
    assert!(matches!(m.kill(0), Err(PtyError::NotFound)));
}

#[test]
fn session_lifecycle_and_id_rules() {
    let mut m = PtyManager::new();
    let spawned = m
        .spawn("printf", &vec!["ok".to_string()], "/tmp", 80, 24)
        .expect("spawn failed");
    let id = spawned.id;
    // a live id is accepted
    assert!(m.resize(id, 100, 40).is_ok());
    // kill succeeds once
    assert!(m.kill(id).is_ok());
    // a second kill reports NotFound, never a second success
    assert!(matches!(m.kill(id), Err(PtyError::NotFound)));
    // write and resize after kill report NotFound, never a stale success
    assert!(matches!(m.write(id, b"x"), Err(PtyError::NotFound)));
    assert!(matches!(m.resize(id, 80, 24), Err(PtyError::NotFound)));
    // a later session never reuses the id
    let mut child = spawned.child;
    wait_child(&mut child);
    let second = m
        .spawn("printf", &vec!["ok".to_string()], "/tmp", 80, 24)
        .expect("second spawn failed");
    assert_ne!(second.id, id);
    let mut child2 = second.child;
    wait_child(&mut child2);
    let _ = m.kill(second.id);
}

#[test]
fn streamed_output_reassembles_exactly() {
    // end to end: a child that writes "héllo" through a pseudo-terminal;
    // the chunks concatenate to exactly "héllo" followed by the one exit
    // notification, with no replacement character
    let mut m = PtyManager::new();
    let spawned = m
        .spawn("printf", &vec!["héllo".to_string()], "/tmp", 80, 24)
        .expect("spawn failed");
    let mut reader = spawned.reader;
    let mut child = spawned.child;
    let mut decoder = StreamDecoder::new();
    let mut text = String::new();
    let mut chunk_events: usize = 0;
    let mut buf: Vec<u8> = vec![0u8; 8192];
    loop {
        match read_block(&mut reader, &mut buf) {
            Ok(0) => break,
            Ok(n) => {
                if let Some(c) = decoder.push(&buf[..n]) {
                    text.push_str(&c);
                    chunk_events += 1;
                }
            }
            Err(_) => break,
        }
    }
    if let Some(c) = decoder.finish() {
        text.push_str(&c);
        chunk_events += 1;
    }
    assert!(!decoder.is_live());
    wait_child(&mut child);
    assert_eq!(text, "héllo");
    assert!(!text.contains('\u{FFFD}'));
    assert!(chunk_events >= 1);
    let _ = m.kill(spawned.id);
}

#[test]
fn write_reaches_child_input() {
    // cat echoes its input back through the pseudo-terminal
    let mut m = PtyManager::new();
    let spawned = m
        .spawn("cat", &Vec::new(), "/tmp", 80, 24)
        .expect("spawn failed");
    let id = spawned.id;
    assert!(m.write(id, b"ping\n").is_ok());
    let mut reader = spawned.reader;
    let mut collected = String::new();
    let mut buf: Vec<u8> = vec![0u8; 8192];
    while !collected.contains("ping") {
        match read_block(&mut reader, &mut buf) {
            Ok(0) => break,
            Ok(n) => collected.push_str(&String::from_utf8_lossy(&buf[..n])),
            Err(_) => break,
        }
    }
    assert!(collected.contains("ping"));
    assert!(m.kill(id).is_ok());
}
