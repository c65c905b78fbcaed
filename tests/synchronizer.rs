use ld19::{checksum, sync_stream, DecodeError, SyncEvent, Synchronizer, FRAME_SIZE};

fn frame_bytes(speed: u16) -> Vec<u8> {
    let mut v = vec![0x54u8, 0x2C, (speed % 256) as u8, (speed / 256) as u8, 0x00, 0x00];
    v.extend(std::iter::repeat(0u8).take(40));
    let crc = checksum(&v);
    v.push(crc);
    v
}

#[test]
fn two_noise_bytes_are_discarded() {
    let mut stream = vec![0x00u8, 0x00];
    stream.extend(frame_bytes(1000));
    let r = sync_stream(&stream);
    assert_eq!(r.discarded, 2);
    let f = r.frame.unwrap();
    assert_eq!(f.speed, 1000);
}

#[test]
fn aligned_stream_discards_nothing() {
    let r = sync_stream(&frame_bytes(7));
    assert_eq!(r.discarded, 0);
    assert_eq!(r.frame.unwrap().speed, 7);
}

#[test]
fn k_noise_bytes_are_discarded_exactly() {
    for k in 0..60usize {
        let mut stream: Vec<u8> = (0..k).map(|i| (i % 0x50) as u8).collect();
        stream.extend(frame_bytes(500));
        stream.extend([0x54u8, 0x01, 0x02]);
        let r = sync_stream(&stream);
        assert_eq!(r.discarded, k);
        assert_eq!(r.frame.unwrap().speed, 500);
    }
}

#[test]
fn stream_without_start_byte_is_all_noise() {
    let stream = vec![0x01u8; 100];
    let r = sync_stream(&stream);
    assert_eq!(r.discarded, 100);
    assert!(r.frame.is_none());
}

#[test]
fn empty_stream_gives_nothing() {
    let r = sync_stream(&[]);
    assert_eq!(r.discarded, 0);
    assert!(r.frame.is_none());
}

#[test]
fn incomplete_window_gives_no_frame() {
    let mut stream = vec![0x11u8, 0x22, 0x33];
    stream.extend(&frame_bytes(9)[..FRAME_SIZE - 1]);
    let r = sync_stream(&stream);
    assert_eq!(r.discarded, stream.len());
    assert!(r.frame.is_none());
}

#[test]
fn corrupted_window_is_skipped() {
    let mut stream = vec![0x00u8];
    let mut f = frame_bytes(9);
    f[10] ^= 0x40;
    stream.extend(f);
    let r = sync_stream(&stream);
    assert_eq!(r.discarded, stream.len());
    assert!(r.frame.is_none());
    stream.extend(frame_bytes(11));
    let r = sync_stream(&stream);
    assert_eq!(r.discarded, 1 + FRAME_SIZE);
    assert_eq!(r.frame.unwrap().speed, 11);
}

#[test]
fn false_start_byte_does_not_lose_frame() {
    let mut stream = vec![0x54u8, 0x00];
    stream.extend(frame_bytes(321));
    let r = sync_stream(&stream);
    assert_eq!(r.discarded, 2);
    assert_eq!(r.frame.unwrap().speed, 321);
}

#[test]
fn false_start_bytes_inside_noise_are_skipped() {
    let mut stream = vec![0x54u8, 0x54, 0x01, 0x54, 0x2C, 0x54];
    stream.extend(frame_bytes(42));
    let r = sync_stream(&stream);
    assert_eq!(r.discarded, 6);
    assert_eq!(r.frame.unwrap().speed, 42);
}

#[test]
fn wrong_ver_len_window_is_not_surfaced() {
    let mut s = Synchronizer::new();
    let mut bad = vec![0x54u8, 0x2D];
    bad.extend(std::iter::repeat(0u8).take(44));
    let crc = checksum(&bad);
    bad.push(crc);
    assert_eq!(bad.len(), FRAME_SIZE);
    let mut events = Vec::new();
    for b in &bad {
        events.push(s.push_byte(*b));
    }
    assert!(matches!(events[FRAME_SIZE - 1], SyncEvent::Discarded));
    assert!(events.iter().all(|e| !matches!(e, SyncEvent::Completed(_))));
    assert!(!s.is_aligned());
    let mut stream = bad.clone();
    stream.extend(frame_bytes(77));
    let r = sync_stream(&stream);
    assert_eq!(r.discarded, FRAME_SIZE);
    assert_eq!(r.frame.unwrap().speed, 77);
}

#[test]
fn rejected_window_resumes_at_next_start_byte() {
    let mut s = Synchronizer::new();
    let mut bad = frame_bytes(3);
    bad[20] = 0x54;
    for b in &bad[..FRAME_SIZE - 1] {
        assert!(matches!(s.push_byte(*b), SyncEvent::Pending));
    }
    assert!(matches!(
        s.push_byte(bad[FRAME_SIZE - 1]),
        SyncEvent::Completed(Err(DecodeError::ChecksumMismatch))
    ));
    assert!(s.is_aligned());
    assert_eq!(s.bytes_wanted(), FRAME_SIZE - (FRAME_SIZE - 20));
}

#[test]
fn synchronizer_steps_through_a_frame() {
    let mut s = Synchronizer::new();
    assert!(!s.is_aligned());
    assert_eq!(s.bytes_wanted(), 1);
    assert!(matches!(s.push_byte(0x00), SyncEvent::Discarded));
    assert!(matches!(s.push_byte(0x2C), SyncEvent::Discarded));
    assert_eq!(s.bytes_wanted(), 1);
    let bytes = frame_bytes(1234);
    assert!(matches!(s.push_byte(bytes[0]), SyncEvent::Pending));
    assert!(s.is_aligned());
    assert_eq!(s.bytes_wanted(), FRAME_SIZE - 1);
    for (i, b) in bytes[1..FRAME_SIZE - 1].iter().enumerate() {
        assert!(matches!(s.push_byte(*b), SyncEvent::Pending));
        assert_eq!(s.bytes_wanted(), FRAME_SIZE - 2 - i);
    }
    match s.push_byte(bytes[FRAME_SIZE - 1]) {
        SyncEvent::Completed(Ok(f)) => assert_eq!(f.speed, 1234),
        _ => panic!("expected a decoded frame"),
    }
    assert!(!s.is_aligned());
    assert_eq!(s.bytes_wanted(), 1);
}

#[test]
fn synchronizer_resumes_scanning_after_bad_frame() {
    let mut s = Synchronizer::new();
    let mut bad = frame_bytes(1);
    bad[46] ^= 0xFF;
    let mut last = None;
    for b in bad {
        last = Some(s.push_byte(b));
    }
    assert!(matches!(last, Some(SyncEvent::Completed(Err(DecodeError::ChecksumMismatch)))));
    assert!(matches!(s.push_byte(0x00), SyncEvent::Discarded));
    let good = frame_bytes(2);
    let mut out = None;
    for b in good {
        if let SyncEvent::Completed(r) = s.push_byte(b) {
            out = Some(r);
        }
    }
    assert_eq!(out.unwrap().unwrap().speed, 2);
}
