use omi_persona::dump_session::{DumpSession, SessionStep};
use omi_persona::usb_dump::{PortRead, CHUNK_LEN};

fn answer(size: u32, data: &[u8], eot: u8) -> Vec<u8> {
    let mut a = vec![0u8];
    a.extend(size.to_le_bytes());
    a.extend(data);
    a.push(eot);
    a
}

/// Feeds an answer of the device in reads of at most `most` bytes; returns what was written and
/// the last step.
fn run(offset: u32, sent: &[u8], most: usize) -> (Vec<u8>, SessionStep) {
    let mut session = DumpSession::new(offset);
    let mut written = Vec::new();
    let mut at = 0;
    loop {
        let n = session.want().min(most).min(sent.len() - at);
        assert!(session.want() > 0 && session.want() <= CHUNK_LEN);
        match session.on_read(PortRead::Data(sent[at..at + n].to_vec())) {
            SessionStep::More | SessionStep::Header { .. } => {}
            SessionStep::Write(b) => written.extend(b),
            last => return (written, last),
        }
        at += n;
    }
}

#[test]
fn a_complete_answer_is_written_whatever_the_reads() {
    let data: Vec<u8> = (0..9000u32).map(|i| (i * 7) as u8).collect();
    for most in [1, 3, 100, 4096, 100_000] {
        let (written, last) = run(1000, &answer(10_000, &data, 0x64), most);
        assert_eq!(written, data);
        assert!(matches!(last, SessionStep::Verified));
    }
}

#[test]
fn an_offset_at_the_end_asks_for_the_marker_alone() {
    let (written, last) = run(50, &answer(50, &[], 0x64), 10);
    assert!(written.is_empty());
    assert!(matches!(last, SessionStep::Verified));
}

#[test]
fn a_wrong_marker_is_suspicious() {
    let (written, last) = run(0, &answer(2, &[8, 9], 0x65), 10);
    assert_eq!(written, vec![8, 9]);
    match last {
        SessionStep::Suspicious(m) => assert_eq!(m, "expected EOT 0x64, got 0x65"),
        _ => panic!("expected a suspicious end"),
    }
}

#[test]
fn the_header_tells_the_size() {
    let mut s = DumpSession::new(10);
    assert_eq!(s.want(), 1);
    assert!(matches!(s.on_read(PortRead::Data(vec![0])), SessionStep::More));
    assert_eq!(s.want(), 4);
    assert!(matches!(s.on_read(PortRead::Data(vec![0, 1])), SessionStep::More));
    assert_eq!(s.want(), 2);
    match s.on_read(PortRead::Data(vec![0, 0])) {
        SessionStep::Header { file_size, to_receive } => {
            assert_eq!((file_size, to_receive), (256, 246));
        }
        _ => panic!("expected the header"),
    }
    assert_eq!(s.want(), 246);
    assert_eq!(s.progress(), (0, 246));
}

fn message(step: SessionStep) -> String {
    match step {
        SessionStep::Refused(m)
        | SessionStep::Closed(m)
        | SessionStep::TimedOut(m)
        | SessionStep::Unmarked(Some(m)) => m,
        _ => panic!("expected a message"),
    }
}

#[test]
fn every_phase_reports_what_went_wrong() {
    let (_, last) = run(0, &[6], 1);
    assert!(matches!(last, SessionStep::Refused(_)));
    assert_eq!(message(last), "device status 0x06: INVALID_COMMAND");

    let mut s = DumpSession::new(0);
    assert_eq!(message(s.on_read(PortRead::TimedOut)), "timeout after reading 0 of 1 bytes");
    assert_eq!(
        message(s.on_read(PortRead::Data(vec![]))),
        "device closed connection after 0 bytes"
    );
    s.on_read(PortRead::Data(vec![0]));
    s.on_read(PortRead::Data(vec![3, 0]));
    assert_eq!(message(s.on_read(PortRead::TimedOut)), "timeout after reading 2 of 4 bytes");
    assert!(matches!(s.on_read(PortRead::Failed), SessionStep::Failed));
    s.on_read(PortRead::Data(vec![0, 0]));
    s.on_read(PortRead::Data(vec![1]));
    assert_eq!(message(s.on_read(PortRead::TimedOut)), "read timeout at 1 / 3 bytes");
    assert_eq!(message(s.on_read(PortRead::Data(vec![]))), "stream ended at 1 / 3 bytes");
    s.on_read(PortRead::Data(vec![2, 3]));
    assert_eq!(message(s.on_read(PortRead::TimedOut)), "timeout after reading 0 of 1 bytes");
    assert!(matches!(s.on_read(PortRead::Failed), SessionStep::Unmarked(None)));
    assert_eq!(s.progress(), (3, 3));
}

#[test]
fn progress_stays_known_when_the_session_is_over() {
    let mut s = DumpSession::new(1);
    assert_eq!(s.progress(), (0, 0));
    s.on_read(PortRead::Data(vec![0]));
    s.on_read(PortRead::Data(vec![3, 0, 0, 0]));
    s.on_read(PortRead::Data(vec![7]));
    assert_eq!(s.progress(), (1, 2));
    s.on_read(PortRead::Data(vec![8]));
    s.on_read(PortRead::Data(vec![0x64]));
    assert_eq!(s.want(), 0);
    assert_eq!(s.progress(), (2, 2));
}
