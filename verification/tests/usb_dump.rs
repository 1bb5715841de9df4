use omi_persona::usb_dump::{
    check_eot, check_status, file_size, read_command, read_exact, status_name, ChunkRead,
    ChunkStep, ExactRead, PortRead, ReadStep, Transfer, CHUNK_LEN, EOT_MARKER,
};

#[test]
fn the_command_holds_the_offset_most_significant_byte_first() {
    assert_eq!(read_command(0), [0, 1, 0, 0, 0, 0]);
    assert_eq!(read_command(0x1234_5678), [0, 1, 0x12, 0x34, 0x56, 0x78]);
    assert_eq!(read_command(u32::MAX), [0, 1, 255, 255, 255, 255]);
}

#[test]
fn the_file_size_comes_least_significant_byte_first() {
    assert_eq!(file_size([0x78, 0x56, 0x34, 0x12]), 0x1234_5678);
    assert_eq!(file_size([0, 0, 4, 0]), 262_144);
    assert_eq!(file_size([255; 4]), u32::MAX);
}

#[test]
fn statuses() {
    assert_eq!(status_name(0), "OK");
    assert_eq!(status_name(3), "INVALID_FILE_SIZE (offset >= file size)");
    assert_eq!(status_name(4), "ZERO_FILE_SIZE (no data on SD card)");
    assert_eq!(status_name(6), "INVALID_COMMAND");
    assert_eq!(status_name(1), "UNKNOWN");
    assert_eq!(check_status(0), Ok(()));
    assert_eq!(
        check_status(4),
        Err("device status 0x04: ZERO_FILE_SIZE (no data on SD card)".to_string())
    );
    assert_eq!(check_status(0xab), Err("device status 0xab: UNKNOWN".to_string()));
}

#[test]
fn exact_reads_collect_bytes() {
    let mut read = ExactRead::new(4);
    assert_eq!(read.missing(), 4);
    assert!(matches!(read_exact(&mut read, PortRead::Data(vec![1, 2, 3])), ReadStep::More));
    assert_eq!(read.missing(), 1);
    assert!(matches!(read_exact(&mut read, PortRead::Data(vec![4])), ReadStep::Done));
    assert_eq!(read.missing(), 0);
    assert_eq!(read.bytes(), vec![1, 2, 3, 4]);
}

#[test]
fn exact_reads_report_what_went_wrong() {
    let mut read = ExactRead::new(12);
    read_exact(&mut read, PortRead::Data(vec![9; 10]));
    match read_exact(&mut read, PortRead::TimedOut) {
        ReadStep::TimedOut(m) => assert_eq!(m, "timeout after reading 10 of 12 bytes"),
        _ => panic!("expected a timeout"),
    }
    match read_exact(&mut read, PortRead::Data(Vec::new())) {
        ReadStep::Closed(m) => assert_eq!(m, "device closed connection after 10 bytes"),
        _ => panic!("expected a closed connection"),
    }
    assert!(matches!(read_exact(&mut read, PortRead::Failed), ReadStep::Failed));
    assert_eq!(read.missing(), 2);
}

#[test]
fn transfers_ask_for_chunks_until_all_is_there() {
    let mut t = Transfer::new(10_000, 100);
    let mut received = 0usize;
    let mut reads = 0;
    loop {
        let want = t.want();
        if want == 0 {
            break;
        }
        assert!(want <= CHUNK_LEN);
        // Short reads now and then.
        let n = if reads % 2 == 0 { want } else { (want + 1) / 2 };
        assert!(matches!(t.on_chunk(ChunkRead::Data(n)), ChunkStep::Write));
        received += n;
        reads += 1;
    }
    assert_eq!(received, 9_900);
    assert_eq!(t.progress(), (9_900, 9_900));
}

#[test]
fn transfers_beyond_the_file_are_empty() {
    assert_eq!(Transfer::new(10, 10).want(), 0);
    assert_eq!(Transfer::new(10, 11).progress(), (0, 0));
    assert_eq!(Transfer::new(u32::MAX, 0).want(), CHUNK_LEN);
}

#[test]
fn transfers_report_what_went_wrong() {
    let mut t = Transfer::new(5000, 0);
    t.on_chunk(ChunkRead::Data(4096));
    match t.on_chunk(ChunkRead::Data(0)) {
        ChunkStep::Ended(m) => assert_eq!(m, "stream ended at 4096 / 5000 bytes"),
        _ => panic!("expected the end"),
    }
    match t.on_chunk(ChunkRead::TimedOut) {
        ChunkStep::TimedOut(m) => assert_eq!(m, "read timeout at 4096 / 5000 bytes"),
        _ => panic!("expected a timeout"),
    }
    assert!(matches!(t.on_chunk(ChunkRead::Failed), ChunkStep::Failed));
    assert_eq!(t.progress(), (4096, 5000));
}

#[test]
fn end_of_transmission() {
    assert_eq!(EOT_MARKER, 0x64);
    assert_eq!(check_eot(0x64), Ok(()));
    assert_eq!(check_eot(0x0f), Err("expected EOT 0x64, got 0x0f".to_string()));
}
