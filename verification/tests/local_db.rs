use omi_persona::calendar::civil_from_days;
use omi_persona::local_db::{
    batch_rows, grdb_datetime, memory_row, sql_limit, IngestMemory, FETCH_SQL, INPUT_DEVICE_NAME, INSERT_SQL,
    SOURCE_USB_DUMP,
};
use rusqlite::Connection;

#[test]
fn grdb_datetime_format() {
    // 2021-01-01 00:00:00 UTC
    assert_eq!(grdb_datetime(1_609_459_200), "2021-01-01 00:00:00.000");
    // 2024-06-15 12:30:45 UTC
    assert_eq!(grdb_datetime(1_718_454_645), "2024-06-15 12:30:45.000");
    // Unix epoch
    assert_eq!(grdb_datetime(0), "1970-01-01 00:00:00.000");
}

#[test]
fn datetimes_at_the_edges_of_the_calendar() {
    assert_eq!(grdb_datetime(86_399), "1970-01-01 23:59:59.000");
    assert_eq!(grdb_datetime(951_782_400), "2000-02-29 00:00:00.000");
    assert_eq!(grdb_datetime(951_868_800), "2000-03-01 00:00:00.000");
    assert_eq!(grdb_datetime(4_107_542_399), "2100-02-28 23:59:59.000");
    assert_eq!(grdb_datetime(4_107_542_400), "2100-03-01 00:00:00.000");
    assert_eq!(grdb_datetime(253_402_300_799), "9999-12-31 23:59:59.000");
    assert_eq!(grdb_datetime(253_402_300_800), "10000-01-01 00:00:00.000");
    assert_eq!(grdb_datetime(u64::MAX), "584554051223-11-09 07:00:15.000");
}

#[test]
fn days_are_counted_off_like_a_calendar() {
    let (mut y, mut m, mut d) = (1970u64, 1u64, 1u64);
    for days in 0..200_000u64 {
        assert_eq!(civil_from_days(days), (y, m, d));
        let leap = y % 4 == 0 && (y % 100 != 0 || y % 400 == 0);
        let len = match m {
            2 => if leap { 29 } else { 28 },
            4 | 6 | 9 | 11 => 30,
            _ => 31,
        };
        d += 1;
        if d > len {
            d = 1;
            m += 1;
        }
        if m > 12 {
            m = 1;
            y += 1;
        }
    }
}

#[test]
fn later_times_sort_later_as_text() {
    let mut last = grdb_datetime(0);
    let mut t = 0u64;
    while t < 200_000_000_000 {
        t += 1 + t / 7;
        let text = grdb_datetime(t);
        assert!(last < text, "{} {}", last, text);
        last = text;
    }
}

#[test]
fn a_new_memory_has_its_content_alone() {
    let m = IngestMemory::new("test content".to_string());
    assert_eq!(m.content, "test content");
    assert_eq!(m.category, "system");
    assert!(m.conversation_id.is_none() && m.confidence_bits.is_none());
    assert!(m.reasoning.is_none() && m.headline.is_none());
    // The clock of any machine that runs this is past 2020.
    assert!(m.created_at > 1_577_836_800);
    assert_eq!(IngestMemory::made_at("x".to_string(), Some(5)).created_at, 5);
    assert_eq!(IngestMemory::made_at("x".to_string(), None).created_at, 0);
}

#[test]
fn rows_hold_what_is_known_of_a_memory() {
    let mut m = IngestMemory::made_at("memory".to_string(), Some(1_700_059_940));
    m.conversation_id = Some("conv-7".to_string());
    m.confidence_bits = Some(0.75f64.to_bits());
    m.headline = Some("head".to_string());
    let row = memory_row(&m);
    assert_eq!(row.content, "memory");
    assert_eq!(row.category, "system");
    assert_eq!(row.source, "usb_dump");
    assert_eq!(row.input_device_name, "Omi USB");
    assert_eq!(row.conversation_id.as_deref(), Some("conv-7"));
    assert_eq!(row.confidence_bits.map(f64::from_bits), Some(0.75));
    assert_eq!(row.reasoning, None);
    assert_eq!(row.headline.as_deref(), Some("head"));
    assert_eq!(row.created_at, "2023-11-15 14:52:20.000");
    assert_eq!(row.updated_at, row.created_at);
    assert_eq!((SOURCE_USB_DUMP, INPUT_DEVICE_NAME), ("usb_dump", "Omi USB"));
}

#[test]
fn row_limits() {
    assert_eq!(sql_limit(0), 0);
    assert_eq!(sql_limit(100), 100);
    assert_eq!(sql_limit(usize::MAX), usize::MAX as i64);
    assert_eq!(sql_limit(i64::MAX as usize), i64::MAX);
    assert_eq!(sql_limit(i64::MAX as usize + 1), i64::MIN);
}

/// The rows fit the statement and the schema, in memory.
#[test]
fn rows_can_be_inserted() {
    let conn = Connection::open_in_memory().unwrap();
    conn.execute_batch(
        "CREATE TABLE memories (
            id INTEGER PRIMARY KEY AUTOINCREMENT,
            backendId TEXT UNIQUE,
            backendSynced INTEGER NOT NULL DEFAULT 0,
            content TEXT NOT NULL,
            category TEXT NOT NULL,
            visibility TEXT NOT NULL DEFAULT 'private',
            source TEXT,
            conversationId TEXT,
            confidence REAL,
            reasoning TEXT,
            inputDeviceName TEXT,
            headline TEXT,
            deleted INTEGER NOT NULL DEFAULT 0,
            createdAt TEXT NOT NULL,
            updatedAt TEXT NOT NULL
        );",
    )
    .unwrap();
    let memories: Vec<IngestMemory> = (0..50u64)
        .map(|i| IngestMemory::made_at(format!("m{i}"), Some(1_700_000_000 + i)))
        .collect();
    let rows = batch_rows(&memories);
    assert_eq!(rows.len(), 50);
    for r in &rows {
        conn.execute(
            INSERT_SQL,
            (
                &r.content,
                &r.category,
                &r.source,
                &r.conversation_id,
                r.confidence_bits.map(f64::from_bits),
                &r.reasoning,
                &r.input_device_name,
                &r.headline,
                &r.created_at,
                &r.updated_at,
            ),
        )
        .unwrap();
    }
    let mut stmt = conn.prepare(FETCH_SQL).unwrap();
    let contents: Vec<String> = stmt
        .query_map((SOURCE_USB_DUMP, sql_limit(100)), |r| r.get(1))
        .unwrap()
        .map(|r| r.unwrap())
        .collect();
    assert_eq!(contents.len(), 50);
    assert_eq!(contents[0], "m49");
    assert_eq!(contents[49], "m0");
}
