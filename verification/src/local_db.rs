//! Rows of the GRDB `memories` table.
//!
//! GRDB stores booleans as 0/1 and dates as text `YYYY-MM-DD HH:MM:SS.SSS` in UTC. Columns are
//! camelCase. Rows are inserted without a `backendId`, so that they look like locally
//! originated memories that await synchronization.

use crate::calendar;
use crate::text;
use std::time::{Duration, SystemTime};
use vstd::prelude::*;
use vstd::string::StringExecFns;

verus! {

/// A point of the system clock.
#[verifier::external_type_specification]
#[verifier::external_body]
pub struct ExSystemTime(std::time::SystemTime);

/// What `SystemTime::duration_since` returns for a time that is not later.
#[verifier::external_type_specification]
#[verifier::external_body]
pub struct ExSystemTimeError(std::time::SystemTimeError);

/// `SystemTime::now` reads the system clock; nothing is claimed of the result.
pub assume_specification[ SystemTime::now ]() -> SystemTime;

/// `SystemTime::duration_since` compares two points of the system clock; nothing is claimed
/// of the result.
pub assume_specification[ SystemTime::duration_since ](
    this: &SystemTime,
    earlier: SystemTime,
) -> Result<Duration, std::time::SystemTimeError>;

/// `Duration::as_secs` gives the whole seconds of a span of time. Spans come from the clock
/// alone and are opaque here, so nothing is claimed of the result.
pub assume_specification[ Duration::as_secs ](this: &Duration) -> u64;

/// `SystemTime::UNIX_EPOCH`: 1970-01-01 00:00:00 UTC.
#[verifier::external_body]
fn unix_epoch() -> SystemTime {
    SystemTime::UNIX_EPOCH
}

/// Minimal memory payload extracted from a dumped audio segment. The remaining columns take
/// their schema defaults.
#[derive(Debug, Clone)]
pub struct IngestMemory {
    pub content: String,
    /// "system", "interesting" or "manual".
    pub category: String,
    pub conversation_id: Option<String>,
    /// The confidence, as the bits of a double.
    pub confidence_bits: Option<u64>,
    pub reasoning: Option<String>,
    pub headline: Option<String>,
    /// Unix seconds. Converted to a GRDB datetime on write.
    pub created_at: u64,
}

impl IngestMemory {
    /// A memory with nothing but its content, made at the given time.
    pub open spec fn is_bare(self, content: Seq<char>) -> bool {
        &&& self.content@ == content
        &&& self.category@ == "system"@
        &&& self.conversation_id is None
        &&& self.confidence_bits is None
        &&& self.reasoning is None
        &&& self.headline is None
    }

    /// A memory that is made now: seconds since 1970, or zero where the clock is before that.
    /// The time that the clock shows is left open.
    pub fn new(content: String) -> (memory: Self)
        ensures
            memory.is_bare(content@),
    {
        let since: Result<Duration, std::time::SystemTimeError> = SystemTime::now().duration_since(
            unix_epoch(),
        );
        let now: Option<u64> = match since {
            Ok(d) => Some(d.as_secs()),
            Err(_) => None,
        };
        Self::made_at(content, now)
    }

    /// A memory that is made at the given time, or at 1970 where there is none.
    pub fn made_at(content: String, now: Option<u64>) -> (memory: Self)
        ensures
            memory.is_bare(content@),
            memory.created_at == match now {
                Some(t) => t,
                None => 0,
            },
    {
        IngestMemory {
            content,
            category: "system".to_string(),
            conversation_id: None,
            confidence_bits: None,
            reasoning: None,
            headline: None,
            created_at: match now {
                Some(t) => t,
                None => 0,
            },
        }
    }
}

/// Formats a Unix timestamp as GRDB's datetime text, `YYYY-MM-DD HH:MM:SS.SSS` in UTC.
pub fn grdb_datetime(unix_secs: u64) -> (res: String)
    ensures
        res@ == calendar::datetime_of(unix_secs as int).text(),
{
    let days: u64 = unix_secs / 86_400;
    let secs_of_day: u64 = unix_secs % 86_400;
    let h: u64 = secs_of_day / 3600;
    let m: u64 = (secs_of_day % 3600) / 60;
    let s: u64 = secs_of_day % 60;
    let (year, month, d): (u64, u64, u64) = calendar::civil_from_days(days);
    let mut out: String = String::new();
    text::push_padded(&mut out, year, 4);
    out.push('-');
    text::push_padded(&mut out, month, 2);
    out.push('-');
    text::push_padded(&mut out, d, 2);
    out.push(' ');
    text::push_padded(&mut out, h, 2);
    out.push(':');
    text::push_padded(&mut out, m, 2);
    out.push(':');
    text::push_padded(&mut out, s, 2);
    out.append(".000");
    proof {
        reveal_strlit(".000");
        let dt = calendar::datetime_of(unix_secs as int);
        assert((days * 86_400) / 86_400 == days);
        assert(dt.year == year && dt.month == month && dt.day == d);
        assert(".000"@ =~= seq!['.', '0', '0', '0']);
        assert(out@ =~= dt.text());
    }
    out
}

/// Source value written to every row inserted by this pipeline.
pub const SOURCE_USB_DUMP: &'static str = "usb_dump";

/// Input device name written to every row inserted by this pipeline.
pub const INPUT_DEVICE_NAME: &'static str = "Omi USB";

/// The statement that inserts a row. Every populated column is named, so that additive schema
/// migrations do not break it; columns not listed take their schema defaults.
pub const INSERT_SQL: &'static str = "INSERT INTO memories (content, category, source, conversationId, confidence, reasoning, inputDeviceName, headline, createdAt, updatedAt) VALUES (?1, ?2, ?3, ?4, ?5, ?6, ?7, ?8, ?9, ?10)";

/// The statement that reads the rows of a source, latest first.
pub const FETCH_SQL: &'static str = "SELECT id, content, conversationId, createdAt FROM memories WHERE source = ?1 AND deleted = 0 ORDER BY createdAt DESC LIMIT ?2";

/// The values of one inserted row, in the order of the parameters of `INSERT_SQL`.
#[derive(Debug, Clone)]
pub struct MemoryRow {
    pub content: String,
    pub category: String,
    pub source: String,
    pub conversation_id: Option<String>,
    pub confidence_bits: Option<u64>,
    pub reasoning: Option<String>,
    pub input_device_name: String,
    pub headline: Option<String>,
    pub created_at: String,
    pub updated_at: String,
}

pub open spec fn text_of(s: Option<String>) -> Option<Seq<char>> {
    match s {
        Some(t) => Some(t@),
        None => None,
    }
}

impl MemoryRow {
    /// The row holds what is known of the memory, and its time twice.
    pub open spec fn stores(self, m: IngestMemory) -> bool {
        &&& self.content@ == m.content@
        &&& self.category@ == m.category@
        &&& self.source@ == SOURCE_USB_DUMP@
        &&& text_of(self.conversation_id) == text_of(m.conversation_id)
        &&& self.confidence_bits == m.confidence_bits
        &&& text_of(self.reasoning) == text_of(m.reasoning)
        &&& self.input_device_name@ == INPUT_DEVICE_NAME@
        &&& text_of(self.headline) == text_of(m.headline)
        &&& self.created_at@ == calendar::datetime_of(m.created_at as int).text()
        &&& self.updated_at@ == self.created_at@
    }
}

fn clone_text(s: &Option<String>) -> (res: Option<String>)
    ensures
        text_of(res) == text_of(*s),
{
    match s {
        Some(t) => Some(t.clone()),
        None => None,
    }
}

/// The row that a memory is inserted as.
pub fn memory_row(m: &IngestMemory) -> (row: MemoryRow)
    ensures
        row.stores(*m),
{
    let ts: String = grdb_datetime(m.created_at);
    MemoryRow {
        content: m.content.clone(),
        category: m.category.clone(),
        source: SOURCE_USB_DUMP.to_string(),
        conversation_id: clone_text(&m.conversation_id),
        confidence_bits: m.confidence_bits,
        reasoning: clone_text(&m.reasoning),
        input_device_name: INPUT_DEVICE_NAME.to_string(),
        headline: clone_text(&m.headline),
        created_at: ts.clone(),
        updated_at: ts,
    }
}

/// The rows of a batch: one for each memory, in order.
pub fn batch_rows(memories: &[IngestMemory]) -> (rows: Vec<MemoryRow>)
    ensures
        rows.len() == memories.len(),
        forall|i: int| 0 <= i < rows.len() ==> (#[trigger] rows[i]).stores(memories[i]),
{
    let mut rows: Vec<MemoryRow> = Vec::new();
    let mut i: usize = 0;
    while i < memories.len()
        invariant
            i <= memories.len(),
            rows.len() == i,
            forall|j: int| 0 <= j < i ==> (#[trigger] rows[j]).stores(memories[j]),
        decreases memories.len() - i,
    {
        rows.push(memory_row(&memories[i]));
        i += 1;
    }
    rows
}

/// Rows read back that were written by this pipeline.
#[derive(Debug)]
pub struct LocalMemoryRow {
    pub id: i64,
    pub content: String,
    pub conversation_id: Option<String>,
    pub created_at: String,
}

/// A row limit as a signed SQL integer. Limits beyond its range wrap to negative numbers,
/// which SQLite takes as no limit.
pub fn sql_limit(limit: usize) -> (n: i64)
    ensures
        limit <= i64::MAX ==> n == limit,
        limit > i64::MAX ==> n == limit - 0x1_0000_0000_0000_0000,
{
    let wide: u64 = limit as u64;
    if wide <= 0x7fff_ffff_ffff_ffff {
        wide as i64
    } else {
        let below: u64 = 0xffff_ffff_ffff_ffff - wide;
        -(below as i64) - 1
    }
}

/// Rows sorted by their stored time are sorted by when their memories were made, up to the
/// year 9999: the later memory has the text that sorts later.
pub proof fn law_rows_sort_by_time(a: IngestMemory, b: IngestMemory, x: MemoryRow, y: MemoryRow)
    requires
        x.stores(a),
        y.stores(b),
        a.created_at < b.created_at,
        calendar::datetime_of(b.created_at as int).year <= 9999,
    ensures
        calendar::sorts_before(x.created_at@, y.created_at@),
{
    calendar::law_text_order_is_time_order(a.created_at as int, b.created_at as int);
}

/// A row has every text of its memory as it is, the fixed source and device, and the time of the
/// memory, as text, both as the time of creation and as that of the last change.
pub proof fn law_rows_hold_their_memory(m: IngestMemory, row: MemoryRow)
    requires
        row.stores(m),
    ensures
        row.content@ == m.content@,
        row.category@ == m.category@,
        row.source@ == "usb_dump"@,
        row.input_device_name@ == "Omi USB"@,
        row.confidence_bits == m.confidence_bits,
        m.conversation_id is None <==> row.conversation_id is None,
        m.conversation_id matches Some(t) ==> row.conversation_id->Some_0@ == t@,
        m.reasoning is None <==> row.reasoning is None,
        m.reasoning matches Some(t) ==> row.reasoning->Some_0@ == t@,
        m.headline is None <==> row.headline is None,
        m.headline matches Some(t) ==> row.headline->Some_0@ == t@,
        row.created_at@ == calendar::datetime_of(m.created_at as int).text(),
        row.updated_at@ == calendar::datetime_of(m.created_at as int).text(),
{
}

/// A new memory has its content, is of the category `system`, and has nothing else.
pub proof fn law_new_memories_are_bare(m: IngestMemory, content: Seq<char>)
    requires
        m.is_bare(content),
    ensures
        m.content@ == content,
        m.category@ == "system"@,
        m.conversation_id is None && m.confidence_bits is None && m.reasoning is None
            && m.headline is None,
{
}

} // verus!
