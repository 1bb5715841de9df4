//! What comes out of a dump, told by the records that it is made of.

use crate::opus_parser::{OpusFrame, WalSegment};
use crate::opus_parser;
use crate::opus_stream;
use crate::opus_stream::{FrameView, ParserView, Record};
use crate::sums;
use vstd::prelude::*;

verus! {

/// The first byte of an Opus frame.
pub open spec fn begins_frame(b: u8) -> bool {
    b == 0xb8 || b == 0xb0 || b == 0xbc || b == 0xf8 || b == 0xfc || b == 0x78 || b == 0x7c
}

/// The data of a record is a frame: up to 160 bytes, the first of which begins a frame.
pub open spec fn is_frame(data: Seq<u8>) -> bool {
    1 <= data.len() <= 160 && begins_frame(data[0])
}

proof fn lemma_begins_frame(b: u8)
    ensures
        opus_stream::valid_toc(b) <==> begins_frame(b),
{
    let all = opus_parser::VALID_TOC_BYTES@;
    assert(all[0] == 0xb8 && all[1] == 0xb0 && all[2] == 0xbc && all[3] == 0xf8 && all[4] == 0xfc
        && all[5] == 0x78 && all[6] == 0x7c);
    assert(all.len() == 7);
}

/// How many of the first `k` records are frames.
pub open spec fn frames_before(records: Seq<Record>, k: int) -> int {
    sums::sum_to(
        k,
        |i: int|
            if is_frame(records[i].data) {
                1
            } else {
                0
            },
    )
}

/// How many of the records are longer than any frame.
pub open spec fn too_long(records: Seq<Record>) -> int {
    sums::sum_to(
        records.len() as int,
        |i: int|
            if records[i].data.len() > 160 {
                1
            } else {
                0
            },
    )
}

/// How many of the records could be frames by their length, but do not begin as one.
pub open spec fn misbegun(records: Seq<Record>) -> int {
    sums::sum_to(
        records.len() as int,
        |i: int|
            if records[i].data.len() <= 160 && !begins_frame(records[i].data[0]) {
                1
            } else {
                0
            },
    )
}

/// How many bytes the first `k` records take, each with its length byte and its padding.
pub open spec fn bytes_before(records: Seq<Record>, k: int) -> int {
    sums::sum_to(k, |i: int| (1 + records[i].data.len() + records[i].padding) as int)
}

/// The bytes of the end of a dump that cut a record short: a length and too few bytes behind it.
pub open spec fn cut_short(tail: Seq<u8>) -> bool {
    tail.len() > 0 && tail[0] > 0 && tail.len() < 1 + tail[0]
}

/// What a run over records gives, from a state that waits for a length byte.
spec fn gives(
    p: ParserView,
    records: Seq<Record>,
    q: ParserView,
    frames: Seq<FrameView>,
) -> bool {
    let n = records.len() as int;
    &&& q.phase is Length
    &&& q.bytes_read == p.bytes_read + bytes_before(records, n)
    &&& q.frames_ok == p.frames_ok + frames_before(records, n)
    &&& q.skipped_bad_len == p.skipped_bad_len + too_long(records)
    &&& q.skipped_bad_toc == p.skipped_bad_toc + misbegun(records)
    &&& frames.len() == frames_before(records, n)
    &&& forall|k: int|
        0 <= k < n && is_frame((#[trigger] records[k]).data) ==> {
            let j = frames_before(records, k);
            &&& 0 <= j < frames.len()
            &&& frames[j].data == records[k].data
            &&& frames[j].offset == p.bytes_read + bytes_before(records, k)
        }
}

/// Sums over records do not change when more records follow.
proof fn lemma_counts_of_rest(records: Seq<Record>, k: int)
    requires
        records.len() > 0,
        0 <= k < records.len(),
    ensures
        frames_before(records.drop_last(), k) == frames_before(records, k),
        bytes_before(records.drop_last(), k) == bytes_before(records, k),
        0 <= frames_before(records, k),
    decreases k,
{
    if k > 0 {
        lemma_counts_of_rest(records, k - 1);
        assert(records.drop_last()[k - 1] == records[k - 1]);
    }
}

proof fn lemma_counts_step(records: Seq<Record>)
    requires
        records.len() > 0,
    ensures
        ({
            let rest = records.drop_last();
            let last = records.last();
            let m = rest.len() as int;
            &&& frames_before(records, m + 1) == frames_before(rest, m) + if is_frame(last.data) {
                1int
            } else {
                0
            }
            &&& bytes_before(records, m + 1) == bytes_before(rest, m) + 1 + last.data.len()
                + last.padding
            &&& too_long(records) == too_long(rest) + if last.data.len() > 160 {
                1int
            } else {
                0
            }
            &&& misbegun(records) == misbegun(rest) + if last.data.len() <= 160 && !begins_frame(
                last.data[0],
            ) {
                1int
            } else {
                0
            }
        }),
{
    let rest = records.drop_last();
    let m = rest.len() as int;
    lemma_counts_of_rest(records, m);
    sums::lemma_sum_to_ext(
        m,
        |i: int|
            if rest[i].data.len() > 160 {
                1
            } else {
                0
            },
        |i: int|
            if records[i].data.len() > 160 {
                1
            } else {
                0
            },
    );
    sums::lemma_sum_to_ext(
        m,
        |i: int|
            if rest[i].data.len() <= 160 && !begins_frame(rest[i].data[0]) {
                1
            } else {
                0
            },
        |i: int|
            if records[i].data.len() <= 160 && !begins_frame(records[i].data[0]) {
                1
            } else {
                0
            },
    );
}

proof fn lemma_run_records(p: ParserView, records: Seq<Record>)
    requires
        p.phase is Length,
        opus_stream::encodable(records),
    ensures
        gives(
            p,
            records,
            opus_stream::run(p, opus_stream::encode(records)).0,
            opus_stream::run(p, opus_stream::encode(records)).1,
        ),
    decreases records.len(),
{
    if records.len() > 0 {
        let rest = records.drop_last();
        let last = records.last();
        assert(last == records[records.len() - 1]);
        assert(opus_stream::encodable(rest)) by {
            assert forall|k: int| 0 <= k < rest.len() implies 1 <= (#[trigger] rest[k]).data.len()
                <= 255 by {
                assert(rest[k] == records[k]);
            }
        }
        lemma_run_records(p, rest);
        let (q, before) = opus_stream::run(p, opus_stream::encode(rest));
        let bytes = opus_stream::record(last.data);
        let padding = opus_stream::zeros(last.padding);
        opus_stream::law_run_in_chunks(p, opus_stream::encode(rest), bytes + padding);
        opus_stream::law_run_in_chunks(q, bytes, padding);
        opus_stream::lemma_run_record(q, last.data);
        let (r, more) = opus_stream::run(q, bytes);
        opus_stream::lemma_run_padding(r, last.padding);
        assert(opus_stream::run(q, bytes + padding).1 =~= more);
        let (end, frames) = opus_stream::run(p, opus_stream::encode(records));
        assert(frames == before + more);
        lemma_begins_frame(last.data[0]);
        lemma_counts_step(records);
        let m = rest.len() as int;
        lemma_counts_of_rest(records, m);
        assert forall|k: int| 0 <= k < records.len() && is_frame(
            (#[trigger] records[k]).data,
        ) implies {
            let j = frames_before(records, k);
            &&& 0 <= j < frames.len()
            &&& frames[j].data == records[k].data
            &&& frames[j].offset == p.bytes_read + bytes_before(records, k)
        } by {
            lemma_counts_of_rest(records, k);
            if k < m {
                assert(rest[k] == records[k]);
                assert(is_frame(rest[k].data));
                let j = frames_before(rest, k);
                assert(0 <= j < before.len());
                assert(frames[j] == before[j]);
            } else {
                assert(more.len() == 1);
                assert(frames[before.len() as int] == more[0]);
            }
        }
    }
}

/// Behind whole records, a record that is cut short adds no frame; its length counts as skipped
/// where it is too long for a frame.
proof fn lemma_run_tail(p: ParserView, tail: Seq<u8>)
    requires
        p.phase is Length,
        tail.len() == 0 || cut_short(tail),
    ensures
        opus_stream::run(p, tail).1.len() == 0,
        opus_stream::run(p, tail).0.bytes_read == p.bytes_read + tail.len(),
        opus_stream::run(p, tail).0.frames_ok == p.frames_ok,
        opus_stream::run(p, tail).0.skipped_bad_toc == p.skipped_bad_toc,
        opus_stream::run(p, tail).0.skipped_bad_len == p.skipped_bad_len + if tail.len() > 0
            && tail[0] > 160 {
            1int
        } else {
            0
        },
{
    if tail.len() > 0 {
        let rest = tail.skip(1);
        assert(tail =~= seq![tail[0]] + rest);
        opus_stream::lemma_run_one(p, tail[0]);
        opus_stream::law_run_in_chunks(p, seq![tail[0]], rest);
        let q = opus_stream::on_length(p, tail[0]);
        if tail[0] > 160 {
            opus_stream::lemma_run_skip(q, rest);
        } else {
            opus_stream::lemma_run_body(q, rest);
        }
    }
}

/// The bytes of a dump: padding, records with padding behind each, and perhaps a record that is
/// cut short.
pub open spec fn dump_of(lead: nat, records: Seq<Record>, tail: Seq<u8>) -> Seq<u8> {
    opus_stream::zeros(lead) + opus_stream::encode(records) + tail
}

/// Exactly the records of a dump that are frames come out, in order, unchanged and each with the
/// offset of its length byte. A record is passed over as a whole and counted, once, by what is
/// wrong with it: that it is longer than 160 bytes, or that it does not begin as a frame. Padding
/// and a record that is cut short give nothing, and every byte is counted.
pub proof fn law_frames_of_a_dump(lead: nat, records: Seq<Record>, tail: Seq<u8>, k: int)
    requires
        opus_stream::encodable(records),
        tail.len() == 0 || cut_short(tail),
    ensures
        ({
            let n = records.len() as int;
            let (p, frames) = opus_stream::run(
                opus_stream::fresh(),
                dump_of(lead, records, tail),
            );
            &&& frames.len() == frames_before(records, n)
            &&& p.frames_ok == frames_before(records, n)
            &&& p.skipped_bad_len == too_long(records) + if tail.len() > 0 && tail[0] > 160 {
                1int
            } else {
                0
            }
            &&& p.skipped_bad_toc == misbegun(records)
            &&& p.bytes_read == lead + bytes_before(records, n) + tail.len()
            &&& 0 <= k < n && is_frame(records[k].data) ==> {
                let j = frames_before(records, k);
                &&& 0 <= j < frames.len()
                &&& frames[j].data == records[k].data
                &&& frames[j].offset == lead + bytes_before(records, k)
            }
        }),
{
    let fresh = opus_stream::fresh();
    let padding = opus_stream::zeros(lead);
    let body = opus_stream::encode(records);
    opus_stream::lemma_run_padding(fresh, lead);
    let p = opus_stream::run(fresh, padding).0;
    lemma_run_records(p, records);
    let (q, frames) = opus_stream::run(p, body);
    lemma_run_tail(q, tail);
    opus_stream::law_run_in_chunks(fresh, padding, body);
    opus_stream::law_run_in_chunks(fresh, padding + body, tail);
    assert(opus_stream::run(fresh, dump_of(lead, records, tail)).1 =~= frames);
    if 0 <= k < records.len() && is_frame(records[k].data) {
        assert(is_frame(records[k].data));
    }
}

/// The bytes of records, the first of them in front.
proof fn lemma_encode_front(r: Record, records: Seq<Record>)
    ensures
        opus_stream::encode(seq![r] + records) == opus_stream::record(r.data) + opus_stream::zeros(
            r.padding,
        ) + opus_stream::encode(records),
    decreases records.len(),
{
    let all = seq![r] + records;
    let front = opus_stream::record(r.data) + opus_stream::zeros(r.padding);
    if records.len() == 0 {
        assert(all.drop_last() =~= Seq::<Record>::empty());
        assert(all.last() == r);
        assert(opus_stream::encode(all.drop_last()) =~= Seq::<u8>::empty());
        assert(opus_stream::encode(all) =~= front);
        assert(front + opus_stream::encode(records) =~= front);
    } else {
        let rest = records.drop_last();
        lemma_encode_front(r, rest);
        assert(all.drop_last() =~= seq![r] + rest);
        assert(all.last() == records.last());
        assert(opus_stream::encode(all) =~= front + opus_stream::encode(records));
    }
}

proof fn lemma_parts(dump: Seq<u8>) -> (parts: (nat, Seq<Record>, Seq<u8>))
    ensures
        opus_stream::encodable(parts.1),
        parts.2.len() == 0 || cut_short(parts.2),
        dump == dump_of(parts.0, parts.1, parts.2),
    decreases dump.len(),
{
    if dump.len() == 0 {
        let parts = (0nat, Seq::<Record>::empty(), Seq::<u8>::empty());
        assert(dump_of(0, parts.1, parts.2) =~= dump);
        parts
    } else if dump[0] == 0 {
        let (lead, records, tail) = lemma_parts(dump.skip(1));
        assert(dump =~= seq![0u8] + dump.skip(1));
        assert(dump_of(lead + 1, records, tail) =~= seq![0u8] + dump_of(lead, records, tail));
        (lead + 1, records, tail)
    } else if dump.len() < 1 + dump[0] {
        let parts = (0nat, Seq::<Record>::empty(), dump);
        assert(dump_of(0, parts.1, parts.2) =~= dump);
        parts
    } else {
        let end = 1 + dump[0] as int;
        let (lead, records, tail) = lemma_parts(dump.skip(end));
        let r = Record { data: dump.subrange(1, end), padding: lead };
        let all = seq![r] + records;
        lemma_encode_front(r, records);
        assert(opus_stream::encodable(all)) by {
            assert forall|k: int| 0 <= k < all.len() implies 1 <= (#[trigger] all[k]).data.len()
                <= 255 by {
                if k > 0 {
                    assert(all[k] == records[k - 1]);
                }
            }
        }
        assert(dump =~= opus_stream::record(r.data) + dump.skip(end));
        assert(dump_of(0, all, tail) =~= opus_stream::record(r.data) + dump_of(
            lead,
            records,
            tail,
        ));
        (0, all, tail)
    }
}

/// Every dump is made of padding, records and perhaps a record that is cut short.
pub proof fn law_every_dump_is_made_of_records(dump: Seq<u8>)
    ensures
        exists|lead: nat, records: Seq<Record>, tail: Seq<u8>|
            {
                &&& opus_stream::encodable(records)
                &&& tail.len() == 0 || cut_short(tail)
                &&& dump == #[trigger] dump_of(lead, records, tail)
            },
{
    let (lead, records, tail) = lemma_parts(dump);
    assert(dump == dump_of(lead, records, tail));
}

/// The end of the dump, or a read error, drops what was begun and leaves the counters alone.
pub proof fn law_interruption_drops_what_was_begun(p: ParserView)
    ensures
        opus_stream::interrupted(p).phase is Length,
        opus_stream::interrupted(p).bytes_read == p.bytes_read,
        opus_stream::interrupted(p).frames_ok == p.frames_ok,
        opus_stream::interrupted(p).skipped_bad_len == p.skipped_bad_len,
        opus_stream::interrupted(p).skipped_bad_toc == p.skipped_bad_toc,
{
}

// ---------------------------------------------------------------------------
// Segments
// ---------------------------------------------------------------------------

/// Place `j` of segment `s` holds frame `s * per + j`, and a segment begins where the first of its
/// frames does.
pub proof fn law_frames_keep_their_places(
    segments: Seq<WalSegment>,
    frames: Seq<OpusFrame>,
    per: int,
    s: int,
    j: int,
)
    requires
        per >= 1,
        opus_parser::is_segmentation(segments, frames, per),
        0 <= s < segments.len(),
        0 <= j < segments[s].frames.len(),
    ensures
        s * per + j < frames.len(),
        segments[s].frames[j] == frames[s * per + j],
        segments[s].frames.len() <= per,
        segments[s].start_offset == segments[s].frames[0].offset,
{
    assert(opus_parser::is_segment(segments[s], frames, per, s));
    assert(0 <= s * per) by (nonlinear_arith)
        requires
            0 <= s,
            per >= 1,
    ;
}

/// The frames in front of the first error are taken: the first `k` items where they are all
/// frames and the next, if there is one, is an error.
pub proof fn law_frames_end_at_the_first_error<E>(items: Seq<Result<OpusFrame, E>>, k: int)
    requires
        0 <= k <= items.len(),
        forall|i: int| 0 <= i < k ==> (#[trigger] items[i]) is Ok,
        k < items.len() ==> items[k] is Err,
    ensures
        opus_parser::leading_frames(items).len() == k,
        forall|i: int|
            0 <= i < k ==> items[i] == Ok::<OpusFrame, E>(
                #[trigger] opus_parser::leading_frames(items)[i],
            ),
{
    opus_parser::lemma_leading_ok(items);
    let n = opus_parser::leading_ok(items);
    if n < k {
        assert(items[n] is Ok);
    } else if k < n {
        assert(items[k] is Ok);
    }
}

} // verus!
