//! The dump format as a byte automaton: what a parser knows after every byte.

use crate::opus_parser::{MAX_FRAME_LEN, VALID_TOC_BYTES};
use vstd::prelude::*;

verus! {

pub open spec fn valid_toc(byte: u8) -> bool {
    VALID_TOC_BYTES@.contains(byte)
}

/// A frame and the offset of its length byte in the dump.
#[verifier::ext_equal]
pub struct FrameView {
    pub data: Seq<u8>,
    pub offset: int,
}

/// What the next byte is part of.
#[verifier::ext_equal]
pub enum PhaseView {
    /// It is a length byte.
    Length,
    /// It is one of `remaining` bytes to discard.
    Skip { remaining: int },
    /// It belongs to a frame of `len` bytes, of which `data` is known.
    Body { len: int, data: Seq<u8> },
}

/// The state of a parser: what comes next, where the current frame starts, and the counters.
#[verifier::ext_equal]
pub struct ParserView {
    pub phase: PhaseView,
    pub start: int,
    pub bytes_read: int,
    pub frames_ok: int,
    pub skipped_bad_len: int,
    pub skipped_bad_toc: int,
}

impl ParserView {
    pub open spec fn wf(self) -> bool {
        &&& match self.phase {
            PhaseView::Length => true,
            PhaseView::Skip { remaining } => 1 <= remaining <= 255,
            PhaseView::Body { len, data } => data.len() < len <= MAX_FRAME_LEN,
        }
        &&& 0 <= self.start <= self.bytes_read
        &&& 0 <= self.frames_ok
        &&& 0 <= self.skipped_bad_len
        &&& 0 <= self.skipped_bad_toc
        &&& self.frames_ok + self.skipped_bad_len + self.skipped_bad_toc + (if self.phase is Body {
            1int
        } else {
            0int
        }) <= self.bytes_read
    }
}

pub open spec fn fresh() -> ParserView {
    ParserView {
        phase: PhaseView::Length,
        start: 0,
        bytes_read: 0,
        frames_ok: 0,
        skipped_bad_len: 0,
        skipped_bad_toc: 0,
    }
}

/// The state after the end of the input or a read error: an unfinished frame is dropped.
pub open spec fn interrupted(p: ParserView) -> ParserView {
    ParserView { phase: PhaseView::Length, ..p }
}

/// What a length byte starts.
pub open spec fn on_length(p: ParserView, b: u8) -> ParserView {
    let q = ParserView { start: p.bytes_read, bytes_read: p.bytes_read + 1, ..p };
    if b == 0 {
        q
    } else if b > MAX_FRAME_LEN {
        ParserView {
            phase: PhaseView::Skip { remaining: b as int },
            skipped_bad_len: q.skipped_bad_len + 1,
            ..q
        }
    } else {
        ParserView { phase: PhaseView::Body { len: b as int, data: Seq::empty() }, ..q }
    }
}

/// What becomes of a frame when its body is complete.
pub open spec fn on_frame(p: ParserView, data: Seq<u8>) -> (ParserView, Seq<FrameView>) {
    if valid_toc(data[0]) {
        (
            ParserView { phase: PhaseView::Length, frames_ok: p.frames_ok + 1, ..p },
            seq![FrameView { data, offset: p.start }],
        )
    } else {
        (
            ParserView { phase: PhaseView::Length, skipped_bad_toc: p.skipped_bad_toc + 1, ..p },
            Seq::empty(),
        )
    }
}

/// One byte of the dump: the next state, and the frame that the byte completes, if any.
pub open spec fn step(p: ParserView, b: u8) -> (ParserView, Seq<FrameView>) {
    match p.phase {
        PhaseView::Length => (on_length(p, b), Seq::empty()),
        PhaseView::Skip { remaining } => (
            ParserView {
                phase: if remaining <= 1 {
                    PhaseView::Length
                } else {
                    PhaseView::Skip { remaining: remaining - 1 }
                },
                bytes_read: p.bytes_read + 1,
                ..p
            },
            Seq::empty(),
        ),
        PhaseView::Body { len, data } => {
            let q = ParserView { bytes_read: p.bytes_read + 1, ..p };
            if data.len() + 1 >= len {
                on_frame(q, data.push(b))
            } else {
                (
                    ParserView { phase: PhaseView::Body { len, data: data.push(b) }, ..q },
                    Seq::empty(),
                )
            }
        },
    }
}

/// The state after a run of bytes, and the frames that they complete.
pub open spec fn run(p: ParserView, s: Seq<u8>) -> (ParserView, Seq<FrameView>)
    decreases s.len(),
{
    if s.len() == 0 {
        (p, Seq::empty())
    } else {
        let (q, frames) = run(p, s.drop_last());
        let (r, more) = step(q, s.last());
        (r, frames + more)
    }
}

/// The frames of the dump from offset `at` on: zero bytes are padding, a length above the
/// maximum skips that many bytes, a frame without a valid TOC byte is dropped, and so is
/// what the end of the dump cuts short.
pub open spec fn frames_from(dump: Seq<u8>, at: int) -> Seq<FrameView>
    decreases dump.len() - at,
{
    if !(0 <= at < dump.len()) {
        Seq::empty()
    } else if dump[at] == 0 {
        frames_from(dump, at + 1)
    } else {
        let end = at + 1 + dump[at];
        if end > dump.len() {
            Seq::empty()
        } else {
            let data = dump.subrange(at + 1, end);
            if dump[at] <= MAX_FRAME_LEN && valid_toc(data[0]) {
                seq![FrameView { data, offset: at }] + frames_from(dump, end)
            } else {
                frames_from(dump, end)
            }
        }
    }
}

pub proof fn lemma_run_wf(p: ParserView, s: Seq<u8>)
    requires
        p.wf(),
    ensures
        run(p, s).0.wf(),
        run(p, s).0.bytes_read == p.bytes_read + s.len(),
        run(p, s).0.frames_ok == p.frames_ok + run(p, s).1.len(),
        forall|k: int|
            0 <= k < run(p, s).1.len() ==> {
                &&& 1 <= (#[trigger] run(p, s).1[k]).data.len() <= MAX_FRAME_LEN
                &&& valid_toc(run(p, s).1[k].data[0])
            },
    decreases s.len(),
{
    if s.len() > 0 {
        lemma_run_wf(p, s.drop_last());
    }
}

/// Chunking does not matter: parsing `a` and then `b` is parsing `a + b`.
pub proof fn law_run_in_chunks(p: ParserView, a: Seq<u8>, b: Seq<u8>)
    ensures
        run(p, a + b).0 == run(run(p, a).0, b).0,
        run(p, a + b).1 == run(p, a).1 + run(run(p, a).0, b).1,
    decreases b.len(),
{
    if b.len() == 0 {
        assert(a + b =~= a);
        assert(run(p, a).1 + Seq::<FrameView>::empty() =~= run(p, a).1);
    } else {
        assert((a + b).drop_last() =~= a + b.drop_last());
        assert((a + b).last() == b.last());
        law_run_in_chunks(p, a, b.drop_last());
        let q = run(p, a);
        let r = run(q.0, b.drop_last());
        let more = step(r.0, b.last()).1;
        assert((q.1 + r.1) + more =~= q.1 + (r.1 + more));
    }
}

pub proof fn lemma_run_skip(p: ParserView, s: Seq<u8>)
    requires
        p.phase is Skip,
        s.len() <= p.phase->remaining,
        p.phase->remaining >= 1,
    ensures
        run(p, s) == (
            ParserView {
                phase: if s.len() == p.phase->remaining {
                    PhaseView::Length
                } else {
                    PhaseView::Skip { remaining: p.phase->remaining - s.len() }
                },
                bytes_read: p.bytes_read + s.len(),
                ..p
            },
            Seq::<FrameView>::empty(),
        ),
    decreases s.len(),
{
    if s.len() > 0 {
        lemma_run_skip(p, s.drop_last());
    }
}

pub proof fn lemma_run_body(p: ParserView, s: Seq<u8>)
    requires
        p.phase is Body,
        p.phase->data.len() < p.phase->len,
        p.phase->data.len() + s.len() <= p.phase->len,
    ensures
        run(p, s) == ({
            let q = ParserView { bytes_read: p.bytes_read + s.len(), ..p };
            let all = p.phase->data + s;
            if all.len() == p.phase->len {
                on_frame(q, all)
            } else {
                (
                    ParserView { phase: PhaseView::Body { len: p.phase->len, data: all }, ..q },
                    Seq::<FrameView>::empty(),
                )
            }
        }),
    decreases s.len(),
{
    if s.len() > 0 {
        lemma_run_body(p, s.drop_last());
        assert((p.phase->data + s.drop_last()).push(s.last()) =~= p.phase->data + s);
        assert(forall|f: Seq<FrameView>| #[trigger] (Seq::<FrameView>::empty() + f) =~= f);
    } else {
        assert(p.phase->data + s =~= p.phase->data);
    }
}

pub proof fn lemma_run_one(p: ParserView, b: u8)
    ensures
        run(p, seq![b]) == step(p, b),
{
    assert(seq![b].drop_last() =~= Seq::<u8>::empty());
    assert(forall|f: Seq<FrameView>| #[trigger] (Seq::<FrameView>::empty() + f) =~= f);
    reveal_with_fuel(run, 2);
}

/// A length byte and the bytes that it announces, taken together.
pub proof fn lemma_run_record(p: ParserView, data: Seq<u8>)
    requires
        p.phase is Length,
        1 <= data.len() <= 255,
    ensures
        run(p, record(data)) == ({
            let q = ParserView {
                start: p.bytes_read,
                bytes_read: p.bytes_read + 1 + data.len(),
                ..p
            };
            if data.len() > MAX_FRAME_LEN {
                (
                    ParserView { skipped_bad_len: p.skipped_bad_len + 1, ..q },
                    Seq::<FrameView>::empty(),
                )
            } else {
                on_frame(q, data)
            }
        }),
{
    let n = data.len() as u8;
    lemma_run_one(p, n);
    law_run_in_chunks(p, seq![n], data);
    let q = on_length(p, n);
    assert(Seq::<u8>::empty() + data =~= data);
    assert(forall|f: Seq<FrameView>| #[trigger] (Seq::<FrameView>::empty() + f) =~= f);
    if data.len() > MAX_FRAME_LEN {
        lemma_run_skip(q, data);
    } else {
        lemma_run_body(q, data);
    }
}

/// Any number of padding bytes in front of a length byte changes the byte count alone.
pub proof fn lemma_run_padding(p: ParserView, n: nat)
    requires
        p.phase is Length,
    ensures
        run(p, zeros(n)).1 == Seq::<FrameView>::empty(),
        run(p, zeros(n)).0 == (ParserView {
            start: if n == 0 {
                p.start
            } else {
                p.bytes_read + n - 1
            },
            bytes_read: p.bytes_read + n,
            ..p
        }),
    decreases n,
{
    if n > 0 {
        assert(zeros(n).drop_last() =~= zeros((n - 1) as nat));
        lemma_run_padding(p, (n - 1) as nat);
    }
}

proof fn lemma_run_cut_short(p: ParserView, s: Seq<u8>)
    requires
        p.phase is Length,
        s.len() > 0,
        s[0] > 0,
        s.len() < 1 + s[0],
    ensures
        run(p, s).1 == Seq::<FrameView>::empty(),
{
    let rest = s.skip(1);
    assert(s =~= seq![s[0]] + rest);
    lemma_run_one(p, s[0]);
    law_run_in_chunks(p, seq![s[0]], rest);
    let q = on_length(p, s[0]);
    assert(forall|f: Seq<FrameView>| #[trigger] (Seq::<FrameView>::empty() + f) =~= f);
    if s[0] > MAX_FRAME_LEN {
        lemma_run_skip(q, rest);
    } else {
        lemma_run_body(q, rest);
    }
}

proof fn lemma_run_from(p: ParserView, dump: Seq<u8>, at: int)
    requires
        p.phase is Length,
        p.bytes_read == at,
        0 <= at <= dump.len(),
    ensures
        run(p, dump.skip(at)).1 == frames_from(dump, at),
    decreases dump.len() - at,
{
    let s = dump.skip(at);
    if at < dump.len() {
        if dump[at] == 0 {
            assert(s =~= seq![0u8] + dump.skip(at + 1));
            lemma_run_one(p, 0);
            law_run_in_chunks(p, seq![0u8], dump.skip(at + 1));
            lemma_run_from(on_length(p, 0), dump, at + 1);
            assert(Seq::<FrameView>::empty() + frames_from(dump, at + 1) =~= frames_from(
                dump,
                at + 1,
            ));
        } else {
            let end = at + 1 + dump[at];
            if end > dump.len() {
                lemma_run_cut_short(p, s);
            } else {
                let data = dump.subrange(at + 1, end);
                let tail = dump.skip(end);
                assert(s =~= record(data) + tail);
                law_run_in_chunks(p, record(data), tail);
                lemma_run_record(p, data);
                lemma_run_from(run(p, record(data)).0, dump, end);
                assert(Seq::<FrameView>::empty() + frames_from(dump, end) =~= frames_from(
                    dump,
                    end,
                ));
            }
        }
    }
}

/// Parsing a whole dump from its start gives exactly the frames that the format defines, and
/// reads every byte.
pub proof fn law_whole_dump(dump: Seq<u8>)
    ensures
        run(fresh(), dump).1 == frames_from(dump, 0),
        run(fresh(), dump).0.bytes_read == dump.len(),
        run(fresh(), dump).0.frames_ok == frames_from(dump, 0).len(),
{
    assert(dump.skip(0) =~= dump);
    lemma_run_from(fresh(), dump, 0);
    lemma_run_wf(fresh(), dump);
}

// ---------------------------------------------------------------------------
// Dumps made of records
// ---------------------------------------------------------------------------

/// The bytes of a record on disk: its length and its data.
pub open spec fn record(data: Seq<u8>) -> Seq<u8> {
    seq![data.len() as u8] + data
}

pub open spec fn zeros(n: nat) -> Seq<u8> {
    Seq::new(n, |i: int| 0u8)
}

/// A record and the number of padding bytes behind it.
pub struct Record {
    pub data: Seq<u8>,
    pub padding: nat,
}

/// The bytes of a dump made of records.
pub open spec fn encode(records: Seq<Record>) -> Seq<u8>
    decreases records.len(),
{
    if records.len() == 0 {
        Seq::empty()
    } else {
        encode(records.drop_last()) + (record(records.last().data) + zeros(records.last().padding))
    }
}

pub open spec fn encodable(records: Seq<Record>) -> bool {
    forall|k: int| 0 <= k < records.len() ==> 1 <= (#[trigger] records[k]).data.len() <= 255
}

/// A record that holds a frame: of plausible length, with a valid TOC byte.
pub open spec fn intact(r: Record) -> bool {
    r.data.len() <= MAX_FRAME_LEN && valid_toc(r.data[0])
}

/// The frames of the intact records.
pub open spec fn intact_frames(records: Seq<Record>) -> Seq<FrameView>
    decreases records.len(),
{
    if records.len() == 0 {
        Seq::empty()
    } else if intact(records.last()) {
        intact_frames(records.drop_last()).push(
            FrameView {
                data: records.last().data,
                offset: encode(records.drop_last()).len() as int,
            },
        )
    } else {
        intact_frames(records.drop_last())
    }
}

pub open spec fn count_too_long(records: Seq<Record>) -> int
    decreases records.len(),
{
    if records.len() == 0 {
        0
    } else {
        count_too_long(records.drop_last()) + if records.last().data.len() > MAX_FRAME_LEN {
            1int
        } else {
            0
        }
    }
}

/// Corruption inside records is survived: of a dump made of records with any padding between
/// them, exactly the intact ones come out, in order and with their offsets, and every other
/// record is counted as skipped, once.
pub proof fn law_intact_records_survive(records: Seq<Record>)
    requires
        encodable(records),
    ensures
        run(fresh(), encode(records)).1 == intact_frames(records),
        run(fresh(), encode(records)).0.phase is Length,
        run(fresh(), encode(records)).0.bytes_read == encode(records).len(),
        run(fresh(), encode(records)).0.frames_ok == intact_frames(records).len(),
        run(fresh(), encode(records)).0.skipped_bad_len == count_too_long(records),
        run(fresh(), encode(records)).0.skipped_bad_toc == records.len() - intact_frames(
            records,
        ).len() - count_too_long(records),
    decreases records.len(),
{
    lemma_run_wf(fresh(), encode(records));
    if records.len() > 0 {
        let before = records.drop_last();
        let last = records.last();
        assert(encodable(before)) by {
            assert forall|k: int| 0 <= k < before.len() implies 1 <= (
            #[trigger] before[k]).data.len() <= 255 by {
                assert(before[k] == records[k]);
            }
        }
        assert(last == records[records.len() - 1]);
        law_intact_records_survive(before);
        lemma_run_wf(fresh(), encode(before));
        let p = run(fresh(), encode(before)).0;
        let tail = record(last.data) + zeros(last.padding);
        law_run_in_chunks(fresh(), encode(before), tail);
        law_run_in_chunks(p, record(last.data), zeros(last.padding));
        lemma_run_record(p, last.data);
        lemma_run_padding(run(p, record(last.data)).0, last.padding);
        assert(run(p, tail).1 =~= run(p, record(last.data)).1);
        assert(run(fresh(), encode(records)).1 =~= intact_frames(records));
    }
}

/// What was written comes back: a dump of frames, each with a valid TOC byte and of plausible
/// length, with any padding between them, parses to exactly these frames.
pub proof fn law_round_trip(records: Seq<Record>)
    requires
        encodable(records),
        forall|k: int| 0 <= k < records.len() ==> intact(#[trigger] records[k]),
    ensures
        frames_from(encode(records), 0).len() == records.len(),
        forall|k: int|
            0 <= k < records.len() ==> {
                &&& (#[trigger] frames_from(encode(records), 0)[k]).data == records[k].data
                &&& frames_from(encode(records), 0)[k].offset == encode(records.take(k)).len()
            },
        run(fresh(), encode(records)).0.skipped_bad_len == 0,
        run(fresh(), encode(records)).0.skipped_bad_toc == 0,
    decreases records.len(),
{
    law_whole_dump(encode(records));
    law_intact_records_survive(records);
    lemma_all_intact(records);
}

proof fn lemma_all_intact(records: Seq<Record>)
    requires
        forall|k: int| 0 <= k < records.len() ==> intact(#[trigger] records[k]),
    ensures
        intact_frames(records).len() == records.len(),
        count_too_long(records) == 0,
        forall|k: int|
            0 <= k < records.len() ==> {
                &&& (#[trigger] intact_frames(records)[k]).data == records[k].data
                &&& intact_frames(records)[k].offset == encode(records.take(k)).len()
            },
    decreases records.len(),
{
    if records.len() > 0 {
        let before = records.drop_last();
        assert forall|k: int| 0 <= k < before.len() implies intact(#[trigger] before[k]) by {
            assert(before[k] == records[k]);
        }
        assert(intact(records[records.len() - 1]));
        lemma_all_intact(before);
        assert forall|k: int| 0 <= k < records.len() implies (#[trigger] intact_frames(
            records,
        )[k]).data == records[k].data && intact_frames(records)[k].offset == encode(
            records.take(k),
        ).len() by {
            if k < before.len() {
                assert(intact_frames(records)[k] == intact_frames(before)[k]);
                assert(before.take(k) =~= records.take(k));
            } else {
                assert(records.take(k) =~= before);
            }
        }
    }
}

} // verus!
