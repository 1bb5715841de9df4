//! Opus frame parser for raw SD card dumps.
//!
//! On-disk format: `[u8 len][opus_frame][u8 len][opus_frame]...`, packed into 512-byte write
//! blocks with zero padding. The first byte of a frame must be a recognized Opus TOC byte.
//!
//! The parser streams: it is fed chunks of the dump and never holds more than the current
//! chunk and one frame.

use crate::opus_stream;
use vstd::prelude::*;

verus! {

/// Maximum plausible frame length. Firmware encodes frames of at most 80 bytes; anything above
/// this indicates corruption and is skipped to resync.
pub const MAX_FRAME_LEN: u8 = 160;

/// Valid Opus TOC bytes.
pub const VALID_TOC_BYTES: [u8; 7] = [0xb8, 0xb0, 0xbc, 0xf8, 0xfc, 0x78, 0x7c];

/// Frames come at about 100 per second: 6000 frames are about 60 seconds of audio.
pub const FRAMES_PER_SEGMENT: usize = 6000;

pub fn is_valid_toc(byte: u8) -> (valid: bool)
    ensures
        valid == opus_stream::valid_toc(byte),
        valid == (byte == 0xb8 || byte == 0xb0 || byte == 0xbc || byte == 0xf8 || byte == 0xfc
            || byte == 0x78 || byte == 0x7c),
{
    proof {
        let toc = VALID_TOC_BYTES@;
        assert(toc[0] == 0xb8 && toc[1] == 0xb0 && toc[2] == 0xbc && toc[3] == 0xf8 && toc[4]
            == 0xfc && toc[5] == 0x78 && toc[6] == 0x7c);
        assert forall|i: int| 0 <= i < 7 implies #[trigger] toc[i] == 0xb8 || toc[i] == 0xb0
            || toc[i] == 0xbc || toc[i] == 0xf8 || toc[i] == 0xfc || toc[i] == 0x78 || toc[i]
            == 0x7c by {}
    }
    let mut i: usize = 0;
    while i < 7
        invariant
            i <= 7,
            forall|j: int| 0 <= j < i ==> #[trigger] VALID_TOC_BYTES@[j] != byte,
        decreases 7 - i,
    {
        if VALID_TOC_BYTES[i] == byte {
            assert(VALID_TOC_BYTES@[i as int] == byte);
            return true;
        }
        i += 1;
    }
    false
}

#[derive(Debug, Clone)]
pub struct OpusFrame {
    /// The frame, with the TOC byte first.
    pub data: Vec<u8>,
    /// Byte offset in the dump where the frame started, with its length byte.
    pub offset: u64,
}

impl OpusFrame {
    pub open spec fn view(&self) -> opus_stream::FrameView {
        opus_stream::FrameView { data: self.data@, offset: self.offset as int }
    }

    pub fn toc(&self) -> (byte: u8)
        requires
            self.data.len() > 0,
        ensures
            byte == self.data[0],
    {
        self.data[0]
    }
}

/// Parse statistics, useful for progress reporting.
#[derive(Debug, Clone, Copy, PartialEq, Eq, Structural)]
pub struct ParseStats {
    pub bytes_read: u64,
    pub frames_ok: u64,
    pub frames_skipped_bad_len: u64,
    pub frames_skipped_bad_toc: u64,
}

impl Default for ParseStats {
    fn default() -> (stats: Self)
        ensures
            stats.bytes_read == 0,
            stats.frames_ok == 0,
            stats.frames_skipped_bad_len == 0,
            stats.frames_skipped_bad_toc == 0,
    {
        ParseStats {
            bytes_read: 0,
            frames_ok: 0,
            frames_skipped_bad_len: 0,
            frames_skipped_bad_toc: 0,
        }
    }
}

/// What the next byte of the dump is part of.
#[derive(Debug, Clone, Copy)]
enum Phase {
    Length,
    Skip { remaining: u8 },
    Body { len: u8 },
}

/// What came of an attempt to read a chunk of the dump.
pub enum ReadOutcome {
    /// Some bytes; none at all is the end of the dump.
    Data(Vec<u8>),
    Eof,
    Interrupted,
    Failed,
}

/// What to do after a read.
#[derive(Debug, Clone, Copy, PartialEq, Eq, Structural)]
pub enum ReadAction {
    /// Take frames with `next`.
    Parse,
    /// Read again.
    Retry,
    /// There are no more frames.
    End,
    /// Report the read error.
    Fail,
}

/// A frame comes with the last of the bytes that complete it.
proof fn lemma_frame_is_last(p: opus_stream::ParserView, all: Seq<u8>, k: int, n: int)
    requires
        0 <= k,
        0 < n,
        k + n <= all.len(),
        opus_stream::run(p, all.take(k)).0.phase is Body,
        opus_stream::run(p, all.take(k)).1.len() == 0,
        opus_stream::run(p, all.take(k)).0.phase->data.len() + n == opus_stream::run(
            p,
            all.take(k),
        ).0.phase->len,
    ensures
        opus_stream::run(p, all.take(k + n - 1)).1.len() == 0,
{
    let part = all.subrange(k, k + n - 1);
    assert(all.take(k + n - 1) =~= all.take(k) + part);
    opus_stream::law_run_in_chunks(p, all.take(k), part);
    opus_stream::lemma_run_body(opus_stream::run(p, all.take(k)).0, part);
}

/// Streaming iterator over the Opus frames in a raw dump.
pub struct OpusFrameIter {
    phase: Phase,
    body: Vec<u8>,
    start: u64,
    chunk: Vec<u8>,
    at: usize,
    stats: ParseStats,
}

impl OpusFrameIter {
    /// The state of the parser behind the bytes that were taken from the chunk.
    pub closed spec fn view(&self) -> opus_stream::ParserView {
        opus_stream::ParserView {
            phase: match self.phase {
                Phase::Length => opus_stream::PhaseView::Length,
                Phase::Skip { remaining } => opus_stream::PhaseView::Skip {
                    remaining: remaining as int,
                },
                Phase::Body { len } => opus_stream::PhaseView::Body {
                    len: len as int,
                    data: self.body@,
                },
            },
            start: self.start as int,
            bytes_read: self.stats.bytes_read as int,
            frames_ok: self.stats.frames_ok as int,
            skipped_bad_len: self.stats.frames_skipped_bad_len as int,
            skipped_bad_toc: self.stats.frames_skipped_bad_toc as int,
        }
    }

    /// The bytes of the chunk that were not taken yet.
    pub closed spec fn pending(&self) -> Seq<u8> {
        self.chunk@.skip(self.at as int)
    }

    pub closed spec fn wf(&self) -> bool {
        &&& self@.wf()
        &&& self.at <= self.chunk.len()
        &&& !(self.phase is Body) ==> self.body.len() == 0
    }

    /// A well-formed parser is in a well-formed state.
    pub proof fn lemma_wf(&self)
        requires
            self.wf(),
        ensures
            self@.wf(),
    {
    }

    pub fn new() -> (iter: Self)
        ensures
            iter.wf(),
            iter@ == opus_stream::fresh(),
            iter.pending() == Seq::<u8>::empty(),
    {
        let iter = OpusFrameIter {
            phase: Phase::Length,
            body: Vec::new(),
            start: 0,
            chunk: Vec::new(),
            at: 0,
            stats: ParseStats::default(),
        };
        assert(iter.pending() =~= Seq::<u8>::empty());
        iter
    }

    /// The counters.
    pub fn stats(&self) -> (stats: ParseStats)
        ensures
            stats.bytes_read == self@.bytes_read,
            stats.frames_ok == self@.frames_ok,
            stats.frames_skipped_bad_len == self@.skipped_bad_len,
            stats.frames_skipped_bad_toc == self@.skipped_bad_toc,
    {
        self.stats
    }

    /// Whether all bytes were taken, so that more must be read.
    pub fn needs_input(&self) -> (needs: bool)
        requires
            self.wf(),
        ensures
            needs == (self.pending().len() == 0),
    {
        self.at == self.chunk.len()
    }

    /// Takes what came of a read. At the end of the dump, and on an error, an unfinished frame
    /// is dropped.
    pub fn on_read(&mut self, outcome: ReadOutcome) -> (action: ReadAction)
        requires
            old(self).wf(),
            old(self).pending().len() == 0,
        ensures
            final(self).wf(),
            match outcome {
                ReadOutcome::Data(bytes) => if bytes.len() > 0 {
                    &&& action == ReadAction::Parse
                    &&& final(self)@ == old(self)@
                    &&& final(self).pending() == bytes@
                } else {
                    &&& action == ReadAction::End
                    &&& final(self)@ == opus_stream::interrupted(old(self)@)
                    &&& final(self).pending().len() == 0
                },
                ReadOutcome::Eof => {
                    &&& action == ReadAction::End
                    &&& final(self)@ == opus_stream::interrupted(old(self)@)
                    &&& final(self).pending().len() == 0
                },
                ReadOutcome::Interrupted => {
                    &&& action == ReadAction::Retry
                    &&& *final(self) == *old(self)
                },
                ReadOutcome::Failed => {
                    &&& action == ReadAction::Fail
                    &&& final(self)@ == opus_stream::interrupted(old(self)@)
                    &&& final(self).pending().len() == 0
                },
            },
    {
        match outcome {
            ReadOutcome::Data(bytes) => {
                if bytes.len() > 0 {
                    self.chunk = bytes;
                    self.at = 0;
                    assert(self.pending() =~= bytes@);
                    ReadAction::Parse
                } else {
                    self.phase = Phase::Length;
                    self.body.clear();
                    ReadAction::End
                }
            },
            ReadOutcome::Eof => {
                self.phase = Phase::Length;
                self.body.clear();
                ReadAction::End
            },
            ReadOutcome::Interrupted => ReadAction::Retry,
            ReadOutcome::Failed => {
                self.phase = Phase::Length;
                self.body.clear();
                ReadAction::Fail
            },
        }
    }

    /// Takes one byte, if there is one.
    fn read_byte(&mut self) -> (byte: Option<u8>)
        requires
            old(self).at <= old(self).chunk.len(),
            old(self).stats.bytes_read + old(self).pending().len() <= u64::MAX,
        ensures
            match byte {
                None => old(self).pending().len() == 0 && *final(self) == *old(self),
                Some(b) => {
                    &&& old(self).pending().len() > 0
                    &&& b == old(self).pending()[0]
                    &&& final(self).at == old(self).at + 1
                    &&& final(self).stats == (ParseStats {
                        bytes_read: (old(self).stats.bytes_read + 1) as u64,
                        ..old(self).stats
                    })
                    &&& final(self).chunk == old(self).chunk
                    &&& final(self).phase == old(self).phase
                    &&& final(self).body == old(self).body
                    &&& final(self).start == old(self).start
                },
            },
    {
        if self.at == self.chunk.len() {
            None
        } else {
            let b: u8 = self.chunk[self.at];
            self.at += 1;
            self.stats.bytes_read += 1;
            Some(b)
        }
    }

    /// Discards up to `n` bytes; returns how many are still to be discarded.
    fn skip(&mut self, n: u8) -> (left: u8)
        requires
            old(self).at <= old(self).chunk.len(),
            old(self).stats.bytes_read + old(self).pending().len() <= u64::MAX,
        ensures
            ({
                let have = old(self).pending().len();
                &&& left == if have < n {
                    n - have
                } else {
                    0
                }
                &&& final(self).at == old(self).at + (n - left)
                &&& final(self).stats == (ParseStats {
                    bytes_read: (old(self).stats.bytes_read + (n - left)) as u64,
                    ..old(self).stats
                })
                &&& final(self).chunk == old(self).chunk
                &&& final(self).phase == old(self).phase
                &&& final(self).body == old(self).body
                &&& final(self).start == old(self).start
            }),
    {
        let have: usize = self.chunk.len() - self.at;
        let taken: usize = if have < n as usize {
            have
        } else {
            n as usize
        };
        self.at += taken;
        self.stats.bytes_read += taken as u64;
        n - taken as u8
    }

    /// Moves bytes to the frame until it has `len` of them or there are no more.
    fn fill(&mut self, len: u8)
        requires
            old(self).at <= old(self).chunk.len(),
            old(self).body.len() <= len,
            old(self).stats.bytes_read + old(self).pending().len() <= u64::MAX,
        ensures
            ({
                let have = old(self).pending().len();
                let taken = if have < len - old(self).body.len() {
                    have as int
                } else {
                    len - old(self).body.len()
                };
                &&& final(self).at == old(self).at + taken
                &&& final(self).body@ == old(self).body@ + old(self).pending().take(taken)
                &&& final(self).stats == (ParseStats {
                    bytes_read: (old(self).stats.bytes_read + taken) as u64,
                    ..old(self).stats
                })
                &&& final(self).chunk == old(self).chunk
                &&& final(self).phase == old(self).phase
                &&& final(self).start == old(self).start
            }),
    {
        let ghost pending = self.pending();
        assert(pending.take(0) =~= Seq::<u8>::empty());
        assert(self.body@ + pending.take(0) =~= self.body@);
        while self.body.len() < len as usize && self.at < self.chunk.len()
            invariant
                old(self).at <= self.at <= self.chunk.len(),
                self.chunk == old(self).chunk,
                self.phase == old(self).phase,
                self.start == old(self).start,
                pending == old(self).chunk@.skip(old(self).at as int),
                self.body@ == old(self).body@ + pending.take(self.at - old(self).at),
                self.body.len() <= len,
                self.stats == (ParseStats {
                    bytes_read: (old(self).stats.bytes_read + (self.at - old(self).at)) as u64,
                    ..old(self).stats
                }),
                old(self).stats.bytes_read + pending.len() <= u64::MAX,
            decreases self.chunk.len() - self.at,
        {
            let b: u8 = self.chunk[self.at];
            proof {
                let k = self.at - old(self).at;
                assert(b == pending[k]);
                assert(pending.take(k + 1) =~= pending.take(k).push(b));
                assert(old(self).body@ + pending.take(k + 1) =~= (old(self).body@
                    + pending.take(k)).push(b));
            }
            self.body.push(b);
            self.at += 1;
            self.stats.bytes_read += 1;
        }
    }

    /// The next frame, or `None` where all bytes were taken and none of them completed a
    /// frame.
    pub fn next(&mut self) -> (frame: Option<OpusFrame>)
        requires
            old(self).wf(),
            old(self)@.bytes_read + old(self).pending().len() <= u64::MAX,
        ensures
            final(self).wf(),
            match frame {
                None => {
                    &&& final(self).pending().len() == 0
                    &&& opus_stream::run(old(self)@, old(self).pending()) == (
                        final(self)@,
                        Seq::<opus_stream::FrameView>::empty(),
                    )
                },
                Some(f) => exists|k: int|
                    {
                        &&& 0 < k <= old(self).pending().len()
                        &&& final(self).pending() == old(self).pending().skip(k)
                        &&& #[trigger] opus_stream::run(old(self)@, old(self).pending().take(k)) == (
                            final(self)@,
                            seq![f@],
                        )
                        &&& opus_stream::run(old(self)@, old(self).pending().take(k - 1)).1.len()
                            == 0
                    },
            },
            frame matches Some(f) ==> 1 <= f.data.len() <= MAX_FRAME_LEN && opus_stream::valid_toc(
                f.data[0],
            ),
    {
        let ghost first = self@;
        let ghost all = self.pending();
        let ghost from = self.at as int;
        assert(all.take(0) =~= Seq::<u8>::empty());
        while self.at < self.chunk.len()
            invariant
                self.wf(),
                0 <= from <= self.at,
                all == self.chunk@.skip(from),
                all.len() == self.chunk.len() - from,
                opus_stream::run(first, all.take(self.at - from)) == (
                    self@,
                    Seq::<opus_stream::FrameView>::empty(),
                ),
                first == old(self)@,
                all == old(self).pending(),
                first.bytes_read + all.len() <= u64::MAX,
                self@.bytes_read == first.bytes_read + (self.at - from),
            decreases self.chunk.len() - self.at,
        {
            let ghost before = *self;
            let ghost k = self.at - from;
            proof {
                assert(self.pending() =~= all.skip(k));
            }
            match self.phase {
                Phase::Length => {
                    if let Some(b) = self.read_byte() {
                        self.start = self.stats.bytes_read - 1;
                        if b == 0 {
                            // Padding within a block.
                        } else if b > MAX_FRAME_LEN {
                            self.stats.frames_skipped_bad_len += 1;
                            self.phase = Phase::Skip { remaining: b };
                        } else {
                            self.phase = Phase::Body { len: b };
                        }
                        proof {
                            let part = seq![b];
                            assert(b == all[k]);
                            assert(all.take(k + 1) =~= all.take(k) + part);
                            opus_stream::law_run_in_chunks(first, all.take(k), part);
                            opus_stream::lemma_run_one(before@, b);
                            assert(self.body@ =~= Seq::<u8>::empty());
                            assert(self@ =~= opus_stream::on_length(before@, b));
                            opus_stream::lemma_run_wf(before@, part);
                        }
                    }
                },
                Phase::Skip { remaining } => {
                    let left: u8 = self.skip(remaining);
                    if left == 0 {
                        self.phase = Phase::Length;
                    } else {
                        self.phase = Phase::Skip { remaining: left };
                    }
                    proof {
                        let n = self.at - before.at;
                        let part = all.subrange(k, k + n);
                        assert(all.take(k + n) =~= all.take(k) + part);
                        opus_stream::law_run_in_chunks(first, all.take(k), part);
                        opus_stream::lemma_run_skip(before@, part);
                        opus_stream::lemma_run_wf(before@, part);
                    }
                },
                Phase::Body { len } => {
                    self.fill(len);
                    let ghost n = self.at - before.at;
                    let ghost part = all.subrange(k, k + n);
                    proof {
                        assert(before.pending().take(n) =~= part);
                        assert(all.take(k + n) =~= all.take(k) + part);
                        opus_stream::law_run_in_chunks(first, all.take(k), part);
                        opus_stream::lemma_run_body(before@, part);
                        opus_stream::lemma_run_wf(before@, part);
                    }
                    if self.body.len() == len as usize {
                        let mut data: Vec<u8> = Vec::new();
                        data.append(&mut self.body);
                        self.phase = Phase::Length;
                        assert(data@ =~= before@.phase->data + part);
                        if is_valid_toc(data[0]) {
                            self.stats.frames_ok += 1;
                            let frame = OpusFrame { data, offset: self.start };
                            proof {
                                lemma_frame_is_last(first, all, k, n);
                                assert(self.pending() =~= all.skip(k + n));
                                assert(seq![frame@] =~= opus_stream::run(
                                    first,
                                    all.take(k + n),
                                ).1);
                            }
                            return Some(frame);
                        }
                        self.stats.frames_skipped_bad_toc += 1;
                    }
                },
            }
        }
        proof {
            assert(all.take(self.at - from) =~= all);
        }
        None
    }
}

// ---------------------------------------------------------------------------
// Segments
// ---------------------------------------------------------------------------

/// A segment of sequential frames, roughly one minute of audio at 100 frames per second.
/// Suitable for one transcription call.
#[derive(Debug, Clone)]
pub struct WalSegment {
    pub frames: Vec<OpusFrame>,
    /// Byte offset in the dump where this segment's first frame started. Useful for resuming.
    pub start_offset: u64,
}

/// How many items stand in front of the first error.
pub open spec fn leading_ok<E>(items: Seq<Result<OpusFrame, E>>) -> int
    decreases items.len(),
{
    if items.len() == 0 {
        0
    } else {
        let before = leading_ok(items.drop_last());
        if before == items.len() - 1 && items.last() is Ok {
            items.len() as int
        } else {
            before
        }
    }
}

/// The frames in front of the first error.
pub open spec fn leading_frames<E>(items: Seq<Result<OpusFrame, E>>) -> Seq<OpusFrame> {
    Seq::new(leading_ok(items) as nat, |i: int| items[i]->Ok_0)
}

/// Segment number `s` holds the frames `s * per ..` up to `per` of them, and starts where the
/// first of them does.
pub open spec fn is_segment(
    segment: WalSegment,
    frames: Seq<OpusFrame>,
    per: int,
    s: int,
) -> bool {
    let from = s * per;
    let to = if from + per <= frames.len() {
        from + per
    } else {
        frames.len() as int
    };
    &&& from < frames.len()
    &&& segment.frames@ == frames.subrange(from, to)
    &&& segment.start_offset == frames[from].offset
}

/// Every frame is in a segment, every segment but the last is full, and none is empty.
pub open spec fn is_segmentation(
    segments: Seq<WalSegment>,
    frames: Seq<OpusFrame>,
    per: int,
) -> bool {
    &&& forall|s: int|
        0 <= s < segments.len() ==> is_segment(#[trigger] segments[s], frames, per, s)
    &&& segments.len() * per >= frames.len()
}

pub proof fn lemma_leading_ok<E>(items: Seq<Result<OpusFrame, E>>)
    ensures
        0 <= leading_ok(items) <= items.len(),
        forall|i: int| 0 <= i < leading_ok(items) ==> (#[trigger] items[i]) is Ok,
        leading_ok(items) < items.len() ==> items[leading_ok(items)] is Err,
    decreases items.len(),
{
    if items.len() > 0 {
        lemma_leading_ok(items.drop_last());
        let n = leading_ok(items.drop_last());
        assert forall|i: int| 0 <= i < n implies (#[trigger] items[i]) is Ok by {
            assert(items.drop_last()[i] == items[i]);
        }
        if n < items.len() - 1 {
            assert(items.drop_last()[n] == items[n]);
        }
    }
}

/// A full segment stays what it is when more frames follow.
proof fn lemma_full_segments_stay(
    segments: Seq<WalSegment>,
    frames: Seq<OpusFrame>,
    f: OpusFrame,
    per: int,
)
    requires
        per >= 1,
        segments.len() * per <= frames.len(),
        forall|s: int|
            0 <= s < segments.len() ==> is_segment(#[trigger] segments[s], frames, per, s),
    ensures
        forall|s: int|
            0 <= s < segments.len() ==> is_segment(#[trigger] segments[s], frames.push(f), per, s),
{
    let now = frames.push(f);
    assert forall|s: int| 0 <= s < segments.len() implies is_segment(
        #[trigger] segments[s],
        now,
        per,
        s,
    ) by {
        assert(is_segment(segments[s], frames, per, s));
        let from = s * per;
        let n = segments.len() as int;
        assert(from + per <= n * per) by (nonlinear_arith)
            requires
                from == s * per,
                s + 1 <= n,
                per >= 1,
        ;
        assert(0 <= from) by (nonlinear_arith)
            requires
                from == s * per,
                0 <= s,
                per >= 1,
        ;
        assert(now.subrange(from, from + per) =~= frames.subrange(from, from + per));
        assert(now[from] == frames[from]);
    }
}

/// Groups frames into segments of `frames_per_seg` frames, at least one; the last segment may
/// be shorter. The first error ends the frames.
pub fn segment_frames<E>(items: Vec<Result<OpusFrame, E>>, frames_per_seg: usize) -> (segments: Vec<
    WalSegment,
>)
    ensures
        is_segmentation(
            segments@,
            leading_frames(items@),
            if frames_per_seg == 0 {
                1
            } else {
                frames_per_seg as int
            },
        ),
{
    let per: usize = if frames_per_seg == 0 {
        1
    } else {
        frames_per_seg
    };
    let ghost all = items@;
    let mut segments: Vec<WalSegment> = Vec::new();
    let mut current: Vec<OpusFrame> = Vec::new();
    let mut seg_start: u64 = 0;
    let mut stopped: bool = false;
    let ghost mut frames: Seq<OpusFrame> = Seq::empty();
    assert(all.take(0) =~= Seq::<Result<OpusFrame, E>>::empty());
    assert(leading_frames(all.take(0)) =~= frames);
    assert(0 * per == 0) by (nonlinear_arith);
    for item in it: items
        invariant
            it.seq() == all,
            per >= 1,
            frames == leading_frames(all.take(it.index() as int)),
            frames.len() == leading_ok(all.take(it.index() as int)),
            stopped <==> frames.len() < it.index(),
            current.len() < per,
            segments.len() * per + current.len() == frames.len(),
            current@ == frames.skip(segments.len() * per),
            current.len() > 0 ==> seg_start == current[0].offset,
            forall|s: int|
                0 <= s < segments.len() ==> is_segment(
                    #[trigger] segments[s],
                    frames,
                    per as int,
                    s,
                ),
    {
        proof {
            let i = it.index() as int;
            let now = all.take(i + 1);
            assert(now.drop_last() =~= all.take(i));
            assert(now.last() == all[i]);
            assert(item == all[i]);
            lemma_leading_ok(all.take(i));
            lemma_leading_ok(now);
        }
        let ghost before = frames;
        if !stopped {
            match item {
                Ok(f) => {
                    let offset: u64 = f.offset;
                    proof {
                        let i = it.index() as int;
                        frames = before.push(f);
                        assert forall|j: int| 0 <= j < i implies before[j] == #[trigger] all[j]->Ok_0 by {
                            assert(all.take(i)[j] == all[j]);
                        }
                        assert(leading_frames(all.take(i + 1)) =~= frames);
                        lemma_full_segments_stay(segments@, before, f, per as int);
                        assert(frames.skip(segments.len() * per) =~= before.skip(
                            segments.len() * per,
                        ).push(f));
                    }
                    if current.len() == 0 {
                        seg_start = offset;
                    }
                    current.push(f);
                    if current.len() >= per {
                        let mut full: Vec<OpusFrame> = Vec::new();
                        full.append(&mut current);
                        let segment = WalSegment { frames: full, start_offset: seg_start };
                        proof {
                            let n = segments.len() as int;
                            assert(full@ =~= frames.subrange(n * per, n * per + per));
                            assert(full@[0] == frames[n * per]);
                            assert((n + 1) * per == n * per + per) by (nonlinear_arith);
                            assert(is_segment(segment, frames, per as int, n));
                        }
                        segments.push(segment);
                    }
                },
                Err(_) => {
                    stopped = true;
                    proof {
                        let i = it.index() as int;
                        assert(leading_frames(all.take(i + 1)) =~= frames);
                    }
                },
            }
        } else {
            proof {
                let i = it.index() as int;
                assert forall|j: int| 0 <= j < before.len() implies #[trigger] all.take(i + 1)[j]
                    == all.take(i)[j] by {}
                assert(leading_frames(all.take(i + 1)) =~= frames);
            }
        }
    }
    assert(all.take(all.len() as int) =~= all);
    if current.len() > 0 {
        let segment = WalSegment { frames: current, start_offset: seg_start };
        proof {
            let n = segments.len() as int;
            assert(current@ =~= frames.subrange(n * per, frames.len() as int));
            assert(current@[0] == frames[n * per]);
            assert((n + 1) * per == n * per + per) by (nonlinear_arith);
            assert(is_segment(segment, frames, per as int, n));
        }
        segments.push(segment);
    }
    segments
}

/// The frames of all segments, one after the other.
pub open spec fn joined(segments: Seq<WalSegment>) -> Seq<OpusFrame>
    decreases segments.len(),
{
    if segments.len() == 0 {
        Seq::empty()
    } else {
        joined(segments.drop_last()) + segments.last().frames@
    }
}

/// Segmenting loses, adds and reorders nothing: the segments joined are the frames. Every
/// segment but the last is full, and the last is not empty.
pub proof fn law_segments_join(segments: Seq<WalSegment>, frames: Seq<OpusFrame>, per: int)
    requires
        per >= 1,
        is_segmentation(segments, frames, per),
    ensures
        joined(segments) == frames,
        forall|s: int|
            0 <= s < segments.len() ==> 1 <= (#[trigger] segments[s]).frames.len() <= per,
        forall|s: int|
            0 <= s < segments.len() - 1 ==> (#[trigger] segments[s]).frames.len() == per,
        segments.len() == 0 <==> frames.len() == 0,
{
    let n = segments.len() as int;
    lemma_joined_prefix(segments, frames, per, n);
    assert(segments.take(n) =~= segments);
    assert(0 * per == 0) by (nonlinear_arith);
    assert forall|s: int| 0 <= s < n implies 1 <= (#[trigger] segments[s]).frames.len() <= per
        && (s < n - 1 ==> segments[s].frames.len() == per) by {
        assert(is_segment(segments[s], frames, per, s));
        assert(0 <= s * per) by (nonlinear_arith)
            requires
                0 <= s,
                per >= 1,
        ;
        if s < n - 1 {
            assert(is_segment(segments[s + 1], frames, per, s + 1));
            assert((s + 1) * per == s * per + per) by (nonlinear_arith);
        }
    }
    if n > 0 {
        assert(is_segment(segments[n - 1], frames, per, n - 1));
    }
}

proof fn lemma_joined_prefix(
    segments: Seq<WalSegment>,
    frames: Seq<OpusFrame>,
    per: int,
    t: int,
)
    requires
        per >= 1,
        is_segmentation(segments, frames, per),
        0 <= t <= segments.len(),
    ensures
        joined(segments.take(t)) == frames.take(
            if t * per <= frames.len() {
                t * per
            } else {
                frames.len() as int
            },
        ),
    decreases t,
{
    if t == 0 {
        assert(0 * per == 0) by (nonlinear_arith);
        assert(segments.take(0) =~= Seq::<WalSegment>::empty());
        assert(frames.take(0) =~= Seq::<OpusFrame>::empty());
    } else {
        lemma_joined_prefix(segments, frames, per, t - 1);
        assert(segments.take(t).drop_last() =~= segments.take(t - 1));
        let last = segments[t - 1];
        assert(is_segment(last, frames, per, t - 1));
        let from = (t - 1) * per;
        assert(t * per == from + per) by (nonlinear_arith)
            requires
                from == (t - 1) * per,
        ;
        assert(0 <= from) by (nonlinear_arith)
            requires
                from == (t - 1) * per,
                1 <= t,
                1 <= per,
        ;
        let to = if t * per <= frames.len() {
            t * per
        } else {
            frames.len() as int
        };
        assert(frames.take(from) + frames.subrange(from, to) =~= frames.take(to));
    }
}

} // verus!
