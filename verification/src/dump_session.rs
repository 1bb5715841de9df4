//! A whole dump over the serial port: status, file size, stream and end marker, as a machine
//! that says how many bytes to read next and takes what came of the read.

use crate::text;
use crate::usb_dump;
use crate::usb_dump::{
    check_eot, check_status, file_size, read_exact, ChunkRead, ChunkStep, ExactRead, PortRead,
    ReadStep, Transfer, CHUNK_LEN, EOT_MARKER, STATUS_OK,
};
use vstd::prelude::*;

verus! {

// ---------------------------------------------------------------------------
// The protocol, over the bytes that the device has sent so far
// ---------------------------------------------------------------------------

/// What the next byte from the device is.
#[derive(Debug, Clone, Copy, PartialEq, Eq, Structural)]
pub enum Phase {
    Status,
    Size,
    Stream,
    Eot,
    /// Nothing more is expected.
    Over,
}

/// The number of bytes in the stream, once the header is known.
pub open spec fn stream_len(offset: u32, sent: Seq<u8>) -> int {
    let size = usb_dump::le_value(sent.subrange(1, 5));
    if size <= offset {
        0
    } else {
        size - offset
    }
}

/// The phase behind the bytes that the device has sent.
pub open spec fn phase_of(offset: u32, sent: Seq<u8>) -> Phase {
    if sent.len() == 0 {
        Phase::Status
    } else if sent[0] != STATUS_OK {
        Phase::Over
    } else if sent.len() < 5 {
        Phase::Size
    } else if sent.len() < 5 + stream_len(offset, sent) {
        Phase::Stream
    } else if sent.len() == 5 + stream_len(offset, sent) {
        Phase::Eot
    } else {
        Phase::Over
    }
}

/// The bytes of the file among the bytes that the device has sent.
pub open spec fn payload(offset: u32, sent: Seq<u8>) -> Seq<u8> {
    if sent.len() < 5 || sent[0] != STATUS_OK {
        Seq::empty()
    } else if sent.len() <= 5 + stream_len(offset, sent) {
        sent.skip(5)
    } else {
        sent.subrange(5, 5 + stream_len(offset, sent))
    }
}

/// How many bytes to ask for.
pub open spec fn request(offset: u32, sent: Seq<u8>) -> int {
    match phase_of(offset, sent) {
        Phase::Status => 1,
        Phase::Size => 5 - sent.len(),
        Phase::Stream => {
            let missing = 5 + stream_len(offset, sent) - sent.len();
            if missing < CHUNK_LEN {
                missing
            } else {
                CHUNK_LEN as int
            }
        },
        Phase::Eot => 1,
        Phase::Over => 0,
    }
}

/// An answer of the device that serves a file from an offset on: its data and the end marker.
pub open spec fn answer(size: Seq<u8>, data: Seq<u8>) -> Seq<u8> {
    seq![STATUS_OK] + size + data + seq![EOT_MARKER]
}

/// Of a complete answer exactly the data is written, and nothing more is asked for.
pub proof fn law_complete_answer(offset: u32, size: Seq<u8>, data: Seq<u8>)
    requires
        size.len() == 4,
        offset <= usb_dump::le_value(size),
        data.len() == usb_dump::le_value(size) - offset,
    ensures
        payload(offset, answer(size, data)) == data,
        phase_of(offset, answer(size, data)) == Phase::Over,
        forall|k: int|
            0 <= k < answer(size, data).len() ==> #[trigger] phase_of(
                offset,
                answer(size, data).take(k),
            ) != Phase::Over,
{
    let a = answer(size, data);
    assert(a.subrange(1, 5) =~= size);
    assert(a[0] == STATUS_OK);
    assert(payload(offset, a) =~= data);
    assert forall|k: int| 0 <= k < a.len() implies #[trigger] phase_of(offset, a.take(k))
        != Phase::Over by {
        let p = a.take(k);
        if k >= 5 {
            assert(p.subrange(1, 5) =~= size);
        }
    }
}

/// Whatever the sizes of the reads, every byte of the stream is added to the payload, no other
/// byte is, and none too many.
pub proof fn law_payload_grows(offset: u32, sent: Seq<u8>, more: Seq<u8>)
    requires
        more.len() <= request(offset, sent),
    ensures
        phase_of(offset, sent) == Phase::Stream ==> payload(offset, sent + more) == payload(
            offset,
            sent,
        ) + more,
        phase_of(offset, sent) != Phase::Stream ==> payload(offset, sent + more) == payload(
            offset,
            sent,
        ),
        sent.len() >= 5 ==> payload(offset, sent + more).len() <= stream_len(offset, sent),
{
    let now = sent + more;
    if sent.len() > 0 {
        assert(now[0] == sent[0]);
    }
    if sent.len() >= 5 {
        assert(now.subrange(1, 5) =~= sent.subrange(1, 5));
    }
    if phase_of(offset, sent) == Phase::Stream {
        assert(payload(offset, now) =~= payload(offset, sent) + more);
    } else {
        assert(payload(offset, now) =~= payload(offset, sent));
    }
}

// ---------------------------------------------------------------------------
// The machine
// ---------------------------------------------------------------------------

/// What a read means for the session.
pub enum SessionStep {
    /// Read on.
    More,
    /// The header is complete: the size of the file and the number of bytes to receive.
    Header { file_size: u32, to_receive: u64 },
    /// Write these bytes of the file, then read on.
    Write(Vec<u8>),
    /// The device did not accept the command.
    Refused(String),
    /// The connection was closed too early.
    Closed(String),
    /// The device did not send in time.
    TimedOut(String),
    /// The port's own error is reported.
    Failed,
    /// The file is complete and its end marker verified.
    Verified,
    /// The file is complete, but something else came in place of the end marker.
    Suspicious(String),
    /// The file is complete, but its end marker could not be read: why, or `None` where the
    /// port's own error says it.
    Unmarked(Option<String>),
}

/// A dump from an offset on.
pub struct DumpSession {
    offset: u32,
    phase: Phase,
    exact: ExactRead,
    transfer: Transfer,
    sent: Ghost<Seq<u8>>,
}

/// What bytes from the device mean.
pub open spec fn taken(step: SessionStep, offset: u32, sent: Seq<u8>, bytes: Seq<u8>) -> bool {
    let now = sent + bytes;
    match phase_of(offset, sent) {
        Phase::Status => if bytes[0] == STATUS_OK {
            step is More
        } else {
            step matches SessionStep::Refused(m) && m@ == "device status 0x"@ + text::hex_byte(
                bytes[0],
            ) + ": "@ + usb_dump::status_text(bytes[0])
        },
        Phase::Size => if now.len() < 5 {
            step is More
        } else {
            step matches SessionStep::Header { file_size, to_receive } && file_size
                == usb_dump::le_value(now.subrange(1, 5)) && to_receive == stream_len(offset, now)
        },
        Phase::Stream => step matches SessionStep::Write(b) && b@ == bytes,
        Phase::Eot => if bytes[0] == EOT_MARKER {
            step is Verified
        } else {
            step matches SessionStep::Suspicious(m) && m@ == "expected EOT 0x64, got 0x"@
                + text::hex_byte(bytes[0])
        },
        Phase::Over => false,
    }
}

/// What the end of the connection means.
pub open spec fn closed(step: SessionStep, offset: u32, sent: Seq<u8>) -> bool {
    match phase_of(offset, sent) {
        Phase::Status => step matches SessionStep::Closed(m) && m@ == usb_dump::closed_message(0),
        Phase::Size => step matches SessionStep::Closed(m) && m@ == usb_dump::closed_message(
            (sent.len() - 1) as nat,
        ),
        Phase::Stream => step matches SessionStep::Closed(m) && m@ == "stream ended at "@
            + usb_dump::progress_text(
            (sent.len() - 5) as nat,
            stream_len(offset, sent) as nat,
        ),
        Phase::Eot => step matches SessionStep::Unmarked(Some(m)) && m@ == usb_dump::closed_message(
            0,
        ),
        Phase::Over => false,
    }
}

/// What silence of the device means.
pub open spec fn timed_out(step: SessionStep, offset: u32, sent: Seq<u8>) -> bool {
    match phase_of(offset, sent) {
        Phase::Status => step matches SessionStep::TimedOut(m) && m@ == usb_dump::timeout_message(
            0,
            1,
        ),
        Phase::Size => step matches SessionStep::TimedOut(m) && m@ == usb_dump::timeout_message(
            (sent.len() - 1) as nat,
            4,
        ),
        Phase::Stream => step matches SessionStep::TimedOut(m) && m@ == "read timeout at "@
            + usb_dump::progress_text(
            (sent.len() - 5) as nat,
            stream_len(offset, sent) as nat,
        ),
        Phase::Eot => step matches SessionStep::Unmarked(Some(m)) && m@
            == usb_dump::timeout_message(0, 1),
        Phase::Over => false,
    }
}

spec fn bytes_of(read: PortRead) -> Seq<u8> {
    match read {
        PortRead::Data(bytes) => bytes@,
        _ => Seq::empty(),
    }
}

impl DumpSession {
    /// The bytes that the device has sent.
    pub closed spec fn sent(&self) -> Seq<u8> {
        self.sent@
    }

    /// The offset that was asked for.
    pub closed spec fn offset(&self) -> u32 {
        self.offset
    }

    pub closed spec fn wf(&self) -> bool {
        let sent = self.sent@;
        &&& self.exact.wf()
        &&& self.transfer.wf()
        &&& self.phase == phase_of(self.offset, sent)
        &&& sent.len() < 5 ==> self.transfer.received() == 0 && self.transfer.to_receive() == 0
        &&& match self.phase {
            Phase::Status => self.exact@ == Seq::<u8>::empty() && self.exact.total() == 1,
            Phase::Size => self.exact@ == sent.skip(1) && self.exact.total() == 4,
            Phase::Stream => {
                &&& self.transfer.received() == sent.len() - 5
                &&& self.transfer.to_receive() == stream_len(self.offset, sent)
            },
            Phase::Eot => {
                &&& self.exact@ == Seq::<u8>::empty()
                &&& self.exact.total() == 1
                &&& self.transfer.received() == stream_len(self.offset, sent)
                &&& self.transfer.to_receive() == stream_len(self.offset, sent)
            },
            Phase::Over => sent[0] == STATUS_OK ==> {
                &&& self.transfer.received() == stream_len(self.offset, sent)
                &&& self.transfer.to_receive() == stream_len(self.offset, sent)
            },
        }
    }

    /// A session that has sent its command and waits for the device.
    pub fn new(offset: u32) -> (session: Self)
        ensures
            session.wf(),
            session.offset() == offset,
            session.sent() == Seq::<u8>::empty(),
    {
        DumpSession {
            offset,
            phase: Phase::Status,
            exact: ExactRead::new(1),
            transfer: Transfer::new(0, 0),
            sent: Ghost(Seq::empty()),
        }
    }

    /// How many bytes to ask for next; none when the session is over.
    pub fn want(&self) -> (n: usize)
        requires
            self.wf(),
        ensures
            n == request(self.offset(), self.sent()),
            n == 0 <==> phase_of(self.offset(), self.sent()) == Phase::Over,
    {
        match self.phase {
            Phase::Status | Phase::Size | Phase::Eot => self.exact.missing(),
            Phase::Stream => self.transfer.want(),
            Phase::Over => 0,
        }
    }

    /// Bytes of the file received so far, and bytes to receive in all, once the header is known;
    /// before that, zeros.
    pub fn progress(&self) -> (res: (u64, u64))
        requires
            self.wf(),
        ensures
            self.sent().len() >= 5 && self.sent()[0] == STATUS_OK ==> {
                &&& res.0 == payload(self.offset(), self.sent()).len()
                &&& res.1 == stream_len(self.offset(), self.sent())
            },
            self.sent().len() < 5 ==> res.0 == 0 && res.1 == 0,
    {
        self.transfer.progress()
    }

    fn on_status(&mut self, read: PortRead) -> (step: SessionStep)
        requires
            old(self).wf(),
            phase_of(old(self).offset(), old(self).sent()) == Phase::Status,
            read matches PortRead::Data(bytes) ==> bytes.len() <= 1,
        ensures
            final(self).wf(),
            final(self).follows(*old(self), read, step),
    {
        let ghost before = self.sent@;
        let ghost more = bytes_of(read);
        assert(before =~= Seq::<u8>::empty());
        let step: ReadStep = read_exact(&mut self.exact, read);
        match step {
            ReadStep::Done => {
                let mut read: ExactRead = ExactRead::new(4);
                self.swap_exact(&mut read);
                let bytes: Vec<u8> = read.bytes();
                self.sent = Ghost(before + more);
                assert(bytes@ =~= more && self.sent@ =~= more);
                match check_status(bytes[0]) {
                    Ok(()) => {
                        self.phase = Phase::Size;
                        assert(self.exact@ =~= self.sent@.skip(1));
                        SessionStep::More
                    },
                    Err(m) => {
                        self.phase = Phase::Over;
                        SessionStep::Refused(m)
                    },
                }
            },
            ReadStep::More => SessionStep::More,
            ReadStep::Closed(m) => SessionStep::Closed(m),
            ReadStep::TimedOut(m) => SessionStep::TimedOut(m),
            ReadStep::Failed => SessionStep::Failed,
        }
    }

    fn swap_exact(&mut self, other: &mut ExactRead)
        ensures
            final(self).exact == *old(other),
            *final(other) == old(self).exact,
            final(self).offset == old(self).offset,
            final(self).phase == old(self).phase,
            final(self).transfer == old(self).transfer,
            final(self).sent == old(self).sent,
    {
        std::mem::swap(&mut self.exact, other);
    }

    fn on_size(&mut self, read: PortRead) -> (step: SessionStep)
        requires
            old(self).wf(),
            phase_of(old(self).offset(), old(self).sent()) == Phase::Size,
            read matches PortRead::Data(bytes) ==> bytes.len() <= 5 - old(self).sent().len(),
        ensures
            final(self).wf(),
            final(self).follows(*old(self), read, step),
    {
        let ghost before = self.sent@;
        let ghost more = bytes_of(read);
        let ghost now = before + more;
        proof {
            assert(now[0] == before[0]);
            assert(now.skip(1) =~= before.skip(1) + more);
            assert(before + Seq::<u8>::empty() =~= before);
        }
        let step: ReadStep = read_exact(&mut self.exact, read);
        match step {
            ReadStep::Done => {
                let mut read: ExactRead = ExactRead::new(1);
                self.swap_exact(&mut read);
                let bytes: Vec<u8> = read.bytes();
                let header: [u8; 4] = [bytes[0], bytes[1], bytes[2], bytes[3]];
                let size: u32 = file_size(header);
                self.transfer = Transfer::new(size, self.offset);
                self.sent = Ghost(now);
                proof {
                    assert(bytes@ =~= now.skip(1));
                    assert(header@ =~= now.subrange(1, 5));
                }
                let (_received, to_receive): (u64, u64) = self.transfer.progress();
                self.phase = if to_receive == 0 {
                    Phase::Eot
                } else {
                    Phase::Stream
                };
                SessionStep::Header { file_size: size, to_receive }
            },
            ReadStep::More => {
                self.sent = Ghost(now);
                SessionStep::More
            },
            ReadStep::Closed(m) => SessionStep::Closed(m),
            ReadStep::TimedOut(m) => SessionStep::TimedOut(m),
            ReadStep::Failed => SessionStep::Failed,
        }
    }

    fn on_stream(&mut self, read: PortRead) -> (step: SessionStep)
        requires
            old(self).wf(),
            phase_of(old(self).offset(), old(self).sent()) == Phase::Stream,
            read matches PortRead::Data(bytes) ==> bytes.len() <= request(
                old(self).offset(),
                old(self).sent(),
            ),
        ensures
            final(self).wf(),
            final(self).follows(*old(self), read, step),
    {
        let ghost before = self.sent@;
        proof {
            assert(before + Seq::<u8>::empty() =~= before);
        }
        match read {
            PortRead::Data(bytes) => {
                let ghost now = before + bytes@;
                proof {
                    assert(now[0] == before[0]);
                    assert(now.subrange(1, 5) =~= before.subrange(1, 5));
                }
                match self.transfer.on_chunk(ChunkRead::Data(bytes.len())) {
                    ChunkStep::Write => {
                        self.sent = Ghost(now);
                        let (received, to_receive): (u64, u64) = self.transfer.progress();
                        if received == to_receive {
                            self.exact = ExactRead::new(1);
                            self.phase = Phase::Eot;
                        }
                        SessionStep::Write(bytes)
                    },
                    ChunkStep::Ended(m) => SessionStep::Closed(m),
                    ChunkStep::TimedOut(m) => SessionStep::TimedOut(m),
                    ChunkStep::Failed => SessionStep::Failed,
                }
            },
            PortRead::TimedOut => match self.transfer.on_chunk(ChunkRead::TimedOut) {
                ChunkStep::TimedOut(m) => SessionStep::TimedOut(m),
                _ => SessionStep::Failed,
            },
            PortRead::Failed => SessionStep::Failed,
        }
    }

    fn on_eot(&mut self, read: PortRead) -> (step: SessionStep)
        requires
            old(self).wf(),
            phase_of(old(self).offset(), old(self).sent()) == Phase::Eot,
            read matches PortRead::Data(bytes) ==> bytes.len() <= 1,
        ensures
            final(self).wf(),
            final(self).follows(*old(self), read, step),
    {
        let ghost before = self.sent@;
        let ghost more = bytes_of(read);
        let ghost now = before + more;
        proof {
            assert(now[0] == before[0]);
            assert(now.subrange(1, 5) =~= before.subrange(1, 5));
            assert(before + Seq::<u8>::empty() =~= before);
        }
        let step: ReadStep = read_exact(&mut self.exact, read);
        match step {
            ReadStep::Done => {
                let mut read: ExactRead = ExactRead::new(1);
                self.swap_exact(&mut read);
                let bytes: Vec<u8> = read.bytes();
                assert(bytes@ =~= more);
                self.sent = Ghost(now);
                self.phase = Phase::Over;
                match check_eot(bytes[0]) {
                    Ok(()) => SessionStep::Verified,
                    Err(m) => SessionStep::Suspicious(m),
                }
            },
            ReadStep::More => SessionStep::More,
            ReadStep::Closed(m) => SessionStep::Unmarked(Some(m)),
            ReadStep::TimedOut(m) => SessionStep::Unmarked(Some(m)),
            ReadStep::Failed => SessionStep::Unmarked(None),
        }
    }

    /// What a read changes, and what it means.
    pub open spec fn follows(self, before: Self, read: PortRead, step: SessionStep) -> bool {
        let offset = before.offset();
        let sent = before.sent();
        &&& self.offset() == offset
        &&& match read {
            PortRead::Data(bytes) => {
                &&& self.sent() == sent + bytes@
                &&& bytes.len() > 0 ==> taken(step, offset, sent, bytes@)
                &&& bytes.len() == 0 ==> closed(step, offset, sent)
            },
            PortRead::TimedOut => self.sent() == sent && timed_out(step, offset, sent),
            PortRead::Failed => {
                &&& self.sent() == sent
                &&& if phase_of(offset, sent) == Phase::Eot {
                    step matches SessionStep::Unmarked(m) && m is None
                } else {
                    step is Failed
                }
            },
        }
    }

    /// Takes what came of a read that asked for `want` bytes.
    pub fn on_read(&mut self, read: PortRead) -> (step: SessionStep)
        requires
            old(self).wf(),
            phase_of(old(self).offset(), old(self).sent()) != Phase::Over,
            read matches PortRead::Data(bytes) ==> bytes.len() <= request(
                old(self).offset(),
                old(self).sent(),
            ),
        ensures
            final(self).wf(),
            final(self).follows(*old(self), read, step),
    {
        match self.phase {
            Phase::Status => self.on_status(read),
            Phase::Size => self.on_size(read),
            Phase::Stream => self.on_stream(read),
            Phase::Eot => self.on_eot(read),
            Phase::Over => SessionStep::Failed,
        }
    }
}

} // verus!
