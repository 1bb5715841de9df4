//! USB CDC serial dump protocol of the Omi device.
//!
//! ```text
//! Host to device (6 B):  [0x00=READ][0x01=file][offset BE u32]
//! Device to host (1 B):  [status: 0=OK, 3=INVALID_FILE_SIZE, 4=ZERO_FILE_SIZE, 6=INVALID_COMMAND]
//! Device to host (4 B):  [file_size LE u32]  (only if the status is OK)
//! Device to host:        [raw stream, file_size - offset bytes]
//! Device to host (1 B):  [0x64 EOT]
//! ```

use crate::text;
use vstd::prelude::*;
use vstd::string::StringExecFns;

verus! {

pub const READ_COMMAND: u8 = 0x00;

pub const FILE_NUM: u8 = 0x01;

pub const STATUS_OK: u8 = 0x00;

pub const STATUS_INVALID_FILE_SIZE: u8 = 0x03;

pub const STATUS_ZERO_FILE_SIZE: u8 = 0x04;

pub const STATUS_INVALID_COMMAND: u8 = 0x06;

pub const EOT_MARKER: u8 = 0x64;

/// The largest chunk of the stream that is read at once.
pub const CHUNK_LEN: usize = 4096;

// ---------------------------------------------------------------------------
// Command and header
// ---------------------------------------------------------------------------

/// The value of four bytes, most significant first.
pub open spec fn be_value(b: Seq<u8>) -> int {
    b[0] * 0x100_0000 + b[1] * 0x1_0000 + b[2] * 0x100 + b[3]
}

/// The value of four bytes, least significant first.
pub open spec fn le_value(b: Seq<u8>) -> int {
    b[3] * 0x100_0000 + b[2] * 0x1_0000 + b[1] * 0x100 + b[0]
}

/// The command that asks for the stored file from an offset on.
pub fn read_command(offset: u32) -> (cmd: [u8; 6])
    ensures
        cmd[0] == READ_COMMAND,
        cmd[1] == FILE_NUM,
        be_value(cmd@.skip(2)) == offset,
{
    let b3: u8 = (offset / 0x100_0000) as u8;
    let b2: u8 = (offset / 0x1_0000 % 0x100) as u8;
    let b1: u8 = (offset / 0x100 % 0x100) as u8;
    let b0: u8 = (offset % 0x100) as u8;
    let cmd: [u8; 6] = [READ_COMMAND, FILE_NUM, b3, b2, b1, b0];
    proof {
        let tail = cmd@.skip(2);
        assert(tail[0] == b3 && tail[1] == b2 && tail[2] == b1 && tail[3] == b0);
        assert(offset == b3 * 0x100_0000 + b2 * 0x1_0000 + b1 * 0x100 + b0);
    }
    cmd
}

/// The bytes of a number determine it: no other offset has the same command.
pub proof fn law_commands_differ(a: Seq<u8>, b: Seq<u8>)
    requires
        a.len() == 4,
        b.len() == 4,
        be_value(a) == be_value(b),
    ensures
        a == b,
{
    assert(a[0] == b[0] && a[1] == b[1] && a[2] == b[2] && a[3] == b[3]);
    assert(a =~= b);
}

pub open spec fn status_text(code: u8) -> Seq<char> {
    if code == STATUS_OK {
        "OK"@
    } else if code == STATUS_INVALID_FILE_SIZE {
        "INVALID_FILE_SIZE (offset >= file size)"@
    } else if code == STATUS_ZERO_FILE_SIZE {
        "ZERO_FILE_SIZE (no data on SD card)"@
    } else if code == STATUS_INVALID_COMMAND {
        "INVALID_COMMAND"@
    } else {
        "UNKNOWN"@
    }
}

pub fn status_name(code: u8) -> (name: &'static str)
    ensures
        name@ == status_text(code),
{
    if code == STATUS_OK {
        "OK"
    } else if code == STATUS_INVALID_FILE_SIZE {
        "INVALID_FILE_SIZE (offset >= file size)"
    } else if code == STATUS_ZERO_FILE_SIZE {
        "ZERO_FILE_SIZE (no data on SD card)"
    } else if code == STATUS_INVALID_COMMAND {
        "INVALID_COMMAND"
    } else {
        "UNKNOWN"
    }
}

/// Whether the device accepted the command; if not, what it said.
pub fn check_status(status: u8) -> (res: Result<(), String>)
    ensures
        res is Ok <==> status == STATUS_OK,
        res matches Err(message) ==> message@ == "device status 0x"@ + text::hex_byte(status)
            + ": "@ + status_text(status),
{
    if status == STATUS_OK {
        Ok(())
    } else {
        let mut message: String = "device status 0x".to_string();
        text::push_hex_byte(&mut message, status);
        message.append(": ");
        message.append(status_name(status));
        Err(message)
    }
}

/// The file size out of the header.
pub fn file_size(bytes: [u8; 4]) -> (size: u32)
    ensures
        size == le_value(bytes@),
{
    let b0: u32 = bytes[0] as u32;
    let b1: u32 = bytes[1] as u32;
    let b2: u32 = bytes[2] as u32;
    let b3: u32 = bytes[3] as u32;
    b3 * 0x100_0000 + b2 * 0x1_0000 + b1 * 0x100 + b0
}

// ---------------------------------------------------------------------------
// Reading a fixed number of bytes
// ---------------------------------------------------------------------------

/// What came of reading from the port.
pub enum PortRead {
    /// Some bytes; none at all means that the device closed the connection.
    Data(Vec<u8>),
    TimedOut,
    Failed,
}

/// What a read means for a transfer.
pub enum ReadStep {
    /// Read again.
    More,
    /// All bytes are there.
    Done,
    /// The connection was closed too early.
    Closed(String),
    /// The device did not answer in time.
    TimedOut(String),
    /// The port's own error is reported.
    Failed,
}

/// A number of bytes that must be read completely.
pub struct ExactRead {
    buf: Vec<u8>,
    len: usize,
}

impl ExactRead {
    /// The bytes that were read so far.
    pub closed spec fn view(&self) -> Seq<u8> {
        self.buf@
    }

    /// The number of bytes to read.
    pub closed spec fn total(&self) -> nat {
        self.len as nat
    }

    pub closed spec fn wf(&self) -> bool {
        self.buf.len() <= self.len
    }

    pub fn new(len: usize) -> (read: Self)
        ensures
            read.wf(),
            read@ == Seq::<u8>::empty(),
            read.total() == len,
    {
        ExactRead { buf: Vec::new(), len }
    }

    /// How many bytes are still to be read.
    pub fn missing(&self) -> (n: usize)
        requires
            self.wf(),
        ensures
            n == self.total() - self@.len(),
    {
        self.len - self.buf.len()
    }

    /// The bytes that were read.
    pub fn bytes(self) -> (buf: Vec<u8>)
        ensures
            buf@ == self@,
    {
        self.buf
    }
}

pub open spec fn closed_message(filled: nat) -> Seq<char> {
    "device closed connection after "@ + text::decimal(filled) + " bytes"@
}

pub open spec fn timeout_message(filled: nat, total: nat) -> Seq<char> {
    "timeout after reading "@ + text::decimal(filled) + " of "@ + text::decimal(total) + " bytes"@
}

/// Takes what came of one read towards a fixed number of bytes. A read asks for no more bytes
/// than are missing.
pub fn read_exact(state: &mut ExactRead, read: PortRead) -> (step: ReadStep)
    requires
        old(state).wf(),
        old(state)@.len() < old(state).total(),
        read matches PortRead::Data(bytes) ==> old(state)@.len() + bytes.len() <= old(
            state,
        ).total(),
    ensures
        final(state).wf(),
        final(state).total() == old(state).total(),
        match read {
            PortRead::Data(bytes) => {
                &&& final(state)@ == old(state)@ + bytes@
                &&& if bytes.len() == 0 {
                    step matches ReadStep::Closed(m) && m@ == closed_message(old(state)@.len())
                } else if final(state)@.len() == final(state).total() {
                    step is Done
                } else {
                    step is More
                }
            },
            PortRead::TimedOut => {
                &&& final(state)@ == old(state)@
                &&& step matches ReadStep::TimedOut(m) && m@ == timeout_message(
                    old(state)@.len(),
                    old(state).total(),
                )
            },
            PortRead::Failed => final(state)@ == old(state)@ && step is Failed,
        },
{
    match read {
        PortRead::Data(bytes) => {
            if bytes.len() == 0 {
                assert(state@ + bytes@ =~= state@);
                let mut message: String = "device closed connection after ".to_string();
                text::push_decimal(&mut message, state.buf.len() as u64);
                message.append(" bytes");
                ReadStep::Closed(message)
            } else {
                let mut bytes: Vec<u8> = bytes;
                state.buf.append(&mut bytes);
                if state.buf.len() == state.len {
                    ReadStep::Done
                } else {
                    ReadStep::More
                }
            }
        },
        PortRead::TimedOut => {
            let mut message: String = "timeout after reading ".to_string();
            text::push_decimal(&mut message, state.buf.len() as u64);
            message.append(" of ");
            text::push_decimal(&mut message, state.len as u64);
            message.append(" bytes");
            ReadStep::TimedOut(message)
        },
        PortRead::Failed => ReadStep::Failed,
    }
}

// ---------------------------------------------------------------------------
// Streaming the file
// ---------------------------------------------------------------------------

/// The progress of the raw stream.
pub struct Transfer {
    received: u64,
    to_receive: u64,
}

/// What came of reading a chunk of the stream: the number of bytes, or why there are none.
pub enum ChunkRead {
    Data(usize),
    TimedOut,
    Failed,
}

/// What to do after a chunk.
pub enum ChunkStep {
    /// Write the bytes of the chunk.
    Write,
    /// The stream ended too early.
    Ended(String),
    /// The device did not send in time.
    TimedOut(String),
    /// The port's own error is reported.
    Failed,
}

pub open spec fn progress_text(received: nat, to_receive: nat) -> Seq<char> {
    text::decimal(received) + " / "@ + text::decimal(to_receive) + " bytes"@
}

impl Transfer {
    pub closed spec fn received(&self) -> nat {
        self.received as nat
    }

    pub closed spec fn to_receive(&self) -> nat {
        self.to_receive as nat
    }

    pub closed spec fn wf(&self) -> bool {
        self.received <= self.to_receive <= u32::MAX
    }

    /// The stream of a file of the given size from the given offset on.
    pub fn new(file_size: u32, offset: u32) -> (transfer: Self)
        ensures
            transfer.wf(),
            transfer.received() == 0,
            transfer.to_receive() == if offset <= file_size {
                (file_size - offset) as nat
            } else {
                0
            },
    {
        let to_receive: u64 = (file_size as u64).saturating_sub(offset as u64);
        Transfer { received: 0, to_receive }
    }

    /// Bytes received so far, and bytes to receive in all.
    pub fn progress(&self) -> (res: (u64, u64))
        ensures
            res.0 == self.received(),
            res.1 == self.to_receive(),
    {
        (self.received, self.to_receive)
    }

    /// How many bytes to ask for next: at most a chunk, at most what is missing, and none when
    /// all were received.
    pub fn want(&self) -> (n: usize)
        requires
            self.wf(),
        ensures
            n == if self.to_receive() - self.received() < CHUNK_LEN {
                self.to_receive() - self.received()
            } else {
                CHUNK_LEN as int
            },
            n == 0 <==> self.received() == self.to_receive(),
    {
        let missing: u64 = self.to_receive - self.received;
        if missing < CHUNK_LEN as u64 {
            missing as usize
        } else {
            CHUNK_LEN
        }
    }

    fn progress_message(&self, start: &str) -> (message: String)
        ensures
            message@ == start@ + progress_text(self.received(), self.to_receive()),
    {
        let mut message: String = start.to_string();
        text::push_decimal(&mut message, self.received);
        message.append(" / ");
        text::push_decimal(&mut message, self.to_receive);
        message.append(" bytes");
        assert(message@ =~= start@ + progress_text(self.received(), self.to_receive()));
        message
    }

    /// Takes what came of reading a chunk. A read asks for no more than `want`.
    pub fn on_chunk(&mut self, read: ChunkRead) -> (step: ChunkStep)
        requires
            old(self).wf(),
            read matches ChunkRead::Data(n) ==> n <= old(self).to_receive() - old(self).received(),
        ensures
            final(self).wf(),
            final(self).to_receive() == old(self).to_receive(),
            match read {
                ChunkRead::Data(n) => {
                    &&& final(self).received() == old(self).received() + n
                    &&& if n == 0 {
                        step matches ChunkStep::Ended(m) && m@ == "stream ended at "@
                            + progress_text(old(self).received(), old(self).to_receive())
                    } else {
                        step is Write
                    }
                },
                ChunkRead::TimedOut => {
                    &&& final(self).received() == old(self).received()
                    &&& step matches ChunkStep::TimedOut(m) && m@ == "read timeout at "@
                        + progress_text(old(self).received(), old(self).to_receive())
                },
                ChunkRead::Failed => final(self).received() == old(self).received()
                    && step is Failed,
            },
    {
        match read {
            ChunkRead::Data(n) => {
                if n == 0 {
                    ChunkStep::Ended(self.progress_message("stream ended at "))
                } else {
                    self.received += n as u64;
                    ChunkStep::Write
                }
            },
            ChunkRead::TimedOut => ChunkStep::TimedOut(self.progress_message("read timeout at ")),
            ChunkRead::Failed => ChunkStep::Failed,
        }
    }
}

/// The end-of-transmission byte: whether it is the marker, and if not, a warning.
pub fn check_eot(byte: u8) -> (res: Result<(), String>)
    ensures
        res is Ok <==> byte == EOT_MARKER,
        res matches Err(message) ==> message@ == "expected EOT 0x64, got 0x"@ + text::hex_byte(
            byte,
        ),
{
    if byte == EOT_MARKER {
        Ok(())
    } else {
        let mut message: String = "expected EOT 0x64, got 0x".to_string();
        text::push_hex_byte(&mut message, byte);
        Err(message)
    }
}

} // verus!
