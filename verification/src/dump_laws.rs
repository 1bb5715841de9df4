//! The course of a dump, told by the bytes that the device has sent.

use crate::dump_session;
use crate::dump_session::{DumpSession, Phase, SessionStep};
use crate::text;
use crate::usb_dump;
use crate::usb_dump::PortRead;
use vstd::prelude::*;

verus! {

/// Four bytes have the value that their order gives them: the first is the most significant in a
/// command, and the least significant in an answer.
pub proof fn law_byte_order(a: u8, b: u8, c: u8, d: u8)
    ensures
        usb_dump::be_value(seq![a, b, c, d]) == a * 16_777_216 + b * 65_536 + c * 256 + d,
        usb_dump::le_value(seq![a, b, c, d]) == a + b * 256 + c * 65_536 + d * 16_777_216,
{
}

/// The size that the header names, which is its second to fifth byte.
pub open spec fn named_size(sent: Seq<u8>) -> int {
    sent[1] + sent[2] * 256 + sent[3] * 65_536 + sent[4] * 16_777_216
}

/// How many bytes of the file are to come: those behind the offset, if any.
pub open spec fn to_come(offset: u32, sent: Seq<u8>) -> int {
    if named_size(sent) > offset {
        named_size(sent) - offset
    } else {
        0
    }
}

proof fn lemma_to_come(offset: u32, sent: Seq<u8>)
    requires
        sent.len() >= 5,
    ensures
        dump_session::stream_len(offset, sent) == to_come(offset, sent),
{
    let size = sent.subrange(1, 5);
    assert(size[0] == sent[1] && size[1] == sent[2] && size[2] == sent[3] && size[3] == sent[4]);
}

/// A session goes by the number of bytes that have come. The first is the status, and any but
/// zero ends the session; four bytes of size, the stream and one more byte follow. It asks for
/// what is missing of each, of the stream for 4096 bytes at most, and for nothing in the end.
pub proof fn law_session_goes_by_bytes(offset: u32, sent: Seq<u8>)
    ensures
        ({
            let n = sent.len();
            let phase = dump_session::phase_of(offset, sent);
            let want = dump_session::request(offset, sent);
            if n == 0 {
                phase == Phase::Status && want == 1
            } else if sent[0] != 0 {
                phase == Phase::Over && want == 0
            } else if n < 5 {
                phase == Phase::Size && want == 5 - n
            } else {
                let end = 5 + to_come(offset, sent);
                if n < end {
                    phase == Phase::Stream && want == if end - n < 4096 {
                        end - n
                    } else {
                        4096
                    }
                } else if n == end {
                    phase == Phase::Eot && want == 1
                } else {
                    phase == Phase::Over && want == 0
                }
            }
        }),
{
    if sent.len() >= 5 {
        lemma_to_come(offset, sent);
    }
}

/// The bytes of the file are those behind the five bytes of the header, as far as they have come
/// and no further than the size goes.
pub proof fn law_payload_is_behind_the_header(offset: u32, sent: Seq<u8>)
    ensures
        ({
            let data = dump_session::payload(offset, sent);
            if sent.len() < 5 || sent[0] != 0 {
                data.len() == 0
            } else {
                &&& data.len() == if sent.len() - 5 < to_come(offset, sent) {
                    sent.len() - 5
                } else {
                    to_come(offset, sent)
                }
                &&& forall|j: int| 0 <= j < data.len() ==> #[trigger] data[j] == sent[5 + j]
            }
        }),
{
    if sent.len() >= 5 {
        lemma_to_come(offset, sent);
    }
}

/// What bytes from the device mean. The status is refused unless it is zero, the complete header
/// tells the size and how much is to come, bytes of the stream are written as they are, and only
/// the end marker verifies the file.
pub proof fn law_bytes_are_taken(
    step: SessionStep,
    offset: u32,
    sent: Seq<u8>,
    bytes: Seq<u8>,
)
    requires
        dump_session::taken(step, offset, sent, bytes),
        0 < bytes.len() <= dump_session::request(offset, sent),
    ensures
        ({
            let n = sent.len();
            let now = sent + bytes;
            if n == 0 {
                if bytes[0] == 0 {
                    step is More
                } else {
                    step matches SessionStep::Refused(m) && m@ == "device status 0x"@
                        + text::hex_byte(bytes[0]) + ": "@ + usb_dump::status_text(bytes[0])
                }
            } else if n < 5 {
                if now.len() < 5 {
                    step is More
                } else {
                    step matches SessionStep::Header { file_size, to_receive } && file_size
                        == named_size(now) && to_receive == to_come(offset, now)
                }
            } else if n < 5 + to_come(offset, sent) {
                step matches SessionStep::Write(b) && b@ == bytes
            } else if bytes[0] == 0x64 {
                step is Verified
            } else {
                step matches SessionStep::Suspicious(m) && m@ == "expected EOT 0x64, got 0x"@
                    + text::hex_byte(bytes[0])
            }
        }),
{
    law_session_goes_by_bytes(offset, sent);
    if sent.len() >= 5 {
        lemma_to_come(offset, sent);
    } else if sent.len() > 0 && (sent + bytes).len() == 5 {
        let now = sent + bytes;
        lemma_to_come(offset, now);
        let size = now.subrange(1, 5);
        assert(size[0] == now[1] && size[1] == now[2] && size[2] == now[3] && size[3] == now[4]);
    }
}

/// The end of the connection is an error that says how far the part under way had come, but for
/// the end marker, whose lack is reported and no more.
pub proof fn law_early_end_is_reported(step: SessionStep, offset: u32, sent: Seq<u8>)
    requires
        dump_session::closed(step, offset, sent),
    ensures
        ({
            let n = sent.len();
            if n == 0 {
                step matches SessionStep::Closed(m) && m@ == "device closed connection after "@
                    + text::decimal(0) + " bytes"@
            } else if n < 5 {
                step matches SessionStep::Closed(m) && m@ == "device closed connection after "@
                    + text::decimal((n - 1) as nat) + " bytes"@
            } else if n < 5 + to_come(offset, sent) {
                step matches SessionStep::Closed(m) && m@ == "stream ended at "@ + (text::decimal(
                    (n - 5) as nat,
                ) + " / "@ + text::decimal(to_come(offset, sent) as nat) + " bytes"@)
            } else {
                step matches SessionStep::Unmarked(Some(m)) && m@
                    == "device closed connection after "@ + text::decimal(0) + " bytes"@
            }
        }),
{
    law_session_goes_by_bytes(offset, sent);
    if sent.len() >= 5 {
        lemma_to_come(offset, sent);
    }
}

/// Silence is an error that says how far the part under way had come, but for the end marker,
/// whose lack is reported and no more.
pub proof fn law_silence_is_reported(step: SessionStep, offset: u32, sent: Seq<u8>)
    requires
        dump_session::timed_out(step, offset, sent),
    ensures
        ({
            let n = sent.len();
            if n == 0 {
                step matches SessionStep::TimedOut(m) && m@ == "timeout after reading "@
                    + text::decimal(0) + " of "@ + text::decimal(1) + " bytes"@
            } else if n < 5 {
                step matches SessionStep::TimedOut(m) && m@ == "timeout after reading "@
                    + text::decimal((n - 1) as nat) + " of "@ + text::decimal(4) + " bytes"@
            } else if n < 5 + to_come(offset, sent) {
                step matches SessionStep::TimedOut(m) && m@ == "read timeout at "@ + (text::decimal(
                    (n - 5) as nat,
                ) + " / "@ + text::decimal(to_come(offset, sent) as nat) + " bytes"@)
            } else {
                step matches SessionStep::Unmarked(Some(m)) && m@ == "timeout after reading "@
                    + text::decimal(0) + " of "@ + text::decimal(1) + " bytes"@
            }
        }),
{
    law_session_goes_by_bytes(offset, sent);
    if sent.len() >= 5 {
        lemma_to_come(offset, sent);
    }
}

/// The device has four answers to a command, by number; any other is unknown.
pub proof fn law_statuses_have_names(code: u8)
    ensures
        usb_dump::status_text(0) == "OK"@,
        usb_dump::status_text(3) == "INVALID_FILE_SIZE (offset >= file size)"@,
        usb_dump::status_text(4) == "ZERO_FILE_SIZE (no data on SD card)"@,
        usb_dump::status_text(6) == "INVALID_COMMAND"@,
        code != 0 && code != 3 && code != 4 && code != 6 ==> usb_dump::status_text(code)
            == "UNKNOWN"@,
{
}

/// A session keeps what the device has sent, byte for byte, and its offset. A failure of the port
/// is reported as it is; behind the stream, where the end marker is missing alone, it ends the
/// session without an error.
pub proof fn law_session_keeps_what_was_sent(
    before: DumpSession,
    now: DumpSession,
    read: PortRead,
    step: SessionStep,
)
    requires
        now.follows(before, read, step),
    ensures
        now.offset() == before.offset(),
        read matches PortRead::Data(bytes) ==> now.sent() == before.sent() + bytes@,
        !(read is Data) ==> now.sent() == before.sent(),
        read is Failed ==> {
            let sent = before.sent();
            if sent.len() >= 5 && sent[0] == 0 && sent.len() == 5 + to_come(
                before.offset(),
                sent,
            ) {
                step == SessionStep::Unmarked(None)
            } else {
                step is Failed
            }
        },
{
    law_session_goes_by_bytes(before.offset(), before.sent());
}

} // verus!
