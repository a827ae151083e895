use vstd::prelude::*;
use vstd::string::StringSliceAdditionalSpecFns;

use crate::hash::{hex_value, hex_digit};
use crate::objects::append_bytes;
use crate::Error;

verus! {

/// One line to send with pkt-line framing.
pub enum PacketLine<'a> {
    String(&'a str),
    Bytes(&'a [u8]),
    FlushPacket,
    DelimiterPacket,
    ResponseEndPacket,
}

/// The largest total length that a pkt-line header can state.
pub const MAX_PKT_LEN: usize = 0xffff;

/// Four lowercase hexadecimal digits of `n`, most significant first.
pub open spec fn hex4(n: nat) -> Seq<u8> {
    seq![
        hex_digit(((n / 0x1000) % 16) as u8),
        hex_digit(((n / 0x100) % 16) as u8),
        hex_digit(((n / 0x10) % 16) as u8),
        hex_digit((n % 16) as u8),
    ]
}

/// The value of four hexadecimal digits, if they are.
pub open spec fn hex4_value(s: Seq<u8>) -> Option<nat> {
    if s.len() == 4 && hex_value(s[0]).is_some() && hex_value(s[1]).is_some() && hex_value(
        s[2],
    ).is_some() && hex_value(s[3]).is_some() {
        Some(
            (hex_value(s[0]).unwrap() * 0x1000 + hex_value(s[1]).unwrap() * 0x100 + hex_value(
                s[2],
            ).unwrap() * 0x10 + hex_value(s[3]).unwrap()) as nat,
        )
    } else {
        None
    }
}

/// The payload bytes of a line to send, if it carries any.
pub open spec fn payload<'a>(l: PacketLine<'a>) -> Seq<u8> {
    match l {
        PacketLine::String(s) => s.spec_bytes(),
        PacketLine::Bytes(b) => b@,
        _ => Seq::empty(),
    }
}

/// The framed bytes of one line: a four-digit total length and the payload, or one of
/// the special markers `0000`, `0001`, `0002`.
pub open spec fn pkt_bytes<'a>(l: PacketLine<'a>) -> Seq<u8> {
    match l {
        PacketLine::FlushPacket => hex4(0),
        PacketLine::DelimiterPacket => hex4(1),
        PacketLine::ResponseEndPacket => hex4(2),
        _ => hex4(payload(l).len() + 4) + payload(l),
    }
}

/// The framed bytes of a sequence of lines.
pub open spec fn pkt_stream<'a>(ls: Seq<PacketLine<'a>>) -> Seq<u8>
    decreases ls.len(),
{
    if ls.len() == 0 {
        Seq::empty()
    } else {
        pkt_stream(ls.drop_last()) + pkt_bytes(ls.last())
    }
}

fn write_hex4(out: &mut Vec<u8>, n: usize)
    requires
        n <= 0xffff,
    ensures
        final(out)@ == old(out)@ + hex4(n as nat),
{
    let ghost start = out@;
    out.push(crate::hash::nibble_digit(((n / 0x1000) % 16) as u8));
    out.push(crate::hash::nibble_digit(((n / 0x100) % 16) as u8));
    out.push(crate::hash::nibble_digit(((n / 0x10) % 16) as u8));
    out.push(crate::hash::nibble_digit((n % 16) as u8));
    assert(out@ =~= start + hex4(n as nat));
}

/// Appends the framed bytes of one line.
pub fn write_line<'a>(out: &mut Vec<u8>, line: &PacketLine<'a>)
    requires
        payload(*line).len() + 4 <= MAX_PKT_LEN,
    ensures
        final(out)@ == old(out)@ + pkt_bytes(*line),
{
    let ghost start = out@;
    match line {
        PacketLine::String(s) => {
            let b = s.as_bytes();
            write_hex4(out, b.len() + 4);
            append_bytes(out, b);
        },
        PacketLine::Bytes(b) => {
            write_hex4(out, b.len() + 4);
            append_bytes(out, b);
        },
        PacketLine::FlushPacket => write_hex4(out, 0),
        PacketLine::DelimiterPacket => write_hex4(out, 1),
        PacketLine::ResponseEndPacket => write_hex4(out, 2),
    }
    assert(out@ =~= start + pkt_bytes(*line));
}

/// The framed bytes of a sequence of lines, as `write_lines` sends them.
pub fn encode_lines<'a>(lines: &[PacketLine<'a>]) -> (r: Vec<u8>)
    requires
        forall|i: int| 0 <= i < lines@.len() ==> payload(#[trigger] lines@[i]).len() + 4 <= MAX_PKT_LEN,
    ensures
        r@ == pkt_stream(lines@),
{
    let mut out: Vec<u8> = Vec::new();
    let mut i: usize = 0;
    while i < lines.len()
        invariant
            0 <= i <= lines@.len(),
            forall|k: int| 0 <= k < lines@.len() ==> payload(#[trigger] lines@[k]).len() + 4 <= MAX_PKT_LEN,
            out@ == pkt_stream(lines@.subrange(0, i as int)),
        decreases lines@.len() - i,
    {
        write_line(&mut out, &lines[i]);
        proof {
            let p = lines@.subrange(0, i + 1);
            assert(p.drop_last() =~= lines@.subrange(0, i as int));
        }
        i += 1;
    }
    assert(lines@.subrange(0, lines@.len() as int) =~= lines@);
    out
}

/// What the front of a receive buffer holds.
#[derive(Debug, Clone, Copy, PartialEq, Eq, Structural)]
pub enum Frame {
    /// Not a whole line yet: more bytes are needed.
    Incomplete,
    /// `0000`.
    Flush,
    /// `0001`.
    Delimiter,
    /// `0002`.
    ResponseEnd,
    /// A data line: its payload is `buf[4..len]` and it takes `len` bytes.
    Data(usize),
}

/// The frame at the front of `buf`, or `None` if its header is malformed.
pub open spec fn frame_of(buf: Seq<u8>) -> Option<Frame> {
    if buf.len() < 4 {
        Some(Frame::Incomplete)
    } else {
        match hex4_value(buf.subrange(0, 4)) {
            None => None,
            Some(n) => if n == 0 {
                Some(Frame::Flush)
            } else if n == 1 {
                Some(Frame::Delimiter)
            } else if n == 2 {
                Some(Frame::ResponseEnd)
            } else if n < 4 {
                None
            } else if buf.len() < n {
                Some(Frame::Incomplete)
            } else {
                Some(Frame::Data(n as usize))
            },
        }
    }
}

/// Reads the header of the line at the front of `buf`; `GitProtocolError` when the
/// header is not four hexadecimal digits or states a length of 3.
pub fn decode_frame(buf: &[u8]) -> (r: Result<Frame, Error>)
    ensures
        match frame_of(buf@) {
            None => r == Err::<Frame, Error>(Error::GitProtocolError),
            Some(f) => r == Ok::<Frame, Error>(f),
        },
        r matches Ok(Frame::Data(n)) ==> 4 <= n <= buf@.len(),
{
    if buf.len() < 4 {
        return Ok(Frame::Incomplete);
    }
    let ghost h = buf@.subrange(0, 4);
    assert(h[0] == buf@[0] && h[1] == buf@[1] && h[2] == buf@[2] && h[3] == buf@[3]);
    let d0 = crate::hash::hex_digit_value(buf[0]);
    let d1 = crate::hash::hex_digit_value(buf[1]);
    let d2 = crate::hash::hex_digit_value(buf[2]);
    let d3 = crate::hash::hex_digit_value(buf[3]);
    match (d0, d1, d2, d3) {
        (Some(a), Some(b), Some(c), Some(d)) => {
            let n = (a as usize) * 0x1000 + (b as usize) * 0x100 + (c as usize) * 0x10
                + (d as usize);
            if n == 0 {
                Ok(Frame::Flush)
            } else if n == 1 {
                Ok(Frame::Delimiter)
            } else if n == 2 {
                Ok(Frame::ResponseEnd)
            } else if n < 4 {
                Err(Error::GitProtocolError)
            } else if buf.len() < n {
                Ok(Frame::Incomplete)
            } else {
                Ok(Frame::Data(n))
            }
        },
        _ => Err(Error::GitProtocolError),
    }
}

/// The three special lengths are never data.
pub proof fn lemma_special_frames(buf: Seq<u8>)
    requires
        buf.len() >= 4,
        hex4_value(buf.subrange(0, 4)) matches Some(n) && n <= 2,
    ensures
        !(frame_of(buf) matches Some(Frame::Data(_))),
        frame_of(buf) == Some(
            if hex4_value(buf.subrange(0, 4)) == Some(0nat) {
                Frame::Flush
            } else if hex4_value(buf.subrange(0, 4)) == Some(1nat) {
                Frame::Delimiter
            } else {
                Frame::ResponseEnd
            },
        ),
{
}

/// A side-band line of a packfile stream, by channel.
#[derive(Debug, Clone)]
pub enum Sideband {
    /// Channel 1: packfile bytes.
    Pack(Vec<u8>),
    /// Channel 2: progress text.
    Progress(Vec<u8>),
    /// Channel 3: an error message from the remote.
    Fatal(Vec<u8>),
}

/// Splits a side-band line into its channel and payload; `GitProtocolError` for an empty
/// line or an unknown channel.
pub fn demux_sideband(line: &[u8]) -> (r: Result<Sideband, Error>)
    ensures
        line@.len() == 0 || line@[0] == 0 || line@[0] > 3 ==> r == Err::<Sideband, Error>(
            Error::GitProtocolError,
        ),
        line@.len() > 0 && 1 <= line@[0] <= 3 ==> r.is_ok() && match r.unwrap() {
            Sideband::Pack(d) => line@[0] == 1 && d@ == line@.drop_first(),
            Sideband::Progress(d) => line@[0] == 2 && d@ == line@.drop_first(),
            Sideband::Fatal(d) => line@[0] == 3 && d@ == line@.drop_first(),
        },
{
    if line.len() == 0 {
        return Err(Error::GitProtocolError);
    }
    let data = crate::tree::copy_range(line, 1, line.len());
    assert(data@ =~= line@.drop_first());
    match line[0] {
        1 => Ok(Sideband::Pack(data)),
        2 => Ok(Sideband::Progress(data)),
        3 => Ok(Sideband::Fatal(data)),
        _ => Err(Error::GitProtocolError),
    }
}

/// Whether a byte is ASCII whitespace.
pub open spec fn is_space(b: u8) -> bool {
    b == 32 || b == 9 || b == 10 || b == 13 || b == 12 || b == 11
}

/// `s` without its trailing whitespace.
pub open spec fn trim_end(s: Seq<u8>) -> Seq<u8>
    decreases s.len(),
{
    if s.len() > 0 && is_space(s.last()) {
        trim_end(s.drop_last())
    } else {
        s
    }
}

/// Drops trailing whitespace from a received line.
pub fn trim_line(line: &[u8]) -> (r: Vec<u8>)
    ensures
        r@ == trim_end(line@),
{
    let mut n: usize = line.len();
    assert(line@.subrange(0, n as int) =~= line@);
    while n > 0 && (line[n - 1] == 32 || line[n - 1] == 9 || line[n - 1] == 10 || line[n - 1]
        == 13 || line[n - 1] == 12 || line[n - 1] == 11)
        invariant
            n <= line@.len(),
            trim_end(line@) == trim_end(line@.subrange(0, n as int)),
        decreases n,
    {
        assert(line@.subrange(0, n as int).drop_last() =~= line@.subrange(0, n - 1));
        n -= 1;
    }
    crate::tree::copy_range(line, 0, n)
}

} // verus!
