use vstd::prelude::*;

use crate::delta::{checked_shift_add, next_shift, reconstruct, shift_or};
use crate::hash;
use crate::objects::{append_bytes, ObjectStore, ObjectType, ObjectView};
use crate::protocol::Sideband;
use crate::Error;
use miniz_oxide::inflate::TINFLStatus;

verus! {

/// The type codes of packfile records.
#[derive(Debug, Clone, Copy, PartialEq, Eq, Structural)]
pub enum ObjectEncoding {
    Commit,
    Tree,
    Blob,
    Tag,
    OfsDelta,
    RefDelta,
}

/// The encoding of a three-bit type code, if it names one.
pub open spec fn encoding_of(code: u8) -> Option<ObjectEncoding> {
    if code == 1 {
        Some(ObjectEncoding::Commit)
    } else if code == 2 {
        Some(ObjectEncoding::Tree)
    } else if code == 3 {
        Some(ObjectEncoding::Blob)
    } else if code == 4 {
        Some(ObjectEncoding::Tag)
    } else if code == 6 {
        Some(ObjectEncoding::OfsDelta)
    } else if code == 7 {
        Some(ObjectEncoding::RefDelta)
    } else {
        None
    }
}

impl ObjectEncoding {
    /// Reads a type code; `InvalidPackfile` for the unused codes.
    pub fn from_code(value: u8) -> (r: Result<ObjectEncoding, Error>)
        ensures
            match encoding_of(value) {
                Some(e) => r == Ok::<ObjectEncoding, Error>(e),
                None => r == Err::<ObjectEncoding, Error>(Error::InvalidPackfile),
            },
    {
        match value {
            1 => Ok(ObjectEncoding::Commit),
            2 => Ok(ObjectEncoding::Tree),
            3 => Ok(ObjectEncoding::Blob),
            4 => Ok(ObjectEncoding::Tag),
            6 => Ok(ObjectEncoding::OfsDelta),
            7 => Ok(ObjectEncoding::RefDelta),
            _ => Err(Error::InvalidPackfile),
        }
    }
}

/// A packfile record: an object's bytes, or a delta with what it applies to.
#[derive(Debug, Clone)]
pub enum PackfileObject<T> {
    Commit(T),
    Tree(T),
    Blob(T),
    Tag(T),
    OfsDelta(T, usize),
    RefDelta(T, hash::Hash),
}

/// `"PACK"`, then version 2 as a big-endian 32-bit word.
pub open spec fn pack_signature() -> Seq<u8> {
    seq![80u8, 65, 67, 75, 0, 0, 0, 2]
}

/// A 32-bit word in big-endian order.
pub open spec fn be32(n: nat) -> Seq<u8> {
    seq![
        ((n / 0x1000000) % 256) as u8,
        ((n / 0x10000) % 256) as u8,
        ((n / 0x100) % 256) as u8,
        (n % 256) as u8,
    ]
}

/// The twelve-byte header of a packfile holding `n` objects.
pub open spec fn pack_header(n: nat) -> Seq<u8> {
    pack_signature() + be32(n)
}

/// Appends the header of a packfile holding `num_objects` objects.
pub fn dump_packfile_header(num_objects: usize, dst: &mut Vec<u8>)
    requires
        num_objects <= u32::MAX,
    ensures
        final(dst)@ == old(dst)@ + pack_header(num_objects as nat),
{
    let ghost start = dst@;
    let sig: Vec<u8> = vec![80u8, 65, 67, 75, 0, 0, 0, 2];
    append_bytes(dst, sig.as_slice());
    dst.push(((num_objects / 0x1000000) % 256) as u8);
    dst.push(((num_objects / 0x10000) % 256) as u8);
    dst.push(((num_objects / 0x100) % 256) as u8);
    dst.push((num_objects % 256) as u8);
    assert(dst@ =~= start + pack_header(num_objects as nat));
}

/// The object count of a packfile header at the front of `buf`: `None` when fewer than
/// twelve bytes are there, `Err` when the signature is wrong.
pub open spec fn header_count(buf: Seq<u8>) -> Result<Option<nat>, Error> {
    if buf.len() < 12 {
        Ok(None)
    } else if buf.subrange(0, 8) != pack_signature() {
        Err(Error::InvalidPackfile)
    } else {
        Ok(Some((buf[8] * 0x1000000 + buf[9] * 0x10000 + buf[10] * 0x100 + buf[11]) as nat))
    }
}

/// Reads a packfile header at the front of `buf` (see `header_count`).
pub fn parse_packfile_header(buf: &[u8]) -> (r: Result<Option<usize>, Error>)
    ensures
        match header_count(buf@) {
            Err(e) => r == Err::<Option<usize>, Error>(e),
            Ok(None) => r == Ok::<Option<usize>, Error>(None),
            Ok(Some(n)) => r == Ok::<Option<usize>, Error>(Some(n as usize)),
        },
{
    if buf.len() < 12 {
        return Ok(None);
    }
    let sig: Vec<u8> = vec![80u8, 65, 67, 75, 0, 0, 0, 2];
    assert(sig@ =~= pack_signature());
    if !hash::bytes_equal(&buf[0..8], sig.as_slice()) {
        return Err(Error::InvalidPackfile);
    }
    let n = (buf[8] as usize) * 0x1000000 + (buf[9] as usize) * 0x10000 + (buf[10] as usize)
        * 0x100 + (buf[11] as usize);
    Ok(Some(n))
}

/// The bytes after the first of a size header: seven bits each, least significant
/// first, top bit set on all but the last.
pub open spec fn size_tail(n: nat) -> Seq<u8>
    decreases n,
{
    if n < 128 {
        seq![n as u8]
    } else {
        seq![(n % 128 + 128) as u8] + size_tail(n / 128)
    }
}

/// The size header of a record: the type code in bits 4..7 of the first byte, the size's
/// low four bits below it, and the rest of the size in the bytes that follow.
pub open spec fn size_header(size: nat, code: u8) -> Seq<u8> {
    if size < 16 {
        seq![(code * 16 + size) as u8]
    } else {
        seq![(code * 16 + size % 16 + 128) as u8] + size_tail(size / 16)
    }
}

/// Appends the size header of a record of type `encoding`.
pub fn write_encoding_size(size: usize, encoding: u8, dst: &mut Vec<u8>)
    requires
        encoding < 8,
    ensures
        final(dst)@ == old(dst)@ + size_header(size as nat, encoding),
{
    let ghost start = dst@;
    if size < 16 {
        dst.push(encoding * 16 + size as u8);
        assert(dst@ =~= start + size_header(size as nat, encoding));
        return;
    }
    dst.push(encoding * 16 + (size % 16) as u8 + 128);
    let mut rest = size / 16;
    let ghost first = dst@;
    assert(first =~= start + seq![(encoding * 16 + size % 16 + 128) as u8]);
    while rest >= 128
        invariant
            size >= 16,
            first == start + seq![(encoding * 16 + size % 16 + 128) as u8],
            first + size_tail((size / 16) as nat) == dst@ + size_tail(rest as nat),
        decreases rest,
    {
        let ghost before = dst@;
        dst.push((rest % 128) as u8 + 128);
        proof {
            assert(size_tail(rest as nat) =~= seq![(rest % 128 + 128) as u8] + size_tail(
                (rest / 128) as nat,
            ));
            assert(dst@ + size_tail((rest / 128) as nat) =~= before + size_tail(rest as nat));
        }
        rest = rest / 128;
    }
    let ghost before = dst@;
    dst.push(rest as u8);
    assert(size_tail(rest as nat) =~= seq![rest as u8]);
    assert(dst@ =~= before + size_tail(rest as nat));
    assert(dst@ =~= first + size_tail((size / 16) as nat));
    assert(dst@ =~= start + size_header(size as nat, encoding));
}

/// The size header at `i` of a packfile buffer, continuing a value `acc` already shifted
/// by `shift`: gives the size and the position after it, `None` when the buffer ends
/// first, `Err` when the size would not fit in a machine word.
pub open spec fn size_varint(buf: Seq<u8>, i: nat, acc: u64, shift: nat) -> Result<
    Option<(u64, nat)>,
    Error,
>
    decreases buf.len() - i,
{
    if i >= buf.len() {
        Ok(None)
    } else {
        let mask: u8 = if i == 0 { 0x0f } else { 0x7f };
        let inc: nat = if i == 0 { 4 } else { 7 };
        match shift_or(acc, buf[i as int], mask, shift) {
            None => Err(Error::InvalidPackfile),
            Some(a) => if buf[i as int] & 0x80u8 == 0 {
                Ok(Some((a, i + 1)))
            } else {
                size_varint(buf, i + 1, a, next_shift(shift, inc))
            },
        }
    }
}

/// The type, size and header length of the record at the front of `buf`: `None` when
/// more bytes are needed.
pub open spec fn record_header(buf: Seq<u8>) -> Result<Option<(ObjectEncoding, u64, nat)>, Error> {
    match size_varint(buf, 0, 0, 0) {
        Err(e) => Err(e),
        Ok(None) => Ok(None),
        Ok(Some((size, n))) => match encoding_of((buf[0] >> 4u8) & 7u8) {
            None => Err(Error::InvalidPackfile),
            Some(enc) => Ok(Some((enc, size, n))),
        },
    }
}

proof fn lemma_size_varint_bounds(buf: Seq<u8>, i: nat, acc: u64, shift: nat)
    ensures
        size_varint(buf, i, acc, shift) matches Ok(Some((v, j))) ==> i < j <= buf.len(),
    decreases buf.len() - i,
{
    if i < buf.len() {
        let mask: u8 = if i == 0 { 0x0f } else { 0x7f };
        let inc: nat = if i == 0 { 4 } else { 7 };
        if let Some(a) = shift_or(acc, buf[i as int], mask, shift) {
            if buf[i as int] & 0x80u8 != 0 {
                lemma_size_varint_bounds(buf, i + 1, a, next_shift(shift, inc));
            }
        }
    }
}

/// Reads the header of the record at the front of `buf` (see `record_header`).
pub fn read_size(buf: &[u8]) -> (r: Result<Option<(ObjectEncoding, u64, usize)>, Error>)
    ensures
        match record_header(buf@) {
            Err(e) => r == Err::<Option<(ObjectEncoding, u64, usize)>, Error>(e),
            Ok(None) => r == Ok::<Option<(ObjectEncoding, u64, usize)>, Error>(None),
            Ok(Some((enc, size, n))) => r == Ok::<Option<(ObjectEncoding, u64, usize)>, Error>(
                Some((enc, size, n as usize)),
            ),
        },
        r matches Ok(Some((_, _, n))) ==> 0 < n <= buf@.len(),
{
    let mut i: usize = 0;
    let mut size: u64 = 0;
    let mut shift: u64 = 0;
    proof {
        lemma_size_varint_bounds(buf@, 0, 0, 0);
    }
    loop
        invariant
            i <= buf@.len(),
            shift <= 64,
            i == 0 ==> size == 0 && shift == 0,
            size_varint(buf@, 0, 0, 0) == size_varint(buf@, i as nat, size, shift as nat),
        decreases buf@.len() - i,
    {
        if i >= buf.len() {
            return Ok(None);
        }
        let byte = buf[i];
        let (mask, inc): (u8, u64) = if i == 0 {
            (0x0f, 4)
        } else {
            (0x7f, 7)
        };
        match checked_shift_add(byte, &mut size, &mut shift, inc, mask) {
            Err(e) => return Err(e),
            Ok(()) => {},
        }
        if shift > 64 {
            shift = 64;
        }
        i += 1;
        if byte & 0x80 == 0 {
            let enc = match ObjectEncoding::from_code((buf[0] >> 4) & 7) {
                Ok(e) => e,
                Err(e) => return Err(e),
            };
            return Ok(Some((enc, size, i)));
        }
    }
}

/// How an inflate step ended, as miniz_oxide reports it.
#[derive(Debug, Clone, Copy, PartialEq, Eq, Structural)]
pub enum InflateStatus {
    /// The stream ended and its checksum matched.
    Done,
    /// The input ended before the stream did.
    FailedCannotMakeProgress,
    /// More input is expected.
    NeedsMoreInput,
    /// The output buffer is full before the stream ended.
    HasMoreOutput,
    BadParam,
    Adler32Mismatch,
    Failed,
}

/// What inflating a zlib stream at the front of `input` into a buffer of `size` bytes
/// gives: the status, the input bytes read, the output bytes written, and the buffer.
pub uninterp spec fn zlib_inflate(input: Seq<u8>, size: nat) -> (InflateStatus, nat, nat, Seq<u8>);

/// Relies on miniz_oxide's `inflate::core::decompress`, run once with a fresh
/// `DecompressorOxide` (its `Default`), parsing the zlib header and checking the
/// Adler-32 sum; its outcome depends on the input and the buffer size alone.
#[verifier::external_body]
fn inflate(input: &[u8], size: usize) -> (r: (InflateStatus, usize, usize, Vec<u8>))
    ensures
        (r.0, r.1 as nat, r.2 as nat, r.3@) == zlib_inflate(input@, size as nat),
        r.3@.len() == size,
{
    let flags = miniz_oxide::inflate::core::inflate_flags::TINFL_FLAG_USING_NON_WRAPPING_OUTPUT_BUF
        | miniz_oxide::inflate::core::inflate_flags::TINFL_FLAG_PARSE_ZLIB_HEADER
        | miniz_oxide::inflate::core::inflate_flags::TINFL_FLAG_COMPUTE_ADLER32;
    let mut out = vec![0u8; size];
    let (status, read, written) = miniz_oxide::inflate::core::decompress(&mut Default::default(), input, &mut out, 0, flags);
    let status = match status {
        TINFLStatus::Done => InflateStatus::Done,
        TINFLStatus::FailedCannotMakeProgress => InflateStatus::FailedCannotMakeProgress,
        TINFLStatus::NeedsMoreInput => InflateStatus::NeedsMoreInput,
        TINFLStatus::HasMoreOutput => InflateStatus::HasMoreOutput,
        TINFLStatus::BadParam => InflateStatus::BadParam,
        TINFLStatus::Adler32Mismatch => InflateStatus::Adler32Mismatch,
        TINFLStatus::Failed => InflateStatus::Failed,
    };
    (status, read, written, out)
}

/// The zlib stream, with header and Adler-32 sum, that compresses `data` at `level`.
pub uninterp spec fn zlib_deflate(data: Seq<u8>, level: u8) -> Seq<u8>;

/// Relies on miniz_oxide's `deflate::compress_to_vec_zlib`: a zlib stream of `data` at a
/// level from 0 to 10.
#[verifier::external_body]
fn deflate(data: &[u8], level: u8) -> (r: Vec<u8>)
    requires
        level <= 10,
    ensures
        r@ == zlib_deflate(data@, level),
{
    miniz_oxide::deflate::compress_to_vec_zlib(data, level)
}

/// The compression level of emitted records.
pub const DEFLATE_LEVEL: u8 = 6;

/// The record that encodes an object: size header, source identifier for a delta, and
/// the compressed payload.
pub open spec fn record_bytes(code: u8, payload: Seq<u8>, source: Option<Seq<u8>>) -> Seq<u8> {
    size_header(payload.len(), code) + match source {
        Some(s) => s,
        None => Seq::empty(),
    } + zlib_deflate(payload, DEFLATE_LEVEL)
}

/// The type code and payload of a record to emit.
pub open spec fn record_parts(object: PackfileObject<Vec<u8>>) -> (u8, Seq<u8>, Option<Seq<u8>>) {
    match object {
        PackfileObject::Commit(b) => (1, b@, None),
        PackfileObject::Tree(b) => (2, b@, None),
        PackfileObject::Blob(b) => (3, b@, None),
        PackfileObject::Tag(b) => (4, b@, None),
        PackfileObject::OfsDelta(b, _) => (6, b@, None),
        PackfileObject::RefDelta(b, h) => (7, b@, Some(h@)),
    }
}

/// Appends the record of an object; offset deltas are never emitted.
pub fn dump_packfile_object(object: &PackfileObject<Vec<u8>>, dst: &mut Vec<u8>)
    requires
        !(object matches PackfileObject::OfsDelta(_, _)),
    ensures
        final(dst)@ == old(dst)@ + record_bytes(
            record_parts(*object).0,
            record_parts(*object).1,
            record_parts(*object).2,
        ),
{
    let ghost start = dst@;
    let (inflated, source, code): (&Vec<u8>, Option<hash::Hash>, u8) = match object {
        PackfileObject::Commit(bytes) => (bytes, None, 1),
        PackfileObject::Tree(bytes) => (bytes, None, 2),
        PackfileObject::Blob(bytes) => (bytes, None, 3),
        PackfileObject::Tag(bytes) => (bytes, None, 4),
        PackfileObject::OfsDelta(bytes, _) => (bytes, None, 6),
        PackfileObject::RefDelta(bytes, hash) => (bytes, Some(*hash), 7),
    };
    write_encoding_size(inflated.len(), code, dst);
    if let Some(h) = source {
        append_bytes(dst, h.bytes.as_slice());
    }
    let compressed = deflate(inflated.as_slice(), DEFLATE_LEVEL);
    append_bytes(dst, compressed.as_slice());
    assert(dst@ =~= start + record_bytes(code, inflated@, match source {
        Some(h) => Some(h@),
        None => None,
    }));
}

/// A packfile: its header, the records, and the SHA-1 digest of both as a trailer.
pub open spec fn packfile_bytes(records: Seq<u8>, n: nat) -> Seq<u8> {
    pack_header(n) + records + hash::sha1_of(pack_header(n) + records)
}

/// Reads the records of a packfile, first from a buffer and then, in a stream, from
/// side-band lines handed in by the caller.
pub struct PackfileReader {
    out: Vec<u8>,
    buffer: Vec<u8>,
    num_objects: usize,
}

impl PackfileReader {
    /// The bytes received and not consumed yet.
    pub closed spec fn pending(&self) -> Seq<u8> {
        self.buffer@
    }

    pub closed spec fn count(&self) -> nat {
        self.num_objects as nat
    }

    /// Every packfile byte received on the side band, in order.
    pub closed spec fn received(&self) -> Seq<u8> {
        self.out@
    }

    /// Every packfile byte received on the side band, in order.
    pub fn out(&self) -> (r: &Vec<u8>)
        ensures
            r@ == self.received(),
    {
        &self.out
    }

    /// A reader that waits for the packfile's header on the side band.
    pub fn new() -> (r: PackfileReader)
        ensures
            r.pending() == Seq::<u8>::empty(),
            r.received() == Seq::<u8>::empty(),
    {
        PackfileReader { out: Vec::new(), buffer: Vec::new(), num_objects: 0 }
    }

    /// A reader of a whole packfile in memory; `InvalidPackfile` when its header is
    /// missing or wrong.
    pub fn from_file(file: Vec<u8>) -> (r: Result<PackfileReader, Error>)
        ensures
            match header_count(file@) {
                Ok(Some(n)) => r.is_ok() && r.unwrap().count() == n && r.unwrap().pending()
                    == file@.subrange(12, file@.len() as int),
                _ => r == Err::<PackfileReader, Error>(Error::InvalidPackfile),
            },
    {
        let mut reader = PackfileReader { out: Vec::new(), buffer: file, num_objects: 0 };
        match reader.read_header() {
            Ok(true) => Ok(reader),
            _ => Err(Error::InvalidPackfile),
        }
    }

    /// Consumes the packfile header once twelve bytes are pending; gives whether it was
    /// read.
    pub fn read_header(&mut self) -> (r: Result<bool, Error>)
        ensures
            final(self).received() == old(self).received(),
            match header_count(old(self).pending()) {
                Err(e) => r == Err::<bool, Error>(e),
                Ok(None) => r == Ok::<bool, Error>(false) && final(self).pending() == old(
                    self,
                ).pending(),
                Ok(Some(n)) => r == Ok::<bool, Error>(true) && final(self).count() == n
                    && final(self).pending() == old(self).pending().subrange(
                    12,
                    old(self).pending().len() as int,
                ),
            },
    {
        match parse_packfile_header(self.buffer.as_slice()) {
            Err(e) => Err(e),
            Ok(None) => Ok(false),
            Ok(Some(n)) => {
                self.num_objects = n;
                let rest = crate::tree::copy_range(self.buffer.as_slice(), 12, self.buffer.len());
                self.buffer = rest;
                Ok(true)
            },
        }
    }

    pub fn num_objects(&self) -> (r: usize)
        ensures
            r == self.count(),
    {
        self.num_objects
    }

    /// Takes one side-band line: packfile bytes are appended to the pending buffer and to
    /// `out`; progress and error messages are handed back. `GitProtocolError` for an
    /// unknown channel.
    pub fn push_line(&mut self, line: &[u8]) -> (r: Result<Option<Sideband>, Error>)
        ensures
            final(self).count() == old(self).count(),
            line@.len() == 0 || line@[0] == 0 || line@[0] > 3 ==> r == Err::<Option<Sideband>, Error>(
                Error::GitProtocolError,
            ),
            line@.len() > 0 && line@[0] == 1 ==> r == Ok::<Option<Sideband>, Error>(None)
                && final(self).pending() == old(self).pending() + line@.drop_first()
                && final(self).received() == old(self).received() + line@.drop_first(),
            !(line@.len() > 0 && line@[0] == 1) ==> final(self).pending() == old(self).pending()
                && final(self).received() == old(self).received(),
            line@.len() > 0 && line@[0] == 2 ==> r.is_ok() && (r.unwrap() matches Some(Sideband::Progress(m))
                && m@ == line@.drop_first()),
            line@.len() > 0 && line@[0] == 3 ==> r.is_ok() && (r.unwrap() matches Some(Sideband::Fatal(m))
                && m@ == line@.drop_first()),
    {
        match crate::protocol::demux_sideband(line) {
            Err(e) => Err(e),
            Ok(Sideband::Pack(data)) => {
                append_bytes(&mut self.buffer, data.as_slice());
                append_bytes(&mut self.out, data.as_slice());
                Ok(None)
            },
            Ok(other) => Ok(Some(other)),
        }
    }

    /// Reads the next record from the pending bytes (see `next_record`): a record whose
    /// payload inflates to its declared size is handed out and its bytes are consumed;
    /// `Ok(None)` when more bytes are needed; `InvalidPackfile` for an offset delta, a
    /// corrupt stream or a bad header.
    pub fn next_object(&mut self) -> (r: Result<Option<PackfileObject<Vec<u8>>>, Error>)
        ensures
            final(self).count() == old(self).count(),
            final(self).received() == old(self).received(),
            match next_record(old(self).pending()) {
                RecordStep::NeedMore => r == Ok::<Option<PackfileObject<Vec<u8>>>, Error>(None)
                    && final(self).pending() == old(self).pending(),
                RecordStep::Invalid(e) => r == Err::<Option<PackfileObject<Vec<u8>>>, Error>(e),
                RecordStep::Record(enc, payload, source, used) => r.is_ok() && r.unwrap().is_some()
                    && record_matches(r.unwrap().unwrap(), enc, payload, source)
                    && final(self).pending() == old(self).pending().subrange(
                    used as int,
                    old(self).pending().len() as int,
                ),
            },
            r matches Ok(Some(o)) ==> !(o matches PackfileObject::OfsDelta(_, _)),
    {
        proof {
            lemma_size_varint_bounds(self.buffer@, 0, 0, 0);
        }
        let (encoding, size, start) = match read_size(self.buffer.as_slice()) {
            Err(e) => return Err(e),
            Ok(None) => return Ok(None),
            Ok(Some(x)) => x,
        };
        if encoding == ObjectEncoding::OfsDelta {
            return Err(Error::InvalidPackfile);
        }
        let len = self.buffer.len();
        let mut data_start = start;
        let mut source = hash::Hash::zero();
        if encoding == ObjectEncoding::RefDelta {
            if len - start < 20 {
                return Ok(None);
            }
            source = hash::Hash::from_slice(&self.buffer[start..start + 20]);
            data_start = start + 20;
        }
        if size > usize::MAX as u64 {
            return Err(Error::InvalidPackfile);
        }
        let size = size as usize;
        let rest_in = &self.buffer[data_start..len];
        let (status, read, written, inflated) = inflate(rest_in, size);
        match finish_record(encoding, source, size, len - data_start, status, read, written, inflated) {
            Err(e) => Err(e),
            Ok(None) => Ok(None),
            Ok(Some((object, used))) => {
                let rest = crate::tree::copy_range(self.buffer.as_slice(), data_start + used, len);
                self.buffer = rest;
                Ok(Some(object))
            },
        }
    }

    /// Reads every record from the pending bytes and stores the objects (see
    /// [`resolve_objects`]). `InvalidPackfile` when the bytes end early.
    pub fn read_all_objects(&mut self, objects: &mut ObjectStore) -> (r: Result<(), Error>)
        requires
            old(objects).wf(),
        ensures
            final(objects).wf(),
            match read_records(old(self).pending(), old(self).count()) {
                Err(e) => r == Err::<(), Error>(e),
                Ok(recs) => match resolved_store(old(objects)@, recs) {
                    Err(e) => r == Err::<(), Error>(e),
                    Ok(m) => r.is_ok() && final(objects)@ == m,
                },
            },
    {
        let mut records: Vec<PackfileObject<Vec<u8>>> = Vec::new();
        let mut i: usize = 0;
        let ghost total = self.count();
        let ghost start = self.pending();
        while i < self.num_objects
            invariant
                *objects == *old(objects),
                objects.wf(),
                total == self.count(),
                total == old(self).count(),
                start == old(self).pending(),
                i <= total,
                self.num_objects == total,
                forall|k: int| 0 <= k < records@.len() ==> !((#[trigger] records@[k]) matches PackfileObject::OfsDelta(_, _)),
                read_records(start, total) == match read_records(self.pending(), (total - i) as nat) {
                    Err(e) => Err(e),
                    Ok(rest) => Ok(records_view(records@) + rest),
                },
            decreases self.num_objects - i,
        {
            let ghost before = records@;
            let ghost pend = self.pending();
            let ghost k: nat = (total - i) as nat;
            assert(k > 0);
            let step = self.next_object();
            proof {
                match next_record(pend) {
                    RecordStep::Record(enc, payload, source, used) => {
                        if enc != ObjectEncoding::RefDelta {
                            assert(source =~= Seq::<u8>::empty());
                        }
                        assert(record_view(step.unwrap().unwrap()) == (enc, payload, source));
                        assert(read_records(pend, k) == match read_records(self.pending(), (k - 1) as nat) {
                            Err(e) => Err(e),
                            Ok(rest) => Ok(seq![(enc, payload, source)] + rest),
                        });
                    },
                    _ => {
                        assert(read_records(pend, k).is_err());
                    },
                }
            }
            match step {
                Err(e) => return Err(e),
                Ok(None) => return Err(Error::InvalidPackfile),
                Ok(Some(o)) => {
                    records.push(o);
                    proof {
                        assert(records_view(records@) =~= records_view(before).push(record_view(o)));
                        match read_records(self.pending(), (total - i - 1) as nat) {
                            Err(_) => {},
                            Ok(rest) => {
                                assert(records_view(records@) + rest =~= records_view(before) + (seq![record_view(o)] + rest));
                            },
                        }
                    }
                },
            }
            i += 1;
        }
        proof {
            assert(read_records(self.pending(), 0) == Ok::<Seq<(ObjectEncoding, Seq<u8>, Seq<u8>)>, Error>(Seq::empty()));
            assert(records_view(records@) + Seq::empty() =~= records_view(records@));
        }
        let r = resolve_objects(objects, records);
        proof {
            assert(read_records(start, total) == Ok::<Seq<RecordView>, Error>(records_view(records@)));
        }
        r
    }
}

/// What reading one record from the front of a buffer gives.
pub enum RecordStep {
    /// More bytes are needed.
    NeedMore,
    /// The record is malformed.
    Invalid(Error),
    /// A record: its type, its inflated payload, its delta source (for a delta), and how
    /// many bytes it took.
    Record(ObjectEncoding, Seq<u8>, Seq<u8>, nat),
}

/// The record at the front of `buf`: its header, for a delta the 20-byte source, then a
/// zlib stream that must inflate, within the bytes there, to exactly the declared size.
pub open spec fn next_record(buf: Seq<u8>) -> RecordStep {
    match record_header(buf) {
        Err(e) => RecordStep::Invalid(e),
        Ok(None) => RecordStep::NeedMore,
        Ok(Some((enc, size, n))) => if enc == ObjectEncoding::OfsDelta {
            RecordStep::Invalid(Error::InvalidPackfile)
        } else {
            let ds: nat = if enc == ObjectEncoding::RefDelta { n + 20 } else { n };
            if buf.len() < ds {
                RecordStep::NeedMore
            } else if size > usize::MAX {
                RecordStep::Invalid(Error::InvalidPackfile)
            } else {
                let (st, read, written, out) = zlib_inflate(buf.subrange(ds as int, buf.len() as int), size as nat);
                if st == InflateStatus::FailedCannotMakeProgress || st == InflateStatus::NeedsMoreInput
                    || (st == InflateStatus::Done && written != size) {
                    RecordStep::NeedMore
                } else if st != InflateStatus::Done || read > buf.len() - ds {
                    RecordStep::Invalid(Error::InvalidPackfile)
                } else {
                    RecordStep::Record(enc, out, buf.subrange(n as int, ds as int), ds + read)
                }
            }
        },
    }
}

/// What an inflate step, run on the `available` bytes after a record's header, makes of
/// a record of type `enc` and declared `size`: `None` when more bytes are needed,
/// `InvalidPackfile` for a corrupt stream, else the bytes the stream took.
pub open spec fn inflated_outcome(
    size: nat,
    available: nat,
    status: InflateStatus,
    read: nat,
    written: nat,
) -> Result<Option<nat>, Error> {
    if status == InflateStatus::FailedCannotMakeProgress || status == InflateStatus::NeedsMoreInput || (status
        == InflateStatus::Done && written != size) {
        Ok(None)
    } else if status != InflateStatus::Done || read > available {
        Err(Error::InvalidPackfile)
    } else {
        Ok(Some(read))
    }
}

/// Turns the result of inflating a record's payload into the record (see
/// `inflated_outcome`): the record holds `out` and, for a delta, `source`, and the bytes
/// the stream took are given back.
pub fn finish_record(
    enc: ObjectEncoding,
    source: hash::Hash,
    size: usize,
    available: usize,
    status: InflateStatus,
    read: usize,
    written: usize,
    out: Vec<u8>,
) -> (r: Result<Option<(PackfileObject<Vec<u8>>, usize)>, Error>)
    requires
        enc != ObjectEncoding::OfsDelta,
    ensures
        match inflated_outcome(size as nat, available as nat, status, read as nat, written as nat) {
            Err(e) => r == Err::<Option<(PackfileObject<Vec<u8>>, usize)>, Error>(e),
            Ok(None) => r == Ok::<Option<(PackfileObject<Vec<u8>>, usize)>, Error>(None),
            Ok(Some(used)) => r.is_ok() && r.unwrap().is_some() && r.unwrap().unwrap().1 == used
                && record_matches(r.unwrap().unwrap().0, enc, out@, source@),
        },
{
    match status {
        InflateStatus::Done => {
            if written != size {
                return Ok(None);
            }
        },
        InflateStatus::FailedCannotMakeProgress | InflateStatus::NeedsMoreInput => return Ok(None),
        _ => return Err(Error::InvalidPackfile),
    }
    if read > available {
        return Err(Error::InvalidPackfile);
    }
    let object = match enc {
        ObjectEncoding::Commit => PackfileObject::Commit(out),
        ObjectEncoding::Tree => PackfileObject::Tree(out),
        ObjectEncoding::Blob => PackfileObject::Blob(out),
        ObjectEncoding::Tag => PackfileObject::Tag(out),
        _ => PackfileObject::RefDelta(out, source),
    };
    Ok(Some((object, read)))
}

/// A record handed out has the type, payload and (for a delta) source it was read with.
pub open spec fn record_matches(
    o: PackfileObject<Vec<u8>>,
    enc: ObjectEncoding,
    payload: Seq<u8>,
    source: Seq<u8>,
) -> bool {
    match o {
        PackfileObject::Commit(b) => enc == ObjectEncoding::Commit && b@ == payload,
        PackfileObject::Tree(b) => enc == ObjectEncoding::Tree && b@ == payload,
        PackfileObject::Blob(b) => enc == ObjectEncoding::Blob && b@ == payload,
        PackfileObject::Tag(b) => enc == ObjectEncoding::Tag && b@ == payload,
        PackfileObject::RefDelta(b, h) => enc == ObjectEncoding::RefDelta && b@ == payload && h@ == source,
        PackfileObject::OfsDelta(_, _) => false,
    }
}

/// Reading `k` records in a row from the front of `buf`: their type, payload and delta
/// source, or the first error; running out of bytes is `InvalidPackfile`.
pub open spec fn read_records(buf: Seq<u8>, k: nat) -> Result<Seq<(ObjectEncoding, Seq<u8>, Seq<u8>)>, Error>
    decreases k,
{
    if k == 0 {
        Ok(Seq::empty())
    } else {
        match next_record(buf) {
            RecordStep::NeedMore => Err(Error::InvalidPackfile),
            RecordStep::Invalid(e) => Err(e),
            RecordStep::Record(enc, payload, source, used) => match read_records(
                buf.subrange(used as int, buf.len() as int),
                (k - 1) as nat,
            ) {
                Err(e) => Err(e),
                Ok(rest) => Ok(seq![(enc, payload, source)] + rest),
            },
        }
    }
}

/// The (type, payload, source) of a record handed out by the reader.
pub open spec fn record_view(o: PackfileObject<Vec<u8>>) -> (ObjectEncoding, Seq<u8>, Seq<u8>) {
    match o {
        PackfileObject::Commit(b) => (ObjectEncoding::Commit, b@, Seq::empty()),
        PackfileObject::Tree(b) => (ObjectEncoding::Tree, b@, Seq::empty()),
        PackfileObject::Blob(b) => (ObjectEncoding::Blob, b@, Seq::empty()),
        PackfileObject::Tag(b) => (ObjectEncoding::Tag, b@, Seq::empty()),
        PackfileObject::OfsDelta(b, _) => (ObjectEncoding::OfsDelta, b@, Seq::empty()),
        PackfileObject::RefDelta(b, h) => (ObjectEncoding::RefDelta, b@, h@),
    }
}

pub open spec fn records_view(v: Seq<PackfileObject<Vec<u8>>>) -> Seq<(ObjectEncoding, Seq<u8>, Seq<u8>)> {
    Seq::new(v.len(), |i: int| record_view(v[i]))
}

/// The object type that a plain record's encoding stores.
pub open spec fn stored_type(e: ObjectEncoding) -> ObjectType {
    match e {
        ObjectEncoding::Commit => ObjectType::Commit,
        ObjectEncoding::Tree => ObjectType::Tree,
        ObjectEncoding::Blob => ObjectType::Blob,
        _ => ObjectType::Tag,
    }
}

/// Stores the objects of packfile records. Plain records are stored at once; a delta is
/// rebuilt, with its source's type and a hint naming the source, as soon as its source is
//// A record as the reader hands it out: type, payload, and (for a delta) source.
pub type RecordView = (ObjectEncoding, Seq<u8>, Seq<u8>);

/// Rebuilding one delta against `store`: `None` when its source is not stored yet;
/// otherwise the store with the rebuilt object, of the source's type and with the source
/// as delta hint, or `InvalidPackfile` for a malformed delta.
pub open spec fn delta_step(store: Map<Seq<u8>, ObjectView>, d: Seq<u8>, s: Seq<u8>) -> Result<
    Option<Map<Seq<u8>, ObjectView>>,
    Error,
> {
    if !store.contains_key(s) {
        Ok(None)
    } else {
        match crate::delta::delta_target(d, store[s].content) {
            None => Err(Error::InvalidPackfile),
            Some(t) => Ok(
                Some(
                    store.insert(
                        crate::objects::object_id(store[s].obj_type, t),
                        ObjectView { obj_type: store[s].obj_type, content: t, delta_hint: s },
                    ),
                ),
            ),
        }
    }
}

/// The first pass over `recs[i..]`: plain records are stored, deltas whose source is
/// stored are rebuilt, the others wait in `pend`, in order.
pub open spec fn first_pass(
    store: Map<Seq<u8>, ObjectView>,
    recs: Seq<RecordView>,
    i: nat,
    pend: Seq<(Seq<u8>, Seq<u8>)>,
) -> Result<(Map<Seq<u8>, ObjectView>, Seq<(Seq<u8>, Seq<u8>)>), Error>
    decreases recs.len() - i,
{
    if i >= recs.len() {
        Ok((store, pend))
    } else {
        let (enc, c, src) = recs[i as int];
        if enc == ObjectEncoding::OfsDelta {
            Err(Error::InvalidPackfile)
        } else if enc == ObjectEncoding::RefDelta {
            match delta_step(store, c, src) {
                Err(e) => Err(e),
                Ok(None) => first_pass(store, recs, i + 1, pend.push((c, src))),
                Ok(Some(m)) => first_pass(m, recs, i + 1, pend),
            }
        } else {
            first_pass(
                store.insert(
                    crate::objects::object_id(stored_type(enc), c),
                    ObjectView { obj_type: stored_type(enc), content: c, delta_hint: crate::hash::zero_id() },
                ),
                recs,
                i + 1,
                pend,
            )
        }
    }
}

/// One pass over the waiting deltas `pend[j..]`: each whose source is now stored is
/// rebuilt, the others wait again; `progress` says whether any was rebuilt.
pub open spec fn delta_pass(
    store: Map<Seq<u8>, ObjectView>,
    pend: Seq<(Seq<u8>, Seq<u8>)>,
    j: nat,
    waiting: Seq<(Seq<u8>, Seq<u8>)>,
    progress: bool,
) -> Result<(Map<Seq<u8>, ObjectView>, Seq<(Seq<u8>, Seq<u8>)>, bool), Error>
    decreases pend.len() - j,
{
    if j >= pend.len() {
        Ok((store, waiting, progress))
    } else {
        match delta_step(store, pend[j as int].0, pend[j as int].1) {
            Err(e) => Err(e),
            Ok(None) => delta_pass(store, pend, j + 1, waiting.push(pend[j as int]), progress),
            Ok(Some(m)) => delta_pass(m, pend, j + 1, waiting, true),
        }
    }
}

/// Passes over the waiting deltas until none is left; a pass that rebuilds none is
/// `InvalidPackfile`, since the sources left can never appear.
pub open spec fn later_passes(
    store: Map<Seq<u8>, ObjectView>,
    pend: Seq<(Seq<u8>, Seq<u8>)>,
    fuel: nat,
) -> Result<Map<Seq<u8>, ObjectView>, Error>
    decreases fuel,
{
    if pend.len() == 0 {
        Ok(store)
    } else if fuel == 0 {
        Err(Error::InvalidPackfile)
    } else {
        match delta_pass(store, pend, 0, Seq::empty(), false) {
            Err(e) => Err(e),
            Ok((m, w, progress)) => if !progress {
                Err(Error::InvalidPackfile)
            } else {
                later_passes(m, w, (fuel - 1) as nat)
            },
        }
    }
}

/// The store after storing the records of a pack in `store`, or the error it ends in.
pub open spec fn resolved_store(store: Map<Seq<u8>, ObjectView>, recs: Seq<RecordView>) -> Result<
    Map<Seq<u8>, ObjectView>,
    Error,
> {
    match first_pass(store, recs, 0, Seq::empty()) {
        Err(e) => Err(e),
        Ok((m, pend)) => later_passes(m, pend, pend.len()),
    }
}

proof fn lemma_delta_pass_len(
    store: Map<Seq<u8>, ObjectView>,
    pend: Seq<(Seq<u8>, Seq<u8>)>,
    j: nat,
    waiting: Seq<(Seq<u8>, Seq<u8>)>,
    progress: bool,
)
    requires
        j <= pend.len(),
        waiting.len() + (if progress { 1int } else { 0int }) <= j,
    ensures
        delta_pass(store, pend, j, waiting, progress) matches Ok((_, w, p)) ==> w.len() + (if p { 1int } else { 0int }) <= pend.len(),
    decreases pend.len() - j,
{
    if j < pend.len() {
        match delta_step(store, pend[j as int].0, pend[j as int].1) {
            Err(_) => {},
            Ok(None) => lemma_delta_pass_len(store, pend, j + 1, waiting.push(pend[j as int]), progress),
            Ok(Some(m)) => lemma_delta_pass_len(m, pend, j + 1, waiting, true),
        }
    }
}

proof fn lemma_later_passes_fuel(store: Map<Seq<u8>, ObjectView>, pend: Seq<(Seq<u8>, Seq<u8>)>, fuel: nat)
    requires
        fuel >= pend.len(),
    ensures
        later_passes(store, pend, fuel) == later_passes(store, pend, pend.len()),
    decreases fuel,
{
    if pend.len() > 0 && fuel > pend.len() {
        match delta_pass(store, pend, 0, Seq::empty(), false) {
            Err(_) => {},
            Ok((m, w, progress)) => {
                lemma_delta_pass_len(store, pend, 0, Seq::empty(), false);
                if progress {
                    lemma_later_passes_fuel(m, w, (fuel - 1) as nat);
                    lemma_later_passes_fuel(m, w, (pend.len() - 1) as nat);
                }
            },
        }
    }
}

/// Stores the objects of packfile records (see `resolved_store`): plain records at
/// once, each delta as soon as its source is stored, rebuilt with the source's type and
/// the source as hint; a pass over the waiting deltas that rebuilds none ends in
/// `InvalidPackfile`.
pub fn resolve_objects(objects: &mut ObjectStore, records: Vec<PackfileObject<Vec<u8>>>) -> (r: Result<
    (),
    Error,
>)
    requires
        old(objects).wf(),
    ensures
        final(objects).wf(),
        match resolved_store(old(objects)@, records_view(records@)) {
            Err(e) => r == Err::<(), Error>(e),
            Ok(m) => r.is_ok() && final(objects)@ == m,
        },
{
    let ghost recs = records_view(records@);
    let mut pending: Vec<(Vec<u8>, hash::Hash)> = Vec::new();
    let mut i: usize = 0;
    assert(pending_view(pending@) =~= Seq::<(Seq<u8>, Seq<u8>)>::empty());
    while i < records.len()
        invariant
            objects.wf(),
            i <= records@.len(),
            recs == records_view(records@),
            resolved_store(old(objects)@, recs) == match first_pass(objects@, recs, i as nat, pending_view(pending@)) {
                Err(e) => Err(e),
                Ok((m, pend)) => later_passes(m, pend, pend.len()),
            },
        decreases records@.len() - i,
    {
        let ghost store0 = objects@;
        let ghost pend0 = pending_view(pending@);
        assert(recs[i as int] == record_view(records@[i as int]));
        match &records[i] {
            PackfileObject::RefDelta(delta, source) => {
                match resolve_delta(objects, delta.as_slice(), *source) {
                    Err(e) => return Err(e),
                    Ok(true) => {},
                    Ok(false) => {
                        let d = delta.clone();
                        pending.push((d, *source));
                        assert(pending_view(pending@) =~= pend0.push((delta@, source@)));
                    },
                }
            },
            PackfileObject::Commit(b) => {
                let _ = objects.insert(ObjectType::Commit, b.clone(), None);
            },
            PackfileObject::Tree(b) => {
                let _ = objects.insert(ObjectType::Tree, b.clone(), None);
            },
            PackfileObject::Blob(b) => {
                let _ = objects.insert(ObjectType::Blob, b.clone(), None);
            },
            PackfileObject::Tag(b) => {
                let _ = objects.insert(ObjectType::Tag, b.clone(), None);
            },
            PackfileObject::OfsDelta(_, _) => {
                return Err(Error::InvalidPackfile);
            },
        }
        i += 1;
    }
    let ghost mut fuel: nat = pending@.len() as nat;
    while pending.len() > 0
        invariant
            objects.wf(),
            fuel >= pending@.len(),
            recs == records_view(records@),
            resolved_store(old(objects)@, recs) == later_passes(objects@, pending_view(pending@), fuel),
        decreases pending@.len(),
    {
        proof {
            lemma_later_passes_fuel(objects@, pending_view(pending@), fuel);
        }
        let ghost store0 = objects@;
        let ghost pend0 = pending_view(pending@);
        let mut waiting: Vec<(Vec<u8>, hash::Hash)> = Vec::new();
        let mut progress = false;
        let n = pending.len();
        let mut j: usize = 0;
        assert(pending_view(waiting@) =~= Seq::<(Seq<u8>, Seq<u8>)>::empty());
        while j < n
            invariant
                n == pending@.len(),
                j <= n,
                objects.wf(),
                pend0 == pending_view(pending@),
                waiting@.len() + (if progress { 1int } else { 0int }) <= j,
                n > 0,
                recs == records_view(records@),
                fuel >= pend0.len(),
                pend0.len() == n,
                resolved_store(old(objects)@, recs) == later_passes(store0, pend0, fuel),
                delta_pass(store0, pend0, 0, Seq::empty(), false) == delta_pass(
                    objects@,
                    pend0,
                    j as nat,
                    pending_view(waiting@),
                    progress,
                ),
            decreases n - j,
        {
            let (delta, source) = &pending[j];
            assert(pend0[j as int] == (delta@, source@));
            match resolve_delta(objects, delta.as_slice(), *source) {
                Err(e) => {
                    assert(delta_pass(store0, pend0, 0, Seq::empty(), false) == Err::<
                        (Map<Seq<u8>, ObjectView>, Seq<(Seq<u8>, Seq<u8>)>, bool),
                        Error,
                    >(e));
                    assert(pend0.len() > 0 && fuel > 0);
                    assert(later_passes(store0, pend0, fuel) == Err::<Map<Seq<u8>, ObjectView>, Error>(e));
                    return Err(e);
                },
                Ok(true) => {
                    progress = true;
                },
                Ok(false) => {
                    let ghost w0 = pending_view(waiting@);
                    waiting.push((delta.clone(), *source));
                    assert(pending_view(waiting@) =~= w0.push(pend0[j as int]));
                },
            }
            j += 1;
        }
        assert(delta_pass(objects@, pend0, n as nat, pending_view(waiting@), progress) == Ok::<
            (Map<Seq<u8>, ObjectView>, Seq<(Seq<u8>, Seq<u8>)>, bool),
            Error,
        >((objects@, pending_view(waiting@), progress)));
        if !progress {
            assert(pend0.len() > 0 && fuel > 0);
            assert(later_passes(store0, pend0, fuel) == Err::<Map<Seq<u8>, ObjectView>, Error>(
                Error::InvalidPackfile,
            ));
            return Err(Error::InvalidPackfile);
        }
        proof {
            lemma_delta_pass_len(store0, pend0, 0, Seq::empty(), false);
        }
        pending = waiting;
        proof {
            fuel = (fuel - 1) as nat;
        }
    }
    Ok(())
}

/// A pack without deltas stores: every record is stored at once and none waits.
pub proof fn lemma_plain_records_resolve(store: Map<Seq<u8>, ObjectView>, recs: Seq<RecordView>, i: nat)
    requires
        i <= recs.len(),
        forall|k: int|
            0 <= k < recs.len() ==> (#[trigger] recs[k]).0 != ObjectEncoding::RefDelta && recs[k].0
                != ObjectEncoding::OfsDelta,
    ensures
        first_pass(store, recs, i, Seq::empty()) matches Ok((_, pend)) && pend.len() == 0,
        i == 0 ==> resolved_store(store, recs).is_ok(),
    decreases recs.len() - i,
{
    if i < recs.len() {
        let (enc, c, _) = recs[i as int];
        lemma_plain_records_resolve(
            store.insert(
                crate::objects::object_id(stored_type(enc), c),
                ObjectView { obj_type: stored_type(enc), content: c, delta_hint: crate::hash::zero_id() },
            ),
            recs,
            i + 1,
        );
    }
}

/// The (delta, source) pairs waiting for their source.
pub open spec fn pending_view(p: Seq<(Vec<u8>, hash::Hash)>) -> Seq<(Seq<u8>, Seq<u8>)> {
    Seq::new(p.len(), |i: int| (p[i].0@, p[i].1@))
}

/// Rebuilds and stores a delta's target if its source is stored (see `delta_step`);
/// gives whether it was.
fn resolve_delta(objects: &mut ObjectStore, delta: &[u8], source: hash::Hash) -> (r: Result<bool, Error>)
    requires
        old(objects).wf(),
    ensures
        final(objects).wf(),
        match delta_step(old(objects)@, delta@, source@) {
            Err(e) => r == Err::<bool, Error>(e),
            Ok(None) => r == Ok::<bool, Error>(false) && final(objects)@ == old(objects)@,
            Ok(Some(m)) => r == Ok::<bool, Error>(true) && final(objects)@ == m,
        },
{
    let (src_type, dst) = match objects.get(source) {
        None => return Ok(false),
        Some(src) => match reconstruct(delta, src.content()) {
            Err(e) => return Err(e),
            Ok(dst) => (src.obj_type(), dst),
        },
    };
    let _ = objects.insert(src_type, dst, Some(source));
    Ok(true)
}

} // verus!
