//! The framed wire format: a fixed 24-byte header, 8-byte-aligned
//! length-prefixed sections, and a little-endian byte reader.

use vstd::bytes::{
    lemma_auto_spec_u32_to_from_le_bytes, lemma_auto_spec_u64_to_from_le_bytes,
    spec_u32_from_le_bytes, spec_u32_to_le_bytes, spec_u64_from_le_bytes, spec_u64_to_le_bytes,
    u32_from_le_bytes, u32_to_le_bytes, u64_from_le_bytes, u64_to_le_bytes,
};
use vstd::prelude::*;
use vstd::slice::slice_subrange;
use vstd::string::StringExecFns;

use crate::format::{i64_of_word, word_to_i64};

verus! {

/// "ZNET": the magic number opening every frame.
pub const WIRE_MAGIC: u32 = 0x5A4E_4554;

pub const WIRE_VERSION: u32 = 1;

pub const MSG_WRITE: u32 = 1;

pub const MSG_ASOF: u32 = 2;

pub const MSG_OK: u32 = 3;

pub const MSG_RESULT: u32 = 4;

pub const MSG_ERROR: u32 = 5;

/// The largest body a peer may send: 4 GiB.
pub const MAX_BODY_LEN: u64 = 4 * 1024 * 1024 * 1024;

/// Bytes in a frame header.
pub const WIRE_HEADER_SIZE: usize = 24;

/// The header of one frame.
#[derive(Debug, Clone, Copy, PartialEq, Eq, Structural)]
pub struct WireHeader {
    pub magic: u32,
    pub version: u32,
    pub msg_type: u32,
    pub pad: u32,
    pub body_len: u64,
}

/// The bytes of a frame header.
pub open spec fn spec_wire_header_bytes(h: WireHeader) -> Seq<u8> {
    spec_u32_to_le_bytes(h.magic) + spec_u32_to_le_bytes(h.version) + spec_u32_to_le_bytes(
        h.msg_type,
    ) + spec_u32_to_le_bytes(h.pad) + spec_u64_to_le_bytes(h.body_len)
}

/// Encode a frame header.
pub fn encode_wire_header(h: &WireHeader) -> (r: Vec<u8>)
    ensures
        r@ == spec_wire_header_bytes(*h),
        r@.len() == WIRE_HEADER_SIZE,
{
    proof {
        lemma_auto_spec_u32_to_from_le_bytes();
        lemma_auto_spec_u64_to_from_le_bytes();
    }
    let mut out: Vec<u8> = Vec::new();
    let mut b = u32_to_le_bytes(h.magic);
    out.append(&mut b);
    let mut b = u32_to_le_bytes(h.version);
    out.append(&mut b);
    let mut b = u32_to_le_bytes(h.msg_type);
    out.append(&mut b);
    let mut b = u32_to_le_bytes(h.pad);
    out.append(&mut b);
    let mut b = u64_to_le_bytes(h.body_len);
    out.append(&mut b);
    proof {
        assert(out@ =~= spec_wire_header_bytes(*h));
    }
    out
}

/// Decode a frame header from its 24 bytes.
pub fn decode_wire_header(bytes: &[u8]) -> (h: WireHeader)
    requires
        bytes@.len() == WIRE_HEADER_SIZE,
    ensures
        spec_wire_header_bytes(h) == bytes@,
{
    proof {
        lemma_auto_spec_u32_to_from_le_bytes();
        lemma_auto_spec_u64_to_from_le_bytes();
    }
    let n = bytes.len();
    let magic = u32_from_le_bytes(slice_subrange(bytes, 0, 4));
    let version = u32_from_le_bytes(slice_subrange(bytes, 4, 8));
    let msg_type = u32_from_le_bytes(slice_subrange(bytes, 8, 12));
    let pad = u32_from_le_bytes(slice_subrange(bytes, 12, 16));
    let body_len = u64_from_le_bytes(slice_subrange(bytes, 16, 24));
    let h = WireHeader { magic, version, msg_type, pad, body_len };
    proof {
        assert(spec_wire_header_bytes(h) =~= bytes@);
    }
    h
}

/// A length rounded up to the next 8-byte boundary.
pub open spec fn spec_padded_len(len: int) -> int {
    ((len + 7) / 8) * 8
}

/// Round a length up to the next 8-byte boundary.
pub fn padded_len(len: usize) -> (r: usize)
    requires
        len + 7 <= usize::MAX,
    ensures
        r == spec_padded_len(len as int),
        len <= r < len + 8,
        r % 8 == 0,
{
    proof {
        vstd::arithmetic::div_mod::lemma_fundamental_div_mod((len + 7) as int, 8);
    }
    ((len + 7) / 8) * 8
}

/// A section: the payload length, the payload, and zero padding to an 8-byte
/// boundary.
pub open spec fn spec_section_bytes(data: Seq<u8>) -> Seq<u8> {
    spec_u64_to_le_bytes(data.len() as u64) + data + Seq::new(
        (spec_padded_len(data.len() as int) - data.len()) as nat,
        |i: int| 0u8,
    )
}

/// Append a length-prefixed section, zero-padded to an 8-byte boundary.
pub fn write_section(buf: &mut Vec<u8>, data: &[u8])
    requires
        data@.len() + 15 <= usize::MAX,
        old(buf)@.len() + data@.len() + 16 <= usize::MAX,
    ensures
        final(buf)@ == old(buf)@ + spec_section_bytes(data@),
{
    proof {
        lemma_auto_spec_u64_to_from_le_bytes();
    }
    let n = data.len();
    let mut b = u64_to_le_bytes(n as u64);
    buf.append(&mut b);
    let mut i: usize = 0;
    while i < n
        invariant
            i <= n,
            n == data@.len(),
            buf@ =~= old(buf)@ + spec_u64_to_le_bytes(n as u64) + data@.take(i as int),
        decreases n - i,
    {
        buf.push(data[i]);
        proof {
            assert(data@.take(i + 1 as int) =~= data@.take(i as int).push(data@[i as int]));
        }
        i = i + 1;
    }
    let target = padded_len(n);
    let pad = target - n;
    let mut k: usize = 0;
    while k < pad
        invariant
            k <= pad,
            n == data@.len(),
            pad == spec_padded_len(n as int) - n,
            buf@ =~= old(buf)@ + spec_u64_to_le_bytes(n as u64) + data@ + Seq::new(
                k as nat,
                |i: int| 0u8,
            ),
        decreases pad - k,
    {
        buf.push(0);
        proof {
            assert(Seq::new((k + 1) as nat, |i: int| 0u8) =~= Seq::new(k as nat, |i: int| 0u8).push(
                0u8,
            ));
        }
        k = k + 1;
    }
    proof {
        assert(data@.take(n as int) =~= data@);
        assert(buf@ =~= old(buf)@ + spec_section_bytes(data@));
    }
}

/// A section appended by `write_section` reads back as the same bytes: at
/// the append position the whole section lies in the buffer, the length
/// prefix spells the payload's length, and the payload follows it.
pub proof fn lemma_section_roundtrip(pre: Seq<u8>, data: Seq<u8>)
    requires
        data.len() <= usize::MAX as u64 / 2,
    ensures
        Reader::section_at(pre + spec_section_bytes(data), pre.len() as int),
        spec_u64_from_le_bytes(
            (pre + spec_section_bytes(data)).subrange(pre.len() as int, pre.len() as int + 8),
        ) == data.len() as u64,
        (pre + spec_section_bytes(data)).subrange(
            pre.len() as int + 8,
            pre.len() as int + 8 + data.len() as int,
        ) == data,
{
    lemma_auto_spec_u64_to_from_le_bytes();
    let buf = pre + spec_section_bytes(data);
    let pos = pre.len() as int;
    assert(buf.subrange(pos, pos + 8) =~= spec_u64_to_le_bytes(data.len() as u64));
    assert(buf.subrange(pos + 8, pos + 8 + data.len() as int) =~= data);
}

/// A cursor over a message body.
#[derive(Debug)]
pub struct Reader {
    pub buf: Vec<u8>,
    pub pos: usize,
}

impl Reader {
    /// The cursor never passes the end of the buffer.
    pub open spec fn wf(self) -> bool {
        self.pos <= self.buf@.len()
    }

    /// Start reading a body from its beginning.
    pub fn new(buf: Vec<u8>) -> (r: Reader)
        ensures
            r.wf(),
            r.buf@ == buf@,
            r.pos == 0,
    {
        Reader { buf, pos: 0 }
    }

    /// Read the next `n` raw bytes; errors without moving when fewer remain.
    pub fn read_bytes(&mut self, n: usize) -> (r: Result<Vec<u8>, String>)
        requires
            old(self).wf(),
        ensures
            final(self).wf(),
            final(self).buf@ == old(self).buf@,
            r is Ok <==> old(self).pos + n <= old(self).buf@.len(),
            r matches Ok(v) ==> v@ == old(self).buf@.subrange(
                old(self).pos as int,
                old(self).pos + n,
            ) && final(self).pos == old(self).pos + n,
            r is Err ==> final(self).pos == old(self).pos,
    {
        if n > self.buf.len() - self.pos {
            return Err(String::from_str("unexpected end of message"));
        }
        let s = slice_subrange(self.buf.as_slice(), self.pos, self.pos + n);
        let v = vstd::slice::slice_to_vec(s);
        self.pos = self.pos + n;
        Ok(v)
    }

    /// Read a little-endian `u64`.
    pub fn read_u64(&mut self) -> (r: Result<u64, String>)
        requires
            old(self).wf(),
        ensures
            final(self).wf(),
            final(self).buf@ == old(self).buf@,
            r is Ok <==> old(self).pos + 8 <= old(self).buf@.len(),
            r matches Ok(x) ==> x == spec_u64_from_le_bytes(
                old(self).buf@.subrange(old(self).pos as int, old(self).pos + 8),
            ) && final(self).pos == old(self).pos + 8,
            r is Err ==> final(self).pos == old(self).pos,
    {
        match self.read_bytes(8) {
            Ok(v) => Ok(u64_from_le_bytes(v.as_slice())),
            Err(e) => Err(e),
        }
    }

    /// Read a little-endian `u32`.
    pub fn read_u32(&mut self) -> (r: Result<u32, String>)
        requires
            old(self).wf(),
        ensures
            final(self).wf(),
            final(self).buf@ == old(self).buf@,
            r is Ok <==> old(self).pos + 4 <= old(self).buf@.len(),
            r matches Ok(x) ==> x == spec_u32_from_le_bytes(
                old(self).buf@.subrange(old(self).pos as int, old(self).pos + 4),
            ) && final(self).pos == old(self).pos + 4,
            r is Err ==> final(self).pos == old(self).pos,
    {
        match self.read_bytes(4) {
            Ok(v) => Ok(u32_from_le_bytes(v.as_slice())),
            Err(e) => Err(e),
        }
    }

    /// A whole section lies at position `pos` of `buf`: the length prefix is
    /// readable and reasonable, and the payload plus its padding fit.
    pub open spec fn section_at(buf: Seq<u8>, pos: int) -> bool {
        let len = spec_u64_from_le_bytes(buf.subrange(pos, pos + 8));
        &&& pos + 8 <= buf.len()
        &&& len <= usize::MAX as u64 / 2
        &&& pos + 8 + spec_padded_len(len as int) <= buf.len()
    }

    /// Read a length-prefixed section and skip its padding; errors without
    /// moving exactly when no whole section lies at the cursor.
    pub fn read_section(&mut self) -> (r: Result<Vec<u8>, String>)
        requires
            old(self).wf(),
        ensures
            final(self).wf(),
            final(self).buf@ == old(self).buf@,
            r is Ok <==> Self::section_at(old(self).buf@, old(self).pos as int),
            r matches Ok(v) ==> {
                let len = spec_u64_from_le_bytes(
                    old(self).buf@.subrange(old(self).pos as int, old(self).pos + 8),
                );
                v@ == old(self).buf@.subrange(
                    old(self).pos + 8,
                    old(self).pos + 8 + len as int,
                ) && final(self).pos == old(self).pos + 8 + spec_padded_len(len as int)
            },
            r is Err ==> final(self).pos == old(self).pos,
    {
        let start = self.pos;
        let len64 = match self.read_u64() {
            Ok(x) => x,
            Err(e) => {
                return Err(e);
            },
        };
        if len64 > (usize::MAX as u64) / 2 {
            self.pos = start;
            return Err(String::from_str("section too large"));
        }
        let len = len64 as usize;
        let data = match self.read_bytes(len) {
            Ok(v) => v,
            Err(e) => {
                self.pos = start;
                return Err(e);
            },
        };
        let pad = padded_len(len) - len;
        if pad > 0 {
            match self.read_bytes(pad) {
                Ok(_) => {},
                Err(e) => {
                    self.pos = start;
                    return Err(e);
                },
            }
        }
        Ok(data)
    }

    /// Read `count` stored `i64` words.
    pub fn read_i64_slice(&mut self, count: usize) -> (r: Result<Vec<i64>, String>)
        requires
            old(self).wf(),
            count * 8 <= usize::MAX,
        ensures
            final(self).wf(),
            final(self).buf@ == old(self).buf@,
            r is Ok <==> old(self).pos + count * 8 <= old(self).buf@.len(),
            r matches Ok(v) ==> {
                &&& v@.len() == count
                &&& forall|k: int|
                    0 <= k < count ==> v@[k] == i64_of_word(
                        spec_u64_from_le_bytes(
                            old(self).buf@.subrange(
                                old(self).pos + 8 * k,
                                old(self).pos + 8 * k + 8,
                            ),
                        ),
                    )
                &&& final(self).pos == old(self).pos + count * 8
            },
            r is Err ==> final(self).pos == old(self).pos,
    {
        let bytes = match self.read_bytes(count * 8) {
            Ok(v) => v,
            Err(e) => {
                return Err(e);
            },
        };
        let words = crate::format::read_words(bytes.as_slice(), 0, count);
        let mut out: Vec<i64> = Vec::new();
        let mut k: usize = 0;
        while k < count
            invariant
                k <= count,
                words@.len() == count,
                forall|j: int|
                    0 <= j < count ==> words@[j] == spec_u64_from_le_bytes(
                        bytes@.subrange(8 * j, 8 * j + 8),
                    ),
                out@.len() == k,
                forall|j: int| 0 <= j < k ==> out@[j] == i64_of_word(#[trigger] words@[j]),
            decreases count - k,
        {
            out.push(word_to_i64(words[k]));
            k = k + 1;
        }
        proof {
            assert forall|k0: int| 0 <= k0 < count implies out@[k0] == i64_of_word(
                spec_u64_from_le_bytes(
                    old(self).buf@.subrange(old(self).pos + 8 * k0, old(self).pos + 8 * k0 + 8),
                ),
            ) by {
                assert(out@[k0] == i64_of_word(words@[k0]));
                assert(words@[k0] == spec_u64_from_le_bytes(bytes@.subrange(8 * k0, 8 * k0 + 8)));
                assert(bytes@.subrange(8 * k0, 8 * k0 + 8) =~= old(self).buf@.subrange(
                    old(self).pos + 8 * k0,
                    old(self).pos + 8 * k0 + 8,
                ));
            }
        }
        Ok(out)
    }
}

} // verus!
