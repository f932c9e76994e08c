//! Framing of the wire protocol: size limits and the 4-byte little-endian
//! length prefix in front of each encoded packet.
use vstd::prelude::*;
use crate::error::{NovaError, NovaResult};
use crate::text::{decimal_string, decimal_text};

verus! {

/// The largest message of the default codec: 1 MiB.
pub const DEFAULT_MAX_MESSAGE_SIZE: usize = 1048576;

/// The codec settings.
#[derive(Debug, Clone, Copy, PartialEq, Eq)]
pub struct NovaProtocol {
    max_message_size: usize,
    compression_enabled: bool,
}

/// The four little-endian bytes of `n` modulo 2^32.
pub open spec fn length_prefix(n: nat) -> Seq<u8> {
    let v = n % 0x1_0000_0000;
    seq![(v % 256) as u8, ((v / 256) % 256) as u8, ((v / 65536) % 256) as u8, ((v / 16777216) % 256) as u8]
}

/// The number that four little-endian bytes stand for.
pub open spec fn prefix_value(b: Seq<u8>) -> nat {
    (b[0] + 256 * (b[1] + 256 * (b[2] + 256 * b[3] as int))) as nat
}

/// A packet on the wire: its length, then its bytes.
pub open spec fn framed(payload: Seq<u8>) -> Seq<u8> {
    length_prefix(payload.len()) + payload
}

/// The message of a size-limit error.
pub open spec fn too_large(what: Seq<char>, len: nat, max: nat) -> Seq<char> {
    what + " too large: "@ + decimal_text(len) + " > "@ + decimal_text(max)
}

/// What reading one frame at `pos` gives, and where the reading position ends.
pub enum FrameRead {
    /// Too few bytes for the prefix; nothing is consumed.
    NeedPrefix,
    /// The prefix announces more than the limit; the prefix is consumed.
    TooLarge { len: nat },
    /// Too few bytes for the announced payload; the prefix is consumed.
    NeedPayload,
    /// A whole frame.
    Frame { payload: Seq<u8> },
}

pub open spec fn read_frame(data: Seq<u8>, pos: int, max: nat) -> FrameRead {
    if data.len() - pos < 4 {
        FrameRead::NeedPrefix
    } else {
        let len = prefix_value(data.subrange(pos, pos + 4));
        if len > max {
            FrameRead::TooLarge { len }
        } else if data.len() - pos - 4 < len {
            FrameRead::NeedPayload
        } else {
            FrameRead::Frame { payload: data.subrange(pos + 4, pos + 4 + len) }
        }
    }
}

/// The reading position after a frame is read.
pub open spec fn position_after(data: Seq<u8>, pos: int, max: nat) -> int {
    match read_frame(data, pos, max) {
        FrameRead::NeedPrefix => pos,
        FrameRead::TooLarge { .. } => pos + 4,
        FrameRead::NeedPayload => pos + 4,
        FrameRead::Frame { payload } => pos + 4 + payload.len(),
    }
}

impl NovaProtocol {
    pub closed spec fn max_size(&self) -> nat {
        self.max_message_size as nat
    }

    pub closed spec fn compression(&self) -> bool {
        self.compression_enabled
    }

    pub fn new(max_message_size: usize, compression_enabled: bool) -> (p: Self)
        ensures
            p.max_size() == max_message_size,
            p.compression() == compression_enabled,
    {
        NovaProtocol { max_message_size, compression_enabled }
    }

    pub fn max_message_size(&self) -> (n: usize)
        ensures
            n == self.max_size(),
    {
        self.max_message_size
    }

    pub fn compression_enabled(&self) -> (b: bool)
        ensures
            b == self.compression(),
    {
        self.compression_enabled
    }

    fn size_error(what: &str, len: usize, max: usize) -> (e: NovaError)
        ensures
            e == NovaError::Generic(e->Generic_0),
            e->Generic_0@ == too_large(what@, len as nat, max as nat),
    {
        let msg = String::from_str(what).concat(" too large: ").concat(decimal_string(len as u64).as_str()).concat(
            " > ",
        ).concat(decimal_string(max as u64).as_str());
        NovaError::Generic(msg)
    }

    /// Checks that an encoded message of `len` bytes is within the limit.
    pub fn check_message_size(&self, len: usize) -> (r: NovaResult<()>)
        ensures
            len <= self.max_size() ==> r is Ok,
            len > self.max_size() ==> r == Err::<(), NovaError>(NovaError::Generic(r->Err_0->Generic_0))
                && r->Err_0->Generic_0@ == too_large("Message"@, len as nat, self.max_size()),
    {
        if len > self.max_message_size {
            return Err(Self::size_error("Message", len, self.max_message_size));
        }
        Ok(())
    }

    /// Frames an encoded packet: the length of its bytes (modulo 2^32) in four
    /// little-endian bytes, then the bytes. Packets over the limit are refused.
    pub fn frame_packet(&self, encoded: &[u8]) -> (r: NovaResult<Vec<u8>>)
        ensures
            encoded@.len() <= self.max_size() ==> r is Ok && r->Ok_0@ == framed(encoded@),
            encoded@.len() > self.max_size() ==> r == Err::<Vec<u8>, NovaError>(NovaError::Generic(r->Err_0->Generic_0))
                && r->Err_0->Generic_0@ == too_large("Message"@, encoded@.len(), self.max_size()),
    {
        let n = encoded.len();
        self.check_message_size(n)?;
        let v: u64 = (n as u64) % 0x1_0000_0000;
        let mut out: Vec<u8> = Vec::new();
        out.push((v % 256) as u8);
        out.push(((v / 256) % 256) as u8);
        out.push(((v / 65536) % 256) as u8);
        out.push(((v / 16777216) % 256) as u8);
        assert(out@ =~= length_prefix(n as nat));
        let mut i: usize = 0;
        while i < n
            invariant
                i <= n,
                n == encoded@.len(),
                out@ == length_prefix(n as nat) + encoded@.subrange(0, i as int),
            decreases n - i,
        {
            out.push(encoded[i]);
            i = i + 1;
            assert(out@ =~= length_prefix(n as nat) + encoded@.subrange(0, i as int));
        }
        assert(encoded@.subrange(0, n as int) =~= encoded@);
        Ok(out)
    }

    /// Reads the frame that starts at `pos`. Returns what was read and the
    /// position after it: `Ok(None)` when more bytes are needed.
    pub fn decode_frame(&self, data: &[u8], pos: usize) -> (r: (NovaResult<Option<Vec<u8>>>, usize))
        requires
            pos <= data@.len(),
        ensures
            r.1 == position_after(data@, pos as int, self.max_size()),
            match read_frame(data@, pos as int, self.max_size()) {
                FrameRead::NeedPrefix => r.0 == Ok::<Option<Vec<u8>>, NovaError>(None),
                FrameRead::NeedPayload => r.0 == Ok::<Option<Vec<u8>>, NovaError>(None),
                FrameRead::TooLarge { len } => r.0 == Err::<Option<Vec<u8>>, NovaError>(NovaError::Generic(r.0->Err_0->Generic_0))
                    && r.0->Err_0->Generic_0@ == too_large("Packet"@, len, self.max_size()),
                FrameRead::Frame { payload } => r.0 is Ok && r.0->Ok_0 is Some && r.0->Ok_0->Some_0@ == payload,
            },
    {
        let n = data.len();
        if n - pos < 4 {
            return (Ok(None), pos);
        }
        let b0 = data[pos] as u64;
        let b1 = data[pos + 1] as u64;
        let b2 = data[pos + 2] as u64;
        let b3 = data[pos + 3] as u64;
        let len64: u64 = b0 + 256 * (b1 + 256 * (b2 + 256 * b3));
        let ghost pre = data@.subrange(pos as int, pos + 4);
        assert(pre[0] == data@[pos as int] && pre[1] == data@[pos + 1] && pre[2] == data@[pos + 2] && pre[3] == data@[pos + 3]);
        assert(len64 == prefix_value(pre));
        let start = pos + 4;
        if len64 > self.max_message_size as u64 {
            let len = len64 as usize;
            return (Err(Self::size_error("Packet", len, self.max_message_size)), start);
        }
        let len = len64 as usize;
        if n - start < len {
            return (Ok(None), start);
        }
        let mut payload: Vec<u8> = Vec::new();
        let mut i: usize = 0;
        while i < len
            invariant
                i <= len,
                start + len <= n,
                n == data@.len(),
                payload@ == data@.subrange(start as int, start + i),
            decreases len - i,
        {
            payload.push(data[start + i]);
            i = i + 1;
            assert(payload@ =~= data@.subrange(start as int, start + i));
        }
        (Ok(Some(payload)), start + len)
    }
}

impl Default for NovaProtocol {
    fn default() -> (p: Self)
        ensures
            p.max_size() == DEFAULT_MAX_MESSAGE_SIZE,
            !p.compression(),
    {
        NovaProtocol { max_message_size: DEFAULT_MAX_MESSAGE_SIZE, compression_enabled: false }
    }
}

/// Reading back a framed packet gives the packet and consumes exactly its frame.
pub proof fn lemma_frame_roundtrip(payload: Seq<u8>, max: nat)
    requires
        payload.len() <= max,
        payload.len() < 0x1_0000_0000,
    ensures
        read_frame(framed(payload), 0, max) == (FrameRead::Frame { payload }),
        position_after(framed(payload), 0, max) == 4 + payload.len(),
{
    let f = framed(payload);
    let n = payload.len();
    assert(f.subrange(0, 4) =~= length_prefix(n));
    assert(prefix_value(length_prefix(n)) == n);
    assert(f.subrange(4, 4 + n as int) =~= payload);
}

/// A frame that stands at `pos` in a longer buffer reads back as its payload,
/// and reading continues just after it.
pub proof fn lemma_frame_at(before: Seq<u8>, payload: Seq<u8>, after: Seq<u8>, max: nat)
    requires
        payload.len() <= max,
        payload.len() < 0x1_0000_0000,
    ensures
        read_frame(before + framed(payload) + after, before.len() as int, max) == (FrameRead::Frame { payload }),
        position_after(before + framed(payload) + after, before.len() as int, max) == before.len() + 4 + payload.len(),
{
    let d = before + framed(payload) + after;
    let p = before.len() as int;
    let n = payload.len();
    assert(d.subrange(p, p + 4) =~= length_prefix(n));
    assert(prefix_value(length_prefix(n)) == n);
    assert(d.subrange(p + 4, p + 4 + n as int) =~= payload);
}

/// Two framed packets sent one after the other read back in order, each
/// reading consuming exactly its frame; then more bytes are needed.
pub proof fn lemma_two_frames(a: Seq<u8>, b: Seq<u8>, max: nat)
    requires
        a.len() <= max,
        b.len() <= max,
        a.len() < 0x1_0000_0000,
        b.len() < 0x1_0000_0000,
    ensures
        read_frame(framed(a) + framed(b), 0, max) == (FrameRead::Frame { payload: a }),
        position_after(framed(a) + framed(b), 0, max) == framed(a).len(),
        read_frame(framed(a) + framed(b), framed(a).len() as int, max) == (FrameRead::Frame { payload: b }),
        position_after(framed(a) + framed(b), framed(a).len() as int, max) == (framed(a) + framed(b)).len(),
        read_frame(framed(a) + framed(b), (framed(a) + framed(b)).len() as int, max) == FrameRead::NeedPrefix,
{
    let e = Seq::<u8>::empty();
    let fa = framed(a);
    let fb = framed(b);
    let d = fa + fb;
    assert(fa.len() == 4 + a.len());
    assert(d.len() == fa.len() + fb.len());
    assert(e + fa + fb =~= d);
    assert(fa + fb + e =~= d);
    assert(read_frame(d, 0, max) == (FrameRead::Frame { payload: a }) && position_after(d, 0, max) == fa.len()) by {
        lemma_frame_at(e, a, fb, max);
    }
    assert(read_frame(d, fa.len() as int, max) == (FrameRead::Frame { payload: b })
        && position_after(d, fa.len() as int, max) == d.len()) by {
        lemma_frame_at(fa, b, e, max);
    }
}

} // verus!
