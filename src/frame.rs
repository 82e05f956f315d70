use vstd::prelude::*;

use crate::crc::{crc_of, crc_xmodem};

verus! {

/// Command byte of a frame whose payload is to be programmed into flash.
pub const PROG_COMMAND: u8 = 2;

/// Command byte of the end-of-transfer frame: start the application.
pub const RUN_COMMAND: u8 = 3;

/// Byte used to pad a short final chunk up to a whole page.
pub const PAGE_FILL: u8 = 0xff;

/// One unit of transfer: a command, the flash byte offset it applies to, and
/// one page of payload.
#[derive(Debug, PartialEq, Eq, Clone)]
pub struct Frame {
    pub command: u8,
    pub offset: u16,
    pub page: Vec<u8>,
}

/// `bytes` right-padded with `PAGE_FILL` up to `size` bytes; left as it is
/// when it is already that long.
pub open spec fn padded(bytes: Seq<u8>, size: nat) -> Seq<u8> {
    if bytes.len() >= size {
        bytes
    } else {
        bytes + Seq::new((size - bytes.len()) as nat, |_i: int| PAGE_FILL)
    }
}

/// The four bytes that open every frame on the wire; never covered by the checksum.
pub open spec fn sentinel() -> Seq<u8> {
    seq![0u8, 0u8, 0u8, 1u8]
}

/// Little-endian encoding of a 16-bit value.
pub open spec fn le16(v: u16) -> Seq<u8> {
    seq![(v % 256) as u8, (v / 256) as u8]
}

/// The checksummed part of a frame: command, little-endian offset, payload.
pub open spec fn frame_body(command: u8, offset: u16, page: Seq<u8>) -> Seq<u8> {
    seq![command] + le16(offset) + page
}

/// The complete wire image of a frame: sentinel, body, and the little-endian
/// CRC-16/XMODEM of the body.
pub open spec fn wire_bytes(command: u8, offset: u16, page: Seq<u8>) -> Seq<u8> {
    let body = frame_body(command, offset, page);
    sentinel() + body + le16(crc_of(body))
}

/// Number of `size`-byte chunks needed to hold `len` bytes.
pub open spec fn chunk_count(len: nat, size: nat) -> nat
    recommends
        size > 0,
{
    if len == 0 || size == 0 {
        0
    } else {
        ((len - 1) / (size as int) + 1) as nat
    }
}

/// The `i`-th chunk of `bytes`: `size` bytes starting at `i * size`, fewer at the end.
pub open spec fn chunk(bytes: Seq<u8>, size: nat, i: int) -> Seq<u8> {
    let start = i * size;
    let end = if start + size <= bytes.len() { start + size } else { bytes.len() as int };
    bytes.subrange(start, end)
}

/// Appends every byte of `src` to `dst`.
pub(crate) fn append_bytes(dst: &mut Vec<u8>, src: &[u8])
    ensures
        final(dst)@ == old(dst)@ + src@,
{
    let mut i: usize = 0;
    while i < src.len()
        invariant
            i <= src@.len(),
            dst@ == old(dst)@ + src@.subrange(0, i as int),
        decreases src.len() - i,
    {
        dst.push(src[i]);
        i = i + 1;
        proof {
            assert(old(dst)@ + src@.subrange(0, i as int) =~= old(dst)@ + src@.subrange(
                0,
                i - 1,
            ).push(src@[i - 1]));
        }
    }
    proof {
        assert(src@.subrange(0, i as int) =~= src@);
    }
}

impl Frame {
    /// A programming frame for `offset` whose payload is `bytes` padded with
    /// `0xff` to `page_size`.
    pub fn data(offset: u16, bytes: &[u8], page_size: usize) -> (r: Frame)
        ensures
            r.command == PROG_COMMAND,
            r.offset == offset,
            r.page@ == padded(bytes@, page_size as nat),
    {
        let mut page: Vec<u8> = Vec::new();
        append_bytes(&mut page, bytes);
        proof {
            assert(page@ =~= bytes@ + Seq::new(0, |_i: int| PAGE_FILL));
        }
        while page.len() < page_size
            invariant
                bytes@.len() <= page@.len(),
                page@.len() <= page_size || page@ == bytes@,
                page@ == bytes@ + Seq::new((page@.len() - bytes@.len()) as nat, |_i: int| PAGE_FILL),
            decreases page_size - page.len(),
        {
            page.push(PAGE_FILL);
            proof {
                assert(page@ =~= bytes@ + Seq::new(
                    (page@.len() - bytes@.len()) as nat,
                    |_i: int| PAGE_FILL,
                ));
            }
        }
        proof {
            if bytes@.len() >= page_size {
                assert(page@ =~= bytes@);
            }
        }
        Frame { command: PROG_COMMAND, offset, page }
    }

    /// The end-of-transfer frame: command `RUN_COMMAND`, offset zero and
    /// `page_size` zero bytes.
    pub fn run(page_size: usize) -> (r: Frame)
        ensures
            r.command == RUN_COMMAND,
            r.offset == 0,
            r.page@ == Seq::new(page_size as nat, |_i: int| 0u8),
    {
        let mut page: Vec<u8> = Vec::new();
        while page.len() < page_size
            invariant
                page@.len() <= page_size,
                page@ == Seq::new(page@.len(), |_i: int| 0u8),
            decreases page_size - page.len(),
        {
            page.push(0);
            proof {
                assert(page@ =~= Seq::new(page@.len(), |_i: int| 0u8));
            }
        }
        Frame { command: RUN_COMMAND, offset: 0, page }
    }

    /// Splits a firmware image into consecutive `page_size`-byte programming
    /// frames; frame `i` carries the offset `i * page_size`, truncated to 16 bits.
    pub fn bytes_to_frames(bytes: &[u8], page_size: usize) -> (r: Vec<Frame>)
        requires
            page_size > 0,
        ensures
            r@.len() == chunk_count(bytes@.len(), page_size as nat),
            forall|i: int|
                #![trigger r@[i]]
                0 <= i < r@.len() ==> {
                    &&& r@[i].command == PROG_COMMAND
                    &&& r@[i].offset == (i * page_size) as u16
                    &&& r@[i].page@ == padded(chunk(bytes@, page_size as nat, i), page_size as nat)
                },
    {
        let mut frames: Vec<Frame> = Vec::new();
        let mut start: usize = 0;
        proof {
            assert(0 * page_size == 0) by (nonlinear_arith);
        }
        while start < bytes.len()
            invariant
                page_size > 0,
                start <= frames@.len() * page_size,
                start < bytes@.len() ==> start == frames@.len() * page_size,
                start < bytes@.len() ==> frames@.len() == chunk_count(start as nat, page_size as nat),
                start >= bytes@.len() ==> frames@.len() == chunk_count(bytes@.len(), page_size as nat),
                forall|i: int|
                    #![trigger frames@[i]]
                    0 <= i < frames@.len() ==> {
                        &&& frames@[i].command == PROG_COMMAND
                        &&& frames@[i].offset == (i * page_size) as u16
                        &&& frames@[i].page@ == padded(
                            chunk(bytes@, page_size as nat, i),
                            page_size as nat,
                        )
                    },
            decreases bytes.len() - start,
        {
            let end: usize = if bytes.len() - start >= page_size {
                start + page_size
            } else {
                bytes.len()
            };
            let ghost k = frames@.len() as int;
            let piece = slice_range(bytes, start, end);
            let offset: u16 = #[verifier::truncate] (start as u16);
            let f = Frame::data(offset, piece.as_slice(), page_size);
            frames.push(f);
            proof {
                assert(frames@[k].page@ == padded(chunk(bytes@, page_size as nat, k), page_size as nat));
                lemma_chunk_count_step(start as nat, end as nat, bytes@.len(), page_size as nat, k as nat);
            }
            start = end;
            if start < bytes.len() {
                proof {
                    assert(start == frames@.len() * page_size) by (nonlinear_arith)
                        requires
                            start == k * page_size + page_size,
                            frames@.len() == k + 1,
                    ;
                }
            } else {
                proof {
                    assert(frames@.len() * page_size >= start) by (nonlinear_arith)
                        requires
                            start <= k * page_size + page_size,
                            frames@.len() == k + 1,
                    ;
                }
            }
        }
        frames
    }

    /// The wire image of this frame: the sentinel `00 00 00 01`, the command,
    /// the little-endian offset, the payload, and the little-endian
    /// CRC-16/XMODEM of everything after the sentinel.
    pub fn to_bytes(&self) -> (r: Vec<u8>)
        ensures
            r@ == wire_bytes(self.command, self.offset, self.page@),
    {
        let mut body: Vec<u8> = Vec::new();
        body.push(self.command);
        body.push((self.offset % 256) as u8);
        body.push((self.offset / 256) as u8);
        append_bytes(&mut body, self.page.as_slice());
        proof {
            assert(body@ =~= frame_body(self.command, self.offset, self.page@));
        }
        let checksum = crc_xmodem(body.as_slice());
        let mut v: Vec<u8> = Vec::new();
        v.push(0);
        v.push(0);
        v.push(0);
        v.push(1);
        append_bytes(&mut v, body.as_slice());
        v.push((checksum % 256) as u8);
        v.push((checksum / 256) as u8);
        proof {
            assert(v@ =~= wire_bytes(self.command, self.offset, self.page@));
        }
        v
    }
}

/// Copies `bytes[start..end]` out of a slice.
fn slice_range(bytes: &[u8], start: usize, end: usize) -> (r: Vec<u8>)
    requires
        start <= end <= bytes@.len(),
    ensures
        r@ == bytes@.subrange(start as int, end as int),
{
    let mut v: Vec<u8> = Vec::new();
    let mut i: usize = start;
    while i < end
        invariant
            start <= i <= end <= bytes@.len(),
            v@ == bytes@.subrange(start as int, i as int),
        decreases end - i,
    {
        v.push(bytes[i]);
        i = i + 1;
        proof {
            assert(v@ =~= bytes@.subrange(start as int, i as int));
        }
    }
    v
}

proof fn lemma_chunk_count_step(start: nat, end: nat, len: nat, size: nat, k: nat)
    requires
        size > 0,
        start == k * size,
        start < len,
        end == if len - start >= size { start + size } else { len },
    ensures
        end < len ==> k + 1 == chunk_count(end, size),
        end >= len ==> k + 1 == chunk_count(len, size),
{
    if end < len {
        assert(end == (k + 1) * size) by (nonlinear_arith)
            requires
                start == k * size,
                end == start + size,
        ;
        assert(((end - 1) as int) / (size as int) == k) by (nonlinear_arith)
            requires
                end == (k + 1) * size,
                size > 0,
        ;
    } else {
        assert(((len - 1) as int) / (size as int) == k) by (nonlinear_arith)
            requires
                start == k * size,
                start < len,
                len <= start + size,
                size > 0,
        ;
    }
}

impl From<Frame> for Vec<u8> {
    /// The wire image of the frame, as `Frame::to_bytes` gives it.
    fn from(f: Frame) -> Vec<u8> {
        f.to_bytes()
    }
}

impl vstd::std_specs::convert::FromSpecImpl<Frame> for Vec<u8> {
    open spec fn obeys_from_spec() -> bool {
        false
    }

    open spec fn from_spec(v: Frame) -> Vec<u8> {
        arbitrary()
    }
}

} // verus!
