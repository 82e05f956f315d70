use vstd::prelude::*;

use crate::crc::{crc_of, crc_xmodem_update, lemma_single_byte_change_detected};
use crate::frame::RUN_COMMAND;
use crate::signal::ByteSource;

verus! {

/// Bytes of a received frame besides its payload: command, two address
/// bytes, two checksum bytes.
pub const FRAME_OVERHEAD: usize = 5;

/// A frame as the target receives it: the wire image after the sentinel.
pub struct Frame {
    pub command: u8,
    pub page_address: u16,
    pub page: Vec<u8>,
    pub checksum: u16,
}

impl Frame {
    /// Whether this is the end-of-transfer frame.
    pub fn is_run(&self) -> (r: bool)
        ensures
            r == (self.command == RUN_COMMAND),
    {
        self.command == RUN_COMMAND
    }
}

/// The little-endian 16-bit value at `i`, `i + 1`.
pub open spec fn le_u16_at(b: Seq<u8>, i: int) -> u16 {
    (b[i] + 256 * b[i + 1]) as u16
}

/// Whether `b` is a whole frame for pages of `page_size` bytes whose last two
/// bytes hold the CRC-16/XMODEM of everything before them.
pub open spec fn frame_checks(b: Seq<u8>, page_size: nat) -> bool {
    &&& b.len() == page_size + FRAME_OVERHEAD
    &&& le_u16_at(b, b.len() - 2) == crc_of(b.take(b.len() - 2))
}

/// Whether `f` is the frame that the bytes `b` lay out.
pub open spec fn frame_of(f: Frame, b: Seq<u8>, page_size: nat) -> bool {
    &&& f.command == b[0]
    &&& f.page_address == le_u16_at(b, 1)
    &&& f.page@ == b.subrange(3, 3 + page_size as int)
    &&& f.checksum == le_u16_at(b, 3 + page_size as int)
}

/// A frame whose checksum holds is rejected once any single byte of it is
/// changed: in the command, the address, the payload, or the checksum itself.
pub proof fn lemma_corrupted_frame_rejected(b: Seq<u8>, page_size: nat, i: int, x: u8)
    requires
        frame_checks(b, page_size),
        0 <= i < b.len(),
        x != b[i],
    ensures
        !frame_checks(b.update(i, x), page_size),
{
    let n = b.len() as int;
    let t = b.update(i, x);
    if i < n - 2 {
        assert(t.take(n - 2) =~= b.take(n - 2).update(i, x));
        lemma_single_byte_change_detected(b.take(n - 2), i, x);
        assert(le_u16_at(t, n - 2) == le_u16_at(b, n - 2));
    } else {
        assert(t.take(n - 2) =~= b.take(n - 2));
        assert(le_u16_at(t, n - 2) != le_u16_at(b, n - 2));
    }
}

/// The bytes that up to `n` successive `get` calls yield from `s`: all `n`
/// of them, or fewer where the source runs out.
pub open spec fn pulled<B: ByteSource>(s: B, n: nat) -> Seq<u8>
    decreases n,
{
    if n == 0 {
        Seq::empty()
    } else {
        match s.next() {
            None => Seq::empty(),
            Some((b, t)) => seq![b] + pulled(t, (n - 1) as nat),
        }
    }
}

/// The source after `n` successive successful `get` calls on `s`.
pub open spec fn pulled_source<B: ByteSource>(s: B, n: nat) -> B
    decreases n,
{
    if n == 0 {
        s
    } else {
        match s.next() {
            None => s,
            Some((b, t)) => pulled_source(t, (n - 1) as nat),
        }
    }
}

/// Running CRC-16/XMODEM of the bytes seen so far, together with its values
/// one and two bytes earlier, so that a checksum carried in the last two
/// bytes can be checked without reading ahead or going back.
pub struct LaggedCrc {
    pub crc: u16,
    pub crc1: u16,
    pub crc2: u16,
    /// The bytes folded in so far.
    pub seen: Ghost<Seq<u8>>,
}

impl LaggedCrc {
    /// Whether the three registers are the checksums of the bytes seen, of
    /// all but the last of them, and of all but the last two.
    pub open spec fn wf(&self) -> bool {
        let s = self.seen@;
        &&& self.crc == crc_of(s)
        &&& s.len() >= 1 ==> self.crc1 == crc_of(s.take(s.len() - 1))
        &&& s.len() >= 2 ==> self.crc2 == crc_of(s.take(s.len() - 2))
    }

    /// Registers for no bytes yet.
    pub fn new() -> (r: LaggedCrc)
        ensures
            r.wf(),
            r.seen@ == Seq::<u8>::empty(),
    {
        LaggedCrc { crc: 0, crc1: 0, crc2: 0, seen: Ghost(Seq::empty()) }
    }

    /// Folds in one more byte, shifting the older values down.
    pub fn push(&mut self, b: u8)
        requires
            old(self).wf(),
        ensures
            final(self).wf(),
            final(self).seen@ == old(self).seen@.push(b),
    {
        let ghost prev = self.seen@;
        self.crc2 = self.crc1;
        self.crc1 = self.crc;
        self.crc = crc_xmodem_update(self.crc, b);
        self.seen = Ghost(prev.push(b));
        proof {
            let s = self.seen@;
            assert(s.drop_last() =~= prev);
            assert(s.take(s.len() - 1) =~= prev);
            if s.len() >= 2 {
                assert(s.take(s.len() - 2) =~= prev.take(prev.len() - 1));
            }
        }
    }
}

/// The frame that a whole buffer of `page_size + FRAME_OVERHEAD` bytes lays
/// out, if `lagged` (the checksum of all but its last two bytes) matches
/// the checksum those two bytes carry.
fn decode_checked(buffer: &[u8], page_size: usize, lagged: u16) -> (r: Option<Frame>)
    requires
        page_size + FRAME_OVERHEAD <= usize::MAX,
        buffer@.len() == page_size + FRAME_OVERHEAD,
        lagged == crc_of(buffer@.take(buffer@.len() - 2)),
    ensures
        r is Some <==> frame_checks(buffer@, page_size as nat),
        r is Some ==> frame_of(r->0, buffer@, page_size as nat),
{
    let n = page_size + FRAME_OVERHEAD;
    let checksum: u16 = buffer[n - 2] as u16 + 256 * (buffer[n - 1] as u16);
    if checksum != lagged {
        return None;
    }
    let mut page: Vec<u8> = Vec::new();
    let mut k: usize = 0;
    while k < page_size
        invariant
            page_size + FRAME_OVERHEAD <= usize::MAX,
            buffer@.len() == page_size + FRAME_OVERHEAD,
            k <= page_size,
            page@ == buffer@.subrange(3, 3 + k),
        decreases page_size - k,
    {
        page.push(buffer[3 + k]);
        k = k + 1;
        proof {
            assert(page@ =~= buffer@.subrange(3, 3 + k));
        }
    }
    let page_address: u16 = buffer[1] as u16 + 256 * (buffer[2] as u16);
    Some(Frame { command: buffer[0], page_address, page, checksum })
}

/// Validates a whole frame's bytes (the wire image after the sentinel) the
/// way they are checked on arrival: the frame comes back exactly when its
/// last two bytes carry the CRC-16/XMODEM of the bytes before them.
pub fn check_frame(bytes: &[u8], page_size: usize) -> (r: Option<Frame>)
    ensures
        r is Some <==> frame_checks(bytes@, page_size as nat),
        r is Some ==> frame_of(r->0, bytes@, page_size as nat),
{
    if bytes.len() < FRAME_OVERHEAD || bytes.len() - FRAME_OVERHEAD != page_size {
        return None;
    }
    let mut lag = LaggedCrc::new();
    let mut i: usize = 0;
    proof {
        assert(bytes@.take(0) =~= Seq::<u8>::empty());
    }
    while i < bytes.len()
        invariant
            i <= bytes@.len(),
            lag.wf(),
            lag.seen@ == bytes@.take(i as int),
        decreases bytes.len() - i,
    {
        lag.push(bytes[i]);
        i = i + 1;
        proof {
            assert(lag.seen@ =~= bytes@.take(i as int));
        }
    }
    proof {
        assert(bytes@.take(i as int) =~= bytes@);
    }
    decode_checked(bytes, page_size, lag.crc2)
}

/// Pulls frames from a byte source and validates each one's checksum as its
/// bytes arrive, without reading ahead or going back.
pub struct FrameReceiver<B: ByteSource> {
    pub signal_receiver: B,
    pub page_size: usize,
    /// Frame-shaped buffer that the bytes land in, one at a time.
    pub buffer: Vec<u8>,
    /// The bytes taken from the source by the last `receive_frame`, after its sync.
    pub received: Ghost<Seq<u8>>,
}

impl<B: ByteSource> FrameReceiver<B> {
    /// Whether the frame buffer has room for exactly one frame.
    pub open spec fn wf(&self) -> bool {
        &&& self.page_size + FRAME_OVERHEAD <= usize::MAX
        &&& self.buffer@.len() == self.page_size + FRAME_OVERHEAD
    }

    /// A receiver for pages of `page_size` bytes.
    pub fn new(receiver: B, page_size: usize) -> (r: FrameReceiver<B>)
        requires
            page_size + FRAME_OVERHEAD <= usize::MAX,
        ensures
            r.wf(),
            r.page_size == page_size,
            r.signal_receiver == receiver,
            r.received@ == Seq::<u8>::empty(),
    {
        let n = page_size + FRAME_OVERHEAD;
        let mut buffer: Vec<u8> = Vec::new();
        while buffer.len() < n
            invariant
                buffer@.len() <= n,
            decreases n - buffer.len(),
        {
            buffer.push(0);
        }
        FrameReceiver { signal_receiver: receiver, page_size, buffer, received: Ghost(Seq::empty()) }
    }

    /// Synchronises once, then takes up to `page_size + FRAME_OVERHEAD`
    /// bytes from the source, one `get` each, folding each into a lagged
    /// CRC as it lands. The frame comes back when all of them arrived and
    /// the last two carry the checksum of the ones before; `None` when the
    /// source ran out or the checksum does not match.
    pub fn receive_frame(&mut self) -> (r: Option<Frame>)
        requires
            old(self).wf(),
        ensures
            final(self).wf(),
            final(self).page_size == old(self).page_size,
            match old(self).signal_receiver.synced() {
                None => final(self).received@ == Seq::<u8>::empty(),
                Some(s) => {
                    let n = (old(self).page_size + FRAME_OVERHEAD) as nat;
                    &&& final(self).received@ == pulled(s, n)
                    &&& final(self).received@.len() == n ==> final(self).signal_receiver
                        == pulled_source(s, n)
                },
            },
            r is Some <==> frame_checks(final(self).received@, old(self).page_size as nat),
            r is Some ==> frame_of(r->0, final(self).received@, old(self).page_size as nat),
    {
        self.received = Ghost(Seq::empty());
        if !self.signal_receiver.sync() {
            return None;
        }
        let ghost start = self.signal_receiver;
        let n = self.page_size + FRAME_OVERHEAD;
        let mut lag = LaggedCrc::new();
        let mut i: usize = 0;
        proof {
            assert(self.buffer@.take(0) =~= Seq::<u8>::empty());
            assert(Seq::<u8>::empty() + pulled(start, n as nat) =~= pulled(start, n as nat));
        }
        while i < n
            invariant
                self.wf(),
                self.page_size == old(self).page_size,
                n == self.page_size + FRAME_OVERHEAD,
                i <= n,
                old(self).signal_receiver.synced() == Some(start),
                self.received@ == self.buffer@.take(i as int),
                lag.wf(),
                lag.seen@ == self.received@,
                self.received@ + pulled(self.signal_receiver, (n - i) as nat) == pulled(
                    start,
                    n as nat,
                ),
                pulled_source(self.signal_receiver, (n - i) as nat) == pulled_source(
                    start,
                    n as nat,
                ),
            decreases n - i,
        {
            let ghost src = self.signal_receiver;
            let b = match self.signal_receiver.get() {
                Some(b) => b,
                None => {
                    proof {
                        assert(pulled(src, (n - i) as nat) =~= Seq::<u8>::empty());
                        assert(self.received@ + Seq::<u8>::empty() =~= self.received@);
                    }
                    return None;
                },
            };
            let ghost prev = self.buffer@;
            self.buffer.set(i, b);
            proof {
                assert(self.buffer@.take(i as int) =~= prev.take(i as int));
                assert(self.buffer@.take(i + 1) =~= prev.take(i as int).push(b));
                assert(pulled(src, (n - i) as nat) == seq![b] + pulled(
                    self.signal_receiver,
                    (n - i - 1) as nat,
                ));
                assert(prev.take(i as int).push(b) + pulled(self.signal_receiver, (n - i - 1) as nat)
                    =~= prev.take(i as int) + (seq![b] + pulled(self.signal_receiver, (n - i - 1) as nat)));
            }
            lag.push(b);
            i = i + 1;
            self.received = Ghost(self.buffer@.take(i as int));
        }
        proof {
            assert(self.buffer@.take(i as int) =~= self.buffer@);
            assert(self.received@ + Seq::<u8>::empty() =~= self.received@);
        }
        decode_checked(self.buffer.as_slice(), self.page_size, lag.crc2)
    }
}

} // verus!
