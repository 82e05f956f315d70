use vstd::prelude::*;

use crate::frame::{wire_bytes, Frame};

verus! {

/// Idle level of the waveform: the midpoint of 8-bit unsigned audio.
pub const IDLE_LEVEL: u8 = 0x7f;

/// Number of idle samples sent before every frame.
pub const PREAMBLE_LEN: usize = 500;

/// The four-sample burst of a data bit, chosen by the running polarity and
/// the bit: a one crosses the midpoint mid-cell and keeps the polarity, a
/// zero stays on one side and flips the polarity at the cell boundary.
pub open spec fn segment(positive: bool, bit: bool) -> Seq<u8> {
    if positive {
        if bit {
            seq![0x7fu8, 0xffu8, 0x7fu8, 0x00u8]
        } else {
            seq![0x7fu8, 0xd9u8, 0xffu8, 0xd9u8]
        }
    } else {
        if bit {
            seq![0x7fu8, 0x00u8, 0x7fu8, 0xffu8]
        } else {
            seq![0x7fu8, 0x25u8, 0x00u8, 0x25u8]
        }
    }
}

/// Polarity after a bit: a zero flips it, a one keeps it.
pub open spec fn next_polarity(positive: bool, bit: bool) -> bool {
    if bit {
        positive
    } else {
        !positive
    }
}

/// Bit `j` of `b`, counting from the most significant bit (`j == 0`).
pub open spec fn bit_of(b: u8, j: int) -> bool {
    (b >> ((7 - j) as u8)) & 1u8 == 1u8
}

/// The eight bits of a byte, most significant first.
pub open spec fn byte_bits(b: u8) -> Seq<bool> {
    Seq::new(8, |j: int| bit_of(b, j))
}

/// The bits of a byte sequence, byte by byte, each most significant first.
pub open spec fn bytes_bits(bytes: Seq<u8>) -> Seq<bool>
    decreases bytes.len(),
{
    if bytes.len() == 0 {
        Seq::empty()
    } else {
        bytes_bits(bytes.drop_last()) + byte_bits(bytes.last())
    }
}

/// Polarity after sending `bits` from polarity `positive`.
pub open spec fn polarity_after(positive: bool, bits: Seq<bool>) -> bool
    decreases bits.len(),
{
    if bits.len() == 0 {
        positive
    } else {
        next_polarity(polarity_after(positive, bits.drop_last()), bits.last())
    }
}

/// The samples that carry `bits` when sending starts at polarity `positive`.
pub open spec fn bits_wave(positive: bool, bits: Seq<bool>) -> Seq<u8>
    decreases bits.len(),
{
    if bits.len() == 0 {
        Seq::empty()
    } else {
        bits_wave(positive, bits.drop_last()) + segment(
            polarity_after(positive, bits.drop_last()),
            bits.last(),
        )
    }
}

/// The end-of-frame marker sent once the polarity has been flipped to `positive`.
pub open spec fn stop_wave(positive: bool) -> Seq<u8> {
    if positive {
        seq![0x7fu8, 0x00u8]
    } else {
        seq![0x7fu8, 0xffu8]
    }
}

/// `PREAMBLE_LEN` samples at the idle level.
pub open spec fn preamble() -> Seq<u8> {
    Seq::new(PREAMBLE_LEN as nat, |_i: int| IDLE_LEVEL)
}

/// Sending two bit sequences one after the other is sending their concatenation.
pub proof fn lemma_wave_concat(positive: bool, x: Seq<bool>, y: Seq<bool>)
    ensures
        bits_wave(positive, x + y) == bits_wave(positive, x) + bits_wave(
            polarity_after(positive, x),
            y,
        ),
        polarity_after(positive, x + y) == polarity_after(polarity_after(positive, x), y),
    decreases y.len(),
{
    if y.len() == 0 {
        assert(x + y =~= x);
        assert(bits_wave(positive, x) + bits_wave(polarity_after(positive, x), y) =~= bits_wave(
            positive,
            x,
        ));
    } else {
        lemma_wave_concat(positive, x, y.drop_last());
        assert((x + y).drop_last() =~= x + y.drop_last());
        assert((x + y).last() == y.last());
        assert(bits_wave(positive, x + y) =~= bits_wave(positive, x) + bits_wave(
            polarity_after(positive, x),
            y,
        ));
    }
}

/// Two end markers in a row start at the idle level and then swing to
/// bitwise-complementary extremes.
pub proof fn lemma_stop_twice_complementary(positive: bool)
    ensures
        stop_wave(!positive).len() == 2,
        stop_wave(positive).len() == 2,
        stop_wave(!positive)[0] == IDLE_LEVEL,
        stop_wave(positive)[0] == IDLE_LEVEL,
        stop_wave(!positive)[1] == !stop_wave(positive)[1],
{
    assert(!0x00u8 == 0xffu8) by (bit_vector);
    assert(!0xffu8 == 0x00u8) by (bit_vector);
}

/// Host-side differential Manchester encoder. The polarity carries over from
/// byte to byte and from frame to frame.
#[derive(Default)]
pub struct ManchesterEncoder {
    pub state: bool,
}

impl ManchesterEncoder {
    /// An encoder at the initial, low polarity.
    pub fn new() -> (r: ManchesterEncoder)
        ensures
            r.state == false,
    {
        ManchesterEncoder { state: false }
    }

    /// The 32 samples of one byte, most significant bit first.
    pub fn encode(&mut self, byte: u8) -> (r: Vec<u8>)
        ensures
            r@ == bits_wave(old(self).state, byte_bits(byte)),
            final(self).state == polarity_after(old(self).state, byte_bits(byte)),
    {
        let mut v: Vec<u8> = Vec::new();
        let ghost bits = byte_bits(byte);
        let mut j: u8 = 0;
        while j < 8
            invariant
                j <= 8,
                bits == byte_bits(byte),
                v@ == bits_wave(old(self).state, bits.take(j as int)),
                self.state == polarity_after(old(self).state, bits.take(j as int)),
            decreases 8 - j,
        {
            let bit_value: bool = (byte >> (7 - j)) & 1 == 1;
            proof {
                assert(bits.take(j + 1).drop_last() =~= bits.take(j as int));
                assert(bits.take(j + 1).last() == bit_value);
            }
            if self.state {
                if bit_value {
                    v.push(0x7f);
                    v.push(0xff);
                    v.push(0x7f);
                    v.push(0x00);
                } else {
                    v.push(0x7f);
                    v.push(0xd9);
                    v.push(0xff);
                    v.push(0xd9);
                }
            } else {
                if bit_value {
                    v.push(0x7f);
                    v.push(0x00);
                    v.push(0x7f);
                    v.push(0xff);
                } else {
                    v.push(0x7f);
                    v.push(0x25);
                    v.push(0x00);
                    v.push(0x25);
                }
            }
            if !bit_value {
                self.state = !self.state;
            }
            j = j + 1;
            proof {
                assert(v@ =~= bits_wave(old(self).state, bits.take(j as int)));
            }
        }
        proof {
            assert(bits.take(8) =~= bits);
        }
        v
    }

    /// The waveform of one frame: the idle preamble, every byte of the
    /// frame's wire image, and the end marker.
    pub fn encode_frame(&mut self, frame: Frame) -> (r: Vec<u8>)
        ensures
            ({
                let bits = bytes_bits(wire_bytes(frame.command, frame.offset, frame.page@));
                let after = polarity_after(old(self).state, bits);
                &&& r@ == preamble() + bits_wave(old(self).state, bits) + stop_wave(!after)
                &&& final(self).state == !after
            }),
    {
        let bytes = frame.to_bytes();
        let ghost start = self.state;
        let mut v: Vec<u8> = Vec::new();
        while v.len() < PREAMBLE_LEN
            invariant
                v@.len() <= PREAMBLE_LEN,
                v@ == Seq::new(v@.len(), |_i: int| IDLE_LEVEL),
            decreases PREAMBLE_LEN - v.len(),
        {
            v.push(IDLE_LEVEL);
            proof {
                assert(v@ =~= Seq::new(v@.len(), |_i: int| IDLE_LEVEL));
            }
        }
        proof {
            assert(v@ =~= preamble() + bits_wave(start, bytes_bits(bytes@.take(0))));
            assert(bytes@.take(0) =~= Seq::<u8>::empty());
        }
        let mut i: usize = 0;
        while i < bytes.len()
            invariant
                i <= bytes@.len(),
                v@ == preamble() + bits_wave(start, bytes_bits(bytes@.take(i as int))),
                self.state == polarity_after(start, bytes_bits(bytes@.take(i as int))),
            decreases bytes.len() - i,
        {
            let ghost prefix = bytes_bits(bytes@.take(i as int));
            let w = self.encode(bytes[i]);
            proof {
                assert(bytes@.take(i + 1).drop_last() =~= bytes@.take(i as int));
                assert(bytes_bits(bytes@.take(i + 1)) == prefix + byte_bits(bytes@[i as int]));
                lemma_wave_concat(start, prefix, byte_bits(bytes@[i as int]));
            }
            let mut k: usize = 0;
            let ghost before = v@;
            while k < w.len()
                invariant
                    k <= w@.len(),
                    v@ == before + w@.take(k as int),
                decreases w.len() - k,
            {
                v.push(w[k]);
                k = k + 1;
                proof {
                    assert(v@ =~= before + w@.take(k as int));
                }
            }
            proof {
                assert(w@.take(k as int) =~= w@);
                assert(v@ =~= preamble() + bits_wave(start, bytes_bits(bytes@.take(i + 1))));
            }
            i = i + 1;
        }
        proof {
            assert(bytes@.take(i as int) =~= bytes@);
        }
        let tail = self.stop();
        v.push(tail[0]);
        v.push(tail[1]);
        proof {
            assert(v@ =~= preamble() + bits_wave(start, bytes_bits(bytes@)) + stop_wave(self.state));
        }
        v
    }

    /// Flips the polarity and returns the two-sample end marker.
    pub fn stop(&mut self) -> (r: Vec<u8>)
        ensures
            final(self).state == !old(self).state,
            r@ == stop_wave(final(self).state),
    {
        self.state = !self.state;
        let mut v: Vec<u8> = Vec::new();
        v.push(0x7f);
        if self.state {
            v.push(0x00);
        } else {
            v.push(0xff);
        }
        proof {
            assert(v@ =~= stop_wave(self.state));
        }
        v
    }
}

} // verus!
