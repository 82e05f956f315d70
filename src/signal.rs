use vstd::prelude::*;

use crate::manchester::byte_bits;

verus! {

/// Number of comparator edges watched while calibrating.
pub const SYNC_EDGES: usize = 16;

/// Edges at the start of calibration whose timing is ignored.
pub const SETTLE_EDGES: usize = 8;

/// Index of the first sample at or after `p` whose level differs from
/// `level`; `s.len()` when there is none.
pub open spec fn next_change(s: Seq<bool>, p: int, level: bool) -> int
    decreases s.len() - p,
{
    if p >= s.len() {
        s.len() as int
    } else if s[p] != level {
        p
    } else {
        next_change(s, p + 1, level)
    }
}

/// The first edge after tick `p`: where the level first differs from `s[p]`.
pub open spec fn edge_after(s: Seq<bool>, p: int) -> int {
    next_change(s, p + 1, s[p])
}

/// One bit cell read from tick `p`: wait for the next edge, wait `delay`
/// ticks more, and report whether the level changed again in between,
/// together with the tick reached. `None` when the samples run out.
pub open spec fn read_bit(s: Seq<bool>, p: int, delay: nat) -> Option<(bool, int)> {
    if p < 0 || p >= s.len() {
        None
    } else {
        let e = edge_after(s, p);
        let t = e + delay;
        if t >= s.len() {
            None
        } else {
            Some((s[t] != s[e], t))
        }
    }
}

/// `n` bit cells read one after the other from tick `p`.
pub open spec fn read_bits(s: Seq<bool>, p: int, delay: nat, n: nat) -> Option<(Seq<bool>, int)>
    decreases n,
{
    if n == 0 {
        Some((Seq::empty(), p))
    } else {
        match read_bits(s, p, delay, (n - 1) as nat) {
            None => None,
            Some((bits, q)) => match read_bit(s, q, delay) {
                None => None,
                Some((b, t)) => Some((bits.push(b), t)),
            },
        }
    }
}

/// The number whose binary digits, most significant first, are `bits`.
pub open spec fn bits_value(bits: Seq<bool>) -> nat
    decreases bits.len(),
{
    if bits.len() == 0 {
        0
    } else {
        2 * bits_value(bits.drop_last()) + if bits.last() {
            1nat
        } else {
            0nat
        }
    }
}

/// The byte read from tick `p`, and the tick reached.
pub open spec fn read_byte(s: Seq<bool>, p: int, delay: nat) -> Option<(u8, int)> {
    match read_bits(s, p, delay, 8) {
        None => None,
        Some((bits, q)) => Some((bits_value(bits) as u8, q)),
    }
}

/// Tick of the `n`-th edge after tick `p` (the 0th is `p` itself).
pub open spec fn edge_pos(s: Seq<bool>, p: int, n: nat) -> Option<int>
    decreases n,
{
    if n == 0 {
        if 0 <= p < s.len() {
            Some(p)
        } else {
            None
        }
    } else {
        match edge_pos(s, p, (n - 1) as nat) {
            None => None,
            Some(q) => {
                let e = edge_after(s, q);
                if e < s.len() {
                    Some(e)
                } else {
                    None
                }
            },
        }
    }
}

/// Sum of the 8-bit timer readings between consecutive edges, over the
/// intervals from `SETTLE_EDGES` up to `k`.
pub open spec fn interval_sum(s: Seq<bool>, p: int, k: nat) -> int
    decreases k,
{
    if k <= SETTLE_EDGES {
        0
    } else {
        interval_sum(s, p, (k - 1) as nat) + (edge_pos(s, p, k).unwrap() - edge_pos(
            s,
            p,
            (k - 1) as nat,
        ).unwrap()) % 256
    }
}

/// Three quarters of the mean of the eight measured intervals.
pub open spec fn calibrated_delay(total: int) -> u8 {
    (total * 3 / 4 / 8) as u8
}

/// Tick just after the first one-bit read from `p` on; `None` when the
/// samples run out first.
pub open spec fn find_start(s: Seq<bool>, p: int, delay: nat) -> Option<int>
    decreases s.len() - p,
{
    match read_bit(s, p, delay) {
        None => None,
        Some((b, t)) => if b {
            Some(t)
        } else if t > p {
            find_start(s, t, delay)
        } else {
            None
        },
    }
}

/// What `sync` ends with when started at tick `p`: the delay it calibrated
/// and the tick at which the first byte starts.
pub open spec fn sync_result(s: Seq<bool>, p: int) -> Option<(u8, int)> {
    match edge_pos(s, p, SYNC_EDGES as nat) {
        None => None,
        Some(q) => {
            let d = calibrated_delay(interval_sum(s, p, SYNC_EDGES as nat));
            match find_start(s, q, d as nat) {
                None => None,
                Some(t) => Some((d, t)),
            }
        },
    }
}

proof fn lemma_next_change_bounds(s: Seq<bool>, p: int, level: bool)
    requires
        0 <= p,
    ensures
        p <= next_change(s, p, level) <= s.len() || p > s.len(),
        next_change(s, p, level) < s.len() ==> s[next_change(s, p, level)] != level,
    decreases s.len() - p,
{
    if p < s.len() && s[p] == level {
        lemma_next_change_bounds(s, p + 1, level);
    }
}

proof fn lemma_bits_value_bound(bits: Seq<bool>)
    ensures
        bits_value(bits) < pow2_nat(bits.len()),
    decreases bits.len(),
{
    if bits.len() > 0 {
        lemma_bits_value_bound(bits.drop_last());
    }
}

/// `2` to the power `n`.
pub open spec fn pow2_nat(n: nat) -> nat
    decreases n,
{
    if n == 0 {
        1
    } else {
        2 * pow2_nat((n - 1) as nat)
    }
}

/// Recovers bits from the timing of comparator edges. The comparator is
/// seen through `samples`: its level at each tick of the timer, `pos` being
/// the current tick.
pub struct SignalReceiver {
    pub samples: Vec<bool>,
    pub pos: usize,
    pub delay_time: u8,
}

/// Where the bytes of a frame come from.
pub trait ByteSource: Sized {
    /// The source once it has calibrated and found the start of the data;
    /// `None` when the input ends first.
    spec fn synced(&self) -> Option<Self>;

    /// The next byte and the source after it; `None` when the input ends first.
    spec fn next(&self) -> Option<(u8, Self)>;

    /// Calibrates on the preamble and waits for the start of the data;
    /// `false` when the input ends first.
    fn sync(&mut self) -> (r: bool)
        ensures
            match old(self).synced() {
                None => !r,
                Some(s) => r && *final(self) == s,
            },
    ;

    /// The next byte, or `None` when the input ends first.
    fn get(&mut self) -> (r: Option<u8>)
        ensures
            match old(self).next() {
                None => r is None,
                Some((b, s)) => r == Some(b) && *final(self) == s,
            },
    ;
}

impl SignalReceiver {
    /// A receiver at the first sample, not yet calibrated.
    pub fn new(samples: Vec<bool>) -> (r: SignalReceiver)
        ensures
            r.samples@ == samples@,
            r.pos == 0,
            r.delay_time == 0,
    {
        SignalReceiver { samples, pos: 0, delay_time: 0 }
    }

    /// Current comparator level.
    fn ac_value(&self) -> (r: bool)
        requires
            self.pos < self.samples@.len(),
        ensures
            r == self.samples@[self.pos as int],
    {
        self.samples[self.pos]
    }

    /// Busy-waits until the level differs from `ac_state`; `false` when the
    /// samples run out first.
    fn wait_for_edge(&mut self, ac_state: bool) -> (r: bool)
        requires
            old(self).pos <= old(self).samples@.len(),
        ensures
            final(self).samples == old(self).samples,
            final(self).delay_time == old(self).delay_time,
            final(self).pos == next_change(old(self).samples@, old(self).pos as int, ac_state),
            final(self).pos <= final(self).samples@.len(),
            r == (final(self).pos < final(self).samples@.len()),
    {
        proof {
            lemma_next_change_bounds(self.samples@, self.pos as int, ac_state);
        }
        while self.pos < self.samples.len() && self.samples[self.pos] == ac_state
            invariant
                self.samples == old(self).samples,
                self.delay_time == old(self).delay_time,
                old(self).pos <= self.pos <= self.samples@.len(),
                next_change(self.samples@, self.pos as int, ac_state) == next_change(
                    old(self).samples@,
                    old(self).pos as int,
                    ac_state,
                ),
            decreases self.samples.len() - self.pos,
        {
            self.pos = self.pos + 1;
        }
        self.pos < self.samples.len()
    }

    /// Lets `delay_time` ticks pass; `false` when the samples run out first.
    fn wait_for_time(&mut self) -> (r: bool)
        requires
            old(self).pos <= old(self).samples@.len(),
        ensures
            final(self).samples == old(self).samples,
            final(self).delay_time == old(self).delay_time,
            final(self).pos <= final(self).samples@.len(),
            r == (old(self).pos + old(self).delay_time < old(self).samples@.len()),
            r ==> final(self).pos == old(self).pos + old(self).delay_time,
    {
        if self.samples.len() - self.pos <= self.delay_time as usize {
            self.pos = self.samples.len();
            false
        } else {
            self.pos = self.pos + self.delay_time as usize;
            true
        }
    }

    /// Reads one bit cell, as `read_bit` describes.
    fn read_cell(&mut self) -> (r: Option<bool>)
        requires
            old(self).pos <= old(self).samples@.len(),
        ensures
            final(self).samples == old(self).samples,
            final(self).delay_time == old(self).delay_time,
            final(self).pos <= final(self).samples@.len(),
            match read_bit(
                old(self).samples@,
                old(self).pos as int,
                old(self).delay_time as nat,
            ) {
                None => r is None,
                Some((b, t)) => r == Some(b) && final(self).pos == t,
            },
    {
        if self.pos >= self.samples.len() {
            return None;
        }
        let level = self.ac_value();
        self.pos = self.pos + 1;
        if !self.wait_for_edge(level) {
            return None;
        }
        let edge_level = self.ac_value();
        if !self.wait_for_time() {
            return None;
        }
        let now = self.ac_value();
        Some(now != edge_level)
    }

    /// Reads one byte, most significant bit first, as `read_byte` describes.
    pub fn get(&mut self) -> (r: Option<u8>)
        ensures
            final(self).samples == old(self).samples,
            final(self).delay_time == old(self).delay_time,
            final(self).pos <= final(self).samples@.len(),
            match read_byte(old(self).samples@, old(self).pos as int, old(self).delay_time as nat) {
                None => r is None,
                Some((b, t)) => r == Some(b) && final(self).pos == t,
            },
    {
        let ghost s = self.samples@;
        let ghost d = self.delay_time as nat;
        let ghost p0 = self.pos as int;
        if self.pos > self.samples.len() {
            self.pos = self.samples.len();
            proof {
                assert(read_bits(s, p0, d, 0) == Some((Seq::<bool>::empty(), p0)));
                assert(read_bit(s, p0, d) is None);
                assert(read_bits(s, p0, d, 1) is None);
                lemma_read_bits_none_after(s, p0, d, 1, 8);
            }
            return None;
        }
        let ghost mut bits: Seq<bool> = Seq::empty();
        let mut b: u8 = 0;
        let mut j: u8 = 0;
        while j < 8
            invariant
                j <= 8,
                self.samples == old(self).samples,
                self.samples@ == s,
                s == old(self).samples@,
                p0 == old(self).pos as int,
                self.delay_time == old(self).delay_time,
                self.delay_time == d,
                self.pos <= s.len(),
                read_bits(s, p0, d, j as nat) == Some((bits, self.pos as int)),
                bits.len() == j,
                b as nat == bits_value(bits),
            decreases 8 - j,
        {
            match self.read_cell() {
                None => {
                    proof {
                        assert(read_bits(s, p0, d, (j + 1) as nat) is None);
                        lemma_read_bits_none_after(s, p0, d, (j + 1) as nat, 8);
                        assert(read_byte(s, p0, d) is None);
                    }
                    return None;
                },
                Some(bit) => {
                    proof {
                        lemma_bits_value_bound(bits);
                        assert(pow2_nat(j as nat) <= 128) by {
                            lemma_pow2_le_128(j as nat);
                        }
                        let ghost prev = bits;
                        bits = prev.push(bit);
                        assert(bits.drop_last() =~= prev);
                        assert(bits_value(bits) == 2 * bits_value(prev) + if bit {
                            1nat
                        } else {
                            0nat
                        });
                    }
                    b = b * 2 + if bit {
                        1u8
                    } else {
                        0u8
                    };
                    j = j + 1;
                },
            }
        }
        Some(b)
    }

    /// Calibrates the bit timing on the preamble and waits for the start
    /// bit, as `sync_result` describes; `false` when the samples run out first.
    pub fn sync(&mut self) -> (r: bool)
        ensures
            final(self).samples == old(self).samples,
            final(self).pos <= final(self).samples@.len(),
            match sync_result(old(self).samples@, old(self).pos as int) {
                None => !r,
                Some((d, t)) => r && final(self).delay_time == d && final(self).pos == t,
            },
    {
        let ghost s = self.samples@;
        let ghost p0 = self.pos as int;
        if self.pos >= self.samples.len() {
            self.pos = self.samples.len();
            proof {
                lemma_edge_pos_none_after(s, p0, 0, SYNC_EDGES as nat);
            }
            return false;
        }
        let n = self.samples.len();
        let mut total_time: u16 = 0;
        let mut ac_state: bool = self.ac_value();
        let mut i: usize = 0;
        while i < SYNC_EDGES
            invariant
                i <= SYNC_EDGES,
                self.samples == old(self).samples,
                self.samples@ == s,
                s == old(self).samples@,
                p0 == old(self).pos as int,
                n == s.len(),
                self.pos < self.samples@.len(),
                edge_pos(s, p0, i as nat) == Some(self.pos as int),
                ac_state == s[self.pos as int],
                total_time as int == interval_sum(s, p0, i as nat),
                total_time <= 255 * (if i > SETTLE_EDGES { i - SETTLE_EDGES } else { 0 }),
            decreases SYNC_EDGES - i,
        {
            let start = self.pos;
            self.pos = self.pos + 1;
            if !self.wait_for_edge(ac_state) {
                proof {
                    assert(edge_pos(s, p0, (i + 1) as nat) is None);
                    lemma_edge_pos_none_after(s, p0, (i + 1) as nat, SYNC_EDGES as nat);
                    assert(sync_result(s, p0) is None);
                }
                return false;
            }
            proof {
                lemma_next_change_bounds(s, start + 1, ac_state);
            }
            ac_state = !ac_state;
            if i >= SETTLE_EDGES {
                total_time = total_time + ((self.pos - start) % 256) as u16;
            }
            i = i + 1;
        }
        self.delay_time = (total_time * 3 / 4 / 8) as u8;
        let ghost q = self.pos as int;
        proof {
            assert(self.delay_time == calibrated_delay(interval_sum(s, p0, SYNC_EDGES as nat)));
        }
        loop
            invariant
                self.samples == old(self).samples,
                self.samples@ == s,
                s == old(self).samples@,
                p0 == old(self).pos as int,
                self.pos < self.samples@.len(),
                edge_pos(s, p0, SYNC_EDGES as nat) == Some(q),
                self.delay_time == calibrated_delay(interval_sum(s, p0, SYNC_EDGES as nat)),
                find_start(s, self.pos as int, self.delay_time as nat) == find_start(
                    s,
                    q,
                    self.delay_time as nat,
                ),
            decreases s.len() - self.pos,
        {
            let ghost p = self.pos as int;
            match self.read_cell() {
                None => {
                    proof {
                        assert(find_start(s, p, self.delay_time as nat) is None);
                        assert(sync_result(s, p0) is None);
                    }
                    return false;
                },
                Some(bit) => {
                    if bit {
                        proof {
                            assert(find_start(s, p, self.delay_time as nat) == Some(self.pos as int));
                            assert(sync_result(s, p0) == Some((self.delay_time, self.pos as int)));
                        }
                        return true;
                    }
                    proof {
                        lemma_next_change_bounds(s, p + 1, s[p]);
                        assert(find_start(s, p, self.delay_time as nat) == find_start(
                            s,
                            self.pos as int,
                            self.delay_time as nat,
                        ));
                    }
                    if self.pos >= self.samples.len() {
                        proof {
                            assert(find_start(s, self.pos as int, self.delay_time as nat) is None);
                            assert(sync_result(s, p0) is None);
                        }
                        return false;
                    }
                },
            }
        }
    }
}

proof fn lemma_pow2_le_128(n: nat)
    requires
        n < 8,
    ensures
        pow2_nat(n) <= 128,
{
    reveal_with_fuel(pow2_nat, 8);
}

proof fn lemma_read_bits_none_after(s: Seq<bool>, p: int, d: nat, k: nat, n: nat)
    requires
        k <= n,
        read_bits(s, p, d, k) is None,
    ensures
        read_bits(s, p, d, n) is None,
    decreases n - k,
{
    if k < n {
        lemma_read_bits_none_after(s, p, d, k + 1, n);
    }
}

proof fn lemma_edge_pos_none_after(s: Seq<bool>, p: int, k: nat, n: nat)
    requires
        k <= n,
        edge_pos(s, p, k) is None,
    ensures
        edge_pos(s, p, n) is None,
    decreases n - k,
{
    if k < n {
        lemma_edge_pos_none_after(s, p, k + 1, n);
    }
}

/// Comparator level at tick `t` while `bits` are sent in the line code:
/// `level` before the first cell, which starts at `start`; each cell lasts
/// `period` ticks, the level changes at every cell start, and changes again
/// half a period later when the cell carries a one.
pub open spec fn coded_level(level: bool, bits: Seq<bool>, start: int, period: int, t: int) -> bool
    decreases bits.len(),
{
    if t < start || bits.len() == 0 {
        level
    } else {
        let first = !level;
        let last = if bits[0] {
            !first
        } else {
            first
        };
        if t < start + period {
            if bits[0] && t >= start + period / 2 {
                !first
            } else {
                first
            }
        } else {
            coded_level(last, bits.drop_first(), start + period, period, t)
        }
    }
}

proof fn lemma_next_change_at(s: Seq<bool>, i: int, level: bool, e: int)
    requires
        0 <= i <= e < s.len(),
        s[e] != level,
        forall|t: int| i <= t < e ==> s[t] == level,
    ensures
        next_change(s, i, level) == e,
    decreases e - i,
{
    if i < e {
        lemma_next_change_at(s, i + 1, level, e);
    }
}

proof fn lemma_read_bits_cons(s: Seq<bool>, p: int, d: nat, n: nat)
    requires
        n >= 1,
    ensures
        read_bits(s, p, d, n) == match read_bit(s, p, d) {
            None => None,
            Some((b, q)) => match read_bits(s, q, d, (n - 1) as nat) {
                None => None,
                Some((bs, r)) => Some((seq![b] + bs, r)),
            },
        },
    decreases n,
{
    if n == 1 {
        match read_bit(s, p, d) {
            None => {},
            Some((b, q)) => {
                assert(Seq::<bool>::empty().push(b) =~= seq![b] + Seq::<bool>::empty());
            },
        }
    } else {
        lemma_read_bits_cons(s, p, d, (n - 1) as nat);
        match read_bit(s, p, d) {
            None => {},
            Some((b, q)) => {
                match read_bits(s, q, d, (n - 2) as nat) {
                    None => {},
                    Some((bs, r)) => {
                        match read_bit(s, r, d) {
                            None => {},
                            Some((c, u)) => {
                                assert((seq![b] + bs).push(c) =~= seq![b] + bs.push(c));
                            },
                        }
                    },
                }
            },
        }
    }
}

/// Bits sent in the line code, read from any tick before the first cell
/// with a delay between half a period and a period, come back as sent.
pub proof fn lemma_read_bits_line_code(
    s: Seq<bool>,
    p: int,
    delay: nat,
    level: bool,
    bits: Seq<bool>,
    start: int,
    period: int,
)
    requires
        bits.len() >= 1,
        0 <= p < start,
        1 <= period / 2 < delay < period,
        start + (bits.len() - 1) * period + delay < s.len(),
        forall|t: int|
            p <= t <= start + (bits.len() - 1) * period + delay ==> s[t] == coded_level(
                level,
                bits,
                start,
                period,
                t,
            ),
    ensures
        read_bits(s, p, delay, bits.len()) == Some(
            (bits, start + (bits.len() - 1) * period + delay),
        ),
    decreases bits.len(),
{
    let n = bits.len();
    let end = start + (n - 1) * period + delay;
    assert((n - 1) * period >= 0) by (nonlinear_arith)
        requires
            n >= 1,
            period >= 0,
    ;
    let first = !level;
    let last = if bits[0] {
        !first
    } else {
        first
    };
    assert forall|t: int| p + 1 <= t < start implies s[t] == level by {
        assert(s[t] == coded_level(level, bits, start, period, t));
    }
    assert(s[p] == coded_level(level, bits, start, period, p));
    assert(s[start] == coded_level(level, bits, start, period, start));
    lemma_next_change_at(s, p + 1, level, start);
    let q = start + delay;
    assert(s[q] == coded_level(level, bits, start, period, q));
    assert(read_bit(s, p, delay) == Some((bits[0], q)));
    lemma_read_bits_cons(s, p, delay, n);
    if n == 1 {
        assert(seq![bits[0]] + Seq::<bool>::empty() =~= bits);
    } else {
        let rest = bits.drop_first();
        assert(start + period + (rest.len() - 1) * period == start + (n - 1) * period) by (
        nonlinear_arith)
            requires
                rest.len() == n - 1,
        ;
        assert forall|t: int|
            q <= t <= (start + period) + (rest.len() - 1) * period + delay implies s[t]
            == coded_level(last, rest, start + period, period, t) by {
            assert(s[t] == coded_level(level, bits, start, period, t));
        }
        lemma_read_bits_line_code(s, q, delay, last, rest, start + period, period);
        assert(seq![bits[0]] + rest =~= bits);
    }
}

/// The eight bits of a byte, read most significant first, make the byte again.
proof fn lemma_bits_value_of_byte(b: u8)
    ensures
        bits_value(byte_bits(b)) == b,
{
    let bits = byte_bits(b);
    reveal_with_fuel(bits_value, 9);
    assert(bits.drop_last() =~= bits.take(7));
    assert(bits.take(7).drop_last() =~= bits.take(6));
    assert(bits.take(6).drop_last() =~= bits.take(5));
    assert(bits.take(5).drop_last() =~= bits.take(4));
    assert(bits.take(4).drop_last() =~= bits.take(3));
    assert(bits.take(3).drop_last() =~= bits.take(2));
    assert(bits.take(2).drop_last() =~= bits.take(1));
    assert(bits.take(1).drop_last() =~= bits.take(0));
    assert(bits.take(0).len() == 0);
    assert(b == ((b >> 7u8) & 1u8) * 128 + ((b >> 6u8) & 1u8) * 64 + ((b >> 5u8) & 1u8) * 32 + ((b
        >> 4u8) & 1u8) * 16 + ((b >> 3u8) & 1u8) * 8 + ((b >> 2u8) & 1u8) * 4 + ((b >> 1u8) & 1u8)
        * 2 + ((b >> 0u8) & 1u8)) by (bit_vector);
    assert forall|k: u8| k < 8 implies (b >> k) & 1u8 == 1u8 || (b >> k) & 1u8 == 0u8 by {
        assert(k < 8 ==> (b >> k) & 1u8 == 1u8 || (b >> k) & 1u8 == 0u8) by (bit_vector);
    }
}

/// A byte sent in the line code after the receiver's current tick, with a
/// calibrated delay between half a cell period and a whole one, is what
/// `get` returns: its bits, most significant first, are read back as sent.
pub proof fn lemma_get_decodes_line_code(
    s: Seq<bool>,
    p: int,
    delay: nat,
    level: bool,
    b: u8,
    start: int,
    period: int,
)
    requires
        0 <= p < start,
        1 <= period / 2 < delay < period,
        start + 7 * period + delay < s.len(),
        forall|t: int|
            p <= t <= start + 7 * period + delay ==> s[t] == coded_level(
                level,
                byte_bits(b),
                start,
                period,
                t,
            ),
    ensures
        read_byte(s, p, delay) == Some((b, start + 7 * period + delay)),
{
    lemma_read_bits_line_code(s, p, delay, level, byte_bits(b), start, period);
    lemma_bits_value_of_byte(b);
}

impl ByteSource for SignalReceiver {
    open spec fn synced(&self) -> Option<SignalReceiver> {
        match sync_result(self.samples@, self.pos as int) {
            None => None,
            Some((d, t)) => Some(
                SignalReceiver { samples: self.samples, pos: t as usize, delay_time: d },
            ),
        }
    }

    open spec fn next(&self) -> Option<(u8, SignalReceiver)> {
        match read_byte(self.samples@, self.pos as int, self.delay_time as nat) {
            None => None,
            Some((b, t)) => Some(
                (b, SignalReceiver { samples: self.samples, pos: t as usize, delay_time: self.delay_time }),
            ),
        }
    }

    fn sync(&mut self) -> (r: bool) {
        SignalReceiver::sync(self)
    }

    fn get(&mut self) -> (r: Option<u8>) {
        SignalReceiver::get(self)
    }
}

} // verus!
