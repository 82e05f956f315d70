use vstd::prelude::*;

use crate::receiver::Frame;

verus! {

/// Value of an erased flash word.
pub const ERASED_WORD: u16 = 0xffff;

/// What the self-programming interface holds: flash as 16-bit words (word
/// `i` at byte address `2 * i`), the temporary page buffer, and whether the
/// read-while-write section is readable.
pub ghost struct FlashModel {
    pub flash: Seq<u16>,
    pub buffer: Seq<u16>,
    pub rww_enabled: bool,
}

/// Index of the first word of the page that starts at byte `address`.
pub open spec fn page_start(address: u16) -> int {
    address as int / 2
}

/// `flash` with the `words.len()` words from word `start` on replaced by `words`.
pub open spec fn with_page(flash: Seq<u16>, start: int, words: Seq<u16>) -> Seq<u16> {
    Seq::new(
        flash.len(),
        |i: int|
            if start <= i < start + words.len() {
                words[i - start]
            } else {
                flash[i]
            },
    )
}

/// State after erasing the page at `address`: its words read as erased,
/// the read-while-write section is not readable.
pub open spec fn after_erase(m: FlashModel, address: u16, page_words: nat) -> FlashModel {
    FlashModel {
        flash: with_page(
            m.flash,
            page_start(address),
            Seq::new(page_words, |_i: int| ERASED_WORD),
        ),
        buffer: m.buffer,
        rww_enabled: false,
    }
}

/// State after loading `data` into the temporary buffer slot of `address`.
pub open spec fn after_fill(m: FlashModel, address: u16, data: u16, page_words: nat) -> FlashModel {
    FlashModel {
        flash: m.flash,
        buffer: m.buffer.update((address / 2) as int % (page_words as int), data),
        rww_enabled: m.rww_enabled,
    }
}

/// State after writing the temporary buffer into the page at `address`:
/// the buffer is cleared and the read-while-write section is not readable.
pub open spec fn after_write(m: FlashModel, address: u16, page_words: nat) -> FlashModel {
    FlashModel {
        flash: with_page(m.flash, page_start(address), m.buffer),
        buffer: Seq::new(page_words, |_i: int| ERASED_WORD),
        rww_enabled: false,
    }
}

/// State after re-enabling reads of the read-while-write section.
pub open spec fn after_rww_enable(m: FlashModel) -> FlashModel {
    FlashModel { rww_enabled: true, ..m }
}

/// State after loading `words` into consecutive buffer slots, starting
/// with the slot of byte `address`.
pub open spec fn after_fills(m: FlashModel, address: u16, words: Seq<u16>, page_words: nat) -> FlashModel
    decreases words.len(),
{
    if words.len() == 0 {
        m
    } else {
        after_fill(
            after_fills(m, address, words.drop_last(), page_words),
            (address + 2 * (words.len() - 1)) as u16,
            words.last(),
            page_words,
        )
    }
}

/// The 16-bit little-endian words of a byte sequence of even length.
pub open spec fn words_of(bytes: Seq<u8>) -> Seq<u16> {
    Seq::new(bytes.len() / 2, |i: int| (bytes[2 * i] + 256 * bytes[2 * i + 1]) as u16)
}

/// Whether byte `address` starts a page that lies wholly inside `flash_words` words.
pub open spec fn page_fits(address: u16, page_words: nat, flash_words: nat) -> bool {
    &&& page_words > 0
    &&& address as int % (2 * page_words as int) == 0
    &&& page_start(address) + page_words <= flash_words
}

/// The byte at byte address `addr` of word-organised flash, little-endian.
pub open spec fn flash_byte(flash: Seq<u16>, addr: int) -> u8 {
    if addr % 2 == 0 {
        (flash[addr / 2] % 256) as u8
    } else {
        (flash[addr / 2] / 256) as u8
    }
}

/// Committing a page as erase, a fill of every word in ascending address
/// order, write, and read-while-write enable leaves exactly the filled words
/// in that page, every other word of flash as it was, and the
/// read-while-write section readable.
pub proof fn lemma_page_commit(m: FlashModel, address: u16, words: Seq<u16>)
    requires
        page_fits(address, words.len(), m.flash.len()),
        m.flash.len() <= 0x8000,
        m.buffer.len() == words.len(),
    ensures
        ({
            let n = words.len();
            let done = after_rww_enable(
                after_write(after_fills(after_erase(m, address, n), address, words, n), address, n),
            );
            &&& done.flash =~= with_page(m.flash, page_start(address), words)
            &&& forall|i: int|
                0 <= i < m.flash.len() && !(page_start(address) <= i < page_start(address) + n)
                    ==> done.flash[i] == m.flash[i]
            &&& forall|i: int| 0 <= i < n ==> done.flash[page_start(address) + i] == words[i]
            &&& forall|i: int|
                0 <= i < n ==> {
                    &&& #[trigger] flash_byte(done.flash, address + 2 * i) == (words[i] % 256) as u8
                    &&& flash_byte(done.flash, address + 2 * i + 1) == (words[i] / 256) as u8
                }
            &&& forall|a: int|
                0 <= a < 2 * m.flash.len() && !(address <= a < address + 2 * n) ==> #[trigger] flash_byte(
                    done.flash,
                    a,
                ) == flash_byte(m.flash, a)
            &&& done.rww_enabled
        }),
{
    let n = words.len();
    lemma_fills_load(after_erase(m, address, n), address, words, n);
    let erased = after_erase(m, address, n);
    let filled = after_fills(erased, address, words, n);
    assert(filled.buffer =~= words);
    let done = after_rww_enable(after_write(filled, address, n));
    assert(done.flash =~= with_page(m.flash, page_start(address), words));
    assert(address as int % 2 == 0) by {
        lemma_even_when_aligned(address as int, n as int);
    }
    assert forall|i: int| 0 <= i < n implies {
        &&& #[trigger] flash_byte(done.flash, address + 2 * i) == (words[i] % 256) as u8
        &&& flash_byte(done.flash, address + 2 * i + 1) == (words[i] / 256) as u8
    } by {
        assert((address + 2 * i) / 2 == page_start(address) + i);
        assert((address + 2 * i + 1) / 2 == page_start(address) + i);
    }
    assert forall|a: int|
        0 <= a < 2 * m.flash.len() && !(address <= a < address + 2 * n) implies #[trigger] flash_byte(
        done.flash,
        a,
    ) == flash_byte(m.flash, a) by {
        assert(!(page_start(address) <= a / 2 < page_start(address) + n));
    }
}

proof fn lemma_even_when_aligned(a: int, n: int)
    requires
        n > 0,
        a >= 0,
        a % (2 * n) == 0,
    ensures
        a % 2 == 0,
{
    let q = a / (2 * n);
    vstd::arithmetic::div_mod::lemma_fundamental_div_mod(a, 2 * n);
    assert(a == 2 * (n * q)) by (nonlinear_arith)
        requires
            a == (2 * n) * q,
    ;
}

/// Filling `words` from the first slot of a page loads them, in order, into
/// the first `words.len()` slots of the buffer.
proof fn lemma_fills_load(m: FlashModel, address: u16, words: Seq<u16>, n: nat)
    requires
        n > 0,
        address as int % (2 * n as int) == 0,
        address / 2 + n <= 0x8000,
        words.len() <= n,
        m.buffer.len() == n,
    ensures
        after_fills(m, address, words, n).flash == m.flash,
        after_fills(m, address, words, n).buffer.len() == n,
        forall|i: int|
            0 <= i < words.len() ==> #[trigger] after_fills(m, address, words, n).buffer[i]
                == words[i],
        forall|i: int|
            words.len() <= i < n ==> #[trigger] after_fills(m, address, words, n).buffer[i]
                == m.buffer[i],
    decreases words.len(),
{
    if words.len() > 0 {
        let k = words.len() - 1;
        lemma_fills_load(m, address, words.drop_last(), n);
        let a = (address + 2 * k) as u16;
        assert(address + 2 * k < 0x10000);
        assert(a as int == address + 2 * k);
        assert((a / 2) as int == address / 2 + k);
        assert((address / 2) as int % (n as int) == 0) by {
            lemma_half_aligned(address as int, n as int);
        }
        assert(((a / 2) as int) % (n as int) == k) by {
            lemma_mod_offset(address as int / 2, n as int, k);
        }
    }
}

proof fn lemma_half_aligned(a: int, n: int)
    requires
        n > 0,
        a >= 0,
        a % (2 * n) == 0,
    ensures
        (a / 2) % n == 0,
{
    let q = a / (2 * n);
    vstd::arithmetic::div_mod::lemma_fundamental_div_mod(a, 2 * n);
    assert(a == 2 * (n * q)) by (nonlinear_arith)
        requires
            a == (2 * n) * q,
    ;
    assert(a / 2 == n * q);
    vstd::arithmetic::div_mod::lemma_mod_multiples_basic(q, n);
    assert(n * q == q * n) by (nonlinear_arith);
}

proof fn lemma_mod_offset(base: int, n: int, k: int)
    requires
        n > 0,
        base >= 0,
        base % n == 0,
        0 <= k < n,
    ensures
        (base + k) % n == k,
{
    assert((base + k) % n == k) by (nonlinear_arith)
        requires
            n > 0,
            base >= 0,
            base % n == 0,
            0 <= k < n,
    ;
}

/// The self-programming interface: erase, fill, write and read-while-write
/// enable, over flash memory and its temporary page buffer.
pub struct Writer {
    pub flash: Vec<u16>,
    pub buffer: Vec<u16>,
    pub rww_enabled: bool,
}

impl View for Writer {
    type V = FlashModel;

    open spec fn view(&self) -> FlashModel {
        FlashModel { flash: self.flash@, buffer: self.buffer@, rww_enabled: self.rww_enabled }
    }
}

impl Writer {
    /// Whether flash fits the 16-bit byte address space and the buffer holds
    /// one page.
    pub open spec fn wf(&self) -> bool {
        &&& self.flash@.len() <= 0x8000
        &&& self.buffer@.len() > 0
    }

    /// Words per page.
    pub open spec fn page_words(&self) -> nat {
        self.buffer@.len()
    }

    /// An interface over erased flash of `flash_words` words, with pages of
    /// `page_words` words.
    pub fn new(flash_words: usize, page_words: usize) -> (r: Writer)
        requires
            0 < page_words,
            flash_words <= 0x8000,
        ensures
            r.wf(),
            r@.flash == Seq::new(flash_words as nat, |_i: int| ERASED_WORD),
            r@.buffer == Seq::new(page_words as nat, |_i: int| ERASED_WORD),
            r@.rww_enabled,
    {
        Writer {
            flash: erased(flash_words),
            buffer: erased(page_words),
            rww_enabled: true,
        }
    }

    /// Loads `data` into the temporary buffer slot of byte `address`.
    pub fn page_fill(&mut self, address: u16, data: u16)
        requires
            old(self).wf(),
        ensures
            final(self).wf(),
            final(self)@ == after_fill(old(self)@, address, data, old(self).page_words()),
    {
        let slot = (address / 2) as usize % self.buffer.len();
        self.buffer.set(slot, data);
    }

    /// Erases the page that starts at byte `address`.
    pub fn page_erase(&mut self, address: u16)
        requires
            old(self).wf(),
            page_fits(address, old(self).page_words(), old(self)@.flash.len()),
        ensures
            final(self).wf(),
            final(self).page_words() == old(self).page_words(),
            final(self)@ == after_erase(old(self)@, address, old(self).page_words()),
    {
        let start = (address / 2) as usize;
        let n = self.buffer.len();
        let mut i: usize = 0;
        while i < n
            invariant
                self.wf(),
                self.buffer == old(self).buffer,
                n == self.buffer@.len(),
                start == page_start(address),
                start + n <= self.flash@.len(),
                i <= n,
                self.flash@ == with_page(old(self).flash@, start as int, Seq::new(i as nat, |_j: int| ERASED_WORD)),
            decreases n - i,
        {
            self.flash.set(start + i, ERASED_WORD);
            i = i + 1;
            proof {
                assert(self.flash@ =~= with_page(
                    old(self).flash@,
                    start as int,
                    Seq::new(i as nat, |_j: int| ERASED_WORD),
                ));
            }
        }
        self.rww_enabled = false;
        proof {
            assert(self@ =~= after_erase(old(self)@, address, old(self).page_words()));
        }
    }

    /// Writes the temporary buffer into the page that starts at byte
    /// `address`, then clears the buffer.
    pub fn page_write(&mut self, address: u16)
        requires
            old(self).wf(),
            page_fits(address, old(self).page_words(), old(self)@.flash.len()),
        ensures
            final(self).wf(),
            final(self).page_words() == old(self).page_words(),
            final(self)@ == after_write(old(self)@, address, old(self).page_words()),
    {
        let start = (address / 2) as usize;
        let n = self.buffer.len();
        let mut i: usize = 0;
        while i < n
            invariant
                self.wf(),
                self.buffer == old(self).buffer,
                n == self.buffer@.len(),
                start == page_start(address),
                start + n <= self.flash@.len(),
                i <= n,
                self.flash@ == with_page(old(self).flash@, start as int, self.buffer@.take(i as int)),
            decreases n - i,
        {
            let w = self.buffer[i];
            self.flash.set(start + i, w);
            i = i + 1;
            proof {
                assert(self.flash@ =~= with_page(
                    old(self).flash@,
                    start as int,
                    self.buffer@.take(i as int),
                ));
            }
        }
        proof {
            assert(self.buffer@.take(n as int) =~= self.buffer@);
        }
        self.buffer = erased(n);
        self.rww_enabled = false;
        proof {
            assert(self@ =~= after_write(old(self)@, address, old(self).page_words()));
        }
    }

    /// Makes the read-while-write section readable again.
    pub fn rww_enable(&mut self)
        ensures
            final(self)@ == after_rww_enable(old(self)@),
            final(self).flash == old(self).flash,
            final(self).buffer == old(self).buffer,
    {
        self.rww_enabled = true;
    }
}

/// `n` erased words.
fn erased(n: usize) -> (r: Vec<u16>)
    ensures
        r@ == Seq::new(n as nat, |_i: int| ERASED_WORD),
{
    let mut v: Vec<u16> = Vec::new();
    while v.len() < n
        invariant
            v@.len() <= n,
            v@ == Seq::new(v@.len(), |_i: int| ERASED_WORD),
        decreases n - v.len(),
    {
        v.push(ERASED_WORD);
        proof {
            assert(v@ =~= Seq::new(v@.len(), |_i: int| ERASED_WORD));
        }
    }
    v
}

/// Commits received frames to flash.
#[derive(Default)]
pub struct FrameWriter {}

impl FrameWriter {
    /// A writer; it holds no state of its own.
    pub fn new() -> (r: FrameWriter) {
        FrameWriter {  }
    }

    /// Programs the frame's payload into the page at its address: erase,
    /// fill every little-endian word in ascending address order, write, and
    /// read-while-write enable. Afterwards that page holds the payload and
    /// the rest of flash is as it was.
    pub fn write(&self, writer: &mut Writer, frame: &Frame)
        requires
            old(writer).wf(),
            frame.page@.len() == 2 * old(writer).page_words(),
            page_fits(frame.page_address, old(writer).page_words(), old(writer)@.flash.len()),
        ensures
            final(writer).wf(),
            final(writer)@ == after_rww_enable(
                after_write(
                    after_fills(
                        after_erase(old(writer)@, frame.page_address, old(writer).page_words()),
                        frame.page_address,
                        words_of(frame.page@),
                        old(writer).page_words(),
                    ),
                    frame.page_address,
                    old(writer).page_words(),
                ),
            ),
            final(writer)@.flash == with_page(
                old(writer)@.flash,
                page_start(frame.page_address),
                words_of(frame.page@),
            ),
    {
        let ghost n = old(writer).page_words();
        let ghost words = words_of(frame.page@);
        let address = frame.page_address;
        writer.page_erase(address);
        let ghost erased_state = writer@;
        let count = writer.buffer.len();
        let mut i: usize = 0;
        while i < count
            invariant
                writer.wf(),
                writer.page_words() == n,
                count == n,
                frame.page@.len() == 2 * n,
                page_fits(address, n, writer@.flash.len()),
                erased_state.flash.len() == writer@.flash.len(),
                i <= count,
                words == words_of(frame.page@),
                writer@ == after_fills(erased_state, address, words.take(i as int), n),
            decreases count - i,
        {
            let lo = frame.page[2 * i];
            let hi = frame.page[2 * i + 1];
            let word: u16 = lo as u16 + 256 * (hi as u16);
            proof {
                assert(address / 2 + n <= 0x8000);
                assert(words.take(i + 1).drop_last() =~= words.take(i as int));
                assert(words.take(i + 1).last() == word);
            }
            writer.page_fill(address + 2 * (i as u16), word);
            i = i + 1;
        }
        proof {
            assert(words.take(i as int) =~= words);
            assert(erased_state.buffer.len() == n);
        }
        writer.page_write(address);
        writer.rww_enable();
        proof {
            lemma_page_commit(old(writer)@, address, words);
        }
    }
}

} // verus!
