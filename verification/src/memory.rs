use vstd::prelude::*;

use crate::errors::TraceError;

verus! {

/// A word-granularity image of one mapped, writable span of the target's
/// address space.
///
/// The image is a snapshot, not a live view: it records, word by word, what
/// the engine knows or stages for the span `[base, base + 8 * words.len())`.
/// Its view is the map from each word-aligned address of the span to the
/// word held there.  A read or write outside the span, or at an unaligned
/// address, fails with `MemoryAccessFailure` and is never masked as a value.
pub struct MemoryImage {
    base: u64,
    words: Vec<u64>,
}

impl View for MemoryImage {
    type V = Map<u64, u64>;

    open spec fn view(&self) -> Map<u64, u64> {
        Map::new(|a: u64| self.mapped(a), |a: u64| self.word_at(a))
    }
}

impl MemoryImage {
    /// The lowest address of the span.
    pub closed spec fn base_addr(self) -> u64 {
        self.base
    }

    /// How many words the span holds.
    pub closed spec fn word_count(self) -> nat {
        self.words@.len()
    }

    /// Well-formed: the base is word-aligned and the span does not wrap
    /// around the top of the address space.
    pub open spec fn wf(self) -> bool {
        &&& self.base_addr() % 8 == 0
        &&& self.base_addr() + 8 * self.word_count() <= 0x1_0000_0000_0000_0000
    }

    /// An address is mapped when it is word-aligned and lies in the span.
    pub open spec fn mapped(self, a: u64) -> bool {
        &&& a % 8 == 0
        &&& self.base_addr() <= a
        &&& a < self.base_addr() + 8 * self.word_count()
    }

    /// The word held at a mapped address.
    pub closed spec fn word_at(self, a: u64) -> u64
        recommends
            self.mapped(a),
    {
        self.words@[(a - self.base) / 8]
    }

    /// A fresh all-zero image of `count` words starting at `base`.
    pub fn new(base: u64, count: usize) -> (m: MemoryImage)
        requires
            base % 8 == 0,
            base + 8 * count <= 0x1_0000_0000_0000_0000,
        ensures
            m.wf(),
            m.base_addr() == base,
            m.word_count() == count,
            forall|a: u64| m.mapped(a) ==> m.word_at(a) == 0,
    {
        let mut words: Vec<u64> = Vec::new();
        let mut i: usize = 0;
        while i < count
            invariant
                i <= count,
                words@.len() == i,
                forall|k: int| 0 <= k < i ==> words@[k] == 0,
            decreases count - i,
        {
            words.push(0);
            i += 1;
        }
        MemoryImage { base, words }
    }

    /// Whether `addr` is a mapped word address of this image.
    pub fn is_mapped(&self, addr: u64) -> (r: bool)
        requires
            self.wf(),
        ensures
            r == self.mapped(addr),
    {
        if addr % 8 == 0 && addr >= self.base {
            let idx = (addr - self.base) / 8;
            idx < self.words.len() as u64
        } else {
            false
        }
    }

    /// Reads the word at `addr`.  A mapped address yields its word; an
    /// unmapped or unaligned one fails, never a substitute value.
    pub fn read_word(&self, addr: u64) -> (r: Result<u64, TraceError>)
        requires
            self.wf(),
        ensures
            self.mapped(addr) ==> r === Ok(self.word_at(addr)),
            !self.mapped(addr) ==> r === Err(TraceError::MemoryAccessFailure),
            self.mapped(addr) ==> r === Ok(self@[addr]),
    {
        if addr % 8 == 0 && addr >= self.base {
            let idx = (addr - self.base) / 8;
            if idx < self.words.len() as u64 {
                return Ok(self.words[idx as usize]);
            }
        }
        Err(TraceError::MemoryAccessFailure)
    }

    /// Reads `count` consecutive words starting at `addr`, lowest address
    /// first.  Succeeds exactly when every word of the run is mapped: a hole
    /// in the run fails the whole read rather than yielding a substitute.
    pub fn read_words(&self, addr: u64, count: usize) -> (r: Result<Vec<u64>, TraceError>)
        requires
            self.wf(),
            addr + 8 * count < 0x1_0000_0000_0000_0000,
        ensures
            r is Ok <==> (forall|k: int| 0 <= k < count ==> #[trigger] self.mapped((addr + 8 * k) as u64)),
            r matches Ok(ws) ==> {
                &&& ws@.len() == count
                &&& forall|k: int|
                    0 <= k < count ==> ws@[k] == #[trigger] self.word_at((addr + 8 * k) as u64)
            },
            r is Err ==> r === Err(TraceError::MemoryAccessFailure),
    {
        let mut ws: Vec<u64> = Vec::new();
        let mut k: usize = 0;
        while k < count
            invariant
                self.wf(),
                k <= count,
                addr + 8 * count < 0x1_0000_0000_0000_0000,
                ws@.len() == k,
                forall|j: int| 0 <= j < k ==> #[trigger] self.mapped((addr + 8 * j) as u64),
                forall|j: int| 0 <= j < k ==> ws@[j] == #[trigger] self.word_at((addr + 8 * j) as u64),
            decreases count - k,
        {
            let a = addr + 8 * (k as u64);
            match self.read_word(a) {
                Ok(w) => {
                    ws.push(w);
                },
                Err(_) => {
                    return Err(TraceError::MemoryAccessFailure);
                },
            }
            k += 1;
        }
        Ok(ws)
    }

    /// Writes `value` at `addr`.  A mapped address takes the word and every
    /// other word keeps its value; an unmapped or unaligned one fails and
    /// leaves the image untouched.
    pub fn write_word(&mut self, addr: u64, value: u64) -> (r: Result<(), TraceError>)
        requires
            old(self).wf(),
        ensures
            final(self).wf(),
            final(self).base_addr() == old(self).base_addr(),
            final(self).word_count() == old(self).word_count(),
            r is Ok <==> old(self).mapped(addr),
            old(self).mapped(addr) ==> {
                &&& final(self).word_at(addr) == value
                &&& forall|a: u64|
                    old(self).mapped(a) && a != addr ==> final(self).word_at(a) == old(self).word_at(a)
                &&& final(self)@ == old(self)@.insert(addr, value)
            },
            !old(self).mapped(addr) ==> (r === Err(TraceError::MemoryAccessFailure)
                && *final(self) == *old(self)),
    {
        if addr % 8 == 0 && addr >= self.base {
            let idx = (addr - self.base) / 8;
            if idx < self.words.len() as u64 {
                self.words.set(idx as usize, value);
                proof {
                    assert forall|a: u64| old(self).mapped(a) && a != addr implies self.word_at(a)
                        == old(self).word_at(a) by {
                        lemma_aligned_index_distinct(self.base, a, addr);
                    }
                    assert(self@ =~= old(self)@.insert(addr, value));
                }
                return Ok(());
            }
        }
        Err(TraceError::MemoryAccessFailure)
    }
}

/// Two distinct aligned addresses above an aligned base land on distinct
/// word indices.
proof fn lemma_aligned_index_distinct(base: u64, a: u64, b: u64)
    requires
        base % 8 == 0,
        a % 8 == 0,
        b % 8 == 0,
        base <= a,
        base <= b,
        a != b,
    ensures
        (a - base) / 8 != (b - base) / 8,
{
    assert((a - base) % 8 == 0 && (b - base) % 8 == 0 && (a - base) / 8 != (b - base) / 8)
        by (nonlinear_arith)
        requires
            base % 8 == 0,
            a % 8 == 0,
            b % 8 == 0,
            base <= a,
            base <= b,
            a != b,
    ;
}

/// Law: writing a word and reading it back yields the written word.
///
/// `write_word` at a mapped address `addr` turns an image with view `m@`
/// into one with view `m@.insert(addr, value)`, and `read_word` returns the
/// view at the address read; so a write followed by a read of the same
/// mapped address yields exactly the value written, and a read of any other
/// mapped address yields the word it held before the write.
pub proof fn lemma_word_round_trip(m: MemoryImage, addr: u64, value: u64)
    requires
        m.wf(),
        m.mapped(addr),
    ensures
        m@.insert(addr, value)[addr] == value,
        forall|a: u64| m.mapped(a) && a != addr ==> m@.insert(addr, value)[a] == m@[a],
{
    assert forall|a: u64| m.mapped(a) && a != addr implies m@.insert(addr, value)[a] == m@[a] by {
        assert(m@.dom().contains(a));
    }
}

} // verus!
