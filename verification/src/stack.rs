use vstd::prelude::*;

use crate::codec::{
    encode_padded, padded_bytes, padded_len, padded_word_count, word_from_bytes, word_of_bytes,
    lemma_word_byte_round_trip, lemma_padded_shape, word_byte,
};
use crate::errors::TraceError;
use crate::memory::MemoryImage;

verus! {

/// The running stack pointer of one frame under construction, together with
/// the saved base it started from.
///
/// The stack grows downward: every push moves `sp` lower, never higher, and
/// only an explicit `reset` returns it to the saved base.
pub struct StackCursor {
    /// The current top of the frame under construction.
    pub sp: u64,
    /// The stack pointer the frame started from.
    pub base: u64,
}

impl StackCursor {
    /// Well-formed: both pointers word-aligned, the running pointer at or
    /// below the saved base.
    pub open spec fn wf(self) -> bool {
        &&& self.sp % 8 == 0
        &&& self.base % 8 == 0
        &&& self.sp <= self.base
    }

    /// A cursor for a frame starting at the word-aligned pointer `sp`.
    pub fn new(sp: u64) -> (c: StackCursor)
        requires
            sp % 8 == 0,
        ensures
            c.wf(),
            c.sp == sp,
            c.base == sp,
    {
        StackCursor { sp, base: sp }
    }

    /// Abandons the frame under construction: the running pointer returns to
    /// the saved base, the one movement upward a cursor ever makes.
    pub fn reset(&mut self)
        requires
            old(self).wf(),
        ensures
            final(self).wf(),
            final(self).base == old(self).base,
            final(self).sp == old(self).base,
    {
        self.sp = self.base;
    }
}

/// Room for `n` words below the stack pointer `sp`: the run does not go
/// below address zero, and every word-aligned address of the run is a
/// mapped address of the image.
pub open spec fn can_push(m: MemoryImage, sp: u64, n: nat) -> bool {
    &&& sp >= 8 * n
    &&& forall|a: u64| sp - 8 * n <= a < sp && a % 8 == 0 ==> #[trigger] m.mapped(a)
}

proof fn lemma_aligned_sub(sp: u64, k: int)
    requires
        sp % 8 == 0,
        0 <= 8 * k <= sp,
    ensures
        (sp - 8 * k) % 8 == 0,
{
    assert((sp - 8 * k) % 8 == 0) by (nonlinear_arith)
        requires
            sp % 8 == 0,
            0 <= 8 * k <= sp,
    ;
}

/// Whether `n_words` words can be pushed below `sp` into `mem`.
pub fn span_fits(mem: &MemoryImage, sp: u64, n_words: u64) -> (r: bool)
    requires
        mem.wf(),
        sp % 8 == 0,
    ensures
        r == can_push(*mem, sp, n_words as nat),
{
    if n_words == 0 {
        return true;
    }
    if n_words <= sp / 8 {
        proof {
            assert(8 * n_words <= sp) by (nonlinear_arith)
                requires
                    n_words <= sp / 8,
            ;
        }
        let lo = sp - 8 * n_words;
        let ok = mem.is_mapped(lo) && mem.is_mapped(sp - 8);
        proof {
            if ok {
                assert forall|a: u64|
                    sp - 8 * (n_words as int) <= a < sp && a % 8 == 0 implies mem.mapped(a) by {
                    assert(a <= sp - 8) by (nonlinear_arith)
                        requires
                            a < sp,
                            a % 8 == 0,
                            sp % 8 == 0,
                            sp >= 8,
                    ;
                }
            } else {
                assert(!can_push(*mem, sp, n_words as nat)) by {
                    if can_push(*mem, sp, n_words as nat) {
                        lemma_aligned_sub(sp, n_words as int);
                        lemma_aligned_sub(sp, 1);
                        assert(mem.mapped(lo));
                        assert(mem.mapped((sp - 8) as u64));
                    }
                }
            }
        }
        ok
    } else {
        proof {
            assert(!(sp >= 8 * n_words)) by (nonlinear_arith)
                requires
                    n_words > sp / 8,
            ;
        }
        false
    }
}

/// Room below a stack pointer persists while the pointer moves down inside
/// it: a pointer at or below the original, whose `k` slots still lie within
/// the original `n` slots, can push its `k` words into any image with the
/// same geometry.
pub proof fn lemma_can_push_shrink(
    m0: MemoryImage,
    m1: MemoryImage,
    sp0: u64,
    n: nat,
    sp1: u64,
    k: nat,
)
    requires
        m1.base_addr() == m0.base_addr(),
        m1.word_count() == m0.word_count(),
        can_push(m0, sp0, n),
        sp1 <= sp0,
        sp0 - 8 * n <= sp1 - 8 * k,
    ensures
        can_push(m1, sp1, k),
{
    assert forall|a: u64| sp1 - 8 * k <= a < sp1 && a % 8 == 0 implies m1.mapped(a) by {
        assert(m0.mapped(a));
    }
}

/// Writes `value` into the word below the stack pointer, then moves the
/// pointer down by eight.  Returns the address written.  When that slot is
/// not mapped in the image, nothing changes and the push fails.
pub fn push_word(cursor: &mut StackCursor, mem: &mut MemoryImage, value: u64) -> (r: Result<
    u64,
    TraceError,
>)
    requires
        old(cursor).wf(),
        old(mem).wf(),
    ensures
        final(cursor).wf(),
        final(mem).wf(),
        final(cursor).base == old(cursor).base,
        final(mem).base_addr() == old(mem).base_addr(),
        final(mem).word_count() == old(mem).word_count(),
        r is Ok <==> can_push(*old(mem), old(cursor).sp, 1),
        r matches Ok(a) ==> {
            &&& a == old(cursor).sp - 8
            &&& final(cursor).sp == a
            &&& final(mem).word_at(a) == value
            &&& forall|x: u64|
                old(mem).mapped(x) && x != a ==> final(mem).word_at(x) == old(mem).word_at(x)
            &&& final(mem)@ == old(mem)@.insert(a, value)
        },
        r is Err ==> (r === Err(TraceError::MemoryAccessFailure) && *final(cursor) == *old(cursor)
            && *final(mem) == *old(mem)),
{
    let ghost sp_in = cursor.sp;
    if cursor.sp >= 8 {
        let a = cursor.sp - 8;
        match mem.write_word(a, value) {
            Ok(_) => {
                cursor.sp = a;
                proof {
                    assert(can_push(*old(mem), sp_in, 1)) by {
                        assert forall|x: u64|
                            sp_in - 8 <= x < sp_in && x % 8 == 0 implies old(mem).mapped(x) by {
                            assert(x == sp_in - 8) by (nonlinear_arith)
                                requires
                                    sp_in % 8 == 0,
                                    sp_in >= 8,
                                    sp_in - 8 <= x < sp_in,
                                    x % 8 == 0,
                            ;
                        }
                    }
                }
                Ok(a)
            },
            Err(_) => {
                proof {
                    assert(!old(mem).mapped(a));
                }
                Err(TraceError::MemoryAccessFailure)
            },
        }
    } else {
        Err(TraceError::MemoryAccessFailure)
    }
}

/// Pushes the given words in order.  Returns the address of each pushed
/// word: the stack pointer ends exactly `8 * n` lower after `n` pushes, and
/// the returned addresses strictly decrease, each eight below the last.
/// When the slots are not all mapped, nothing changes and the push fails.
pub fn push_words(cursor: &mut StackCursor, mem: &mut MemoryImage, values: &Vec<u64>) -> (r: Result<
    Vec<u64>,
    TraceError,
>)
    requires
        old(cursor).wf(),
        old(mem).wf(),
    ensures
        final(cursor).wf(),
        final(mem).wf(),
        final(cursor).base == old(cursor).base,
        final(mem).base_addr() == old(mem).base_addr(),
        final(mem).word_count() == old(mem).word_count(),
        r is Ok <==> can_push(*old(mem), old(cursor).sp, values@.len()),
        r matches Ok(addrs) ==> {
            &&& addrs@.len() == values@.len()
            &&& final(cursor).sp == old(cursor).sp - 8 * values@.len()
            &&& forall|k: int|
                0 <= k < values@.len() ==> addrs@[k] == old(cursor).sp - 8 * (k + 1)
            &&& forall|k: int| 1 <= k < values@.len() ==> #[trigger] addrs@[k] < addrs@[k - 1]
            &&& forall|k: int|
                0 <= k < values@.len() ==> final(mem).word_at(addrs@[k]) == values@[k]
            &&& forall|x: u64|
                old(mem).mapped(x) && !(final(cursor).sp <= x < old(cursor).sp)
                    ==> final(mem).word_at(x) == old(mem).word_at(x)
        },
        r is Err ==> (r === Err(TraceError::MemoryAccessFailure) && *final(cursor) == *old(cursor)
            && *final(mem) == *old(mem)),
{
    let ghost m0 = *mem;
    let ghost sp0 = cursor.sp;
    let n = values.len();
    if n == 0 {
        return Ok(Vec::new());
    }
    // The image is one contiguous span, so the whole run of slots is mapped
    // exactly when the lowest and the highest slot are.
    let n64 = n as u64;
    let fits: bool = if n64 <= cursor.sp / 8 {
        proof {
            assert(8 * n64 <= sp0) by (nonlinear_arith)
                requires
                    n64 <= sp0 / 8,
            ;
        }
        let lo = cursor.sp - 8 * n64;
        mem.is_mapped(lo) && mem.is_mapped(cursor.sp - 8)
    } else {
        false
    };
    proof {
        let lo: u64 = (sp0 - 8 * (n as int)) as u64;
        if fits {
            assert(m0.mapped(lo) && m0.mapped((sp0 - 8) as u64));
            assert forall|a: u64| sp0 - 8 * (n as int) <= a < sp0 && a % 8 == 0 implies m0.mapped(
                a,
            ) by {
                assert(a <= sp0 - 8) by (nonlinear_arith)
                    requires
                        a < sp0,
                        a % 8 == 0,
                        sp0 % 8 == 0,
                        sp0 >= 8,
                ;
            }
            assert(can_push(m0, sp0, values@.len()));
        } else {
            assert(!can_push(m0, sp0, values@.len())) by {
                if can_push(m0, sp0, values@.len()) {
                    assert(8 * (n as int) <= sp0);
                    assert(n64 <= sp0 / 8) by (nonlinear_arith)
                        requires
                            8 * (n64 as int) <= sp0,
                    ;
                    lemma_aligned_sub(sp0, n as int);
                    lemma_aligned_sub(sp0, 1);
                    assert(m0.mapped(lo));
                    assert(m0.mapped((sp0 - 8) as u64));
                }
            }
        }
    }
    if !fits {
        return Err(TraceError::MemoryAccessFailure);
    }
    let mut addrs: Vec<u64> = Vec::new();
    let mut i: usize = 0;
    while i < n
        invariant
            0 < n == values@.len(),
            i <= n,
            cursor.wf(),
            mem.wf(),
            cursor.base == old(cursor).base,
            mem.base_addr() == m0.base_addr(),
            mem.word_count() == m0.word_count(),
            can_push(m0, sp0, n as nat),
            sp0 == old(cursor).sp,
            m0 == *old(mem),
            cursor.sp == sp0 - 8 * i,
            addrs@.len() == i,
            forall|k: int| 0 <= k < i ==> addrs@[k] == sp0 - 8 * (k + 1),
            forall|k: int| 0 <= k < i ==> mem.word_at(addrs@[k]) == values@[k],
            forall|x: u64|
                m0.mapped(x) && !(cursor.sp <= x < sp0) ==> mem.word_at(x) == m0.word_at(x),
        decreases n - i,
    {
        proof {
            assert(can_push(*mem, cursor.sp, 1)) by {
                assert forall|x: u64|
                    cursor.sp - 8 <= x < cursor.sp && x % 8 == 0 implies mem.mapped(x) by {
                    assert(x == cursor.sp - 8) by (nonlinear_arith)
                        requires
                            cursor.sp % 8 == 0,
                            cursor.sp >= 8,
                            cursor.sp - 8 <= x < cursor.sp,
                            x % 8 == 0,
                    ;
                    assert(m0.mapped(x));
                }
            }
        }
        let ghost m_pre = *mem;
        let ghost addrs_pre = addrs@;
        let r = push_word(cursor, mem, values[i]);
        match r {
            Ok(a) => {
                proof {
                    assert(a == sp0 - 8 * (i + 1));
                    assert forall|k: int| 0 <= k < i implies mem.word_at(addrs_pre[k])
                        == values@[k] by {
                        lemma_aligned_sub(sp0, k + 1);
                        assert(addrs_pre[k] == sp0 - 8 * (k + 1));
                        assert(m0.mapped(addrs_pre[k]));
                        assert(m_pre.mapped(addrs_pre[k]));
                        assert(addrs_pre[k] != a);
                    }
                    assert forall|x: u64|
                        m0.mapped(x) && !(a <= x < sp0) implies mem.word_at(x) == m0.word_at(
                        x,
                    ) by {
                        assert(m_pre.mapped(x));
                        assert(x != a);
                        assert(m_pre.word_at(x) == m0.word_at(x));
                    }
                }
                addrs.push(a);
                i += 1;
            },
            Err(_) => {
                proof {
                    assert(false);
                }
                return Err(TraceError::MemoryAccessFailure);
            },
        }
    }
    Ok(addrs)
}

/// Encodes a text (null terminator, null padding to a word boundary) and
/// pushes it as words in reverse chunk order, so that the text reads forward
/// from the lowest address written.  Returns the address of the text's first
/// byte, which is the new stack pointer.  When the slots are not all mapped,
/// nothing changes and the push fails.
pub fn push_string(cursor: &mut StackCursor, mem: &mut MemoryImage, text: &Vec<u8>) -> (r: Result<
    u64,
    TraceError,
>)
    requires
        old(cursor).wf(),
        old(mem).wf(),
        text@.len() + 8 <= usize::MAX,
    ensures
        final(cursor).wf(),
        final(mem).wf(),
        final(cursor).base == old(cursor).base,
        final(mem).base_addr() == old(mem).base_addr(),
        final(mem).word_count() == old(mem).word_count(),
        r is Ok <==> can_push(*old(mem), old(cursor).sp, padded_word_count(text@.len())),
        r matches Ok(a) ==> {
            &&& a == old(cursor).sp - padded_len(text@.len())
            &&& final(cursor).sp == a
            &&& forall|k: int|
                0 <= k < padded_word_count(text@.len()) ==> #[trigger] final(mem).word_at(
                    (a + 8 * k) as u64,
                ) == word_of_bytes(padded_bytes(text@).subrange(8 * k, 8 * k + 8))
            &&& forall|x: u64|
                old(mem).mapped(x) && !(a <= x < old(cursor).sp)
                    ==> final(mem).word_at(x) == old(mem).word_at(x)
        },
        r is Err ==> (r === Err(TraceError::MemoryAccessFailure) && *final(cursor) == *old(cursor)
            && *final(mem) == *old(mem)),
{
    let ghost sp0 = cursor.sp;
    let bytes = encode_padded(text);
    proof {
        lemma_padded_shape(text@);
    }
    let bytes_len = bytes.len();
    let nw = bytes_len / 8;
    proof {
        assert(nw == padded_word_count(text@.len()) && bytes_len == 8 * nw) by (nonlinear_arith)
            requires
                bytes_len == 8 * padded_word_count(text@.len()),
                nw == bytes_len as int / 8,
        ;
    }
    let mut words: Vec<u64> = Vec::new();
    let mut j: usize = 0;
    while j < nw
        invariant
            nw == padded_word_count(text@.len()),
            bytes@ == padded_bytes(text@),
            bytes@.len() == bytes_len,
            bytes_len == 8 * nw,
            j <= nw,
            words@.len() == j,
            forall|t: int|
                0 <= t < j ==> words@[t] == word_of_bytes(
                    bytes@.subrange(8 * (nw - 1 - t), 8 * (nw - 1 - t) + 8),
                ),
        decreases nw - j,
    {
        let start = bytes_len - 8 * (j + 1);
        proof {
            assert(start == 8 * (nw - 1 - j));
        }
        words.push(word_from_bytes(&bytes, start));
        j += 1;
    }
    let r = push_words(cursor, mem, &words);
    match r {
        Ok(addrs) => {
            let a = cursor.sp;
            proof {
                assert(a == sp0 - 8 * (nw as int));
                assert forall|k: int|
                    0 <= k < padded_word_count(text@.len()) implies #[trigger] mem.word_at(
                    (a + 8 * k) as u64,
                ) == word_of_bytes(padded_bytes(text@).subrange(8 * k, 8 * k + 8)) by {
                    let t = nw - 1 - k;
                    assert(addrs@[t] == sp0 - 8 * (t + 1));
                    assert((a + 8 * k) as u64 == addrs@[t]);
                    assert(mem.word_at(addrs@[t]) == words@[t]);
                }
            }
            Ok(a)
        },
        Err(_) => Err(TraceError::MemoryAccessFailure),
    }
}

/// Law: a pushed text reads back, byte for byte, as the text followed by a
/// null terminator and null padding to a multiple of eight bytes.
///
/// `push_string` lays the encoding of `s` down as words at `a`, the address
/// it returns; reading those words in ascending address order and taking
/// their bytes in little-endian order reconstructs exactly
/// `padded_bytes(s)`, whose shape the last three conclusions spell out.
pub proof fn lemma_string_round_trip(m: MemoryImage, a: u64, s: Seq<u8>)
    requires
        a + padded_len(s.len()) <= 0x1_0000_0000_0000_0000,
        forall|k: int|
            0 <= k < padded_word_count(s.len()) ==> #[trigger] m.word_at((a + 8 * k) as u64)
                == word_of_bytes(padded_bytes(s).subrange(8 * k, 8 * k + 8)),
    ensures
        forall|i: int|
            0 <= i < padded_len(s.len()) ==> word_byte(m.word_at((a + 8 * (i / 8)) as u64), i % 8)
                == padded_bytes(s)[i],
        forall|i: int| 0 <= i < s.len() ==> padded_bytes(s)[i] == s[i],
        padded_bytes(s)[s.len() as int] == 0,
        forall|i: int| s.len() < i < padded_len(s.len()) ==> padded_bytes(s)[i] == 0,
{
    lemma_padded_shape(s);
    let p = padded_bytes(s);
    assert forall|i: int| 0 <= i < padded_len(s.len()) implies word_byte(
        m.word_at((a + 8 * (i / 8)) as u64),
        i % 8,
    ) == p[i] by {
        let k = i / 8;
        let j = i % 8;
        assert(0 <= j < 8 && i == 8 * k + j && 0 <= k < padded_word_count(s.len()))
            by (nonlinear_arith)
            requires
                0 <= i < 8 * padded_word_count(s.len()),
                k == i / 8,
                j == i % 8,
        ;
        let chunk = p.subrange(8 * k, 8 * k + 8);
        lemma_word_byte_round_trip(chunk);
        assert(chunk[j] == p[8 * k + j]);
    }
}

} // verus!
