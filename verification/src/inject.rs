use vstd::prelude::*;

use crate::codec::{padded_bytes, padded_word_count, word_of_bytes};
use crate::errors::TraceError;
use crate::memory::MemoryImage;
use crate::registers::RegisterSet;
use crate::session::TraceeHandle;
use crate::stack::{can_push, lemma_can_push_shrink, push_string, push_words, span_fits, StackCursor};

verus! {

/// The views of the argument texts.
pub open spec fn arg_views(args: Seq<Vec<u8>>) -> Seq<Seq<u8>> {
    args.map_values(|a: Vec<u8>| a@)
}

/// How many words the encodings of the arguments from index `i` on occupy.
pub open spec fn tail_arg_words(args: Seq<Seq<u8>>, i: int) -> nat
    decreases args.len() - i,
    when 0 <= i <= args.len()
{
    if i >= args.len() {
        0
    } else {
        (padded_word_count(args[i].len()) + tail_arg_words(args, i + 1)) as nat
    }
}

proof fn lemma_tail_le(args: Seq<Seq<u8>>, i: int, j: int)
    requires
        0 <= i <= j <= args.len(),
    ensures
        tail_arg_words(args, j) <= tail_arg_words(args, i),
    decreases j - i,
{
    if i < j {
        lemma_tail_le(args, i + 1, j);
    }
}

/// Where the encoding of argument `i` comes to rest: two linkage words and
/// every later argument's encoding lie between it and the original stack
/// pointer, so the first argument ends up at the lowest address.
pub open spec fn arg_address(rsp: u64, args: Seq<Seq<u8>>, i: int) -> int {
    rsp - 16 - 8 * tail_arg_words(args, i)
}

/// The fully resolved description of one pending injected call, produced
/// before any register is written.
#[derive(Debug)]
pub struct CallPlan {
    /// The address the instruction pointer will be set to.
    pub target_address: u64,
    /// The instruction pointer captured as the synthetic return linkage.
    pub return_address: u64,
    /// The address of each argument's encoded text, in argument order.
    pub argument_addresses: Vec<u64>,
    /// The full register snapshot to write when the plan is committed.
    pub entry_registers: RegisterSet,
}

/// Lays one injected call out in the staging image: pushes the current
/// instruction and frame pointers as the return linkage, then each argument
/// text in reverse order, and resolves the register snapshot the call will
/// start from.  Nothing of the target itself is touched: only the staging
/// image changes, and only `commit` turns the plan into a register write
/// and a resumption.
///
/// The plan succeeds exactly when the staging image has room for the two
/// linkage words and every argument's encoding below `regs.rsp`.
#[verifier::loop_isolation(false)]
pub fn prepare_call(
    regs: &RegisterSet,
    mem: &mut MemoryImage,
    target: u64,
    args: &Vec<Vec<u8>>,
) -> (r: Result<CallPlan, TraceError>)
    requires
        old(mem).wf(),
        regs.rsp % 8 == 0,
        forall|i: int| 0 <= i < args@.len() ==> #[trigger] args@[i]@.len() + 8 <= usize::MAX,
    ensures
        final(mem).wf(),
        final(mem).base_addr() == old(mem).base_addr(),
        final(mem).word_count() == old(mem).word_count(),
        r is Ok <==> can_push(
            *old(mem),
            regs.rsp,
            (2 + tail_arg_words(arg_views(args@), 0)) as nat,
        ),
        r matches Ok(plan) ==> {
            &&& plan.target_address == target
            &&& plan.return_address == regs.rip
            &&& plan.argument_addresses@.len() == args@.len()
            &&& forall|i: int|
                0 <= i < args@.len() ==> #[trigger] plan.argument_addresses@[i] == arg_address(
                    regs.rsp,
                    arg_views(args@),
                    i,
                )
            &&& plan.entry_registers.rip == target
            &&& plan.entry_registers.rsp == arg_address(regs.rsp, arg_views(args@), 0)
            &&& plan.entry_registers.rbp == regs.rsp - 16
            &&& (args@.len() > 0 ==> plan.entry_registers.rax == plan.argument_addresses@[0])
            &&& (args@.len() == 0 ==> plan.entry_registers.rax == regs.rax)
            &&& plan.entry_registers.rbx == regs.rbx
            &&& plan.entry_registers.rcx == regs.rcx
            &&& plan.entry_registers.rdx == regs.rdx
            &&& plan.entry_registers.rsi == regs.rsi
            &&& plan.entry_registers.rdi == regs.rdi
            &&& plan.entry_registers.r8 == regs.r8
            &&& plan.entry_registers.r9 == regs.r9
            &&& plan.entry_registers.r10 == regs.r10
            &&& plan.entry_registers.r11 == regs.r11
            &&& plan.entry_registers.r12 == regs.r12
            &&& plan.entry_registers.r13 == regs.r13
            &&& plan.entry_registers.r14 == regs.r14
            &&& plan.entry_registers.r15 == regs.r15
            &&& final(mem).word_at((regs.rsp - 8) as u64) == regs.rip
            &&& final(mem).word_at((regs.rsp - 16) as u64) == regs.rbp
            &&& forall|i: int, k: int|
                0 <= i < args@.len() && 0 <= k < padded_word_count(arg_views(args@)[i].len())
                    ==> #[trigger] final(mem).word_at(
                    (arg_address(regs.rsp, arg_views(args@), i) + 8 * k) as u64,
                ) == word_of_bytes(padded_bytes(arg_views(args@)[i]).subrange(8 * k, 8 * k + 8))
        },
        r is Err ==> r === Err(TraceError::MemoryAccessFailure),
{
    let ghost m0 = *mem;
    let ghost views = arg_views(args@);
    let ghost nwords: nat = (2 + tail_arg_words(views, 0)) as nat;
    let n = args.len();

    // Count the words the whole frame needs.
    let mut total: u64 = 2;
    let mut i: usize = 0;
    while i < n
        invariant
            i <= n,
            n == args@.len(),
            views == arg_views(args@),
            forall|t: int| 0 <= t < args@.len() ==> #[trigger] args@[t]@.len() + 8 <= usize::MAX,
            total == 2 + tail_arg_words(views, 0) - tail_arg_words(views, i as int),
            tail_arg_words(views, i as int) <= tail_arg_words(views, 0),
        decreases n - i,
    {
        let wc = args[i].len() / 8 + 1;
        proof {
            assert(views[i as int] == args@[i as int]@);
            assert(wc == padded_word_count(views[i as int].len()));
            assert(tail_arg_words(views, i as int) == padded_word_count(views[i as int].len())
                + tail_arg_words(views, i as int + 1));
            lemma_tail_le(views, 0, i as int);
        }
        if (wc as u64) > u64::MAX - total {
            proof {
                assert(2 + tail_arg_words(views, 0) > u64::MAX);
                assert(!can_push(m0, regs.rsp, nwords)) by {
                    assert(8 * nwords > 8 * (u64::MAX as int)) by (nonlinear_arith)
                        requires
                            nwords > u64::MAX,
                    ;
                }
            }
            return Err(TraceError::MemoryAccessFailure);
        }
        total = total + wc as u64;
        proof {
            lemma_tail_le(views, 0, i as int + 1);
        }
        i += 1;
    }
    proof {
        assert(tail_arg_words(views, n as int) == 0);
        assert(total == 2 + tail_arg_words(views, 0));
    }

    if !span_fits(mem, regs.rsp, total) {
        return Err(TraceError::MemoryAccessFailure);
    }
    proof {
        assert(can_push(m0, regs.rsp, nwords));
        assert(regs.rsp >= 8 * nwords);
    }

    // Return linkage: the interrupted instruction pointer, then the frame
    // pointer, exactly as a call followed by a prologue would leave them.
    let mut cursor = StackCursor::new(regs.rsp);
    let mut linkage: Vec<u64> = Vec::new();
    linkage.push(regs.rip);
    linkage.push(regs.rbp);
    proof {
        lemma_can_push_shrink(m0, *mem, regs.rsp, nwords, regs.rsp, 2);
    }
    let lr = push_words(&mut cursor, mem, &linkage);
    proof {
        assert(lr is Ok);
    }
    let ghost laddrs = match lr {
        Ok(a) => a@,
        Err(_) => Seq::empty(),
    };
    proof {
        assert(nwords >= 2);
        assert(regs.rsp >= 8 * nwords);
        assert(regs.rsp >= 16) by (nonlinear_arith)
            requires
                nwords >= 2,
                regs.rsp >= 8 * nwords,
        ;
        assert(laddrs[0] == regs.rsp - 8 && laddrs[1] == regs.rsp - 16);
        assert((regs.rsp - 8) as u64 == laddrs[0] && (regs.rsp - 16) as u64 == laddrs[1]);
        assert(mem.word_at(laddrs[0]) == linkage@[0] && mem.word_at(laddrs[1]) == linkage@[1]);
        assert(mem.word_at((regs.rsp - 8) as u64) == regs.rip);
        assert(mem.word_at((regs.rsp - 16) as u64) == regs.rbp);
    }

    // Arguments, last first, so the first argument ends lowest.
    let mut rev: Vec<u64> = Vec::new();
    let mut j: usize = 0;
    while j < n
        invariant
            j <= n,
            n == args@.len(),
            views == arg_views(args@),
            forall|t: int| 0 <= t < args@.len() ==> #[trigger] args@[t]@.len() + 8 <= usize::MAX,
            cursor.wf(),
            mem.wf(),
            mem.base_addr() == m0.base_addr(),
            mem.word_count() == m0.word_count(),
            can_push(m0, regs.rsp, nwords),
            nwords == 2 + tail_arg_words(views, 0),
            regs.rsp % 8 == 0,
            regs.rsp >= 16,
            cursor.sp == regs.rsp - 16 - 8 * tail_arg_words(views, n - j),
            rev@.len() == j,
            forall|t: int|
                0 <= t < j ==> #[trigger] rev@[t] == arg_address(regs.rsp, views, n - 1 - t),
            mem.word_at((regs.rsp - 8) as u64) == regs.rip,
            mem.word_at((regs.rsp - 16) as u64) == regs.rbp,
            forall|t: int, k: int|
                0 <= t < j && 0 <= k < padded_word_count(views[n - 1 - t].len())
                    ==> #[trigger] mem.word_at(
                    (arg_address(regs.rsp, views, n - 1 - t) + 8 * k) as u64,
                ) == word_of_bytes(padded_bytes(views[n - 1 - t]).subrange(8 * k, 8 * k + 8)),
        decreases n - j,
    {
        let idx = n - 1 - j;
        let ghost sp_pre = cursor.sp;
        let ghost m_pre = *mem;
        proof {
            assert(views[idx as int] == args@[idx as int]@);
            lemma_tail_le(views, 0, idx as int);
            lemma_tail_le(views, idx as int, idx as int + 1);
            assert(tail_arg_words(views, idx as int) == padded_word_count(views[idx as int].len())
                + tail_arg_words(views, idx as int + 1));
            lemma_can_push_shrink(
                m0,
                *mem,
                regs.rsp,
                nwords,
                cursor.sp,
                padded_word_count(views[idx as int].len()),
            );
        }
        let pr = push_string(&mut cursor, mem, &args[idx]);
        let a: u64;
        match pr {
            Ok(addr) => {
                a = addr;
            },
            Err(_) => {
                proof {
                    assert(false);
                }
                return Err(TraceError::MemoryAccessFailure);
            },
        }
        proof {
            assert(a == arg_address(regs.rsp, views, idx as int));
            // Everything already placed lies at or above the pre-push stack
            // pointer, so this push leaves it untouched.
            assert(((regs.rsp - 8) as u64) % 8 == 0 && ((regs.rsp - 16) as u64) % 8 == 0)
                by (nonlinear_arith)
                requires
                    regs.rsp % 8 == 0,
                    regs.rsp >= 16,
            ;
            assert(m0.mapped((regs.rsp - 8) as u64));
            assert(m0.mapped((regs.rsp - 16) as u64));
            assert(m_pre.mapped((regs.rsp - 8) as u64) && m_pre.mapped((regs.rsp - 16) as u64));
            assert(sp_pre <= regs.rsp - 16);
            assert(mem.word_at((regs.rsp - 8) as u64) == regs.rip);
            assert(mem.word_at((regs.rsp - 16) as u64) == regs.rbp);
            assert forall|k: int|
                0 <= k < padded_word_count(views[idx as int].len())
                    implies #[trigger] mem.word_at(
                (arg_address(regs.rsp, views, idx as int) + 8 * k) as u64,
            ) == word_of_bytes(padded_bytes(views[idx as int]).subrange(8 * k, 8 * k + 8)) by {
                assert((arg_address(regs.rsp, views, idx as int) + 8 * k) as u64 == (a + 8
                    * k) as u64);
                assert(mem.word_at((a + 8 * k) as u64) == word_of_bytes(
                    padded_bytes(views[idx as int]).subrange(8 * k, 8 * k + 8),
                ));
            }
            assert forall|t: int, k: int|
                0 <= t < j && 0 <= k < padded_word_count(views[n - 1 - t].len())
                    implies #[trigger] mem.word_at(
                (arg_address(regs.rsp, views, n - 1 - t) + 8 * k) as u64,
            ) == word_of_bytes(padded_bytes(views[n - 1 - t]).subrange(8 * k, 8 * k + 8)) by {
                let ghost tt = tail_arg_words(views, n - 1 - t);
                let ghost tn = tail_arg_words(views, n - t);
                let base = arg_address(regs.rsp, views, n - 1 - t);
                lemma_tail_le(views, idx as int + 1, n - 1 - t);
                lemma_tail_le(views, 0, n - 1 - t);
                assert(tt == padded_word_count(views[n - 1 - t].len()) + tn);
                assert(base + 8 * k < regs.rsp - 16 - 8 * tn + 8);
                let x: u64 = (base + 8 * k) as u64;
                assert(base >= sp_pre);
                assert(x == base + 8 * k);
                assert(x % 8 == 0) by (nonlinear_arith)
                    requires
                        regs.rsp % 8 == 0,
                        x == regs.rsp - 16 - 8 * tt + 8 * k,
                ;
                assert(regs.rsp - 8 * nwords <= x < regs.rsp);
                assert(m0.mapped(x));
                assert(m_pre.mapped(x));
                assert(m_pre.word_at(x) == word_of_bytes(
                    padded_bytes(views[n - 1 - t]).subrange(8 * k, 8 * k + 8),
                ));
                assert(mem.word_at(x) == m_pre.word_at(x));
            }
        }
        rev.push(a);
        j += 1;
    }
    proof {
        assert(cursor.sp == regs.rsp - 16 - 8 * tail_arg_words(views, 0));
        assert forall|q: int, k: int|
            0 <= q < args@.len() && 0 <= k < padded_word_count(views[q].len())
                implies #[trigger] mem.word_at((arg_address(regs.rsp, views, q) + 8 * k) as u64)
            == word_of_bytes(padded_bytes(views[q]).subrange(8 * k, 8 * k + 8)) by {
            let t = n - 1 - q;
            assert(0 <= t < n && n - 1 - t == q);
            assert(mem.word_at((arg_address(regs.rsp, views, n - 1 - t) + 8 * k) as u64)
                == word_of_bytes(padded_bytes(views[n - 1 - t]).subrange(8 * k, 8 * k + 8)));
        }
    }

    // The addresses in argument order.
    let mut addrs: Vec<u64> = Vec::new();
    let mut t = n;
    while t > 0
        invariant
            t <= n,
            n == args@.len(),
            rev@.len() == n,
            views == arg_views(args@),
            forall|q: int|
                0 <= q < n ==> #[trigger] rev@[q] == arg_address(regs.rsp, views, n - 1 - q),
            addrs@.len() == n - t,
            forall|q: int|
                0 <= q < n - t ==> #[trigger] addrs@[q] == arg_address(regs.rsp, views, q),
        decreases t,
    {
        t -= 1;
        addrs.push(rev[t]);
    }

    proof {
        assert(regs.rsp >= 16) by {
            assert(8 * nwords >= 16) by (nonlinear_arith)
                requires
                    nwords >= 2,
            ;
        }
    }
    let first_arg: u64 = if n > 0 {
        addrs[0]
    } else {
        regs.rax
    };
    let entry = RegisterSet {
        rip: target,
        rsp: cursor.sp,
        rbp: regs.rsp - 16,
        rax: first_arg,
        rbx: regs.rbx,
        rcx: regs.rcx,
        rdx: regs.rdx,
        rsi: regs.rsi,
        rdi: regs.rdi,
        r8: regs.r8,
        r9: regs.r9,
        r10: regs.r10,
        r11: regs.r11,
        r12: regs.r12,
        r13: regs.r13,
        r14: regs.r14,
        r15: regs.r15,
    };
    Ok(
        CallPlan {
            target_address: target,
            return_address: regs.rip,
            argument_addresses: addrs,
            entry_registers: entry,
        },
    )
}

/// Commits a prepared call: on a stopped target it hands back the plan's
/// entry registers — which the caller writes as the full snapshot before
/// issuing the continuation — and records the target as running again.  On
/// any other handle nothing changes: a terminal handle reports how the
/// target ended, and a detached or running one is a register access
/// failure.
pub fn commit(handle: &mut TraceeHandle, plan: &CallPlan) -> (r: Result<RegisterSet, TraceError>)
    ensures
        final(handle).pid == old(handle).pid,
        old(handle).phase is Stopped ==> (r matches Ok(regs) && regs == plan.entry_registers
            && final(handle).phase is Running),
        !(old(handle).phase is Stopped) ==> *final(handle) == *old(handle),
        old(handle).phase is Exited ==> r === Err(TraceError::ProcessExitedDuringControl),
        old(handle).phase is Signaled ==> r === Err(TraceError::ProcessSignaledDuringControl),
        (old(handle).phase is Detached || old(handle).phase is Running) ==> r === Err(
            TraceError::RegisterAccessFailure,
        ),
{
    match handle.register_access() {
        Ok(_) => {
            let resumed = handle.resume();
            proof {
                assert(resumed is Ok);
            }
            Ok(plan.entry_registers)
        },
        Err(e) => Err(e),
    }
}

} // verus!
