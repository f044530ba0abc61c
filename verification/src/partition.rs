//! Splitting a load into runs, one for each of a number of workers.

use vstd::prelude::*;
use crate::map::table::reversed;

verus! {

/// The length of a run when `len` values are split for `n` workers: `len / n`,
/// or all of them when that is zero.
pub open spec fn run_len(len: nat, n: nat) -> nat {
    if len / n == 0 {
        len
    } else {
        len / n
    }
}

/// The number of runs: one for a single worker, else as many as it takes to
/// hold `len` values in runs of `run_len`, the last of which may be short.
pub open spec fn run_count(len: nat, n: nat) -> nat {
    if n == 1 {
        1
    } else if len == 0 {
        0
    } else {
        ((len + run_len(len, n) - 1) / (run_len(len, n) as int)) as nat
    }
}

/// The values of run `i`.
pub open spec fn run<T>(data: Seq<T>, n: nat, i: int) -> Seq<T> {
    let c = run_len(data.len(), n) as int;
    let end = if (i + 1) * c < data.len() { (i + 1) * c } else { data.len() as int };
    data.subrange(i * c, end)
}

/// Splits `data` into runs for `num_partitions` workers. The runs hold the
/// values in their order; each but the last holds `data.len() /
/// num_partitions` values, and where that is zero one run holds them all.
/// A single worker gets one run, even an empty one.
pub fn partition_data<T>(data: Vec<T>, num_partitions: usize) -> (parts: Vec<Vec<T>>)
    requires
        num_partitions > 0,
    ensures
        parts@.len() == run_count(data@.len(), num_partitions as nat),
        forall|i: int| 0 <= i < parts@.len() ==> (#[trigger] parts@[i])@ == run(
            data@,
            num_partitions as nat,
            i,
        ),
{
    let ghost all = data@;
    let ghost n = num_partitions as nat;
    let len = data.len();
    let mut out: Vec<Vec<T>> = Vec::new();
    if num_partitions == 1 {
        proof {
            assert(all.subrange(0, all.len() as int) =~= all);
            assert(run(all, n, 0) == all) by (nonlinear_arith)
                requires
                    n == 1,
                    run(all, n, 0) == all.subrange(
                        0 * (run_len(all.len(), n) as int),
                        if (0 + 1) * (run_len(all.len(), n) as int) < all.len() {
                            (0 + 1) * (run_len(all.len(), n) as int)
                        } else {
                            all.len() as int
                        },
                    ),
                    run_len(all.len(), n) == all.len(),
                    all.subrange(0, all.len() as int) == all,
            {
            }
        }
        out.push(data);
        return out;
    }
    let partition_sz = len / num_partitions;
    let ghost c = run_len(all.len(), n) as int;
    let mut rest = reversed(data);
    let mut buf: Vec<T> = Vec::new();
    let mut filled: usize = 0;
    let ghost mut start: int = 0;
    while rest.len() > 0
        invariant
            n > 1,
            c == run_len(all.len(), n),
            partition_sz == all.len() / n,
            forall|j: int| 0 <= j < rest@.len() ==> rest@[j] == all[all.len() - 1 - j],
            start == out@.len() * c,
            start + filled + rest@.len() == all.len(),
            len == all.len(),
            filled == buf@.len(),
            partition_sz > 0 ==> filled < partition_sz,
            partition_sz == 0 ==> out@.len() == 0,
            buf@ == all.subrange(start, start + filled),
            forall|i: int| 0 <= i < out@.len() ==> (#[trigger] out@[i])@ == all.subrange(
                i * c,
                (i + 1) * c,
            ),
        decreases rest@.len(),
    {
        let item = rest.pop().unwrap();
        proof {
            assert(all.subrange(start, start + filled).push(item) =~= all.subrange(
                start,
                start + filled + 1,
            ));
        }
        buf.push(item);
        filled = filled + 1;
        if filled == partition_sz {
            proof {
                assert((out@.len() + 1) * c == out@.len() * c + c) by (nonlinear_arith);
            }
            out.push(buf);
            buf = Vec::new();
            filled = 0;
            proof {
                start = start + c;
                assert(all.subrange(start, start) =~= Seq::<T>::empty());
            }
        }
    }
    let ghost full = out@.len() as int;
    if buf.len() > 0 {
        out.push(buf);
    }
    proof {
        lemma_run_count(all.len() as int, c, full, filled as int);
        assert forall|i: int| 0 <= i < out@.len() implies (#[trigger] out@[i])@ == run(all, n, i) by {
            if i < full {
                lemma_whole_run(all.len() as int, c, full, i);
            } else {
                assert(i == full);
                assert((full + 1) * c == full * c + c) by (nonlinear_arith);
            }
        }
    }
    out
}

/// A run that lies in front of `full` whole runs ends within the values.
proof fn lemma_whole_run(len: int, c: int, full: int, i: int)
    requires
        0 <= i < full,
        0 <= c,
        full * c <= len,
    ensures
        (i + 1) * c <= len,
        !((i + 1) * c < len) ==> (i + 1) * c == len,
{
    assert((i + 1) * c <= full * c) by (nonlinear_arith)
        requires
            i + 1 <= full,
            0 <= c,
    {
    }
}

/// `full` whole runs and what is left make up the number of runs.
proof fn lemma_run_count(len: int, c: int, full: int, left: int)
    requires
        0 <= full,
        0 <= c,
        0 <= left,
        full * c + left == len,
        left < c || (full == 0 && left == c),
        len > 0 ==> c > 0,
        len == 0 ==> full == 0,
    ensures
        len > 0 ==> (len + c - 1) / c == full + if left > 0 { 1int } else { 0 },
        len == 0 ==> full + (if left > 0 { 1int } else { 0 }) == 0,
{
    if len > 0 {
        if left > 0 {
            assert((len + c - 1) / c == full + 1) by (nonlinear_arith)
                requires
                    c > 0,
                    0 < left <= c,
                    full * c + left == len,
            {
                assert(len + c - 1 == (full + 1) * c + (left - 1));
                vstd::arithmetic::div_mod::lemma_fundamental_div_mod_converse(
                    len + c - 1,
                    c,
                    full + 1,
                    left - 1,
                );
            }
        } else {
            assert((len + c - 1) / c == full) by (nonlinear_arith)
                requires
                    c > 0,
                    full * c == len,
            {
                assert(len + c - 1 == full * c + (c - 1));
                vstd::arithmetic::div_mod::lemma_fundamental_div_mod_converse(
                    len + c - 1,
                    c,
                    full,
                    c - 1,
                );
            }
        }
    }
}

} // verus!
