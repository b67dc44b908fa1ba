use vstd::prelude::*;

verus! {

/// A half-open range `[start, end)` of record indices that one worker writes.
#[derive(Clone, Copy, Debug, PartialEq, Eq, Structural)]
pub struct Shard {
    pub id: u64,
    pub start: u64,
    pub end: u64,
}

/// The worker count actually used: at least one.
pub open spec fn workers(parallelism: nat) -> nat {
    if parallelism == 0 {
        1
    } else {
        parallelism
    }
}

/// The number of records each shard covers (the last may cover fewer):
/// the remaining count divided by the worker count, rounded up.
pub open spec fn chunk_len(remaining: nat, parallelism: nat) -> nat {
    ((remaining + workers(parallelism) - 1) / (workers(parallelism) as int)) as nat
}

/// How many shards the plan has: enough chunks to cover the remaining
/// records, none of them empty.
pub open spec fn shard_count(remaining: nat, parallelism: nat) -> nat {
    if remaining == 0 {
        0
    } else {
        ((remaining + chunk_len(remaining, parallelism) - 1) / (chunk_len(
            remaining,
            parallelism,
        ) as int)) as nat
    }
}

/// Shard `k` of the plan that partitions `[offset, total)` among the workers.
pub open spec fn planned_shard(offset: nat, total: nat, parallelism: nat, k: nat) -> Shard {
    let c = chunk_len((total - offset) as nat, parallelism);
    let s = offset + k * c;
    let e = offset + (k + 1) * c;
    Shard { id: k as u64, start: s as u64, end: (if e < total { e } else { total }) as u64 }
}

/// The plan that partitions `[offset, total)` among the workers.
pub open spec fn shard_plan(offset: nat, total: nat, parallelism: nat) -> Seq<Shard> {
    Seq::new(
        shard_count((total - offset) as nat, parallelism),
        |k: int| planned_shard(offset, total, parallelism, k as nat),
    )
}

/// Splits `[offset, total)` into contiguous, non-empty shards of
/// `ceil(remaining / parallelism)` records, the last one clipped to `total`.
/// The same arguments always give the same plan. A parallelism of 0 is
/// taken as 1.
pub fn plan_shards(offset: u64, total: u64, parallelism: u64) -> (r: Vec<Shard>)
    requires
        offset <= total,
    ensures
        r@ == shard_plan(offset as nat, total as nat, parallelism as nat),
{
    let p: u64 = if parallelism == 0 {
        1
    } else {
        parallelism
    };
    let remaining: u64 = total - offset;
    let mut shards: Vec<Shard> = Vec::new();
    if remaining == 0 {
        assert(shards@ =~= shard_plan(offset as nat, total as nat, parallelism as nat));
        return shards;
    }
    let q: u64 = remaining / p;
    proof {
        assert(remaining % p != 0 ==> q < remaining) by (nonlinear_arith)
            requires
                p > 0,
                q == remaining / p,
                remaining > 0,
        ;
    }
    let chunk: u64 = if remaining % p == 0 {
        q
    } else {
        q + 1
    };
    let ghost c = chunk_len(remaining as nat, parallelism as nat);
    proof {
        assert(chunk == c) by (nonlinear_arith)
            requires
                p > 0,
                p == workers(parallelism as nat),
                chunk == remaining / p + if remaining % p == 0 {
                    0int
                } else {
                    1int
                },
                c == (remaining + p - 1) / (p as int),
        ;
        assert(1 <= chunk <= remaining) by (nonlinear_arith)
            requires
                p > 0,
                remaining > 0,
                chunk == remaining / p + if remaining % p == 0 {
                    0int
                } else {
                    1int
                },
        ;
    }
    let mut s: u64 = offset;
    let mut k: u64 = 0;
    while s < total
        invariant
            offset <= s <= total,
            remaining == total - offset,
            1 <= chunk <= remaining,
            chunk == c,
            c == chunk_len(remaining as nat, parallelism as nat),
            s == (if offset + k * c < total { offset + k * c } else { total as int }),
            k <= remaining,
            k * c < remaining + c,
            shards@ =~= Seq::new(
                k as nat,
                |j: int| planned_shard(offset as nat, total as nat, parallelism as nat, j as nat),
            ),
        decreases total - s,
    {
        let e: u64 = if total - s <= chunk {
            total
        } else {
            s + chunk
        };
        proof {
            assert((k + 1) * c == k * c + c) by (nonlinear_arith);
            assert(k + 1 <= remaining) by (nonlinear_arith)
                requires
                    k * c < remaining,
                    c >= 1,
            ;
        }
        shards.push(Shard { id: k, start: s, end: e });
        s = e;
        k = k + 1;
    }
    proof {
        let n = shard_count(remaining as nat, parallelism as nat);
        assert(k == n) by (nonlinear_arith)
            requires
                k * c >= remaining,
                k * c < remaining + c,
                c >= 1,
                remaining > 0,
                n == (remaining + c - 1) / (c as int),
        ;
    }
    shards
}

proof fn lemma_chunk_bounds(remaining: nat, parallelism: nat)
    requires
        remaining > 0,
    ensures
        1 <= chunk_len(remaining, parallelism) <= remaining,
        shard_count(remaining, parallelism) * chunk_len(remaining, parallelism) >= remaining,
        (shard_count(remaining, parallelism) - 1) * chunk_len(remaining, parallelism) < remaining,
        1 <= shard_count(remaining, parallelism) <= workers(parallelism),
        shard_count(remaining, parallelism) <= remaining,
{
    let p = workers(parallelism);
    let c = chunk_len(remaining, parallelism);
    let n = shard_count(remaining, parallelism);
    assert(1 <= c <= remaining && c * p >= remaining) by (nonlinear_arith)
        requires
            p >= 1,
            remaining > 0,
            c == (remaining + p - 1) / (p as int),
    ;
    assert(n * c >= remaining && (n - 1) * c < remaining && 1 <= n <= p && n <= remaining)
        by (nonlinear_arith)
        requires
            1 <= c <= remaining,
            c * p >= remaining,
            p >= 1,
            n == (remaining + c - 1) / (c as int),
    ;
}

/// The plan partitions `[offset, total)`: it is empty exactly when nothing
/// remains, has no more shards than workers, starts at `offset`, ends at
/// `total`, and each shard is non-empty and ends where the next one starts.
pub proof fn lemma_plan_partitions(offset: nat, total: nat, parallelism: nat)
    requires
        offset <= total <= u64::MAX,
    ensures
        ({
            let plan = shard_plan(offset, total, parallelism);
            &&& plan.len() == 0 <==> offset == total
            &&& plan.len() <= workers(parallelism)
            &&& plan.len() > 0 ==> plan[0].start == offset && plan.last().end == total
            &&& forall|k: int|
                0 <= k < plan.len() ==> (#[trigger] plan[k]).id == k && offset <= plan[k].start
                    < plan[k].end <= total
            &&& forall|k: int| 0 <= k < plan.len() - 1 ==> #[trigger] plan[k].end == plan[k + 1].start
        }),
{
    let plan = shard_plan(offset, total, parallelism);
    let remaining = (total - offset) as nat;
    if remaining > 0 {
        lemma_chunk_bounds(remaining, parallelism);
        let c = chunk_len(remaining, parallelism);
        let n = shard_count(remaining, parallelism);
        assert(0 * c == 0);
        assert forall|k: int| 0 <= k < plan.len() implies (#[trigger] plan[k]).id == k && offset
            <= plan[k].start < plan[k].end <= total by {
            assert(k * c <= (n - 1) * c) by (nonlinear_arith)
                requires
                    0 <= k < n,
                    c >= 1,
            ;
            assert((k + 1) * c == k * c + c) by (nonlinear_arith);
        }
        assert forall|k: int| 0 <= k < plan.len() - 1 implies #[trigger] plan[k].end == plan[k
            + 1].start by {
            assert((k + 1) * c <= (n - 1) * c) by (nonlinear_arith)
                requires
                    0 <= k + 1 < n,
                    c >= 1,
            ;
            assert((k + 1) * c == k * c + c) by (nonlinear_arith);
        }
        assert((n - 1) * c + c == n * c) by (nonlinear_arith);
        assert(plan.last() == plan[n - 1]);
        assert(plan.last().end == total);
    }
}

} // verus!
