use crate::frame::{join, lemma_join_prefix_step, lemma_join_slice, uniform};
use crate::shard::{lemma_plan_partitions, plan_shards, shard_plan, Shard};
use vstd::bytes::*;
use vstd::prelude::*;
use vstd::slice::slice_subrange;

verus! {

/// An entry is meaningful for its shard: absent, or an index inside the shard.
pub open spec fn entry_valid(s: Shard, e: Option<u64>) -> bool {
    e matches Some(v) ==> s.start <= v < s.end
}

/// The shard is durably written: its entry names its last index.
pub open spec fn shard_done(s: Shard, e: Option<u64>) -> bool {
    e == Some((s.end - 1) as u64)
}

/// Per-shard write progress of one run: for each shard of the plan for
/// `total` records among `parallelism` workers, the highest index known to be
/// durably written, if any.
#[derive(Clone, Debug, PartialEq, Eq)]
pub struct CheckpointTable {
    pub total: u64,
    pub parallelism: u64,
    pub progress: Vec<Option<u64>>,
}

/// The shards of `plan` that are not done, in plan order, among the first `n`.
pub open spec fn pending_among(plan: Seq<Shard>, progress: Seq<Option<u64>>, n: nat) -> Seq<Shard>
    decreases n,
{
    if n == 0 {
        Seq::empty()
    } else if shard_done(plan[n - 1], progress[n - 1]) {
        pending_among(plan, progress, (n - 1) as nat)
    } else {
        pending_among(plan, progress, (n - 1) as nat).push(plan[n - 1])
    }
}

impl CheckpointTable {
    pub open spec fn plan(&self) -> Seq<Shard> {
        shard_plan(0, self.total as nat, self.parallelism as nat)
    }

    /// One entry per planned shard, each meaningful for its shard.
    pub open spec fn wf(&self) -> bool {
        &&& self.progress@.len() == self.plan().len()
        &&& forall|k: int|
            0 <= k < self.progress@.len() ==> #[trigger] entry_valid(
                self.plan()[k],
                self.progress@[k],
            )
    }

    pub open spec fn complete(&self) -> bool {
        forall|k: int|
            0 <= k < self.progress@.len() ==> #[trigger] shard_done(
                self.plan()[k],
                self.progress@[k],
            )
    }

    pub open spec fn pending(&self) -> Seq<Shard> {
        pending_among(self.plan(), self.progress@, self.progress@.len())
    }

    /// A table with no progress for the plan of `total` records among
    /// `parallelism` workers.
    pub fn new(total: u64, parallelism: u64) -> (r: CheckpointTable)
        ensures
            r.wf(),
            r.total == total,
            r.parallelism == parallelism,
            r.progress@ == Seq::new(r.plan().len(), |k: int| None::<u64>),
    {
        let plan = plan_shards(0, total, parallelism);
        let mut progress: Vec<Option<u64>> = Vec::new();
        let mut k: usize = 0;
        while k < plan.len()
            invariant
                k <= plan@.len(),
                progress@ == Seq::new(k as nat, |j: int| None::<u64>),
            decreases plan@.len() - k,
        {
            progress.push(None);
            k = k + 1;
            assert(progress@ =~= Seq::new(k as nat, |j: int| None::<u64>));
        }
        CheckpointTable { total, parallelism, progress }
    }

    /// Records that shard `shard_id` is durably written up to `up_to_index`.
    /// Progress never moves backward: a report below the stored index, for a
    /// shard outside the plan, or for an index outside the shard, is refused
    /// and changes nothing.
    pub fn record_progress(&mut self, shard_id: u64, up_to_index: u64) -> (accepted: bool)
        requires
            old(self).wf(),
        ensures
            final(self).wf(),
            final(self).total == old(self).total,
            final(self).parallelism == old(self).parallelism,
            accepted == (shard_id < old(self).progress@.len() && {
                let s = old(self).plan()[shard_id as int];
                let e = old(self).progress@[shard_id as int];
                &&& s.start <= up_to_index < s.end
                &&& (e matches Some(v) ==> v <= up_to_index)
            }),
            accepted ==> final(self).progress@ == old(self).progress@.update(
                shard_id as int,
                Some(up_to_index),
            ),
            !accepted ==> final(self).progress@ == old(self).progress@,
            forall|k: int|
                0 <= k < old(self).progress@.len() && (#[trigger] old(self).progress@[k]) is Some
                    ==> final(self).progress@[k] is Some && old(self).progress@[k]->Some_0
                    <= final(self).progress@[k]->Some_0,
    {
        let plan = plan_shards(0, self.total, self.parallelism);
        if shard_id as usize >= self.progress.len() || shard_id >= self.progress.len() as u64 {
            return false;
        }
        let s = plan[shard_id as usize];
        if up_to_index < s.start || up_to_index >= s.end {
            return false;
        }
        match self.progress[shard_id as usize] {
            Some(v) => {
                if up_to_index < v {
                    return false;
                }
            },
            None => {},
        }
        self.progress.set(shard_id as usize, Some(up_to_index));
        true
    }

    /// Every planned shard is durably written.
    pub fn is_complete(&self) -> (r: bool)
        requires
            self.wf(),
        ensures
            r == self.complete(),
    {
        let plan = plan_shards(0, self.total, self.parallelism);
        proof {
            lemma_plan_partitions(0, self.total as nat, self.parallelism as nat);
        }
        let mut k: usize = 0;
        while k < self.progress.len()
            invariant
                self.wf(),
                plan@ == self.plan(),
                forall|j: int| 0 <= j < plan@.len() ==> (#[trigger] plan@[j]).start < plan@[j].end,
                k <= self.progress@.len(),
                forall|j: int| 0 <= j < k ==> #[trigger] shard_done(plan@[j], self.progress@[j]),
            decreases self.progress@.len() - k,
        {
            if self.progress[k] != Some(plan[k].end - 1) {
                assert(!shard_done(self.plan()[k as int], self.progress@[k as int]));
                return false;
            }
            k = k + 1;
        }
        true
    }

    /// The shards still to write, in plan order: those whose entry is
    /// missing or short of the shard's last index.
    pub fn pending_shards(&self) -> (r: Vec<Shard>)
        requires
            self.wf(),
        ensures
            r@ == self.pending(),
    {
        let plan = plan_shards(0, self.total, self.parallelism);
        proof {
            lemma_plan_partitions(0, self.total as nat, self.parallelism as nat);
        }
        let mut out: Vec<Shard> = Vec::new();
        let mut k: usize = 0;
        while k < self.progress.len()
            invariant
                self.wf(),
                plan@ == self.plan(),
                forall|j: int| 0 <= j < plan@.len() ==> (#[trigger] plan@[j]).start < plan@[j].end,
                k <= self.progress@.len(),
                out@ == pending_among(plan@, self.progress@, k as nat),
            decreases self.progress@.len() - k,
        {
            let s = plan[k];
            if self.progress[k] != Some(s.end - 1) {
                out.push(s);
            }
            k = k + 1;
        }
        out
    }
}

/// The 9 bytes of one entry: a presence flag, then the index (0 when absent).
pub open spec fn entry_bytes(e: Option<u64>) -> Seq<u8> {
    match e {
        Some(v) => seq![1u8] + spec_u64_to_le_bytes(v),
        None => seq![0u8] + spec_u64_to_le_bytes(0),
    }
}

/// The saved form of a table: total, parallelism and entry count as
/// little-endian `u64`s, then the entries in shard order.
pub open spec fn checkpoint_bytes(total: u64, parallelism: u64, progress: Seq<Option<u64>>) -> Seq<
    u8,
> {
    spec_u64_to_le_bytes(total) + spec_u64_to_le_bytes(parallelism) + spec_u64_to_le_bytes(
        progress.len() as u64,
    ) + join(progress.map_values(|e: Option<u64>| entry_bytes(e)))
}

/// The bytes of entry `i` of a saved table.
pub open spec fn entry_slot(b: Seq<u8>, i: int) -> Seq<u8> {
    b.subrange(24 + 9 * i, 33 + 9 * i)
}

/// The entry that 9 saved bytes hold, if the flag is 0 or 1.
pub open spec fn entry_of(b: Seq<u8>) -> Option<Option<u64>> {
    if b[0] == 0 {
        Some(None)
    } else if b[0] == 1 {
        Some(Some(spec_u64_from_le_bytes(b.subrange(1, 9))))
    } else {
        None
    }
}

/// The total, parallelism and entries that saved bytes hold, if they are
/// well formed.
pub open spec fn parse_checkpoint(b: Seq<u8>) -> Option<(u64, u64, Seq<Option<u64>>)> {
    if b.len() < 24 {
        None
    } else {
        let n = spec_u64_from_le_bytes(b.subrange(16, 24));
        if b.len() != 24 + 9 * n {
            None
        } else if forall|i: int| 0 <= i < n ==> #[trigger] entry_of(entry_slot(b, i)) is Some {
            Some(
                (
                    spec_u64_from_le_bytes(b.subrange(0, 8)),
                    spec_u64_from_le_bytes(b.subrange(8, 16)),
                    Seq::new(n as nat, |i: int| entry_of(entry_slot(b, i))->Some_0),
                ),
            )
        } else {
            None
        }
    }
}

/// Saved bytes hold a table that fits the plan for `total` records among
/// `parallelism` workers.
pub open spec fn resumable(b: Seq<u8>, total: u64, parallelism: u64) -> bool {
    parse_checkpoint(b) matches Some(t) && t.0 == total && t.1 == parallelism && shard_plan(
        0,
        total as nat,
        parallelism as nat,
    ).len() == t.2.len() && forall|k: int|
        0 <= k < t.2.len() ==> #[trigger] entry_valid(
            shard_plan(0, total as nat, parallelism as nat)[k],
            t.2[k],
        )
}

impl CheckpointTable {
    /// The saved form of this table.
    pub fn to_bytes(&self) -> (r: Vec<u8>)
        ensures
            r@ == checkpoint_bytes(self.total, self.parallelism, self.progress@),
    {
        let mut out = u64_to_le_bytes(self.total);
        let mut b = u64_to_le_bytes(self.parallelism);
        out.append(&mut b);
        let mut b = u64_to_le_bytes(self.progress.len() as u64);
        out.append(&mut b);
        let ghost head = out@;
        let ghost parts = self.progress@.map_values(|e: Option<u64>| entry_bytes(e));
        let mut k: usize = 0;
        while k < self.progress.len()
            invariant
                k <= self.progress@.len(),
                parts == self.progress@.map_values(|e: Option<u64>| entry_bytes(e)),
                out@ == head + join(parts.subrange(0, k as int)),
            decreases self.progress@.len() - k,
        {
            proof {
                lemma_join_prefix_step(parts, k as int);
            }
            match self.progress[k] {
                Some(v) => {
                    out.push(1u8);
                    let mut b = u64_to_le_bytes(v);
                    out.append(&mut b);
                },
                None => {
                    out.push(0u8);
                    let mut b = u64_to_le_bytes(0);
                    out.append(&mut b);
                },
            }
            k = k + 1;
            assert(out@ =~= head + join(parts.subrange(0, k as int)));
        }
        assert(parts.subrange(0, parts.len() as int) =~= parts);
        assert(out@ =~= checkpoint_bytes(self.total, self.parallelism, self.progress@));
        out
    }

    /// The table saved in `bytes` when it is well formed and fits the plan
    /// for `total` records among `parallelism` workers; otherwise (missing,
    /// corrupt or from another plan) a table with no progress.
    pub fn load(bytes: &[u8], total: u64, parallelism: u64) -> (r: CheckpointTable)
        ensures
            r.wf(),
            r.total == total,
            r.parallelism == parallelism,
            resumable(bytes@, total, parallelism) ==> r.progress@ == parse_checkpoint(
                bytes@,
            )->Some_0.2,
            !resumable(bytes@, total, parallelism) ==> r.progress@ == Seq::new(
                r.plan().len(),
                |k: int| None::<u64>,
            ),
    {
        let fresh = CheckpointTable::new(total, parallelism);
        let len = bytes.len();
        if len < 24 {
            return fresh;
        }
        let n = u64_from_le_bytes(slice_subrange(bytes, 16, 24));
        let rest = len - 24;
        if rest % 9 != 0 || (rest / 9) as u64 != n {
            proof {
                assert(len != 24 + 9 * n) by (nonlinear_arith)
                    requires
                        rest == len - 24,
                        rest % 9 != 0 || rest / 9 != n,
                ;
            }
            return fresh;
        }
        proof {
            assert(len == 24 + 9 * n) by (nonlinear_arith)
                requires
                    rest == len - 24,
                    rest % 9 == 0,
                    rest / 9 == n,
            ;
        }
        let plan = plan_shards(0, total, parallelism);
        if n != plan.len() as u64 {
            return fresh;
        }
        let mut progress: Vec<Option<u64>> = Vec::new();
        let mut i: u64 = 0;
        while i < n
            invariant
                fresh.wf(),
                fresh.total == total,
                fresh.parallelism == parallelism,
                fresh.progress@ == Seq::new(fresh.plan().len(), |k: int| None::<u64>),
                len == bytes@.len(),
                len == 24 + 9 * n,
                n == plan@.len(),
                plan@ == shard_plan(0, total as nat, parallelism as nat),
                i <= n,
                progress@.len() == i,
                forall|j: int| 0 <= j < i ==> #[trigger] entry_of(entry_slot(bytes@, j)) is Some,
                forall|j: int|
                    0 <= j < i ==> #[trigger] progress@[j] == entry_of(entry_slot(bytes@, j))->Some_0,
                forall|j: int| 0 <= j < i ==> #[trigger] entry_valid(plan@[j], progress@[j]),
            decreases n - i,
        {
            let at = (24 + 9 * i) as usize;
            let ghost e = entry_slot(bytes@, i as int);
            assert(e[0] == bytes@[at as int]);
            let flag = bytes[at];
            let entry = if flag == 0 {
                None
            } else if flag == 1 {
                let v = u64_from_le_bytes(slice_subrange(bytes, at + 1, at + 9));
                assert(e.subrange(1, 9) =~= bytes@.subrange(at + 1, at + 9));
                Some(v)
            } else {
                assert(entry_of(e) is None);
                assert(parse_checkpoint(bytes@) is None);
                return fresh;
            };
            assert(entry_of(e) == Some(entry));
            let s = plan[i as usize];
            match entry {
                Some(v) => {
                    if v < s.start || v >= s.end {
                        assert(!entry_valid(plan@[i as int], entry));
                        assert(parse_checkpoint(bytes@) matches Some(t) ==> t.2[i as int] == entry);
                        return fresh;
                    }
                },
                None => {},
            }
            progress.push(entry);
            i = i + 1;
        }
        let t0 = u64_from_le_bytes(slice_subrange(bytes, 0, 8));
        let t1 = u64_from_le_bytes(slice_subrange(bytes, 8, 16));
        assert(progress@ =~= parse_checkpoint(bytes@)->Some_0.2);
        if t0 != total || t1 != parallelism {
            return fresh;
        }
        CheckpointTable { total, parallelism, progress }
    }
}

/// Saving a table and loading it back for the same plan gives the same table.
pub proof fn lemma_checkpoint_round_trip(t: CheckpointTable)
    requires
        t.wf(),
    ensures
        parse_checkpoint(checkpoint_bytes(t.total, t.parallelism, t.progress@)) == Some(
            (t.total, t.parallelism, t.progress@),
        ),
        resumable(checkpoint_bytes(t.total, t.parallelism, t.progress@), t.total, t.parallelism),
{
    lemma_auto_spec_u64_to_from_le_bytes();
    lemma_plan_partitions(0, t.total as nat, t.parallelism as nat);
    let b = checkpoint_bytes(t.total, t.parallelism, t.progress@);
    let es = t.progress@;
    let n = es.len();
    let parts = es.map_values(|e: Option<u64>| entry_bytes(e));
    assert(uniform(parts, 9));
    lemma_join_slice(parts, 9, 0, n as int);
    let head = spec_u64_to_le_bytes(t.total) + spec_u64_to_le_bytes(t.parallelism)
        + spec_u64_to_le_bytes(n as u64);
    assert(b.subrange(0, 8) =~= spec_u64_to_le_bytes(t.total));
    assert(b.subrange(8, 16) =~= spec_u64_to_le_bytes(t.parallelism));
    assert(b.subrange(16, 24) =~= spec_u64_to_le_bytes(n as u64));
    assert forall|i: int| 0 <= i < n implies #[trigger] entry_of(entry_slot(b, i)) == Some(es[i]) by {
        lemma_join_slice(parts, 9, i, i + 1);
        assert(parts.subrange(i, i + 1) =~= seq![parts[i]]);
        assert(join(Seq::<Seq<u8>>::empty()) == Seq::<u8>::empty());
        assert(join(seq![parts[i]]) =~= parts[i]);
        assert(entry_slot(b, i) =~= join(parts).subrange(i * 9, (i + 1) * 9));
        assert(entry_slot(b, i).subrange(1, 9) =~= parts[i].subrange(1, 9));
        match es[i] {
            Some(v) => {
                assert(parts[i].subrange(1, 9) =~= spec_u64_to_le_bytes(v));
            },
            None => {},
        }
    }
    assert(Seq::new(n as nat, |i: int| entry_of(entry_slot(b, i))->Some_0) =~= es);
}

} // verus!
