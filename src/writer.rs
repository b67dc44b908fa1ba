use crate::checkpoint::{pending_among, shard_done, CheckpointTable};
use crate::codec::{
    encode_outcome, encode_record, lemma_decode_encode_record, record_fits, record_size, records_view,
    CodecError, FieldKind, FieldModel, Record, Schema,
};
use crate::frame::{join, lemma_join_len, lemma_join_prefix_step};
use crate::layout::{all_fit, encoded_records, file_image, record_pos, HEADER_SIZE};
use crate::reader::{
    lemma_file_image_count, lemma_file_image_range, lemma_read_range_of_written, read_outcome,
    stored_count, ReadError,
};
use crate::shard::{lemma_plan_partitions, shard_plan, Shard};
use vstd::bytes::*;
use vstd::prelude::*;

verus! {

/// Why a write did not complete.
#[derive(Clone, Debug, PartialEq, Eq)]
pub enum WriteError {
    /// The record at this index does not have the schema's shape; nothing was written.
    Codec { index: u64, error: CodecError },
    /// The file would reach past the largest `u64` offset; nothing was written.
    TooLarge,
    /// These shards did not report completion; their progress is kept for a resumed run.
    PartialWrite { incomplete: Vec<u64> },
}

/// Checks, before anything is written, that every record has the schema's
/// shape and that the file fits `u64` offsets; gives the file's length.
pub fn prepare_write(schema: &Schema, records: &[Record]) -> (r: Result<u64, WriteError>)
    requires
        schema.wf(),
    ensures
        r matches Ok(len) ==> all_fit(schema.kinds@, records_view(records@)) && len == record_pos(
            record_size(schema.kinds@),
            records@.len(),
        ),
        r matches Err(WriteError::Codec { index, error }) ==> index < records@.len() && !record_fits(
            schema.kinds@,
            records@[index as int]@,
        ) && encode_outcome(schema.kinds@, records@[index as int]@, Err(error)) && forall|j: int|
            0 <= j < index ==> record_fits(schema.kinds@, #[trigger] records@[j]@),
        r == Err::<u64, WriteError>(WriteError::TooLarge) <==> all_fit(
            schema.kinds@,
            records_view(records@),
        ) && record_pos(record_size(schema.kinds@), records@.len()) > u64::MAX,
        !(r matches Err(WriteError::PartialWrite { .. })),
        all_fit(schema.kinds@, records_view(records@)) ==> !(r matches Err(WriteError::Codec { .. })),
{
    let mut i: usize = 0;
    let mut scratch: Vec<u8> = Vec::new();
    while i < records.len()
        invariant
            schema.wf(),
            i <= records@.len(),
            forall|j: int| 0 <= j < i ==> record_fits(schema.kinds@, #[trigger] records@[j]@),
        decreases records@.len() - i,
    {
        scratch.clear();
        match schema.encode_into(&records[i], &mut scratch) {
            Ok(()) => {},
            Err(e) => {
                assert(records_view(records@)[i as int] == records@[i as int]@);
                assert(!record_fits(schema.kinds@, records_view(records@)[i as int]));
                return Err(WriteError::Codec { index: i as u64, error: e });
            },
        }
        i = i + 1;
    }
    let n = records.len() as u64;
    let size = schema.size as u64;
    assert(all_fit(schema.kinds@, records_view(records@)));
    match n.checked_mul(size) {
        Some(payload) => {
            if payload > u64::MAX - 8 {
                Err(WriteError::TooLarge)
            } else {
                Ok(8 + payload)
            }
        },
        None => Err(WriteError::TooLarge),
    }
}

/// The file offset at which a shard's bytes go.
pub fn shard_offset(schema: &Schema, shard: Shard) -> (r: u64)
    requires
        schema.wf(),
        shard.start <= shard.end,
        record_pos(record_size(schema.kinds@), shard.end as nat) <= u64::MAX,
    ensures
        r == record_pos(record_size(schema.kinds@), shard.start as nat),
{
    proof {
        assert(shard.start * schema.size <= shard.end * schema.size) by (nonlinear_arith)
            requires
                shard.start <= shard.end,
        ;
    }
    8 + shard.start * (schema.size as u64)
}

/// The bytes of records `[shard.start, shard.end)`, one slot after the other.
pub fn encode_shard(schema: &Schema, records: &[Record], shard: Shard) -> (r: Vec<u8>)
    requires
        schema.wf(),
        all_fit(schema.kinds@, records_view(records@)),
        shard.start <= shard.end <= records@.len(),
    ensures
        r@ == encoded_records(
            schema.kinds@,
            records_view(records@).subrange(shard.start as int, shard.end as int),
        ),
{
    let ghost recs = records_view(records@).subrange(shard.start as int, shard.end as int);
    let ghost parts = recs.map_values(|x: Seq<FieldModel>| encode_record(schema.kinds@, x));
    let mut out: Vec<u8> = Vec::new();
    let mut i: u64 = shard.start;
    while i < shard.end
        invariant
            schema.wf(),
            all_fit(schema.kinds@, records_view(records@)),
            shard.start <= i <= shard.end <= records@.len(),
            recs == records_view(records@).subrange(shard.start as int, shard.end as int),
            parts == recs.map_values(|x: Seq<FieldModel>| encode_record(schema.kinds@, x)),
            out@ == join(parts.subrange(0, i - shard.start)),
        decreases shard.end - i,
    {
        proof {
            lemma_join_prefix_step(parts, i - shard.start);
            assert(record_fits(schema.kinds@, records_view(records@)[i as int]));
        }
        let encoded = schema.encode_into(&records[i as usize], &mut out);
        assert(encoded is Ok);
        i = i + 1;
    }
    assert(parts.subrange(0, parts.len() as int) =~= parts);
    out
}

/// The outcome of a run once every worker has returned: done when every
/// planned shard is durably written, else the shards still to write.
pub fn finish_write(table: &CheckpointTable) -> (r: Result<(), WriteError>)
    requires
        table.wf(),
    ensures
        r is Ok <==> table.complete(),
        r matches Err(e) ==> e matches WriteError::PartialWrite { incomplete } && incomplete@
            == table.pending().map_values(|s: Shard| s.id),
{
    if table.is_complete() {
        return Ok(());
    }
    let pending = table.pending_shards();
    let mut ids: Vec<u64> = Vec::new();
    let mut k: usize = 0;
    while k < pending.len()
        invariant
            k <= pending@.len(),
            ids@ == pending@.subrange(0, k as int).map_values(|s: Shard| s.id),
        decreases pending@.len() - k,
    {
        ids.push(pending[k].id);
        k = k + 1;
        assert(ids@ =~= pending@.subrange(0, k as int).map_values(|s: Shard| s.id));
    }
    assert(pending@.subrange(0, pending@.len() as int) =~= pending@);
    Err(WriteError::PartialWrite { incomplete: ids })
}

/// `img` with `bytes` written at offset `off`.
pub open spec fn write_at(img: Seq<u8>, off: int, bytes: Seq<u8>) -> Seq<u8> {
    img.subrange(0, off) + bytes + img.subrange(off + bytes.len(), img.len() as int)
}

/// The bytes that a worker writes for a shard.
pub open spec fn shard_bytes(kinds: Seq<FieldKind>, recs: Seq<Seq<FieldModel>>, s: Shard) -> Seq<u8> {
    encoded_records(kinds, recs.subrange(s.start as int, s.end as int))
}

/// The bytes of a file where a shard's records belong.
pub open spec fn region(kinds: Seq<FieldKind>, img: Seq<u8>, s: Shard) -> Seq<u8> {
    img.subrange(
        record_pos(record_size(kinds), s.start as nat) as int,
        record_pos(record_size(kinds), s.end as nat) as int,
    )
}

/// What a run leaves in a pre-sized file `img`: the header, then the bytes
/// of each of `shards` at its offset, in order.
pub open spec fn run_image(
    kinds: Seq<FieldKind>,
    recs: Seq<Seq<FieldModel>>,
    img: Seq<u8>,
    shards: Seq<Shard>,
) -> Seq<u8>
    decreases shards.len(),
{
    if shards.len() == 0 {
        write_at(img, 0, spec_u64_to_le_bytes(recs.len() as u64))
    } else {
        write_at(
            run_image(kinds, recs, img, shards.drop_last()),
            record_pos(record_size(kinds), shards.last().start as nat) as int,
            shard_bytes(kinds, recs, shards.last()),
        )
    }
}

proof fn lemma_write_at(img: Seq<u8>, off: int, bytes: Seq<u8>, a: int, e: int)
    requires
        0 <= off,
        off + bytes.len() <= img.len(),
        0 <= a <= e <= img.len(),
        e <= off || a >= off + bytes.len(),
    ensures
        write_at(img, off, bytes).len() == img.len(),
        write_at(img, off, bytes).subrange(off, off + bytes.len()) == bytes,
        write_at(img, off, bytes).subrange(a, e) == img.subrange(a, e),
{
    assert(write_at(img, off, bytes).subrange(off, off + bytes.len()) =~= bytes);
    assert(write_at(img, off, bytes).subrange(a, e) =~= img.subrange(a, e));
}

proof fn lemma_pos_mono(size: nat, a: nat, b: nat)
    requires
        a <= b,
    ensures
        record_pos(size, a) <= record_pos(size, b),
        record_pos(size, b) - record_pos(size, a) == (b - a) * size,
{
    assert(a * size <= b * size) by (nonlinear_arith)
        requires
            a <= b,
    ;
    assert((b - a) * size == b * size - a * size) by (nonlinear_arith);
}

/// Shards of a plan lie in order, apart from each other, within the records.
proof fn lemma_plan_apart(total: nat, parallelism: nat, j: int, k: int)
    requires
        total <= u64::MAX,
        0 <= j < k < shard_plan(0, total, parallelism).len(),
    ensures
        shard_plan(0, total, parallelism)[j].end <= shard_plan(0, total, parallelism)[k].start,
    decreases k - j,
{
    lemma_plan_partitions(0, total, parallelism);
    if k > j + 1 {
        lemma_plan_apart(total, parallelism, j, k - 1);
    }
}

/// What `pending_among` holds: exactly the planned shards that are not done.
proof fn lemma_pending_members(plan: Seq<Shard>, progress: Seq<Option<u64>>, n: nat)
    requires
        n <= plan.len(),
        n <= progress.len(),
        forall|k: int| 0 <= k < plan.len() ==> (#[trigger] plan[k]).id == k,
    ensures
        forall|i: int|
            0 <= i < pending_among(plan, progress, n).len() ==> {
                let s = #[trigger] pending_among(plan, progress, n)[i];
                &&& s.id < n
                &&& plan[s.id as int] == s
                &&& !shard_done(s, progress[s.id as int])
            },
        forall|k: int|
            0 <= k < n && !shard_done(plan[k], progress[k]) ==> pending_among(
                plan,
                progress,
                n,
            ).contains(#[trigger] plan[k]),
    decreases n,
{
    if n > 0 {
        lemma_pending_members(plan, progress, (n - 1) as nat);
        let prev = pending_among(plan, progress, (n - 1) as nat);
        if !shard_done(plan[n - 1], progress[n - 1]) {
            let cur = prev.push(plan[n - 1]);
            assert(cur[prev.len() as int] == plan[n - 1]);
            assert forall|k: int|
                0 <= k < n && !shard_done(plan[k], progress[k]) implies cur.contains(
                #[trigger] plan[k],
            ) by {
                if k < n - 1 {
                    let i = choose|i: int| 0 <= i < prev.len() && prev[i] == plan[k];
                    assert(cur[i] == plan[k]);
                }
            }
        }
    }
}

/// Every planned shard lies within the file, after the header, and its
/// bytes fill its region exactly.
proof fn lemma_plan_regions(kinds: Seq<FieldKind>, recs: Seq<Seq<FieldModel>>, parallelism: nat)
    requires
        all_fit(kinds, recs),
        recs.len() <= u64::MAX,
        record_pos(record_size(kinds), recs.len()) <= u64::MAX,
    ensures
        ({
            let plan = shard_plan(0, recs.len(), parallelism);
            let size = record_size(kinds);
            forall|k: int|
                0 <= k < plan.len() ==> {
                    &&& HEADER_SIZE <= record_pos(size, (#[trigger] plan[k]).start as nat)
                    &&& record_pos(size, plan[k].start as nat) <= record_pos(size, plan[k].end as nat)
                    &&& record_pos(size, plan[k].end as nat) <= record_pos(size, recs.len())
                    &&& shard_bytes(kinds, recs, plan[k]).len() == record_pos(
                        size,
                        plan[k].end as nat,
                    ) - record_pos(size, plan[k].start as nat)
                    &&& region(kinds, file_image(kinds, recs), plan[k]) == shard_bytes(
                        kinds,
                        recs,
                        plan[k],
                    )
                }
        }),
{
    let plan = shard_plan(0, recs.len(), parallelism);
    let size = record_size(kinds);
    lemma_plan_partitions(0, recs.len(), parallelism);
    assert forall|k: int| 0 <= k < plan.len() implies {
        &&& HEADER_SIZE <= record_pos(size, (#[trigger] plan[k]).start as nat)
        &&& record_pos(size, plan[k].start as nat) <= record_pos(size, plan[k].end as nat)
        &&& record_pos(size, plan[k].end as nat) <= record_pos(size, recs.len())
        &&& shard_bytes(kinds, recs, plan[k]).len() == record_pos(size, plan[k].end as nat)
            - record_pos(size, plan[k].start as nat)
        &&& region(kinds, file_image(kinds, recs), plan[k]) == shard_bytes(kinds, recs, plan[k])
    } by {
        let s = plan[k];
        lemma_pos_mono(size, 0, s.start as nat);
        lemma_pos_mono(size, s.start as nat, s.end as nat);
        lemma_pos_mono(size, s.end as nat, recs.len());
        let sub = recs.subrange(s.start as int, s.end as int);
        let parts = sub.map_values(|x: Seq<FieldModel>| encode_record(kinds, x));
        assert forall|i: int| 0 <= i < parts.len() implies (#[trigger] parts[i]).len() == size by {
            lemma_decode_encode_record(kinds, sub[i]);
        }
        lemma_join_len(parts, size);
        lemma_file_image_range(kinds, recs, s.start as nat, s.end as nat);
    }
}

/// The first `k` planned shards' regions, with the header, agree with the
/// file that holds `recs`.
proof fn lemma_prefix_matches(
    kinds: Seq<FieldKind>,
    recs: Seq<Seq<FieldModel>>,
    parallelism: nat,
    img: Seq<u8>,
    k: int,
)
    requires
        all_fit(kinds, recs),
        recs.len() <= u64::MAX,
        record_pos(record_size(kinds), recs.len()) <= u64::MAX,
        img.len() == file_image(kinds, recs).len(),
        img.subrange(0, HEADER_SIZE as int) == file_image(kinds, recs).subrange(
            0,
            HEADER_SIZE as int,
        ),
        forall|j: int|
            0 <= j < shard_plan(0, recs.len(), parallelism).len() ==> region(
                kinds,
                img,
                #[trigger] shard_plan(0, recs.len(), parallelism)[j],
            ) == shard_bytes(kinds, recs, shard_plan(0, recs.len(), parallelism)[j]),
        1 <= k <= shard_plan(0, recs.len(), parallelism).len(),
    ensures
        ({
            let e = record_pos(
                record_size(kinds),
                shard_plan(0, recs.len(), parallelism)[k - 1].end as nat,
            ) as int;
            img.subrange(0, e) == file_image(kinds, recs).subrange(0, e)
        }),
    decreases k,
{
    let plan = shard_plan(0, recs.len(), parallelism);
    let size = record_size(kinds);
    let f = file_image(kinds, recs);
    lemma_file_image_count(kinds, recs);
    assert(img.len() == f.len());
    lemma_plan_partitions(0, recs.len(), parallelism);
    lemma_plan_regions(kinds, recs, parallelism);
    let s = plan[k - 1];
    let a = record_pos(size, s.start as nat) as int;
    let e = record_pos(size, s.end as nat) as int;
    assert(HEADER_SIZE <= a <= e <= f.len());
    assert(region(kinds, img, s) == shard_bytes(kinds, recs, s));
    assert(region(kinds, f, s) == shard_bytes(kinds, recs, s));
    if k == 1 {
        assert(s.start == 0);
        assert(0 * size == 0);
        assert(a == HEADER_SIZE);
    } else {
        lemma_prefix_matches(kinds, recs, parallelism, img, k - 1);
        assert(plan[k - 2].end == s.start);
    }
    assert(img.subrange(0, a) == f.subrange(0, a));
    assert(img.subrange(a, e) == f.subrange(a, e));
    assert(img.subrange(0, e) =~= img.subrange(0, a) + img.subrange(a, e));
    assert(f.subrange(0, e) =~= f.subrange(0, a) + f.subrange(a, e));
}

/// A file image that has the right length, the header, and every planned
/// shard's bytes in its region is the file that holds `recs`.
proof fn lemma_regions_make_image(
    kinds: Seq<FieldKind>,
    recs: Seq<Seq<FieldModel>>,
    parallelism: nat,
    img: Seq<u8>,
)
    requires
        all_fit(kinds, recs),
        recs.len() <= u64::MAX,
        record_pos(record_size(kinds), recs.len()) <= u64::MAX,
        img.len() == file_image(kinds, recs).len(),
        img.subrange(0, HEADER_SIZE as int) == spec_u64_to_le_bytes(recs.len() as u64),
        forall|k: int|
            0 <= k < shard_plan(0, recs.len(), parallelism).len() ==> region(
                kinds,
                img,
                #[trigger] shard_plan(0, recs.len(), parallelism)[k],
            ) == shard_bytes(kinds, recs, shard_plan(0, recs.len(), parallelism)[k]),
    ensures
        img == file_image(kinds, recs),
{
    let plan = shard_plan(0, recs.len(), parallelism);
    let size = record_size(kinds);
    let f = file_image(kinds, recs);
    lemma_auto_spec_u64_to_from_le_bytes();
    lemma_plan_partitions(0, recs.len(), parallelism);
    lemma_plan_regions(kinds, recs, parallelism);
    lemma_file_image_count(kinds, recs);
    assert(f.subrange(0, HEADER_SIZE as int) =~= spec_u64_to_le_bytes(recs.len() as u64));
    assert(0 * size == 0);
    if plan.len() > 0 {
        lemma_prefix_matches(kinds, recs, parallelism, img, plan.len() as int);
    }
    if plan.len() == 0 {
        assert(recs.len() == 0);
        assert(img =~= img.subrange(0, HEADER_SIZE as int));
        assert(f =~= f.subrange(0, HEADER_SIZE as int));
    } else {
        assert(plan.last() == plan[plan.len() - 1]);
        assert(img =~= img.subrange(0, img.len() as int));
        assert(f =~= f.subrange(0, f.len() as int));
    }
}

/// After the header and the first `m` pending shards, the header and the
/// region of every shard that is done or among them hold their bytes.
proof fn lemma_run_prefix(
    kinds: Seq<FieldKind>,
    recs: Seq<Seq<FieldModel>>,
    parallelism: nat,
    progress: Seq<Option<u64>>,
    img: Seq<u8>,
    m: int,
)
    requires
        all_fit(kinds, recs),
        recs.len() <= u64::MAX,
        record_pos(record_size(kinds), recs.len()) <= u64::MAX,
        progress.len() == shard_plan(0, recs.len(), parallelism).len(),
        img.len() == file_image(kinds, recs).len(),
        forall|k: int|
            0 <= k < progress.len() && shard_done(
                shard_plan(0, recs.len(), parallelism)[k],
                #[trigger] progress[k],
            ) ==> region(kinds, img, shard_plan(0, recs.len(), parallelism)[k]) == shard_bytes(
                kinds,
                recs,
                shard_plan(0, recs.len(), parallelism)[k],
            ),
        0 <= m <= pending_among(
            shard_plan(0, recs.len(), parallelism),
            progress,
            progress.len(),
        ).len(),
    ensures
        ({
            let plan = shard_plan(0, recs.len(), parallelism);
            let pend = pending_among(plan, progress, progress.len()).subrange(0, m);
            let out = run_image(kinds, recs, img, pend);
            &&& out.len() == img.len()
            &&& out.subrange(0, HEADER_SIZE as int) == spec_u64_to_le_bytes(recs.len() as u64)
            &&& forall|k: int|
                0 <= k < plan.len() && (shard_done(plan[k], progress[k]) || pend.contains(plan[k]))
                    ==> region(kinds, out, #[trigger] plan[k]) == shard_bytes(kinds, recs, plan[k])
        }),
    decreases m,
{
    let plan = shard_plan(0, recs.len(), parallelism);
    let n = plan.len();
    let size = record_size(kinds);
    let pend = pending_among(plan, progress, n);
    let header = spec_u64_to_le_bytes(recs.len() as u64);
    lemma_auto_spec_u64_to_from_le_bytes();
    lemma_plan_partitions(0, recs.len(), parallelism);
    lemma_plan_regions(kinds, recs, parallelism);
    lemma_pending_members(plan, progress, n);
    lemma_file_image_count(kinds, recs);
    if m == 0 {
        let out = run_image(kinds, recs, img, pend.subrange(0, 0));
        assert(pend.subrange(0, 0).len() == 0);
        lemma_write_at(img, 0, header, 0, 0);
        assert forall|k: int|
            0 <= k < n && (shard_done(plan[k], progress[k]) || pend.subrange(0, 0).contains(
                plan[k],
            )) implies region(kinds, out, #[trigger] plan[k]) == shard_bytes(
            kinds,
            recs,
            plan[k],
        ) by {
            lemma_write_at(
                img,
                0,
                header,
                record_pos(size, plan[k].start as nat) as int,
                record_pos(size, plan[k].end as nat) as int,
            );
        }
    } else {
        lemma_run_prefix(kinds, recs, parallelism, progress, img, m - 1);
        let before = run_image(kinds, recs, img, pend.subrange(0, m - 1));
        let s = pend[m - 1];
        let j = s.id as int;
        assert(pend.subrange(0, m).drop_last() =~= pend.subrange(0, m - 1));
        assert(pend.subrange(0, m).last() == s);
        let after = run_image(kinds, recs, img, pend.subrange(0, m));
        let off = record_pos(size, s.start as nat) as int;
        let b = shard_bytes(kinds, recs, s);
        assert(after == write_at(before, off, b));
        assert(plan[j] == s);
        lemma_write_at(before, off, b, 0, HEADER_SIZE as int);
        assert forall|k: int|
            0 <= k < n && (shard_done(plan[k], progress[k]) || pend.subrange(0, m).contains(
                plan[k],
            )) implies region(kinds, after, #[trigger] plan[k]) == shard_bytes(
            kinds,
            recs,
            plan[k],
        ) by {
            if k == j {
                lemma_write_at(before, off, b, off, off);
            } else {
                if k < j {
                    lemma_plan_apart(recs.len(), parallelism, k, j);
                    lemma_pos_mono(size, plan[k].end as nat, s.start as nat);
                } else {
                    lemma_plan_apart(recs.len(), parallelism, j, k);
                    lemma_pos_mono(size, s.end as nat, plan[k].start as nat);
                }
                lemma_write_at(
                    before,
                    off,
                    b,
                    record_pos(size, plan[k].start as nat) as int,
                    record_pos(size, plan[k].end as nat) as int,
                );
                if !shard_done(plan[k], progress[k]) {
                    let i = choose|i: int| 0 <= i < m && pend.subrange(0, m)[i] == plan[k];
                    assert(i != m - 1);
                    assert(pend.subrange(0, m - 1)[i] == plan[k]);
                }
            }
        }
    }
}

/// Resuming is safe: over whatever an interrupted run left in the pre-sized
/// file, provided each shard that the checkpoint counts as done holds its
/// bytes, a run that writes the header and the pending shards leaves exactly
/// the file that holds `recs`.
pub proof fn lemma_resume_gives_file_image(
    kinds: Seq<FieldKind>,
    recs: Seq<Seq<FieldModel>>,
    parallelism: nat,
    progress: Seq<Option<u64>>,
    img: Seq<u8>,
)
    requires
        all_fit(kinds, recs),
        recs.len() <= u64::MAX,
        record_pos(record_size(kinds), recs.len()) <= u64::MAX,
        progress.len() == shard_plan(0, recs.len(), parallelism).len(),
        img.len() == file_image(kinds, recs).len(),
        forall|k: int|
            0 <= k < progress.len() && shard_done(
                shard_plan(0, recs.len(), parallelism)[k],
                #[trigger] progress[k],
            ) ==> region(kinds, img, shard_plan(0, recs.len(), parallelism)[k]) == shard_bytes(
                kinds,
                recs,
                shard_plan(0, recs.len(), parallelism)[k],
            ),
    ensures
        run_image(
            kinds,
            recs,
            img,
            pending_among(shard_plan(0, recs.len(), parallelism), progress, progress.len()),
        ) == file_image(kinds, recs),
{
    let plan = shard_plan(0, recs.len(), parallelism);
    let n = plan.len();
    let size = record_size(kinds);
    let pend = pending_among(plan, progress, n);
    let header = spec_u64_to_le_bytes(recs.len() as u64);
    lemma_auto_spec_u64_to_from_le_bytes();
    lemma_plan_partitions(0, recs.len(), parallelism);
    lemma_plan_regions(kinds, recs, parallelism);
    lemma_pending_members(plan, progress, n);
    lemma_file_image_count(kinds, recs);
    let len = img.len();
    lemma_run_prefix(kinds, recs, parallelism, progress, img, pend.len() as int);
    assert(pend.subrange(0, pend.len() as int) =~= pend);
    let fin = run_image(kinds, recs, img, pend);
    assert forall|k: int| 0 <= k < n implies region(kinds, fin, #[trigger] plan[k]) == shard_bytes(
        kinds,
        recs,
        plan[k],
    ) by {
        if !shard_done(plan[k], progress[k]) {
            assert(pend.contains(plan[k]));
        }
    }
    lemma_regions_make_image(kinds, recs, parallelism, fin);
}

proof fn lemma_nothing_done_all_pending(plan: Seq<Shard>, progress: Seq<Option<u64>>, m: nat)
    requires
        m <= plan.len(),
        m <= progress.len(),
        forall|k: int| 0 <= k < progress.len() ==> #[trigger] progress[k] is None,
    ensures
        pending_among(plan, progress, m) == plan.subrange(0, m as int),
    decreases m,
{
    if m == 0 {
        assert(plan.subrange(0, 0) =~= Seq::<Shard>::empty());
    } else {
        lemma_nothing_done_all_pending(plan, progress, (m - 1) as nat);
        assert(progress[m - 1] is None);
        assert(plan.subrange(0, m as int) =~= plan.subrange(0, m - 1).push(plan[m - 1]));
    }
}

/// A resumed run leaves the same bytes as an uninterrupted one: writing the
/// header and every planned shard over any pre-sized file gives the file that
/// holds `recs`, and so does writing the header and the pending shards over
/// what an interrupted run left, when each shard counted as done holds its bytes.
pub proof fn lemma_resume_matches_single_run(
    kinds: Seq<FieldKind>,
    recs: Seq<Seq<FieldModel>>,
    parallelism: nat,
    progress: Seq<Option<u64>>,
    interrupted: Seq<u8>,
    fresh: Seq<u8>,
)
    requires
        all_fit(kinds, recs),
        recs.len() <= u64::MAX,
        record_pos(record_size(kinds), recs.len()) <= u64::MAX,
        progress.len() == shard_plan(0, recs.len(), parallelism).len(),
        interrupted.len() == file_image(kinds, recs).len(),
        fresh.len() == file_image(kinds, recs).len(),
        forall|k: int|
            0 <= k < progress.len() && shard_done(
                shard_plan(0, recs.len(), parallelism)[k],
                #[trigger] progress[k],
            ) ==> region(kinds, interrupted, shard_plan(0, recs.len(), parallelism)[k])
                == shard_bytes(kinds, recs, shard_plan(0, recs.len(), parallelism)[k]),
    ensures
        run_image(kinds, recs, fresh, shard_plan(0, recs.len(), parallelism)) == file_image(
            kinds,
            recs,
        ),
        run_image(
            kinds,
            recs,
            interrupted,
            pending_among(shard_plan(0, recs.len(), parallelism), progress, progress.len()),
        ) == run_image(kinds, recs, fresh, shard_plan(0, recs.len(), parallelism)),
{
    let plan = shard_plan(0, recs.len(), parallelism);
    let none = Seq::new(plan.len(), |k: int| None::<u64>);
    lemma_nothing_done_all_pending(plan, none, plan.len());
    assert(plan.subrange(0, plan.len() as int) =~= plan);
    lemma_resume_gives_file_image(kinds, recs, parallelism, none, fresh);
    lemma_resume_gives_file_image(kinds, recs, parallelism, progress, interrupted);
}

/// What a run writes is what a read gives back: after the header and every
/// planned shard are written over a pre-sized file, reading any range
/// `[start, end)` with `start <= end <= recs.len()` gives `recs[start..end]`,
/// and reading the whole file gives `recs`.
pub proof fn lemma_write_then_read(
    kinds: Seq<FieldKind>,
    recs: Seq<Seq<FieldModel>>,
    parallelism: nat,
    fresh: Seq<u8>,
    start: nat,
    end: nat,
    range: Result<Seq<Seq<FieldModel>>, ReadError>,
    whole: Result<Seq<Seq<FieldModel>>, ReadError>,
)
    requires
        all_fit(kinds, recs),
        recs.len() <= u64::MAX,
        record_pos(record_size(kinds), recs.len()) <= u64::MAX,
        fresh.len() == file_image(kinds, recs).len(),
        start <= end <= recs.len(),
        read_outcome(
            kinds,
            run_image(kinds, recs, fresh, shard_plan(0, recs.len(), parallelism)),
            start,
            end,
            range,
        ),
        read_outcome(
            kinds,
            run_image(kinds, recs, fresh, shard_plan(0, recs.len(), parallelism)),
            0,
            stored_count(run_image(kinds, recs, fresh, shard_plan(0, recs.len(), parallelism))),
            whole,
        ),
    ensures
        range == Ok::<Seq<Seq<FieldModel>>, ReadError>(recs.subrange(start as int, end as int)),
        whole == Ok::<Seq<Seq<FieldModel>>, ReadError>(recs),
{
    let plan = shard_plan(0, recs.len(), parallelism);
    lemma_resume_matches_single_run(
        kinds,
        recs,
        parallelism,
        Seq::new(plan.len(), |k: int| None::<u64>),
        fresh,
        fresh,
    );
    lemma_file_image_count(kinds, recs);
    lemma_read_range_of_written(kinds, recs, start, end, range);
    lemma_read_range_of_written(kinds, recs, 0, recs.len(), whole);
    assert(recs.subrange(0, recs.len() as int) =~= recs);
}

} // verus!
