use vstd::prelude::*;

verus! {

/// The parts laid end to end.
pub open spec fn join(parts: Seq<Seq<u8>>) -> Seq<u8>
    decreases parts.len(),
{
    if parts.len() == 0 {
        Seq::empty()
    } else {
        join(parts.drop_last()) + parts.last()
    }
}

/// Every part is `w` bytes long.
pub open spec fn uniform(parts: Seq<Seq<u8>>, w: nat) -> bool {
    forall|i: int| 0 <= i < parts.len() ==> (#[trigger] parts[i]).len() == w
}

pub proof fn lemma_join_push(parts: Seq<Seq<u8>>, x: Seq<u8>)
    ensures
        join(parts.push(x)) == join(parts) + x,
{
    assert(parts.push(x).drop_last() =~= parts);
}

pub proof fn lemma_join_prefix_step(parts: Seq<Seq<u8>>, i: int)
    requires
        0 <= i < parts.len(),
    ensures
        join(parts.subrange(0, i + 1)) == join(parts.subrange(0, i)) + parts[i],
{
    assert(parts.subrange(0, i + 1) =~= parts.subrange(0, i).push(parts[i]));
    lemma_join_push(parts.subrange(0, i), parts[i]);
}

pub proof fn lemma_join_append(a: Seq<Seq<u8>>, b: Seq<Seq<u8>>)
    ensures
        join(a + b) == join(a) + join(b),
    decreases b.len(),
{
    if b.len() == 0 {
        assert(a + b =~= a);
        assert(join(a) + join(b) =~= join(a));
    } else {
        assert((a + b).drop_last() =~= a + b.drop_last());
        lemma_join_append(a, b.drop_last());
        assert(join(a + b) =~= join(a) + join(b));
    }
}

pub proof fn lemma_join_len(parts: Seq<Seq<u8>>, w: nat)
    requires
        uniform(parts, w),
    ensures
        join(parts).len() == parts.len() * w,
    decreases parts.len(),
{
    if parts.len() > 0 {
        assert(uniform(parts.drop_last(), w));
        lemma_join_len(parts.drop_last(), w);
        assert(parts.len() * w == (parts.len() - 1) * w + w) by (nonlinear_arith);
    }
}

/// With parts of equal width, the bytes of parts `i..j` are found at
/// `[i * w, j * w)` of the whole.
pub proof fn lemma_join_slice(parts: Seq<Seq<u8>>, w: nat, i: int, j: int)
    requires
        uniform(parts, w),
        0 <= i <= j <= parts.len(),
    ensures
        join(parts).subrange(i * w, j * w) == join(parts.subrange(i, j)),
        join(parts).len() == parts.len() * w,
{
    let a = parts.subrange(0, i);
    let b = parts.subrange(i, j);
    let c = parts.subrange(j, parts.len() as int);
    assert(parts =~= a + b + c);
    lemma_join_append(a + b, c);
    lemma_join_append(a, b);
    assert(uniform(a, w));
    assert(uniform(b, w));
    lemma_join_len(a, w);
    lemma_join_len(b, w);
    lemma_join_len(parts, w);
    assert(i * w + (j - i) * w == j * w) by (nonlinear_arith);
    assert(join(parts).subrange(i * w, j * w) =~= join(b));
}

} // verus!
