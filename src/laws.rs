//! Properties of the allocator that relate several operations, stated over
//! the abstract bucket sequence and proved from the operations' contracts.
use vstd::prelude::*;
use crate::header::HEADER_SIZE;
use crate::pool::{
    BucketView, pool_wf, home, home_from, first_free_from, serving_bucket, max_size,
    allocate_spec, free_spec, is_outstanding, owner, lemma_is_segment,
};
use crate::pool::AllocError;

verus! {

/// What `home_from` finds: the first bucket from `i` on whose payload holds
/// `size`, or none at all.
pub proof fn lemma_home_from(v: Seq<BucketView>, size: int, i: int)
    requires
        0 <= i,
    ensures
        match home_from(v, size, i) {
            Some(j) => i <= j < v.len() && v[j].capacity() >= size && forall|k: int|
                i <= k < j ==> #[trigger] v[k].capacity() < size,
            None => forall|k: int| i <= k < v.len() ==> #[trigger] v[k].capacity() < size,
        },
    decreases v.len() - i,
{
    if i < v.len() && v[i].capacity() < size {
        lemma_home_from(v, size, i + 1);
    }
}

/// What `first_free_from` finds: the first bucket from `i` on with a free
/// segment, or none at all.
pub proof fn lemma_first_free_from(v: Seq<BucketView>, i: int)
    requires
        0 <= i,
    ensures
        match first_free_from(v, i) {
            Some(j) => i <= j < v.len() && v[j].free.len() > 0 && forall|k: int|
                i <= k < j ==> #[trigger] v[k].free.len() == 0,
            None => forall|k: int| i <= k < v.len() ==> #[trigger] v[k].free.len() == 0,
        },
    decreases v.len() - i,
{
    if i < v.len() && v[i].free.len() == 0 {
        lemma_first_free_from(v, i + 1);
    }
}

/// A segment lent out by one bucket is no segment of any other bucket.
proof fn lemma_segment_owner_unique(v: Seq<BucketView>, b1: int, b2: int, x: int)
    requires
        pool_wf(v),
        0 <= b1 < v.len(),
        0 <= b2 < v.len(),
        v[b1].is_segment(x),
        v[b2].is_segment(x),
    ensures
        b1 == b2,
{
    assert(v[b1].wf());
    assert(v[b2].wf());
    lemma_is_segment(v[b1], x);
    lemma_is_segment(v[b2], x);
    if b1 < b2 {
        assert(v[b1].end() <= v[b2].start);
    } else if b2 < b1 {
        assert(v[b2].end() <= v[b1].start);
    }
}

/// Conservation: in every bucket of a well-formed pool, the free segments and
/// the segments lent out add up to the bucket's segment count.
pub proof fn lemma_conservation(v: Seq<BucketView>, b: int)
    requires
        pool_wf(v),
        0 <= b < v.len(),
    ensures
        v[b].free_count() + v[b].outstanding.len() == v[b].segment_count,
{
    assert(v[b].wf());
}

/// No duplication: a successful allocation hands out an address that no
/// client holds, and that stays held until it is freed.
pub proof fn lemma_no_duplication(v: Seq<BucketView>, size: int)
    requires
        pool_wf(v),
        allocate_spec(v, size).1 is Ok,
    ensures
        !is_outstanding(v, allocate_spec(v, size).1->Ok_0 as int),
        is_outstanding(allocate_spec(v, size).0, allocate_spec(v, size).1->Ok_0 as int),
        pool_wf(allocate_spec(v, size).0),
{
    let h = home(v, size)->Some_0;
    lemma_home_from(v, size, 0);
    lemma_first_free_from(v, h);
    let b = first_free_from(v, h)->Some_0;
    let bv = v[b];
    assert(bv.wf());
    let x = bv.free.last();
    assert(x == bv.free[bv.free.len() - 1]);
    assert(bv.is_segment(x as int));
    lemma_is_segment(bv, x as int);
    let p = allocate_spec(v, size).1->Ok_0;
    assert(p == x + HEADER_SIZE);
    assert(((p - HEADER_SIZE) as usize) == x);
    let v1 = allocate_spec(v, size).0;
    assert(v1 == v.update(b, bv.pop()));
    if is_outstanding(v, p as int) {
        let b2 = choose|b2: int|
            0 <= b2 < v.len() && HEADER_SIZE <= p && #[trigger] v[b2].outstanding.contains(
                (p - HEADER_SIZE) as usize,
            );
        assert(v[b2].wf());
        lemma_segment_owner_unique(v, b, b2, x as int);
    }
    assert(v1[b].outstanding.contains(x));
    lemma_pop_wf(v, b);
}

/// Popping the top of a non-empty bucket keeps the pool well formed.
proof fn lemma_pop_wf(v: Seq<BucketView>, b: int)
    requires
        pool_wf(v),
        0 <= b < v.len(),
        v[b].free.len() > 0,
    ensures
        pool_wf(v.update(b, v[b].pop())),
{
    let bv = v[b];
    let nb = bv.pop();
    assert(bv.wf());
    let x = bv.free.last();
    assert(x == bv.free[bv.free.len() - 1]);
    assert forall|j: int| 0 <= j < nb.free.len() implies !nb.outstanding.contains(
        #[trigger] nb.free[j],
    ) by {
        assert(nb.free[j] == bv.free[j]);
        assert(bv.free[j] != bv.free[bv.free.len() - 1]);
    }
    assert forall|j: int| 0 <= j < nb.free.len() implies nb.is_segment(#[trigger] nb.free[j] as int) by {
        assert(nb.free[j] == bv.free[j]);
    }
    assert(nb.wf());
    let v1 = v.update(b, nb);
    assert forall|k: int| 0 <= k < v1.len() implies #[trigger] v1[k].wf() by {
        if k != b {
            assert(v[k].wf());
        }
    }
    assert forall|b1: int, b2: int| 0 <= b1 < b2 < v1.len() implies #[trigger] v1[b1].segment_size
        < #[trigger] v1[b2].segment_size && v1[b1].end() <= v1[b2].start by {
        assert(v[b1].segment_size < v[b2].segment_size);
    }
}

/// Round trip: freeing what `allocate` just returned restores the pool
/// exactly, so the same request then returns the same address again.
pub proof fn lemma_round_trip(v: Seq<BucketView>, size: int)
    requires
        pool_wf(v),
        allocate_spec(v, size).1 is Ok,
    ensures
        free_spec(allocate_spec(v, size).0, allocate_spec(v, size).1->Ok_0 as int) == v,
        allocate_spec(
            free_spec(allocate_spec(v, size).0, allocate_spec(v, size).1->Ok_0 as int),
            size,
        ).1 == allocate_spec(v, size).1,
{
    lemma_no_duplication(v, size);
    let h = home(v, size)->Some_0;
    lemma_home_from(v, size, 0);
    lemma_first_free_from(v, h);
    let b = first_free_from(v, h)->Some_0;
    let bv = v[b];
    assert(bv.wf());
    let x = bv.free.last();
    assert(x == bv.free[bv.free.len() - 1]);
    let p = allocate_spec(v, size).1->Ok_0;
    assert(((p - HEADER_SIZE) as usize) == x);
    let v1 = allocate_spec(v, size).0;
    let o = owner(v1, p as int);
    assert(v1[o].outstanding.contains(x));
    assert(v1[o].wf());
    assert(v1[b].wf());
    assert(v1[b].outstanding.contains(x));
    lemma_segment_owner_unique(v1, o, b, x as int);
    assert(v1[b].free.push(x) =~= bv.free);
    assert(v1[b].outstanding.remove(x) =~= bv.outstanding);
    assert(free_spec(v1, p as int) =~= v);
}

/// Escalation: when the home bucket is exhausted but a larger one has a free
/// segment, the request is served from the first such bucket, whose header
/// the payload then carries, and freeing it returns it there.
pub proof fn lemma_escalation(v: Seq<BucketView>, size: int, larger: int)
    requires
        pool_wf(v),
        home(v, size) is Some,
        v[home(v, size)->Some_0].free.len() == 0,
        home(v, size)->Some_0 < larger < v.len(),
        v[larger].free.len() > 0,
    ensures
        allocate_spec(v, size).1 is Ok,
        serving_bucket(v, size) is Some,
        serving_bucket(v, size)->Some_0 > home(v, size)->Some_0,
        owner(allocate_spec(v, size).0, allocate_spec(v, size).1->Ok_0 as int) == serving_bucket(
            v,
            size,
        )->Some_0,
        free_spec(allocate_spec(v, size).0, allocate_spec(v, size).1->Ok_0 as int)[serving_bucket(
            v,
            size,
        )->Some_0].free.last() == allocate_spec(v, size).1->Ok_0 - HEADER_SIZE,
        free_spec(allocate_spec(v, size).0, allocate_spec(v, size).1->Ok_0 as int)[home(
            v,
            size,
        )->Some_0] == v[home(v, size)->Some_0],
{
    let h = home(v, size)->Some_0;
    lemma_home_from(v, size, 0);
    lemma_first_free_from(v, h);
    let b = first_free_from(v, h)->Some_0;
    lemma_no_duplication(v, size);
    let bv = v[b];
    assert(bv.wf());
    let x = bv.free.last();
    assert(x == bv.free[bv.free.len() - 1]);
    let p = allocate_spec(v, size).1->Ok_0;
    assert(((p - HEADER_SIZE) as usize) == x);
    let v1 = allocate_spec(v, size).0;
    let o = owner(v1, p as int);
    assert(v1[o].outstanding.contains(x));
    assert(v1[o].wf());
    assert(v1[b].wf());
    assert(v1[b].outstanding.contains(x));
    lemma_segment_owner_unique(v1, o, b, x as int);
}

/// Exhaustion: once every bucket from the home bucket upward is empty, the
/// request fails with `OutOfMemory` and the pool is left as it was.
pub proof fn lemma_exhaustion(v: Seq<BucketView>, size: int)
    requires
        home(v, size) is Some,
        forall|k: int| home(v, size)->Some_0 <= k < v.len() ==> #[trigger] v[k].free_count() == 0,
    ensures
        allocate_spec(v, size) == (v, Err::<usize, AllocError>(AllocError::OutOfMemory)),
{
    let h = home(v, size)->Some_0;
    lemma_home_from(v, size, 0);
    lemma_first_free_from(v, h);
    if first_free_from(v, h) is Some {
        let j = first_free_from(v, h)->Some_0;
        assert(v[j].free_count() == 0);
    }
}

/// Boundary: a request of exactly the largest payload succeeds if and only if
/// the largest bucket has a free segment; one byte more is never supported.
pub proof fn lemma_boundary(v: Seq<BucketView>)
    requires
        pool_wf(v),
        v.len() > 0,
    ensures
        allocate_spec(v, max_size(v)).1 is Ok <==> v.last().free.len() > 0,
        allocate_spec(v, max_size(v) + 1) == (v, Err::<usize, AllocError>(
            AllocError::SizeUnsupported,
        )),
{
    let last = v.len() - 1;
    let m = max_size(v);
    lemma_home_from(v, m, 0);
    lemma_home_from(v, m + 1, 0);
    assert(v[last].capacity() >= m);
    match home(v, m) {
        Some(j) => {
            if j < last {
                assert(v[j].segment_size < v[last].segment_size);
            }
            assert(j == last);
            lemma_first_free_from(v, last);
            lemma_first_free_from(v, last + 1);
        },
        None => {},
    }
    match home(v, m + 1) {
        Some(j) => {
            if j < last {
                assert(v[j].segment_size < v[last].segment_size);
            }
        },
        None => {},
    }
}

} // verus!
