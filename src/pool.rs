//! The segmented pool allocator: buckets of equal-size segments, each with a
//! stack of free segment addresses, over one managed region whose segment
//! headers name their buckets.
//!
//! Every operation takes the pool by `&mut` and is stated as one step from
//! the pool's state before to its state after.
use vstd::prelude::*;
use crate::header::{HEADER_SIZE, header_byte, header_holds, write_header, read_header, lemma_header_frame};

verus! {

/// Why an allocation request could not be served.
#[derive(Clone, Copy, Debug, PartialEq, Eq, Structural)]
pub enum AllocError {
    /// The request is larger than the payload of the largest bucket.
    SizeUnsupported,
    /// Every bucket from the home bucket upward is exhausted.
    OutOfMemory,
}

/// Why a pool could not be built from its configuration.
#[derive(Clone, Copy, Debug, PartialEq, Eq, Structural)]
pub enum InitError {
    /// A segment size is not above the header size, a count is zero, or the
    /// sizes do not strictly increase.
    InvalidConfig,
    /// The buckets need more bytes than the region holds.
    Overcommit,
}

/// The abstract state of one bucket.
pub struct BucketView {
    pub segment_size: nat,
    pub segment_count: nat,
    /// Address of the first segment.
    pub start: int,
    /// The free-address stack, bottom first.
    pub free: Seq<usize>,
    /// Segment addresses currently lent to clients.
    pub outstanding: Set<usize>,
}

impl BucketView {
    /// Payload bytes available to a client in each segment.
    pub open spec fn capacity(self) -> int {
        self.segment_size - HEADER_SIZE
    }

    pub open spec fn end(self) -> int {
        self.start + self.segment_size * self.segment_count
    }

    /// Address of segment `i`.
    pub open spec fn segment(self, i: int) -> int {
        self.start + i * self.segment_size
    }

    pub open spec fn is_segment(self, x: int) -> bool {
        &&& self.start <= x
        &&& (x - self.start) % (self.segment_size as int) == 0
        &&& (x - self.start) / (self.segment_size as int) < self.segment_count
    }

    pub open spec fn free_count(self) -> nat {
        self.free.len()
    }

    pub open spec fn wf(self) -> bool {
        &&& self.segment_size > HEADER_SIZE
        &&& self.segment_count > 0
        &&& 0 <= self.start
        &&& self.end() <= usize::MAX + 1
        &&& self.free.no_duplicates()
        &&& forall|j: int| 0 <= j < self.free.len() ==> self.is_segment(#[trigger] self.free[j] as int)
        &&& forall|j: int| 0 <= j < self.free.len() ==> !self.outstanding.contains(#[trigger] self.free[j])
        &&& forall|x: usize| #[trigger] self.outstanding.contains(x) ==> self.is_segment(x as int)
        &&& self.outstanding.finite()
        &&& self.free.len() + self.outstanding.len() == self.segment_count
    }

    /// The top of the stack leaves it and is lent out.
    pub open spec fn pop(self) -> BucketView {
        BucketView {
            free: self.free.drop_last(),
            outstanding: self.outstanding.insert(self.free.last()),
            ..self
        }
    }

    /// A lent segment comes back onto the stack.
    pub open spec fn push(self, x: usize) -> BucketView {
        BucketView { free: self.free.push(x), outstanding: self.outstanding.remove(x), ..self }
    }
}

/// Every address that is a segment of the bucket is one of its `segment_count`
/// segments, and lies inside the bucket's range.
pub proof fn lemma_is_segment(b: BucketView, x: int)
    requires
        b.segment_size > 0,
        b.is_segment(x),
    ensures
        x == b.segment((x - b.start) / (b.segment_size as int)),
        0 <= (x - b.start) / (b.segment_size as int) < b.segment_count,
        b.start <= x,
        x + b.segment_size <= b.end(),
{
    let d = x - b.start;
    let s = b.segment_size as int;
    let q = d / s;
    vstd::arithmetic::div_mod::lemma_fundamental_div_mod(d, s);
    assert(d == q * s) by (nonlinear_arith)
        requires
            d == s * q + d % s,
            d % s == 0,
    ;
    assert(0 <= q) by (nonlinear_arith)
        requires
            d >= 0,
            s > 0,
            q == d / s,
    ;
    lemma_segment_bounds(b, q);
}

/// Segment `i` lies inside the bucket's range.
pub proof fn lemma_segment_bounds(b: BucketView, i: int)
    requires
        0 <= i < b.segment_count,
    ensures
        b.start <= b.segment(i),
        b.segment(i) + b.segment_size <= b.end(),
{
    let s = b.segment_size as int;
    let c = b.segment_count as int;
    assert(0 <= i * s && i * s + s <= s * c) by (nonlinear_arith)
        requires
            0 <= i < c,
            0 <= s,
    ;
}

/// Segment `i` of a bucket is one of its segments.
pub proof fn lemma_segment_is_segment(b: BucketView, i: int)
    requires
        b.segment_size > 0,
        0 <= i < b.segment_count,
    ensures
        b.is_segment(b.segment(i)),
{
    let s = b.segment_size as int;
    vstd::arithmetic::div_mod::lemma_mod_multiples_basic(i, s);
    vstd::arithmetic::div_mod::lemma_div_multiples_vanish(i, s);
    assert(b.segment(i) - b.start == i * s);
    assert(i * s == s * i) by (nonlinear_arith);
    assert(0 <= i * s) by (nonlinear_arith)
        requires
            0 <= i,
            0 <= s,
    ;
}

/// Distinct segments of a bucket are at least a segment apart.
pub proof fn lemma_segments_apart(b: BucketView, i: int, j: int)
    requires
        0 <= i < j,
    ensures
        b.segment(i) + b.segment_size <= b.segment(j),
{
    let s = b.segment_size as int;
    assert(i * s + s <= j * s) by (nonlinear_arith)
        requires
            0 <= i < j,
            0 <= s,
    ;
}

/// A bucket of equal-size segments with its free-address stack.
pub struct Bucket {
    segment_size: usize,
    segment_count: usize,
    base_address: usize,
    stack: Vec<usize>,
    free_count: usize,
    outstanding: Ghost<Set<usize>>,
}

impl View for Bucket {
    type V = BucketView;

    closed spec fn view(&self) -> BucketView {
        BucketView {
            segment_size: self.segment_size as nat,
            segment_count: self.segment_count as nat,
            start: self.base_address as int,
            free: self.stack@,
            outstanding: self.outstanding@,
        }
    }
}

impl Bucket {
    pub closed spec fn wf(&self) -> bool {
        &&& self@.wf()
        &&& self.free_count == self.stack@.len()
    }

    pub fn segment_size(&self) -> (r: usize)
        ensures
            r == self@.segment_size,
    {
        self.segment_size
    }

    pub fn segment_count(&self) -> (r: usize)
        ensures
            r == self@.segment_count,
    {
        self.segment_count
    }

    pub fn base_address(&self) -> (r: usize)
        ensures
            r == self@.start,
    {
        self.base_address
    }

    pub fn free_count(&self) -> (r: usize)
        requires
            self.wf(),
        ensures
            r == self@.free_count(),
    {
        self.free_count
    }

    /// Takes the top address off the stack, or reports that the bucket is empty.
    pub fn try_pop(&mut self) -> (r: Option<usize>)
        requires
            old(self).wf(),
        ensures
            final(self).wf(),
            old(self)@.free.len() == 0 ==> r is None && final(self)@ == old(self)@,
            old(self)@.free.len() > 0 ==> r == Some(old(self)@.free.last()) && final(self)@
                == old(self)@.pop(),
    {
        if self.free_count == 0 {
            return None;
        }
        let ghost pre = self@;
        let addr = self.stack.pop().unwrap();
        self.free_count = self.free_count - 1;
        self.outstanding = Ghost(self.outstanding@.insert(addr));
        proof {
            let post = self@;
            assert(post.free =~= pre.free.drop_last());
            assert forall|j: int| 0 <= j < post.free.len() implies !post.outstanding.contains(
                #[trigger] post.free[j],
            ) by {
                assert(post.free[j] == pre.free[j]);
                assert(pre.free[j] != pre.free[pre.free.len() - 1]);
            }
            assert forall|j: int| 0 <= j < post.free.len() implies post.is_segment(
                #[trigger] post.free[j] as int,
            ) by {
                assert(post.free[j] == pre.free[j]);
            }
            assert(pre.free.last() == pre.free[pre.free.len() - 1]);
            assert(post.is_segment(addr as int));
        }
        Some(addr)
    }

    /// Puts a lent segment address back on the stack.
    pub fn push(&mut self, addr: usize)
        requires
            old(self).wf(),
            old(self)@.outstanding.contains(addr),
        ensures
            final(self).wf(),
            final(self)@ == old(self)@.push(addr),
    {
        let ghost pre = self@;
        proof {
            assert(pre.outstanding.len() > 0) by {
                if pre.outstanding.len() == 0 {
                    pre.outstanding.lemma_len0_is_empty();
                }
            }
        }
        self.stack.push(addr);
        self.free_count = self.free_count + 1;
        self.outstanding = Ghost(self.outstanding@.remove(addr));
        proof {
            let post = self@;
            assert forall|j: int| 0 <= j < post.free.len() implies !post.outstanding.contains(
                #[trigger] post.free[j],
            ) by {
                if j < pre.free.len() {
                    assert(post.free[j] == pre.free[j]);
                }
            }
            assert forall|j: int| 0 <= j < post.free.len() implies post.is_segment(
                #[trigger] post.free[j] as int,
            ) by {
                if j < pre.free.len() {
                    assert(post.free[j] == pre.free[j]);
                }
            }
            assert forall|i: int, j: int|
                0 <= i < post.free.len() && 0 <= j < post.free.len() && i != j implies post.free[i]
                != post.free[j] by {
                if i < pre.free.len() && j < pre.free.len() {
                } else if i < pre.free.len() {
                    assert(!pre.outstanding.contains(pre.free[i]));
                } else {
                    assert(!pre.outstanding.contains(pre.free[j]));
                }
            }
        }
    }
}


/// The bucket sequence is well formed: each bucket is, sizes strictly
/// increase, and the buckets' ranges are ordered and disjoint.
pub open spec fn pool_wf(v: Seq<BucketView>) -> bool {
    &&& forall|b: int| 0 <= b < v.len() ==> #[trigger] v[b].wf()
    &&& forall|b1: int, b2: int|
        0 <= b1 < b2 < v.len() ==> #[trigger] v[b1].segment_size < #[trigger] v[b2].segment_size
            && v[b1].end() <= v[b2].start
}

/// The first bucket at index `i` or above whose payload holds `size` bytes.
pub open spec fn home_from(v: Seq<BucketView>, size: int, i: int) -> Option<int>
    decreases v.len() - i,
{
    if i < 0 || i >= v.len() {
        None
    } else if v[i].capacity() >= size {
        Some(i)
    } else {
        home_from(v, size, i + 1)
    }
}

/// The home bucket of a request: the smallest one whose payload holds it.
pub open spec fn home(v: Seq<BucketView>, size: int) -> Option<int> {
    home_from(v, size, 0)
}

/// The first bucket at index `i` or above with a free segment.
pub open spec fn first_free_from(v: Seq<BucketView>, i: int) -> Option<int>
    decreases v.len() - i,
{
    if i < 0 || i >= v.len() {
        None
    } else if v[i].free.len() > 0 {
        Some(i)
    } else {
        first_free_from(v, i + 1)
    }
}

/// The largest request any bucket can serve (zero without buckets).
pub open spec fn max_size(v: Seq<BucketView>) -> int {
    if v.len() == 0 {
        0
    } else {
        v.last().capacity()
    }
}

/// The bucket that serves a request of `size` bytes: the home bucket, or the
/// first larger one with a free segment.
pub open spec fn serving_bucket(v: Seq<BucketView>, size: int) -> Option<int> {
    match home(v, size) {
        None => None,
        Some(h) => first_free_from(v, h),
    }
}

/// State after `allocate(size)`, and its result.
pub open spec fn allocate_spec(v: Seq<BucketView>, size: int) -> (Seq<BucketView>, Result<
    usize,
    AllocError,
>) {
    match home(v, size) {
        None => (v, Err(AllocError::SizeUnsupported)),
        Some(h) => match first_free_from(v, h) {
            None => (v, Err(AllocError::OutOfMemory)),
            Some(b) => (v.update(b, v[b].pop()), Ok((v[b].free.last() + HEADER_SIZE) as usize)),
        },
    }
}

/// `payload` was handed out by `allocate` and not freed since.
pub open spec fn is_outstanding(v: Seq<BucketView>, payload: int) -> bool {
    exists|b: int|
        0 <= b < v.len() && HEADER_SIZE <= payload && #[trigger] v[b].outstanding.contains(
            (payload - HEADER_SIZE) as usize,
        )
}

/// The bucket that lent out `payload`.
pub open spec fn owner(v: Seq<BucketView>, payload: int) -> int {
    choose|b: int|
        0 <= b < v.len() && HEADER_SIZE <= payload && #[trigger] v[b].outstanding.contains(
            (payload - HEADER_SIZE) as usize,
        )
}

/// State after `free(payload)`.
pub open spec fn free_spec(v: Seq<BucketView>, payload: int) -> Seq<BucketView> {
    let b = owner(v, payload);
    v.update(b, v[b].push((payload - HEADER_SIZE) as usize))
}

/// Each entry of the configuration is a `(segment_size, segment_count)` pair:
/// sizes above the header, positive counts, sizes strictly increasing.
pub open spec fn config_valid(c: Seq<(usize, usize)>) -> bool {
    &&& forall|i: int| 0 <= i < c.len() ==> #[trigger] c[i].0 > HEADER_SIZE && c[i].1 > 0
    &&& forall|i: int, j: int| 0 <= i < j < c.len() ==> #[trigger] c[i].0 < #[trigger] c[j].0
}

/// Bytes taken by the first `n` buckets of the configuration.
pub open spec fn prefix_bytes(c: Seq<(usize, usize)>, n: int) -> int
    decreases n,
{
    if n <= 0 {
        0
    } else {
        prefix_bytes(c, n - 1) + c[n - 1].0 * c[n - 1].1
    }
}

/// Bucket `b` as built from the configuration: carved out right after the
/// buckets before it, with every segment on its stack, lowest address first.
pub open spec fn initial_bucket(c: Seq<(usize, usize)>, base: int, b: int) -> BucketView {
    let start = base + prefix_bytes(c, b);
    BucketView {
        segment_size: c[b].0 as nat,
        segment_count: c[b].1 as nat,
        start,
        free: Seq::new(c[b].1 as nat, |i: int| (start + i * c[b].0) as usize),
        outstanding: Set::empty(),
    }
}

/// The registry as built from the configuration over a region at `base`.
pub open spec fn initial_view(c: Seq<(usize, usize)>, base: int) -> Seq<BucketView> {
    Seq::new(c.len(), |b: int| initial_bucket(c, base, b))
}

/// Prefix sums of bucket sizes never decrease.
pub proof fn lemma_prefix_mono(c: Seq<(usize, usize)>, i: int, j: int)
    requires
        0 <= i <= j <= c.len(),
    ensures
        prefix_bytes(c, i) <= prefix_bytes(c, j),
    decreases j - i,
{
    if i < j {
        lemma_prefix_mono(c, i, j - 1);
        let a = c[j - 1].0 as int;
        let n = c[j - 1].1 as int;
        assert(0 <= a * n) by (nonlinear_arith)
            requires
                0 <= a,
                0 <= n,
        ;
    }
}

/// Fills one bucket's segments with headers and its stack with their addresses.
fn fill_bucket(
    mem: &mut Vec<u8>,
    region_base: usize,
    start: usize,
    size: usize,
    count: usize,
    tag: u64,
    Ghost(v): Ghost<BucketView>,
) -> (r: Bucket)
    requires
        size > HEADER_SIZE,
        count > 0,
        region_base <= start,
        start + size * count <= region_base + old(mem)@.len(),
        region_base + old(mem)@.len() <= usize::MAX,
        v == (BucketView {
            segment_size: size as nat,
            segment_count: count as nat,
            start: start as int,
            free: Seq::new(count as nat, |i: int| (start + i * size) as usize),
            outstanding: Set::empty(),
        }),
    ensures
        final(mem)@.len() == old(mem)@.len(),
        r.wf(),
        r@ == v,
        forall|i: int|
            0 <= i < count ==> header_holds(final(mem)@, #[trigger] v.segment(i) - region_base, tag),
        forall|p: int|
            0 <= p < old(mem)@.len() && !(start - region_base <= p < start - region_base + size * count)
                ==> #[trigger] final(mem)@[p] == old(mem)@[p],
{
    let mut stack: Vec<usize> = Vec::new();
    let mut i: usize = 0;
    let mut addr: usize = start;
    while i < count
        invariant
            0 <= i <= count,
            addr == start + i * size,
            size > HEADER_SIZE,
            region_base <= start,
            v.segment_size == size,
            v.segment_count == count,
            v.start == start,
            start + size * count <= region_base + mem@.len(),
            region_base + mem@.len() <= usize::MAX,
            mem@.len() == old(mem)@.len(),
            stack@ =~= Seq::new(i as nat, |j: int| (start + j * size) as usize),
            forall|j: int| 0 <= j < i ==> header_holds(mem@, #[trigger] v.segment(j) - region_base, tag),
            forall|p: int|
                0 <= p < old(mem)@.len() && !(start - region_base <= p < addr - region_base)
                    ==> #[trigger] mem@[p] == old(mem)@[p],
        decreases count - i,
    {
        proof {
            lemma_segment_bounds(v, i as int);
            assert(v.segment(i as int) == addr);
        }
        let ghost before = mem@;
        write_header(mem, addr - region_base, tag);
        proof {
            assert forall|j: int| 0 <= j < i + 1 implies header_holds(
                mem@,
                #[trigger] v.segment(j) - region_base,
                tag,
            ) by {
                if j < i {
                    lemma_segments_apart(v, j, i as int);
                    lemma_header_frame(
                        before,
                        mem@,
                        v.segment(j) - region_base,
                        tag,
                        addr - region_base,
                        addr - region_base + HEADER_SIZE,
                    );
                }
            }
        }
        stack.push(addr);
        i = i + 1;
        addr = addr + size;
        proof {
            assert(addr == start + i * size) by (nonlinear_arith)
                requires
                    addr == start + (i - 1) * size + size,
            ;
        }
    }
    proof {
        assert(addr == start + size * count) by (nonlinear_arith)
            requires
                addr == start + i * size,
                i == count,
        ;
    }
    let r = Bucket {
        segment_size: size,
        segment_count: count,
        base_address: start,
        stack,
        free_count: count,
        outstanding: Ghost(Set::empty()),
    };
    proof {
        assert(r@.free =~= v.free);
        assert(r@ == v);
        assert forall|j: int| 0 <= j < v.free.len() implies v.is_segment(#[trigger] v.free[j] as int) by {
            lemma_segment_is_segment(v, j);
            lemma_segment_bounds(v, j);
        }
        assert forall|a: int, b: int|
            0 <= a < v.free.len() && 0 <= b < v.free.len() && a != b implies v.free[a] != v.free[b] by {
            lemma_segment_bounds(v, a);
            lemma_segment_bounds(v, b);
            if a < b {
                lemma_segments_apart(v, a, b);
            } else {
                lemma_segments_apart(v, b, a);
            }
        }
        lemma_segment_bounds(v, count - 1);
    }
    r
}

/// The allocator: a managed region and the ordered registry of buckets that
/// partition it.
pub struct SegmentPool {
    region_base: usize,
    memory: Vec<u8>,
    buckets: Vec<Bucket>,
}

impl View for SegmentPool {
    type V = Seq<BucketView>;

    closed spec fn view(&self) -> Seq<BucketView> {
        self.buckets@.map_values(|b: Bucket| b@)
    }
}

impl SegmentPool {
    pub closed spec fn wf(&self) -> bool {
        &&& pool_wf(self@)
        &&& forall|b: int| 0 <= b < self.buckets@.len() ==> #[trigger] self.buckets@[b].wf()
        &&& self.region_base + self.memory@.len() <= usize::MAX
        &&& forall|b: int|
            0 <= b < self.buckets@.len() ==> self.region_base <= #[trigger] self@[b].start
                && self@[b].end() <= self.region_base + self.memory@.len()
        &&& forall|b: int, i: int|
            0 <= b < self.buckets@.len() && 0 <= i < self@[b].segment_count ==> header_holds(
                self.memory@,
                #[trigger] self@[b].segment(i) - self.region_base,
                b as u64,
            )
    }

    /// A well-formed pool has a well-formed bucket sequence.
    pub proof fn lemma_wf_view(&self)
        requires
            self.wf(),
        ensures
            pool_wf(self@),
    {
    }

    proof fn lemma_view(&self)
        ensures
            self@.len() == self.buckets@.len(),
            forall|b: int| 0 <= b < self@.len() ==> #[trigger] self@[b] == self.buckets@[b]@,
    {
    }

    /// The header of every segment of bucket `b` names `b`.
    proof fn lemma_header_of(&self, b: int, x: int)
        requires
            self.wf(),
            0 <= b < self@.len(),
            self@[b].is_segment(x),
        ensures
            header_holds(self.memory@, x - self.region_base, b as u64),
            self.region_base <= x,
            x + self@[b].segment_size <= self.region_base + self.memory@.len(),
    {
        self.lemma_view();
        let bv = self@[b];
        assert(bv.wf());
        lemma_is_segment(bv, x);
        let i = (x - bv.start) / (bv.segment_size as int);
        assert(header_holds(self.memory@, self@[b].segment(i) - self.region_base, b as u64));
    }

    /// Builds the registry over the region at `region_base`: carves one bucket
    /// per configuration entry, in order, writes every segment's header, and
    /// puts every segment on its bucket's stack.
    pub fn new(config: &Vec<(usize, usize)>, region_base: usize, region: Vec<u8>) -> (r: Result<
        SegmentPool,
        InitError,
    >)
        requires
            region_base + region@.len() <= usize::MAX,
        ensures
            !config_valid(config@) ==> r == Err::<SegmentPool, InitError>(InitError::InvalidConfig),
            config_valid(config@) && prefix_bytes(config@, config@.len() as int) > region@.len() ==> r
                == Err::<SegmentPool, InitError>(InitError::Overcommit),
            config_valid(config@) && prefix_bytes(config@, config@.len() as int) <= region@.len()
                ==> match r {
                Ok(p) => p.wf() && p@ == initial_view(config@, region_base as int),
                Err(_) => false,
            },
    {
        let n = config.len();
        let mut i: usize = 0;
        while i < n
            invariant
                i <= n,
                n == config@.len(),
                forall|j: int| 0 <= j < i ==> #[trigger] config@[j].0 > HEADER_SIZE && config@[j].1 > 0,
                forall|a: int, b: int| 0 <= a < b < i ==> #[trigger] config@[a].0 < #[trigger] config@[b].0,
            decreases n - i,
        {
            let (size, count) = config[i];
            if size <= HEADER_SIZE || count == 0 {
                proof {
                    assert(!(config@[i as int].0 > HEADER_SIZE && config@[i as int].1 > 0));
                }
                return Err(InitError::InvalidConfig);
            }
            if i > 0 && config[i - 1].0 >= size {
                proof {
                    assert(!(config@[i - 1].0 < config@[i as int].0));
                }
                return Err(InitError::InvalidConfig);
            }
            proof {
                assert forall|a: int, b: int| 0 <= a < b < i + 1 implies #[trigger] config@[a].0
                    < #[trigger] config@[b].0 by {
                    if b == i && a < i - 1 {
                        assert(config@[a].0 < config@[i - 1].0);
                    }
                }
            }
            i = i + 1;
        }
        let ghost c = config@;
        let ghost len = region@.len() as int;
        proof {
            assert(region@.len() == region.len());
        }
        let mut total: usize = 0;
        i = 0;
        while i < n
            invariant
                i <= n,
                n == c.len(),
                c == config@,
                config_valid(c),
                len == region@.len(),
                len <= usize::MAX,
                total == prefix_bytes(c, i as int),
                total <= len,
            decreases n - i,
        {
            let (size, count) = config[i];
            proof {
                lemma_prefix_mono(c, i + 1, n as int);
                assert(prefix_bytes(c, i + 1) == total + size * count);
            }
            let bytes = match size.checked_mul(count) {
                Some(b) => b,
                None => {
                    proof {
                        assert(0 <= total);
                    }
                    return Err(InitError::Overcommit);
                },
            };
            let next = match total.checked_add(bytes) {
                Some(t) => t,
                None => {
                    return Err(InitError::Overcommit);
                },
            };
            if next > region.len() {
                return Err(InitError::Overcommit);
            }
            total = next;
            i = i + 1;
        }
        let mut memory = region;
        let mut buckets: Vec<Bucket> = Vec::new();
        let mut cursor: usize = region_base;
        let mut k: usize = 0;
        while k < n
            invariant
                k <= n,
                n == c.len(),
                c == config@,
                config_valid(c),
                prefix_bytes(c, n as int) <= memory@.len(),
                region_base + memory@.len() <= usize::MAX,
                memory@.len() == len,
                cursor == region_base + prefix_bytes(c, k as int),
                buckets@.len() == k,
                forall|b: int|
                    0 <= b < k ==> #[trigger] buckets@[b].wf() && buckets@[b]@ == initial_bucket(
                        c,
                        region_base as int,
                        b,
                    ),
                forall|b: int, j: int|
                    0 <= b < k && 0 <= j < c[b].1 ==> header_holds(
                        memory@,
                        #[trigger] initial_bucket(c, region_base as int, b).segment(j) - region_base,
                        b as u64,
                    ),
            decreases n - k,
        {
            let (size, count) = config[k];
            let ghost v = initial_bucket(c, region_base as int, k as int);
            proof {
                lemma_prefix_mono(c, k + 1, n as int);
                lemma_prefix_mono(c, 0, k as int);
                assert(prefix_bytes(c, k + 1) == prefix_bytes(c, k as int) + size * count);
            }
            let ghost before = memory@;
            let bucket = fill_bucket(&mut memory, region_base, cursor, size, count, k as u64, Ghost(v));
            proof {
                assert forall|b: int, j: int|
                    0 <= b < k + 1 && 0 <= j < c[b].1 implies header_holds(
                    memory@,
                    #[trigger] initial_bucket(c, region_base as int, b).segment(j) - region_base,
                    b as u64,
                ) by {
                    if b < k {
                        let w = initial_bucket(c, region_base as int, b);
                        lemma_segment_bounds(w, j);
                        lemma_prefix_mono(c, b + 1, k as int);
                        lemma_header_frame(
                            before,
                            memory@,
                            w.segment(j) - region_base,
                            b as u64,
                            cursor - region_base,
                            cursor - region_base + size * count,
                        );
                    }
                }
            }
            let ghost old_buckets = buckets@;
            buckets.push(bucket);
            proof {
                assert forall|b: int| 0 <= b < k + 1 implies #[trigger] buckets@[b].wf() && buckets@[b]@
                    == initial_bucket(c, region_base as int, b) by {
                    if b < k {
                        assert(buckets@[b] == old_buckets[b]);
                        assert(old_buckets[b].wf());
                    }
                }
            }
            cursor = cursor + size * count;
            k = k + 1;
        }
        let pool = SegmentPool { region_base, memory, buckets };
        proof {
            pool.lemma_view();
            assert forall|b: int| 0 <= b < pool@.len() implies #[trigger] pool@[b] == initial_view(
                c,
                region_base as int,
            )[b] by {
                assert(pool.buckets@[b].wf());
            }
            assert(pool@ =~= initial_view(c, region_base as int));
            assert forall|b: int| 0 <= b < pool@.len() implies #[trigger] pool@[b].wf() by {
                assert(pool.buckets@[b].wf());
            }
            assert forall|b1: int, b2: int| 0 <= b1 < b2 < pool@.len() implies #[trigger]
                pool@[b1].segment_size < #[trigger] pool@[b2].segment_size && pool@[b1].end()
                <= pool@[b2].start by {
                assert(c[b1].0 < c[b2].0);
                lemma_prefix_mono(c, b1 + 1, b2);
            }
            assert forall|b: int| 0 <= b < pool.buckets@.len() implies region_base
                <= #[trigger] pool@[b].start && pool@[b].end() <= region_base + pool.memory@.len() by {
                lemma_prefix_mono(c, 0, b);
                lemma_prefix_mono(c, b + 1, n as int);
            }
            assert forall|b: int, j: int|
                0 <= b < pool.buckets@.len() && 0 <= j < pool@[b].segment_count implies header_holds(
                pool.memory@,
                #[trigger] pool@[b].segment(j) - pool.region_base,
                b as u64,
            ) by {
                assert(header_holds(
                    pool.memory@,
                    initial_bucket(c, region_base as int, b).segment(j) - region_base,
                    b as u64,
                ));
            }
        }
        Ok(pool)
    }

    /// Number of buckets in the registry.
    pub fn bucket_count(&self) -> (r: usize)
        ensures
            r == self@.len(),
    {
        proof {
            self.lemma_view();
        }
        self.buckets.len()
    }

    /// The bucket at index `b`.
    pub fn bucket(&self, b: usize) -> (r: &Bucket)
        requires
            self.wf(),
            b < self@.len(),
        ensures
            r@ == self@[b as int],
            r.wf(),
    {
        proof {
            self.lemma_view();
        }
        &self.buckets[b]
    }

    /// The largest request size that some bucket can serve.
    pub fn max_supported_size(&self) -> (r: usize)
        requires
            self.wf(),
        ensures
            r == max_size(self@),
    {
        proof {
            self.lemma_view();
        }
        let n = self.buckets.len();
        if n == 0 {
            0
        } else {
            proof {
                assert(self@[n - 1].wf());
            }
            self.buckets[n - 1].segment_size - HEADER_SIZE
        }
    }

    /// Reads the header in front of `payload` and returns the bucket it names.
    pub fn owner_of(&self, payload: usize) -> (r: usize)
        requires
            self.wf(),
            is_outstanding(self@, payload as int),
        ensures
            r == owner(self@, payload as int),
            r < self@.len(),
    {
        let ghost b = owner(self@, payload as int);
        proof {
            assert(self.buckets@.len() == self.buckets.len());
        }
        let seg = payload - HEADER_SIZE;
        proof {
            self.lemma_view();
            assert(self@[b].wf());
            self.lemma_header_of(b, seg as int);
        }
        let at = seg - self.region_base;
        let tag = read_header(&self.memory, at);
        proof {
            assert(header_holds(self.memory@, at as int, b as u64));
            assert(tag == b as u64);
        }
        tag as usize
    }

    /// The managed byte at address `addr`.
    pub closed spec fn byte_at(&self, addr: int) -> u8 {
        self.memory@[addr - self.region_base]
    }

    /// Byte `offset` of an outstanding payload lies in its segment, past the header.
    pub open spec fn in_payload(v: Seq<BucketView>, payload: int, offset: int) -> bool {
        &&& payload <= usize::MAX
        &&& is_outstanding(v, payload)
        &&& 0 <= offset < v[owner(v, payload)].capacity()
    }

    /// No client byte shares a place with a header of any segment.
    proof fn lemma_payload_clear_of_headers(&self, payload: int, offset: int, b: int, i: int)
        requires
            self.wf(),
            Self::in_payload(self@, payload, offset),
            0 <= b < self@.len(),
            0 <= i < self@[b].segment_count,
        ensures
            payload + offset < self@[b].segment(i) || self@[b].segment(i) + HEADER_SIZE <= payload
                + offset,
    {
        self.lemma_view();
        let o = owner(self@, payload);
        let ov = self@[o];
        let bv = self@[b];
        let seg = payload - HEADER_SIZE;
        assert(ov.wf());
        assert(bv.wf());
        assert(is_outstanding(self@, payload));
        assert(0 <= o < self@.len() && HEADER_SIZE <= payload && self@[o].outstanding.contains(
            (payload - HEADER_SIZE) as usize,
        ));
        assert(ov.is_segment(seg));
        lemma_is_segment(ov, seg);
        let j = (seg - ov.start) / (ov.segment_size as int);
        lemma_segment_bounds(bv, i);
        if o == b {
            if j < i {
                lemma_segments_apart(bv, j, i);
            } else if i < j {
                lemma_segments_apart(bv, i, j);
            }
        } else if o < b {
            assert(ov.end() <= bv.start);
        } else {
            assert(bv.end() <= ov.start);
        }
    }

    /// Writes one byte of an outstanding payload. The allocator's state and
    /// every header stay as they were.
    pub fn write_payload(&mut self, payload: usize, offset: usize, value: u8)
        requires
            old(self).wf(),
            Self::in_payload(old(self)@, payload as int, offset as int),
        ensures
            final(self).wf(),
            final(self)@ == old(self)@,
            final(self).byte_at(payload + offset) == value,
            forall|p: int, off: int|
                Self::in_payload(old(self)@, p, off) && p + off != payload + offset
                    ==> #[trigger] final(self).byte_at(p + off) == old(self).byte_at(p + off),
    {
        let ghost o = owner(self@, payload as int);
        let ghost pre = *self;
        proof {
            self.lemma_view();
            assert(self@[o].wf());
            self.lemma_header_of(o, payload - HEADER_SIZE);
        }
        let at = payload + offset - self.region_base;
        self.memory.set(at, value);
        proof {
            assert forall|p: int, off: int|
                Self::in_payload(pre@, p, off) && p + off != payload + offset implies #[trigger] self.byte_at(
                p + off,
            ) == pre.byte_at(p + off) by {
                let o2 = owner(pre@, p);
                assert(is_outstanding(pre@, p));
                assert(0 <= o2 < pre@.len() && HEADER_SIZE <= p && pre@[o2].outstanding.contains(
                    (p - HEADER_SIZE) as usize,
                ));
                assert(pre@[o2].wf());
                pre.lemma_header_of(o2, p - HEADER_SIZE);
            }
            assert forall|b: int, i: int|
                0 <= b < self.buckets@.len() && 0 <= i < self@[b].segment_count implies header_holds(
                self.memory@,
                #[trigger] self@[b].segment(i) - self.region_base,
                b as u64,
            ) by {
                pre.lemma_payload_clear_of_headers(payload as int, offset as int, b, i);
                assert(header_holds(pre.memory@, pre@[b].segment(i) - pre.region_base, b as u64));
                lemma_header_frame(
                    pre.memory@,
                    self.memory@,
                    self@[b].segment(i) - self.region_base,
                    b as u64,
                    at as int,
                    at + 1,
                );
            }
        }
    }

    /// Reads one byte of an outstanding payload.
    pub fn read_payload(&self, payload: usize, offset: usize) -> (r: u8)
        requires
            self.wf(),
            Self::in_payload(self@, payload as int, offset as int),
        ensures
            r == self.byte_at(payload + offset),
    {
        let ghost o = owner(self@, payload as int);
        proof {
            self.lemma_view();
            assert(self@[o].wf());
            self.lemma_header_of(o, payload - HEADER_SIZE);
        }
        self.memory[payload + offset - self.region_base]
    }

    /// Hands out one segment's payload for a request of `size` bytes: from the
    /// home bucket if it has a free segment, else from the first larger one
    /// that does.
    pub fn allocate(&mut self, size: usize) -> (r: Result<usize, AllocError>)
        requires
            old(self).wf(),
        ensures
            final(self).wf(),
            (final(self)@, r) == allocate_spec(old(self)@, size as int),
            forall|a: int| #[trigger] final(self).byte_at(a) == old(self).byte_at(a),
    {
        proof {
            self.lemma_view();
        }
        let n = self.buckets.len();
        proof {
            assert forall|j: int| 0 <= j < n implies #[trigger] self.buckets@[j].segment_size
                > HEADER_SIZE by {
                assert(self@[j].wf());
            }
        }
        let mut h: usize = 0;
        while h < n && self.buckets[h].segment_size - HEADER_SIZE < size
            invariant
                forall|j: int| 0 <= j < n ==> #[trigger] self.buckets@[j].segment_size > HEADER_SIZE,
                h <= n,
                n == self@.len(),
                self.wf(),
                home(self@, size as int) == home_from(self@, size as int, h as int),
            decreases n - h,
        {
            proof {
                assert(self@[h as int].wf());
            }
            h = h + 1;
        }
        if h == n {
            return Err(AllocError::SizeUnsupported);
        }
        let mut b: usize = h;
        while b < n && self.buckets[b].free_count == 0
            invariant
                h <= b <= n,
                n == self@.len(),
                self.wf(),
                first_free_from(self@, h as int) == first_free_from(self@, b as int),
            decreases n - b,
        {
            proof {
                assert(self.buckets@[b as int].wf());
            }
            b = b + 1;
        }
        if b == n {
            return Err(AllocError::OutOfMemory);
        }
        proof {
            assert(self.buckets@[b as int].wf());
        }
        let ghost pre = *self;
        let seg = match self.buckets[b].try_pop() {
            Some(a) => a,
            None => {
                return Err(AllocError::OutOfMemory);
            },
        };
        proof {
            assert(self.buckets@ =~= pre.buckets@.update(b as int, self.buckets@[b as int]));
            assert(self@ =~= pre@.update(b as int, pre@[b as int].pop()));
            pre.lemma_header_of(b as int, seg as int);
            assert forall|b1: int, b2: int| 0 <= b1 < b2 < self@.len() implies #[trigger]
                self@[b1].segment_size < #[trigger] self@[b2].segment_size && self@[b1].end()
                <= self@[b2].start by {
                assert(pre@[b1].segment_size < pre@[b2].segment_size);
            }
            assert forall|bb: int, i: int|
                0 <= bb < self.buckets@.len() && 0 <= i < self@[bb].segment_count implies header_holds(
                self.memory@,
                #[trigger] self@[bb].segment(i) - self.region_base,
                bb as u64,
            ) by {
                assert(self@[bb].segment(i) == pre@[bb].segment(i));
            }
        }
        let ghost mem_before = self.memory@;
        let at = seg - self.region_base;
        write_header(&mut self.memory, at, b as u64);
        proof {
            assert forall|i: int| 0 <= i < mem_before.len() implies #[trigger] self.memory@[i]
                == mem_before[i] by {
                if at <= i < at + HEADER_SIZE {
                    let k = i - at;
                    assert(mem_before[at + k] == header_byte(b as u64, k));
                    assert(self.memory@[at + k] == header_byte(b as u64, k));
                }
            }
            assert(self.memory@ =~= mem_before);
        }
        Ok(seg + HEADER_SIZE)
    }

    /// Takes back a payload that `allocate` handed out; the header in front
    /// of it says which bucket it returns to.
    pub fn free(&mut self, payload: usize)
        requires
            old(self).wf(),
            is_outstanding(old(self)@, payload as int),
        ensures
            final(self).wf(),
            final(self)@ == free_spec(old(self)@, payload as int),
            forall|a: int| #[trigger] final(self).byte_at(a) == old(self).byte_at(a),
    {
        let b = self.owner_of(payload);
        let seg = payload - HEADER_SIZE;
        let ghost pre = *self;
        proof {
            self.lemma_view();
            assert(self.buckets@[b as int].wf());
        }
        self.buckets[b].push(seg);
        proof {
            assert(self.buckets@ =~= pre.buckets@.update(b as int, self.buckets@[b as int]));
            assert(self@ =~= pre@.update(b as int, pre@[b as int].push(seg)));
            assert forall|b1: int, b2: int| 0 <= b1 < b2 < self@.len() implies #[trigger]
                self@[b1].segment_size < #[trigger] self@[b2].segment_size && self@[b1].end()
                <= self@[b2].start by {
                assert(pre@[b1].segment_size < pre@[b2].segment_size);
            }
            assert forall|bb: int, i: int|
                0 <= bb < self.buckets@.len() && 0 <= i < self@[bb].segment_count implies header_holds(
                self.memory@,
                #[trigger] self@[bb].segment(i) - self.region_base,
                bb as u64,
            ) by {
                assert(self@[bb].segment(i) == pre@[bb].segment(i));
            }
        }
    }
}

} // verus!
