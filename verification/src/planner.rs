//! Partitioning of a resource of known size into contiguous byte ranges, one
//! per connection, with surplus connections dropped.

use vstd::prelude::*;
use crate::range::ByteRange;

verus! {

/// Bytes assigned to each connection: `total / connections`, rounded up.
pub open spec fn chunk_size(total: nat, connections: nat) -> nat
    recommends
        connections > 0,
{
    if total % connections == 0 {
        total / connections
    } else {
        total / connections + 1
    }
}

/// Number of ranges in the plan: the indices `i` with `i * chunk_size < total`.
pub open spec fn planned_count(total: nat, connections: nat) -> nat
    recommends
        connections > 0,
{
    if total == 0 {
        0
    } else {
        ((total - 1) / (chunk_size(total, connections) as int) + 1) as nat
    }
}

/// The `i`-th range: it starts at `i * chunk_size` and ends one byte before
/// the next start, or at the last byte of the resource if that comes first.
pub open spec fn planned_range(total: nat, connections: nat, i: nat) -> ByteRange
    recommends
        connections > 0,
        i < planned_count(total, connections),
{
    let size: nat = chunk_size(total, connections);
    let next: nat = (i + 1) * size;
    ByteRange {
        start: (i * size) as u64,
        end: (if next < total { next - 1 } else { total - 1 }) as u64,
    }
}

/// The whole plan for `total` bytes over `connections` connections.
pub open spec fn spec_plan(total: nat, connections: nat) -> Seq<ByteRange>
    recommends
        connections > 0,
{
    Seq::new(planned_count(total, connections), |i: int| planned_range(total, connections, i as nat))
}

/// `ranges` splits the offsets `0..total` exactly: the first range starts at
/// 0, the last ends at `total - 1`, every range holds at least one byte, and
/// each range begins right after its predecessor ends.
pub open spec fn partitions(ranges: Seq<ByteRange>, total: nat) -> bool {
    if total == 0 {
        ranges.len() == 0
    } else {
        &&& ranges.len() > 0
        &&& ranges[0].start == 0
        &&& ranges[ranges.len() - 1].end == total - 1
        &&& forall|i: int| 0 <= i < ranges.len() ==> (#[trigger] ranges[i]).wf()
        &&& forall|i: int|
            0 <= i < ranges.len() - 1 ==> (#[trigger] ranges[i]).end + 1 == ranges[i + 1].start
    }
}

proof fn lemma_mul_step(k: int, size: int)
    ensures
        (k + 1) * size == k * size + size,
        0 * size == 0,
        1 * size == size,
{
    assert((k + 1) * size == k * size + size) by (nonlinear_arith);
}

proof fn lemma_mul_le(a: int, b: int, size: int)
    requires
        a <= b,
        0 <= size,
    ensures
        a * size <= b * size,
{
    assert(a * size <= b * size) by (nonlinear_arith)
        requires
            a <= b,
            0 <= size,
    ;
}

/// The chunk size is the least size with which `connections` chunks reach
/// `total`.
pub proof fn lemma_chunk_size_bounds(total: nat, connections: nat)
    requires
        connections > 0,
    ensures
        total <= connections * chunk_size(total, connections),
        total > 0 ==> chunk_size(total, connections) >= 1,
        total > 0 ==> connections * (chunk_size(total, connections) - 1) < total,
{
    let c: int = connections as int;
    let t: int = total as int;
    let q: int = t / c;
    let r: int = t % c;
    assert(t == c * q + r && 0 <= r < c) by (nonlinear_arith)
        requires
            c > 0,
            t >= 0,
            q == t / c,
            r == t % c,
    ;
    assert(c * (q + 1) == c * q + c) by (nonlinear_arith);
    assert(c * (q - 1) == c * q - c) by (nonlinear_arith);
    if t > 0 && r == 0 {
        assert(q >= 1) by (nonlinear_arith)
            requires
                t == c * q,
                t > 0,
                c > 0,
        ;
    }
}

/// An index is below the planned count exactly when its chunk starts inside
/// the resource; no more indices than connections do.
pub proof fn lemma_planned_count(total: nat, connections: nat, i: nat)
    requires
        connections > 0,
    ensures
        i < planned_count(total, connections) <==> i * chunk_size(total, connections) < total,
        i < planned_count(total, connections) ==> i < connections,
        planned_count(total, connections) <= connections,
        planned_count(total, connections) <= total,
{
    lemma_chunk_size_bounds(total, connections);
    if total > 0 {
        let size: int = chunk_size(total, connections) as int;
        let t: int = total as int;
        let n: int = planned_count(total, connections) as int;
        let q: int = (t - 1) / size;
        let r: int = (t - 1) % size;
        assert(t - 1 == size * q + r && 0 <= r < size && q >= 0) by (nonlinear_arith)
            requires
                size > 0,
                t - 1 >= 0,
                q == (t - 1) / size,
                r == (t - 1) % size,
        ;
        // The count n is the one number with (n - 1) * size < total <= n * size.
        assert(q * size == size * q) by (nonlinear_arith);
        lemma_mul_step(q, size);
        assert((n - 1) * size < t <= n * size);
        let c: int = connections as int;
        assert(c * size == size * c) by (nonlinear_arith);
        if (i as int) < n {
            lemma_mul_le(i as int, n - 1, size);
        } else {
            lemma_mul_le(n, i as int, size);
        }
        if n > c {
            lemma_mul_le(c, n - 1, size);
        }
        if n > t {
            lemma_mul_le(t, n - 1, size);
            assert(t * size >= t) by (nonlinear_arith)
                requires
                    size >= 1,
                    t >= 0,
            ;
        }
    } else {
        assert(i * chunk_size(total, connections) >= 0) by (nonlinear_arith)
            requires
                i >= 0,
                chunk_size(total, connections) >= 0,
        ;
    }
}

/// Every plan splits the resource exactly: no gap, no overlap, nothing
/// beyond the last byte.
pub proof fn lemma_plan_partitions(total: nat, connections: nat)
    requires
        connections > 0,
        total <= u64::MAX,
    ensures
        partitions(spec_plan(total, connections), total),
{
    let ranges = spec_plan(total, connections);
    lemma_planned_count(total, connections, 0);
    if total > 0 {
        lemma_chunk_size_bounds(total, connections);
        let size: int = chunk_size(total, connections) as int;
        let n: int = planned_count(total, connections) as int;
        lemma_mul_step(0, size);
        assert(n > 0);
        assert(ranges[0].start == 0);
        assert forall|i: int| 0 <= i < n implies (#[trigger] ranges[i]).wf() && ranges[i].start
            == i * size && ranges[i].end == (if (i + 1) * size < total {
            (i + 1) * size - 1
        } else {
            total - 1
        }) by {
            lemma_planned_count(total, connections, i as nat);
            lemma_mul_step(i, size);
        }
        assert forall|i: int| 0 <= i < n - 1 implies (#[trigger] ranges[i]).end + 1 == ranges[i
            + 1].start by {
            lemma_planned_count(total, connections, (i + 1) as nat);
            assert(ranges[i + 1].wf());
        }
        lemma_planned_count(total, connections, n as nat);
        lemma_mul_step(n - 1, size);
        assert(ranges[n - 1].wf());
    }
}

/// However many connections are asked for, the plan never holds more ranges
/// than connections or than bytes; every range holds at least one byte, ends
/// inside the resource, and ends before any later range starts, so that no
/// two ranges share an offset.
pub proof fn lemma_plan_clamped(total: nat, connections: nat)
    requires
        connections > 0,
        total <= u64::MAX,
    ensures
        spec_plan(total, connections).len() <= connections,
        spec_plan(total, connections).len() <= total,
        forall|i: int|
            0 <= i < spec_plan(total, connections).len() ==> {
                &&& (#[trigger] spec_plan(total, connections)[i]).wf()
                &&& spec_plan(total, connections)[i].end < total
            },
        forall|i: int, j: int|
            0 <= i < j < spec_plan(total, connections).len() ==> (#[trigger] spec_plan(
                total,
                connections,
            )[i]).end < (#[trigger] spec_plan(total, connections)[j]).start,
{
    let ranges = spec_plan(total, connections);
    lemma_planned_count(total, connections, 0);
    lemma_plan_partitions(total, connections);
    if total > 0 {
        lemma_chunk_size_bounds(total, connections);
        let size: int = chunk_size(total, connections) as int;
        assert forall|i: int| 0 <= i < ranges.len() implies (#[trigger] ranges[i]).end < total by {
            lemma_planned_count(total, connections, i as nat);
            lemma_mul_step(i, size);
        }
        assert forall|i: int, j: int| 0 <= i < j < ranges.len() implies (#[trigger] ranges[i]).end
            < (#[trigger] ranges[j]).start by {
            lemma_planned_count(total, connections, i as nat);
            lemma_planned_count(total, connections, j as nat);
            lemma_mul_step(i, size);
            lemma_mul_le(i + 1, j, size);
        }
    }
}

/// The ranges of one download, in ascending order of offset.
#[derive(Debug)]
pub struct DownloadPlan {
    ranges: Vec<ByteRange>,
    total_length: u64,
}

impl View for DownloadPlan {
    type V = Seq<ByteRange>;

    closed spec fn view(&self) -> Seq<ByteRange> {
        self.ranges@
    }
}

impl DownloadPlan {
    #[verifier::type_invariant]
    spec fn partitioned(&self) -> bool {
        partitions(self.ranges@, self.total_length as nat)
    }

    /// Size of the resource that the plan covers.
    pub closed spec fn spec_total_length(&self) -> u64 {
        self.total_length
    }

    /// Size of the resource that the plan covers.
    pub fn total_length(&self) -> (n: u64)
        ensures
            n == self.spec_total_length(),
    {
        self.total_length
    }

    /// The ranges, which split `0..total_length` exactly.
    pub fn ranges(&self) -> (r: &Vec<ByteRange>)
        ensures
            r@ == self@,
            partitions(self@, self.spec_total_length() as nat),
    {
        proof {
            use_type_invariant(self);
        }
        &self.ranges
    }
}

/// Splits `total_length` bytes into at most `connections` contiguous ranges
/// of `chunk_size` bytes each, the last one possibly shorter. Connections
/// whose range would start past the end of the resource get none.
pub fn plan(total_length: u64, connections: u32) -> (p: DownloadPlan)
    requires
        connections >= 1,
    ensures
        p@ == spec_plan(total_length as nat, connections as nat),
        p.spec_total_length() == total_length,
        partitions(p@, total_length as nat),
        p@.len() <= connections,
        p@.len() <= total_length,
{
    let ghost total: nat = total_length as nat;
    let ghost conns: nat = connections as nat;
    proof {
        lemma_plan_partitions(total, conns);
        lemma_plan_clamped(total, conns);
        lemma_chunk_size_bounds(total, conns);
    }
    let mut ranges: Vec<ByteRange> = Vec::new();
    if total_length == 0 {
        assert(ranges@ =~= spec_plan(total, conns));
        return DownloadPlan { ranges, total_length };
    }
    let wide: u64 = connections as u64;
    let size: u64 = if total_length % wide == 0 {
        total_length / wide
    } else {
        assert(total_length / wide < total_length) by (nonlinear_arith)
            requires
                wide > 0,
                total_length % wide != 0,
        ;
        total_length / wide + 1
    };
    assert(size == chunk_size(total, conns));
    let mut start: u64 = 0;
    proof {
        lemma_mul_step(0, size as int);
    }
    while total_length - start > size
        invariant
            connections >= 1,
            total == total_length,
            conns == connections,
            size == chunk_size(total, conns),
            size >= 1,
            start < total_length,
            start == ranges@.len() * size,
            forall|i: int|
                0 <= i < ranges@.len() ==> ranges@[i] == planned_range(total, conns, i as nat),
        decreases total_length - start,
    {
        let ghost k: int = ranges@.len() as int;
        proof {
            lemma_mul_step(k, size as int);
        }
        ranges.push(ByteRange { start, end: start + size - 1 });
        start = start + size;
    }
    let ghost k: int = ranges@.len() as int;
    proof {
        lemma_mul_step(k, size as int);
        lemma_planned_count(total, conns, k as nat);
        lemma_planned_count(total, conns, (k + 1) as nat);
    }
    ranges.push(ByteRange { start, end: total_length - 1 });
    assert(ranges@ =~= spec_plan(total, conns));
    DownloadPlan { ranges, total_length }
}

} // verus!
