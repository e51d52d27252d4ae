//! Assembling buckets of roughly equal weight from cuts at evenly spaced
//! target counts.
use vstd::prelude::*;
use crate::table::{
    Entry, wf_table, is_well_formed, total, count_before, bracket_index,
    lemma_bracket_monotone,
};
use crate::boundary::{
    Cut, SEARCH_RADIUS, boundary, cut_admissible, cut_end, cut_index, distance, successor,
    lemma_cut_index,
};

verus! {

/// Why buckets cannot be assembled for the given inputs.
#[derive(Debug, PartialEq, Eq, Structural)]
pub enum RangeError {
    /// The bucket count is zero, or too large to divide a `u32` mass by.
    InvalidBucketCount,
    /// The table is empty, has decreasing counts, no mass, or a key that is
    /// empty or not ASCII.
    MalformedTable,
    /// The first entry's count exceeds a bucket's ideal mass, so the first cut
    /// would have to come before the first key.
    FirstEntryTooLarge,
    /// The cuts come out of order: a cut that moved within its allowance passed
    /// the next one, which would give a bucket a negative mass.
    CutsOutOfOrder,
}

/// A contiguous range of keys, from `start` to `end`, holding `count` of the
/// table's frequency mass.
pub struct Bucket {
    pub start: Vec<u8>,
    pub end: Vec<u8>,
    pub count: u32,
}

/// The ideal mass of each of `n` buckets.
pub open spec fn bucket_size(t: Seq<Entry>, n: int) -> int {
    total(t) / n
}

/// The count that the `k`-th internal cut aims at.
pub open spec fn cut_target(t: Seq<Entry>, n: int, k: int) -> int {
    k * bucket_size(t, n)
}

/// The entry that the `k`-th internal cut (1 <= k < n) stands at.
pub open spec fn cut_position(t: Seq<Entry>, n: int, max_dev: int, k: int) -> int {
    cut_index(t, cut_target(t, n, k), max_dev, SEARCH_RADIUS as int)
}

/// The cumulative count at the `k`-th bucket boundary: zero before the first
/// bucket, the total after the last, and the count at the cut in between.
pub open spec fn boundary_count(t: Seq<Entry>, n: int, max_dev: int, k: int) -> int {
    if k <= 0 {
        0
    } else if k >= n {
        total(t)
    } else {
        t[cut_position(t, n, max_dev, k)].count as int
    }
}

/// The mass of bucket `k`.
pub open spec fn bucket_mass(t: Seq<Entry>, n: int, max_dev: int, k: int) -> int {
    boundary_count(t, n, max_dev, k + 1) - boundary_count(t, n, max_dev, k)
}

/// The first string of bucket `k`: "A" for the first bucket, else the
/// successor of the previous bucket's last string.
pub open spec fn bucket_start(t: Seq<Entry>, n: int, max_dev: int, k: int) -> Seq<u8> {
    if k <= 0 {
        seq![65u8]
    } else {
        successor(cut_end(t, cut_position(t, n, max_dev, k)))
    }
}

/// The last string of bucket `k`: "Z" for the last bucket, else the end string
/// of the cut that follows it.
pub open spec fn bucket_end(t: Seq<Entry>, n: int, max_dev: int, k: int) -> Seq<u8> {
    if k >= n - 1 {
        seq![90u8]
    } else {
        cut_end(t, cut_position(t, n, max_dev, k + 1))
    }
}

/// The inputs on which the `n - 1` internal cuts can be made: a valid table, a
/// bucket count that divides a `u32` mass, and a first entry whose count fits
/// in a bucket, so that the first cut falls after the first key.
pub open spec fn cuts_admissible(t: Seq<Entry>, n: int) -> bool {
    &&& wf_table(t)
    &&& 1 <= n <= u32::MAX
    &&& t[0].count <= bucket_size(t, n)
}

/// The counts at consecutive internal cuts never decrease.
pub open spec fn cuts_ordered(t: Seq<Entry>, n: int, max_dev: int) -> bool {
    forall|k: int|
        1 <= k < n - 1 ==> #[trigger] boundary_count(t, n, max_dev, k) <= boundary_count(t, n, max_dev, k + 1)
}

/// The inputs on which `n` buckets can be assembled: the cuts can be made and
/// come out in order, so that no bucket has a negative mass.
pub open spec fn assembly_admissible(t: Seq<Entry>, n: int, max_dev: int) -> bool {
    &&& cuts_admissible(t, n)
    &&& cuts_ordered(t, n, max_dev)
}

/// `cut` is the one that `boundary` makes for `target`.
pub open spec fn is_cut_for(t: Seq<Entry>, cut: Cut, target: int, max_dev: int) -> bool {
    let b = cut_index(t, target, max_dev, SEARCH_RADIUS as int);
    &&& cut.count == t[b].count
    &&& cut.end@ == cut_end(t, b)
    &&& cut.start@ == successor(cut.end@)
}

/// `a` sorts strictly before `b` in byte order.
pub open spec fn precedes(a: Seq<u8>, b: Seq<u8>) -> bool {
    ||| (a.len() < b.len() && a == b.take(a.len() as int))
    ||| exists|i: int|
        0 <= i < a.len() && i < b.len() && a.take(i) == b.take(i) && a[i] < b[i]
}

/// Sum of the masses of buckets `0..m`.
pub open spec fn mass_sum(t: Seq<Entry>, n: int, max_dev: int, m: int) -> int
    decreases m,
{
    if m <= 0 {
        0
    } else {
        mass_sum(t, n, max_dev, m - 1) + bucket_mass(t, n, max_dev, m - 1)
    }
}

/// Every internal target lies at or after the first entry's count and below
/// the total, so a cut can be made there.
pub proof fn lemma_target_admissible(t: Seq<Entry>, n: int, k: int)
    requires
        cuts_admissible(t, n),
        1 <= k < n,
    ensures
        cut_admissible(t, cut_target(t, n, k)),
        cut_target(t, n, k + 1) == cut_target(t, n, k) + bucket_size(t, n),
{
    let bs = bucket_size(t, n);
    let tot = total(t);
    assert(n * bs <= tot) by (nonlinear_arith)
        requires bs == tot / n, n >= 1, tot >= 0;
    assert(bs <= k * bs) by (nonlinear_arith)
        requires k >= 1, bs >= 0;
    assert(k * bs < tot) by (nonlinear_arith)
        requires k < n, n * bs <= tot, tot > 0, bs >= 0;
    assert((k + 1) * bs == k * bs + bs) by (nonlinear_arith);
}

/// The counts at consecutive bucket boundaries never decrease, so no bucket
/// has a negative mass.
pub proof fn lemma_boundary_counts_ordered(t: Seq<Entry>, n: int, max_dev: int, k: int)
    requires
        assembly_admissible(t, n, max_dev),
        0 <= k < n,
    ensures
        boundary_count(t, n, max_dev, k) <= boundary_count(t, n, max_dev, k + 1),
        0 <= bucket_mass(t, n, max_dev, k),
{
    if k == 0 {
        if n > 1 {
            lemma_target_admissible(t, n, 1);
            lemma_cut_index(t, cut_target(t, n, 1), max_dev, SEARCH_RADIUS as int);
        }
    } else if k + 1 == n {
        lemma_target_admissible(t, n, k);
        lemma_cut_index(t, cut_target(t, n, k), max_dev, SEARCH_RADIUS as int);
        assert(t[cut_position(t, n, max_dev, k)].count <= t.last().count);
    } else {
        assert(boundary_count(t, n, max_dev, k) <= boundary_count(t, n, max_dev, k + 1));
    }
}

/// An allowance no larger than a bucket's ideal mass keeps the cuts in order:
/// a cut that moved within half the allowance of its target cannot pass the
/// cuts on either side of it.
pub proof fn lemma_small_allowance_orders_cuts(t: Seq<Entry>, n: int, max_dev: int)
    requires
        cuts_admissible(t, n),
        0 <= max_dev <= bucket_size(t, n),
    ensures
        cuts_ordered(t, n, max_dev),
{
    assert forall|k: int| 1 <= k < n - 1 implies #[trigger] boundary_count(t, n, max_dev, k) <= boundary_count(
        t,
        n,
        max_dev,
        k + 1,
    ) by {
        let t1 = cut_target(t, n, k);
        let t2 = cut_target(t, n, k + 1);
        let h = max_dev / 2;
        lemma_target_admissible(t, n, k);
        lemma_target_admissible(t, n, k + 1);
        lemma_cut_index(t, t1, max_dev, SEARCH_RADIUS as int);
        lemma_cut_index(t, t2, max_dev, SEARCH_RADIUS as int);
        let b1 = cut_position(t, n, max_dev, k);
        let b2 = cut_position(t, n, max_dev, k + 1);
        let r1 = bracket_index(t, t1);
        let r2 = bracket_index(t, t2);
        let within1 = distance(t1, t[b1].count as int) < h;
        let within2 = distance(t2, t[b2].count as int) < h;
        if within1 {
            if within2 {
                assert(t[b1].count <= t[b2].count);
            } else {
                assert(b2 == r2);
                assert(t[b1].count <= t[b2].count);
            }
        } else {
            assert(b1 == r1);
            if within2 {
                if b2 < b1 {
                    assert(t[b2].count <= t[b1 - 1].count);
                    assert(count_before(t, r1) <= t1);
                    assert(false);
                }
                assert(t[b1].count <= t[b2].count);
            } else {
                assert(b2 == r2);
                lemma_bracket_monotone(t, t1, t2);
                assert(t[b1].count <= t[b2].count);
            }
        }
    }
}

/// The masses of the first `m` buckets add up to the count at boundary `m`.
pub proof fn lemma_mass_sum(t: Seq<Entry>, n: int, max_dev: int, m: int)
    requires
        0 <= m,
    ensures
        mass_sum(t, n, max_dev, m) == boundary_count(t, n, max_dev, m),
    decreases m,
{
    if m > 0 {
        lemma_mass_sum(t, n, max_dev, m - 1);
    }
}

/// A string sorts before its successor.
pub proof fn lemma_precedes_successor(s: Seq<u8>)
    requires
        s.len() > 0,
        s.last() < 255,
    ensures
        precedes(s, successor(s)),
{
    let i = s.len() - 1;
    let u = successor(s);
    assert(s.take(i) =~= u.take(i));
    assert(u[i] == s[i] + 1);
}

/// The buckets cover the whole mass: no bucket's mass is negative and the
/// masses add up to the table's total.
pub proof fn lemma_buckets_cover_total(t: Seq<Entry>, n: int, max_dev: int)
    requires
        assembly_admissible(t, n, max_dev),
    ensures
        forall|k: int| 0 <= k < n ==> 0 <= #[trigger] bucket_mass(t, n, max_dev, k),
        mass_sum(t, n, max_dev, n) == total(t),
{
    assert forall|k: int| 0 <= k < n implies 0 <= #[trigger] bucket_mass(t, n, max_dev, k) by {
        lemma_boundary_counts_ordered(t, n, max_dev, k);
    }
    lemma_mass_sum(t, n, max_dev, n);
}

/// The buckets are contiguous: the last string of each bucket sorts just
/// before the first string of the next one, which is its successor.
pub proof fn lemma_buckets_contiguous(t: Seq<Entry>, n: int, max_dev: int, k: int)
    requires
        assembly_admissible(t, n, max_dev),
        0 <= k < n - 1,
    ensures
        bucket_start(t, n, max_dev, k + 1) == successor(bucket_end(t, n, max_dev, k)),
        precedes(bucket_end(t, n, max_dev, k), bucket_start(t, n, max_dev, k + 1)),
{
    lemma_target_admissible(t, n, k + 1);
    lemma_cut_index(t, cut_target(t, n, k + 1), max_dev, SEARCH_RADIUS as int);
    let b = cut_position(t, n, max_dev, k + 1);
    let e = cut_end(t, b);
    let key = t[b - 1].key@;
    assert(e.len() > 0 && e.last() == key[e.len() - 1]);
    lemma_precedes_successor(e);
}

/// Boundary `k` lies within half the allowance of its target. The outer
/// boundaries always do; an internal cut does unless the refiner fell back to
/// the entry that brackets its target.
pub open spec fn cut_in_allowance(t: Seq<Entry>, n: int, max_dev: int, k: int) -> bool {
    k <= 0 || k >= n || distance(cut_target(t, n, k), boundary_count(t, n, max_dev, k)) < max_dev / 2
}

/// A bucket whose two boundaries lie within the allowance has a mass within
/// `max_dev` of the ideal bucket mass, plus, for the last bucket, the
/// remainder left when the total is divided among the buckets.
pub proof fn lemma_bucket_mass_near_ideal(t: Seq<Entry>, n: int, max_dev: int, k: int)
    requires
        assembly_admissible(t, n, max_dev),
        0 <= max_dev,
        0 <= k < n,
        cut_in_allowance(t, n, max_dev, k),
        cut_in_allowance(t, n, max_dev, k + 1),
    ensures
        distance(bucket_mass(t, n, max_dev, k), bucket_size(t, n)) <= max_dev + total(t) % n,
{
    let bs = bucket_size(t, n);
    let tot = total(t);
    let h = max_dev / 2;
    let rem = tot % n;
    assert(tot == n * bs + rem && 0 <= rem < n) by (nonlinear_arith)
        requires bs == tot / n, rem == tot % n, n >= 1, tot >= 0;
    assert(cut_target(t, n, k + 1) == cut_target(t, n, k) + bs) by {
        assert((k + 1) * bs == k * bs + bs) by (nonlinear_arith);
    }
    assert(cut_target(t, n, 0) == 0);
    assert(cut_target(t, n, n) == n * bs);
    let e0 = boundary_count(t, n, max_dev, k) - cut_target(t, n, k);
    let e1 = boundary_count(t, n, max_dev, k + 1) - cut_target(t, n, k + 1);
    assert(-h < e0 < h || (k == 0 && e0 == 0));
    assert(-h < e1 < h || (k + 1 == n && e1 == rem));
    assert(bucket_mass(t, n, max_dev, k) - bs == e1 - e0);
    assert(2 * h <= max_dev);
}

/// Copies a byte string.
fn copy_bytes(s: &Vec<u8>) -> (r: Vec<u8>)
    ensures
        r@ == s@,
{
    let r = s.clone();
    assert(r@ =~= s@);
    r
}

/// Makes the `no_buckets - 1` internal cuts, the `k`-th aimed at `k` times
/// the ideal bucket mass.
pub fn distributed_name_boundaries(table: &[Entry], no_buckets: usize, max_deviation_count: u32) -> (r: Vec<Cut>)
    requires
        cuts_admissible(table@, no_buckets as int),
    ensures
        r@.len() == no_buckets - 1,
        forall|k: int|
            0 <= k < r@.len() ==> is_cut_for(
                table@,
                #[trigger] r@[k],
                cut_target(table@, no_buckets as int, k + 1),
                max_deviation_count as int,
            ),
{
    let ghost t = table@;
    let total_count = table[table.len() - 1].count;
    let size = total_count / (no_buckets as u32);
    let mut boundaries: Vec<Cut> = Vec::new();
    let mut i: usize = 1;
    while i < no_buckets
        invariant
            t == table@,
            cuts_admissible(t, no_buckets as int),
            size == bucket_size(t, no_buckets as int),
            1 <= i <= no_buckets,
            boundaries@.len() == i - 1,
            forall|k: int|
                0 <= k < boundaries@.len() ==> is_cut_for(
                    t,
                    #[trigger] boundaries@[k],
                    cut_target(t, no_buckets as int, k + 1),
                    max_deviation_count as int,
                ),
        decreases no_buckets - i,
    {
        proof {
            lemma_target_admissible(t, no_buckets as int, i as int);
        }
        let count = (i as u32) * size;
        let cut = boundary(table, count, max_deviation_count, SEARCH_RADIUS);
        boundaries.push(cut);
        i = i + 1;
    }
    boundaries
}

/// `cuts` are the internal cuts that `distributed_name_boundaries` makes.
pub open spec fn are_cuts_for(t: Seq<Entry>, n: int, max_dev: int, cuts: Seq<Cut>) -> bool {
    &&& cuts.len() == n - 1
    &&& forall|j: int| 0 <= j < cuts.len() ==> is_cut_for(t, #[trigger] cuts[j], cut_target(t, n, j + 1), max_dev)
}

/// Turns the internal cuts into buckets, pairing each cut with the one before.
fn assemble(table: &[Entry], no_buckets: usize, max_deviation_count: u32, ranges: &Vec<Cut>) -> (r: Vec<Bucket>)
    requires
        assembly_admissible(table@, no_buckets as int, max_deviation_count as int),
        are_cuts_for(table@, no_buckets as int, max_deviation_count as int, ranges@),
    ensures
        r@.len() == no_buckets,
        forall|k: int|
            0 <= k < no_buckets ==> {
                &&& (#[trigger] r@[k]).start@ == bucket_start(table@, no_buckets as int, max_deviation_count as int, k)
                &&& r@[k].end@ == bucket_end(table@, no_buckets as int, max_deviation_count as int, k)
                &&& r@[k].count == bucket_mass(table@, no_buckets as int, max_deviation_count as int, k)
            },
{
    let ghost t = table@;
    let ghost n = no_buckets as int;
    let ghost md = max_deviation_count as int;
    let total_count = table[table.len() - 1].count;
    let mut last_boundary: Vec<u8> = vec![65u8];
    let mut last_count: u32 = 0;
    let mut buckets: Vec<Bucket> = Vec::new();
    let mut k: usize = 0;
    while k < ranges.len()
        invariant
            t == table@,
            n == no_buckets,
            md == max_deviation_count,
            assembly_admissible(t, n, md),
            total_count == total(t),
            are_cuts_for(t, n, md, ranges@),
            0 <= k <= ranges@.len(),
            buckets@.len() == k,
            last_boundary@ == bucket_start(t, n, md, k as int),
            last_count == boundary_count(t, n, md, k as int),
            forall|j: int|
                0 <= j < k ==> {
                    &&& (#[trigger] buckets@[j]).start@ == bucket_start(t, n, md, j)
                    &&& buckets@[j].end@ == bucket_end(t, n, md, j)
                    &&& buckets@[j].count == bucket_mass(t, n, md, j)
                },
        decreases ranges@.len() - k,
    {
        proof {
            lemma_boundary_counts_ordered(t, n, md, k as int);
        }
        let cut = &ranges[k];
        let bucket = Bucket {
            start: last_boundary,
            end: copy_bytes(&cut.end),
            count: cut.count - last_count,
        };
        buckets.push(bucket);
        last_boundary = copy_bytes(&cut.start);
        last_count = cut.count;
        k = k + 1;
    }
    proof {
        lemma_boundary_counts_ordered(t, n, md, n - 1);
    }
    let last_bucket = Bucket { start: last_boundary, end: vec![90u8], count: total_count - last_count };
    buckets.push(last_bucket);
    assert(buckets@[n - 1].end@ =~= bucket_end(t, n, md, n - 1));
    buckets
}

/// Splits the key range into `no_buckets` contiguous buckets of roughly equal
/// mass: the first starts at "A", the last ends at "Z", and each internal cut
/// ends one bucket and starts the next.
pub fn distributed_ranges(table: &[Entry], no_buckets: usize, max_deviation_count: u32) -> (r: Vec<Bucket>)
    requires
        assembly_admissible(table@, no_buckets as int, max_deviation_count as int),
    ensures
        r@.len() == no_buckets,
        forall|k: int|
            0 <= k < no_buckets ==> {
                &&& (#[trigger] r@[k]).start@ == bucket_start(table@, no_buckets as int, max_deviation_count as int, k)
                &&& r@[k].end@ == bucket_end(table@, no_buckets as int, max_deviation_count as int, k)
                &&& r@[k].count == bucket_mass(table@, no_buckets as int, max_deviation_count as int, k)
            },
{
    let ranges = distributed_name_boundaries(table, no_buckets, max_deviation_count);
    assemble(table, no_buckets, max_deviation_count, &ranges)
}

/// Tells whether the counts of consecutive cuts never decrease.
fn cuts_in_order(ranges: &Vec<Cut>) -> (r: bool)
    ensures
        r == forall|j: int| 0 <= j < ranges@.len() - 1 ==> #[trigger] ranges@[j].count <= ranges@[j + 1].count,
{
    let len = ranges.len();
    if len == 0 {
        return true;
    }
    let mut j: usize = 0;
    while j < len - 1
        invariant
            len == ranges@.len(),
            len > 0,
            j <= len - 1,
            forall|i: int| 0 <= i < j && i < ranges@.len() - 1 ==> #[trigger] ranges@[i].count <= ranges@[i + 1].count,
        decreases ranges@.len() - j,
    {
        if ranges[j].count > ranges[j + 1].count {
            return false;
        }
        j = j + 1;
    }
    true
}

/// Checks the inputs, makes the cuts, and assembles the buckets as
/// `distributed_ranges` does, or says which requirement the inputs miss.
pub fn checked_ranges(table: &[Entry], no_buckets: usize, max_deviation_count: u32) -> (r: Result<Vec<Bucket>, RangeError>)
    ensures
        r == Err::<Vec<Bucket>, RangeError>(RangeError::InvalidBucketCount) <==> !(1 <= no_buckets <= u32::MAX),
        r == Err::<Vec<Bucket>, RangeError>(RangeError::MalformedTable) <==> (1 <= no_buckets <= u32::MAX
            && !wf_table(table@)),
        r == Err::<Vec<Bucket>, RangeError>(RangeError::FirstEntryTooLarge) <==> (1 <= no_buckets <= u32::MAX
            && wf_table(table@) && table@[0].count > bucket_size(table@, no_buckets as int)),
        r == Err::<Vec<Bucket>, RangeError>(RangeError::CutsOutOfOrder) <==> (cuts_admissible(
            table@,
            no_buckets as int,
        ) && !cuts_ordered(table@, no_buckets as int, max_deviation_count as int)),
        r is Ok <==> assembly_admissible(table@, no_buckets as int, max_deviation_count as int),
        r matches Ok(v) ==> {
            &&& v@.len() == no_buckets
            &&& forall|k: int|
                0 <= k < no_buckets ==> {
                    &&& (#[trigger] v@[k]).start@ == bucket_start(table@, no_buckets as int, max_deviation_count as int, k)
                    &&& v@[k].end@ == bucket_end(table@, no_buckets as int, max_deviation_count as int, k)
                    &&& v@[k].count == bucket_mass(table@, no_buckets as int, max_deviation_count as int, k)
                }
        },
{
    let ghost t = table@;
    let ghost n = no_buckets as int;
    let ghost md = max_deviation_count as int;
    if no_buckets == 0 || no_buckets > 4294967295 {
        return Err(RangeError::InvalidBucketCount);
    }
    if !is_well_formed(table) {
        return Err(RangeError::MalformedTable);
    }
    let size = table[table.len() - 1].count / (no_buckets as u32);
    if table[0].count > size {
        return Err(RangeError::FirstEntryTooLarge);
    }
    let ranges = distributed_name_boundaries(table, no_buckets, max_deviation_count);
    if !cuts_in_order(&ranges) {
        assert(!cuts_ordered(t, n, md)) by {
            let j = choose|j: int| 0 <= j < ranges@.len() - 1 && !(#[trigger] ranges@[j].count <= ranges@[j + 1].count);
            assert(boundary_count(t, n, md, j + 1) == ranges@[j].count);
            assert(boundary_count(t, n, md, j + 2) == ranges@[j + 1].count);
        }
        return Err(RangeError::CutsOutOfOrder);
    }
    assert(cuts_ordered(t, n, md)) by {
        assert forall|k: int| 1 <= k < n - 1 implies #[trigger] boundary_count(t, n, md, k) <= boundary_count(
            t,
            n,
            md,
            k + 1,
        ) by {
            assert(ranges@[k - 1].count <= ranges@[k].count);
        }
    }
    Ok(assemble(table, no_buckets, max_deviation_count, &ranges))
}

} // verus!
