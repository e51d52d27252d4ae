//! Choosing a cut point near a target count, and the boundary strings that
//! the cut gives.
use vstd::prelude::*;
use crate::table::{
    Entry, wf_table, total, brackets, bracket_index, get_entry_index,
    lemma_bracket_exists, lemma_bracket_unique,
};

verus! {

/// How many entries the refiner looks at on each side of the located entry.
pub const SEARCH_RADIUS: usize = 2000;

/// A cut between two buckets: the cumulative count at the cut, the last
/// string of the bucket before it, and the first string of the bucket after.
pub struct Cut {
    pub count: u32,
    pub end: Vec<u8>,
    pub start: Vec<u8>,
}

/// Length of the run of equal bytes at which `a` and `b` agree, from index `k` on.
pub open spec fn shared_from(a: Seq<u8>, b: Seq<u8>, k: nat) -> nat
    decreases a.len() - k,
{
    if k < a.len() && k < b.len() && a[k as int] == b[k as int] {
        shared_from(a, b, k + 1)
    } else {
        k
    }
}

/// Length of the common prefix of `a` and `b`.
pub open spec fn shared_prefix_len(a: Seq<u8>, b: Seq<u8>) -> nat {
    shared_from(a, b, 0)
}

/// Characters needed to tell the key before entry `i` from the key at it.
pub open spec fn width(t: Seq<Entry>, i: int) -> int {
    shared_prefix_len(t[i - 1].key@, t[i].key@) as int + 1
}

/// `s` with its last byte raised by one.
pub open spec fn successor(s: Seq<u8>) -> Seq<u8> {
    s.drop_last().push((s.last() + 1) as u8)
}

/// The last string of the bucket that ends before entry `i`: the previous key
/// cut to the boundary width.
pub open spec fn cut_end(t: Seq<Entry>, i: int) -> Seq<u8> {
    let key = t[i - 1].key@;
    if width(t, i) < key.len() {
        key.take(width(t, i))
    } else {
        key
    }
}

/// Absolute distance between two counts.
pub open spec fn distance(a: int, b: int) -> int {
    if a >= b {
        a - b
    } else {
        b - a
    }
}

/// Entry `j` replaces `best` as the cut: it is strictly narrower and its count
/// lies within `half_dev` of the target.
pub open spec fn improves(t: Seq<Entry>, j: int, target: int, half_dev: int, best: int) -> bool {
    width(t, j) < width(t, best) && distance(target, t[j].count as int) < half_dev
}

/// The best index after trying entry `j`.
pub open spec fn try_at(t: Seq<Entry>, j: int, target: int, half_dev: int, best: int) -> int {
    if improves(t, j, target, half_dev, best) {
        j
    } else {
        best
    }
}

/// The best index after trying the entries at distance `d` from `i`, the one
/// before `i` first.
pub open spec fn scan_step(t: Seq<Entry>, i: int, d: int, target: int, half_dev: int, best: int) -> int {
    let b = if d < i {
        try_at(t, i - d, target, half_dev, best)
    } else {
        best
    };
    if i + d < t.len() {
        try_at(t, i + d, target, half_dev, b)
    } else {
        b
    }
}

/// The best index once every distance below `d` has been tried, starting
/// from entry `i`.
pub open spec fn scan(t: Seq<Entry>, i: int, target: int, half_dev: int, d: int) -> int
    decreases d,
{
    if d <= 1 {
        i
    } else {
        scan_step(t, i, d - 1, target, half_dev, scan(t, i, target, half_dev, d - 1))
    }
}

/// The entry that the refiner settles on for `target`, having tried every
/// distance from 1 to `radius`.
pub open spec fn refined_index(t: Seq<Entry>, target: int, half_dev: int, radius: int) -> int {
    scan(t, bracket_index(t, target), target, half_dev, radius + 1)
}

/// The inputs on which a cut can be made: the target falls at or after the
/// first entry's count and before the total.
pub open spec fn cut_admissible(t: Seq<Entry>, target: int) -> bool {
    &&& wf_table(t)
    &&& t[0].count <= target < total(t)
}

/// Number of characters needed to tell the key before entry `i` from the key at it.
pub fn boundary_width(table: &[Entry], i: usize) -> (r: usize)
    requires
        wf_table(table@),
        1 <= i < table@.len(),
    ensures
        r == width(table@, i as int),
{
    let x = &table[i - 1].key;
    let y = &table[i].key;
    let mut k: usize = 0;
    while k < x.len() && k < y.len() && x[k] == y[k]
        invariant
            1 <= i < table@.len(),
            wf_table(table@),
            k <= x@.len(),
            k <= y@.len(),
            x@ == table@[i - 1].key@,
            y@ == table@[i as int].key@,
            shared_from(x@, y@, k as nat) == shared_prefix_len(x@, y@),
        decreases x@.len() - k,
    {
        k = k + 1;
    }
    k + 1
}

/// The first string after `boundary`: its last character raised by one.
pub fn next_boundary(boundary: &[u8]) -> (r: Vec<u8>)
    requires
        boundary@.len() > 0,
        boundary@.last() < 255,
    ensures
        r@ == successor(boundary@),
{
    let len = boundary.len();
    let mut r: Vec<u8> = Vec::new();
    let mut k: usize = 0;
    while k < len - 1
        invariant
            len == boundary@.len(),
            k <= len - 1,
            r@ == boundary@.take(k as int),
        decreases len - 1 - k,
    {
        r.push(boundary[k]);
        k = k + 1;
        assert(r@ =~= boundary@.take(k as int));
    }
    r.push(boundary[len - 1] + 1);
    assert(r@ =~= successor(boundary@));
    r
}

/// The first `n` bytes of `s`.
fn prefix(s: &Vec<u8>, n: usize) -> (r: Vec<u8>)
    requires
        n <= s@.len(),
    ensures
        r@ == s@.take(n as int),
{
    let mut r: Vec<u8> = Vec::new();
    let mut k: usize = 0;
    while k < n
        invariant
            n <= s@.len(),
            k <= n,
            r@ == s@.take(k as int),
        decreases n - k,
    {
        r.push(s[k]);
        k = k + 1;
        assert(r@ =~= s@.take(k as int));
    }
    r
}

/// The entry the cut for `target` stands at, under the deviation allowance
/// `max_dev` (half of which each cut may use) and the search radius.
pub open spec fn cut_index(t: Seq<Entry>, target: int, max_dev: int, radius: int) -> int {
    refined_index(t, target, max_dev / 2, radius)
}

/// Starting from an entry after the first, the scan settles on an entry after
/// the first, and either stays where it started or lands within `half_dev` of
/// the target.
pub proof fn lemma_scan_result(t: Seq<Entry>, i: int, target: int, half_dev: int, d: int)
    requires
        1 <= i < t.len(),
    ensures
        1 <= scan(t, i, target, half_dev, d) < t.len(),
        scan(t, i, target, half_dev, d) == i || distance(
            target,
            t[scan(t, i, target, half_dev, d)].count as int,
        ) < half_dev,
    decreases d,
{
    if d > 1 {
        lemma_scan_result(t, i, target, half_dev, d - 1);
    }
}

/// The cut for an admissible target stands after the first entry, and either
/// at the entry that brackets the target or within half the allowance of it.
pub proof fn lemma_cut_index(t: Seq<Entry>, target: int, max_dev: int, radius: int)
    requires
        cut_admissible(t, target),
    ensures
        1 <= cut_index(t, target, max_dev, radius) < t.len(),
        cut_index(t, target, max_dev, radius) == bracket_index(t, target) || distance(
            target,
            t[cut_index(t, target, max_dev, radius)].count as int,
        ) < max_dev / 2,
        brackets(t, bracket_index(t, target), target),
{
    lemma_bracket_exists(t, target);
    let i = bracket_index(t, target);
    assert(i >= 1) by {
        if i == 0 {
            assert(t[0].count > target);
        }
    }
    lemma_scan_result(t, i, target, max_dev / 2, radius + 1);
}

/// Where entry `j` comes in the refiner's order of trial from entry `i`: `i`
/// itself first, then at each distance the entry before `i` and then the one
/// after it.
pub open spec fn scan_position(i: int, j: int) -> int {
    if j < i {
        2 * (i - j) - 1
    } else {
        2 * (j - i)
    }
}

/// Entry `j` may be chosen when trying distances below `d` from `i`: it is
/// `i` itself, or an entry after the first, that near, whose count lies within
/// `half_dev` of the target.
pub open spec fn in_window(t: Seq<Entry>, i: int, target: int, half_dev: int, d: int, j: int) -> bool {
    j == i || (1 <= j < t.len() && distance(i, j) < d && distance(target, t[j].count as int) < half_dev)
}

/// Entry `a` is preferred to entry `b`, or is `b`: it is narrower, or as
/// narrow and tried no later.
pub open spec fn preferred(t: Seq<Entry>, i: int, a: int, b: int) -> bool {
    width(t, a) < width(t, b) || (width(t, a) == width(t, b) && scan_position(i, a) <= scan_position(i, b))
}

/// The scan keeps the narrowest entry among those it may choose, and among
/// equally narrow ones the first it tried.
pub proof fn lemma_scan_narrowest(t: Seq<Entry>, i: int, target: int, half_dev: int, d: int)
    requires
        1 <= i < t.len(),
        d >= 1,
    ensures
        in_window(t, i, target, half_dev, d, scan(t, i, target, half_dev, d)),
        forall|j: int|
            #[trigger] in_window(t, i, target, half_dev, d, j) ==> preferred(t, i, scan(t, i, target, half_dev, d), j),
    decreases d,
{
    if d > 1 {
        let p = d - 1;
        lemma_scan_narrowest(t, i, target, half_dev, p);
        let b = scan(t, i, target, half_dev, p);
        let b1 = if p < i { try_at(t, i - p, target, half_dev, b) } else { b };
        let res = scan(t, i, target, half_dev, d);
        assert(res == if i + p < t.len() { try_at(t, i + p, target, half_dev, b1) } else { b1 });
        assert(scan_position(i, b) <= 2 * p - 2);
        assert(preferred(t, i, b1, b));
        assert(preferred(t, i, res, b1));
        assert(scan_position(i, b1) <= 2 * p - 1);
        assert forall|j: int| #[trigger] in_window(t, i, target, half_dev, d, j) implies preferred(
            t,
            i,
            res,
            j,
        ) by {
            if in_window(t, i, target, half_dev, p, j) {
                assert(preferred(t, i, b, j));
            } else if j == i - p {
                assert(preferred(t, i, b1, j));
            } else {
                assert(j == i + p);
            }
        }
    }
}

/// The direct statement of the refiner's choice: the cut stands at the
/// narrowest entry among the one that brackets the target and those within
/// `radius` of it (after the first entry) whose counts lie within half the
/// allowance of the target; among equally narrow ones, at the first in the
/// order of trial.
pub proof fn lemma_cut_is_narrowest(t: Seq<Entry>, target: int, max_dev: int, radius: int)
    requires
        cut_admissible(t, target),
        radius >= 0,
    ensures
        in_window(t, bracket_index(t, target), target, max_dev / 2, radius + 1, cut_index(t, target, max_dev, radius)),
        forall|j: int|
            #[trigger] in_window(t, bracket_index(t, target), target, max_dev / 2, radius + 1, j) ==> preferred(
                t,
                bracket_index(t, target),
                cut_index(t, target, max_dev, radius),
                j,
            ),
{
    lemma_cut_index(t, target, max_dev, radius);
    lemma_scan_narrowest(t, bracket_index(t, target), target, max_dev / 2, radius + 1);
}

/// Chooses a cut for the target `count`: starting at the entry that brackets
/// it, looks up to `search_radius - 1` entries either way (the one before
/// first at each distance) for an entry with a strictly narrower boundary whose
/// count lies within half of `max_deviation_count` of the target, keeps the
/// narrowest found, and derives the boundary strings there.
pub fn boundary(table: &[Entry], count: u32, max_deviation_count: u32, search_radius: usize) -> (r: Cut)
    requires
        cut_admissible(table@, count as int),
    ensures
        r.count == table@[cut_index(table@, count as int, max_deviation_count as int, search_radius as int)].count,
        r.end@ == cut_end(table@, cut_index(table@, count as int, max_deviation_count as int, search_radius as int)),
        r.start@ == successor(r.end@),
{
    let ghost t = table@;
    let half_dev = max_deviation_count / 2;
    let len = table.len();
    proof {
        lemma_cut_index(t, count as int, max_deviation_count as int, search_radius as int);
    }
    let i = get_entry_index(table, count, 0, len);
    proof {
        lemma_bracket_unique(t, count as int, i as int, bracket_index(t, count as int));
    }
    let mut best_width = boundary_width(table, i);
    let mut best_index = i;
    let mut step: usize = 0;
    while step < search_radius
        invariant
            t == table@,
            len == t.len(),
            wf_table(t),
            1 <= i < len,
            1 <= best_index < len,
            best_width == width(t, best_index as int),
            best_index == scan(t, i as int, count as int, half_dev as int, step + 1),
            step <= search_radius,
        decreases search_radius - step,
    {
        let d = step + 1;
        let ghost prev = best_index as int;
        if d < i {
            let j = i - d;
            let w = boundary_width(table, j);
            let c = table[j].count;
            let dist = if count >= c { count - c } else { c - count };
            if w < best_width && dist < half_dev {
                best_index = j;
                best_width = w;
            }
        }
        let ghost mid = best_index as int;
        assert(mid == (if d < i { try_at(t, i - d, count as int, half_dev as int, prev) } else { prev }));
        if d < len - i {
            let j = i + d;
            let w = boundary_width(table, j);
            let c = table[j].count;
            let dist = if count >= c { count - c } else { c - count };
            if w < best_width && dist < half_dev {
                best_index = j;
                best_width = w;
            }
        }
        assert(best_index == scan_step(t, i as int, d as int, count as int, half_dev as int, prev));
        step = d;
    }
    assert(best_index == scan(t, i as int, count as int, half_dev as int, search_radius + 1));
    let key = &table[best_index - 1].key;
    let n = if best_width < key.len() {
        best_width
    } else {
        key.len()
    };
    let end = prefix(key, n);
    assert(end@ == cut_end(t, best_index as int));
    assert(end@.last() < 128) by {
        assert(end@.last() == t[best_index - 1].key@[n - 1]);
    }
    let start = next_boundary(end.as_slice());
    Cut { count: table[best_index].count, end, start }
}

} // verus!
