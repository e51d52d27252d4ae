//! The frequency table: keys in alphabetical order with cumulative counts,
//! and the search that finds which entry a cumulative count falls into.
use vstd::prelude::*;

verus! {

/// One row of the frequency table: a key and the running total of the
/// frequencies of all keys up to and including it.
pub struct Entry {
    pub count: u32,
    pub key: Vec<u8>,
}

/// Counts never decrease along the table.
pub open spec fn counts_nondecreasing(t: Seq<Entry>) -> bool {
    forall|i: int, j: int| 0 <= i <= j < t.len() ==> #[trigger] t[i].count <= #[trigger] t[j].count
}

/// Every key is a non-empty ASCII string whose length leaves room to count past it.
pub open spec fn keys_ascii(t: Seq<Entry>) -> bool {
    forall|i: int|
        0 <= i < t.len() ==> {
            &&& (#[trigger] t[i]).key@.len() > 0
            &&& t[i].key@.len() < usize::MAX
            &&& forall|k: int| 0 <= k < t[i].key@.len() ==> t[i].key@[k] < 128
        }
}

/// A table that the boundary search can work on: non-empty, with
/// non-decreasing counts, a positive total mass and ASCII keys.
pub open spec fn wf_table(t: Seq<Entry>) -> bool {
    &&& t.len() > 0
    &&& counts_nondecreasing(t)
    &&& t.last().count > 0
    &&& keys_ascii(t)
}

/// The total frequency mass: the last entry's cumulative count.
pub open spec fn total(t: Seq<Entry>) -> int {
    t.last().count as int
}

/// The cumulative count just before entry `i` (zero before the first).
pub open spec fn count_before(t: Seq<Entry>, i: int) -> int {
    if i <= 0 {
        0
    } else {
        t[i - 1].count as int
    }
}

/// Entry `i` is the one whose count bracket holds `target`.
pub open spec fn brackets(t: Seq<Entry>, i: int, target: int) -> bool {
    &&& 0 <= i < t.len()
    &&& count_before(t, i) <= target < t[i].count
}

/// The entry whose bracket holds `target` (unique: see `lemma_bracket_unique`).
pub open spec fn bracket_index(t: Seq<Entry>, target: int) -> int {
    choose|i: int| brackets(t, i, target)
}

/// On a table with non-decreasing counts, at most one entry brackets a given
/// count, so locating a count always gives the same index.
pub proof fn lemma_bracket_unique(t: Seq<Entry>, target: int, i: int, j: int)
    requires
        counts_nondecreasing(t),
        brackets(t, i, target),
        brackets(t, j, target),
    ensures
        i == j,
{
    if i < j {
        assert(t[i].count <= t[j - 1].count);
    } else if j < i {
        assert(t[j].count <= t[i - 1].count);
    }
}

/// Every count below the total is bracketed by some entry, and
/// `bracket_index` names it.
pub proof fn lemma_bracket_exists(t: Seq<Entry>, target: int)
    requires
        wf_table(t),
        0 <= target < total(t),
    ensures
        brackets(t, bracket_index(t, target), target),
    decreases t.len(),
{
    let n = t.len() as int;
    if count_before(t, n - 1) <= target {
        assert(brackets(t, n - 1, target));
    } else {
        let s = t.drop_last();
        assert(wf_table(s)) by {
            assert forall|i: int| 0 <= i < s.len() implies #[trigger] s[i] == t[i] by {}
            assert(s.last().count > target);
        }
        lemma_bracket_exists(s, target);
        let i = bracket_index(s, target);
        assert(brackets(t, i, target));
    }
}

/// A larger count is bracketed no earlier in the table.
pub proof fn lemma_bracket_monotone(t: Seq<Entry>, a: int, b: int)
    requires
        wf_table(t),
        0 <= a <= b < total(t),
    ensures
        bracket_index(t, a) <= bracket_index(t, b),
{
    lemma_bracket_exists(t, a);
    lemma_bracket_exists(t, b);
    let i = bracket_index(t, a);
    let j = bracket_index(t, b);
    if j < i {
        assert(t[j].count <= t[i - 1].count);
    }
}

/// Finds the entry whose count bracket holds `count`, probing at the first
/// quartile of the remaining index range `[min, max]`.
pub fn get_entry_index(table: &[Entry], count: u32, min: usize, max: usize) -> (r: usize)
    requires
        wf_table(table@),
        count < total(table@),
        min <= max <= table@.len(),
        count_before(table@, min as int) <= count,
        max + 1 >= table@.len() || count < table@[max as int].count,
    ensures
        brackets(table@, r as int, count as int),
        r == bracket_index(table@, count as int),
    decreases max - min,
{
    proof {
        lemma_bracket_exists(table@, count as int);
    }
    let avg = min + (max - min) / 4;
    assert(avg < table@.len()) by {
        if avg == table@.len() {
            assert(table@[avg - 1].count as int == total(table@));
        }
    }
    let low = if avg == 0 {
        0
    } else {
        table[avg - 1].count
    };
    let high = table[avg].count;
    if count >= low && count < high {
        proof {
            lemma_bracket_unique(table@, count as int, avg as int, bracket_index(table@, count as int));
        }
        avg
    } else if count < low {
        assert(avg > min) by {
            if avg == min {
                assert(count_before(table@, min as int) == low);
            }
        }
        get_entry_index(table, count, min, avg - 1)
    } else {
        assert(avg < max) by {
            if avg == max {
                assert(table@[avg as int].count <= table@.last().count);
            }
        }
        get_entry_index(table, count, avg + 1, max)
    }
}

/// Sum of the frequencies of the first `i` rows.
pub open spec fn running_total(rows: Seq<(Vec<u8>, u32)>, i: int) -> int
    decreases i,
{
    if i <= 0 {
        0
    } else {
        running_total(rows, i - 1) + rows[i - 1].1
    }
}

/// Running totals never decrease.
pub proof fn lemma_running_total_monotone(rows: Seq<(Vec<u8>, u32)>, i: int, j: int)
    requires
        0 <= i <= j,
    ensures
        running_total(rows, i) <= running_total(rows, j),
    decreases j - i,
{
    if i < j {
        lemma_running_total_monotone(rows, i, j - 1);
    }
}

/// Builds the frequency table from `(key, frequency)` rows given in key order:
/// each entry keeps its row's key and holds the running total of frequencies
/// up to and including that row. Gives `None` when the total mass does not fit
/// in a `u32`.
pub fn cumulative_table(rows: &[(Vec<u8>, u32)]) -> (r: Option<Vec<Entry>>)
    ensures
        r is None <==> running_total(rows@, rows@.len() as int) > u32::MAX,
        r matches Some(t) ==> {
            &&& t@.len() == rows@.len()
            &&& forall|i: int|
                0 <= i < t@.len() ==> {
                    &&& (#[trigger] t@[i]).key@ == rows@[i].0@
                    &&& t@[i].count == running_total(rows@, i + 1)
                }
        },
{
    let mut entries: Vec<Entry> = Vec::new();
    let mut sum: u32 = 0;
    let mut i: usize = 0;
    while i < rows.len()
        invariant
            i <= rows@.len(),
            entries@.len() == i,
            sum == running_total(rows@, i as int),
            forall|j: int|
                0 <= j < i ==> {
                    &&& (#[trigger] entries@[j]).key@ == rows@[j].0@
                    &&& entries@[j].count == running_total(rows@, j + 1)
                },
        decreases rows@.len() - i,
    {
        let frequency = rows[i].1;
        if frequency > u32::MAX - sum {
            proof {
                lemma_running_total_monotone(rows@, i + 1, rows@.len() as int);
            }
            return None;
        }
        sum = sum + frequency;
        let key = rows[i].0.clone();
        assert(key@ =~= rows@[i as int].0@);
        entries.push(Entry { count: sum, key });
        i = i + 1;
    }
    Some(entries)
}

/// Tells whether `table` is a well-formed frequency table.
pub fn is_well_formed(table: &[Entry]) -> (r: bool)
    ensures
        r == wf_table(table@),
{
    let len = table.len();
    if len == 0 {
        return false;
    }
    let mut i: usize = 0;
    while i < len
        invariant
            len == table@.len(),
            i <= len,
            forall|a: int, b: int| 0 <= a <= b < i ==> #[trigger] table@[a].count <= #[trigger] table@[b].count,
            forall|a: int|
                0 <= a < i ==> {
                    &&& (#[trigger] table@[a]).key@.len() > 0
                    &&& table@[a].key@.len() < usize::MAX
                    &&& forall|k: int| 0 <= k < table@[a].key@.len() ==> table@[a].key@[k] < 128
                },
        decreases len - i,
    {
        if i > 0 && table[i - 1].count > table[i].count {
            assert(!counts_nondecreasing(table@));
            return false;
        }
        let key = &table[i].key;
        if key.len() == 0 || key.len() == usize::MAX {
            assert(!keys_ascii(table@));
            return false;
        }
        let mut k: usize = 0;
        while k < key.len()
            invariant
                i < table@.len(),
                key@ == table@[i as int].key@,
                k <= key@.len(),
                forall|j: int| 0 <= j < k ==> key@[j] < 128,
            decreases key@.len() - k,
        {
            if key[k] >= 128 {
                assert(table@[i as int].key@[k as int] >= 128);
                assert(!keys_ascii(table@));
                return false;
            }
            k = k + 1;
        }
        i = i + 1;
    }
    table[len - 1].count > 0
}

} // verus!
