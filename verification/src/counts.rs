//! Association lists from candidate identifiers to 64-bit counters, with a
//! pointwise view: `entry_val` reads a key's counter, zero when absent.

use vstd::prelude::*;

verus! {

pub open spec fn entry_keys(s: Seq<(u16, u64)>) -> Seq<u16> {
    s.map_values(|p: (u16, u64)| p.0)
}

pub open spec fn entry_has(s: Seq<(u16, u64)>, k: u16) -> bool {
    exists|i: int| 0 <= i < s.len() && (#[trigger] s[i]).0 == k
}

/// The position of key `k`; meaningful when the keys are unique and
/// `entry_has` holds.
pub open spec fn entry_index(s: Seq<(u16, u64)>, k: u16) -> int {
    choose|i: int| 0 <= i < s.len() && (#[trigger] s[i]).0 == k
}

/// The counter stored under `k`, or zero when `k` is absent.
pub open spec fn entry_val(s: Seq<(u16, u64)>, k: u16) -> int {
    if entry_has(s, k) {
        s[entry_index(s, k)].1 as int
    } else {
        0
    }
}

/// With unique keys, an entry's position is determined by its key.
pub proof fn lemma_entry_index_of(s: Seq<(u16, u64)>, i: int)
    requires
        entry_keys(s).no_duplicates(),
        0 <= i < s.len(),
    ensures
        entry_has(s, s[i].0),
        entry_index(s, s[i].0) == i,
        entry_val(s, s[i].0) == s[i].1,
{
    let k = s[i].0;
    assert(entry_has(s, k));
    let j = entry_index(s, k);
    assert(entry_keys(s)[i] == k && entry_keys(s)[j] == k);
}

/// Updating position `i` in place changes only that key's value.
pub proof fn lemma_entry_update(s: Seq<(u16, u64)>, i: int, v: u64)
    requires
        entry_keys(s).no_duplicates(),
        0 <= i < s.len(),
    ensures
        entry_keys(s.update(i, (s[i].0, v))) == entry_keys(s),
        entry_val(s.update(i, (s[i].0, v)), s[i].0) == v,
        forall|k: u16| k != s[i].0 ==> entry_val(s.update(i, (s[i].0, v)), k) == entry_val(s, k),
        forall|k: u16| entry_has(s.update(i, (s[i].0, v)), k) == entry_has(s, k),
{
    let t = s.update(i, (s[i].0, v));
    assert(entry_keys(t) =~= entry_keys(s));
    lemma_entry_index_of(s, i);
    assert(entry_keys(t).no_duplicates());
    lemma_entry_index_of(t, i);
    assert forall|k: u16| entry_has(t, k) == entry_has(s, k) by {
        if entry_has(t, k) {
            let j = entry_index(t, k);
            assert(s[j].0 == k);
        }
        if entry_has(s, k) {
            let j = entry_index(s, k);
            assert(t[j].0 == k);
        }
    }
    assert forall|k: u16| k != s[i].0 implies entry_val(t, k) == entry_val(s, k) by {
        if entry_has(s, k) {
            let j = entry_index(s, k);
            assert(j != i);
            assert(t[j].0 == k);
            lemma_entry_index_of(t, j);
            lemma_entry_index_of(s, j);
        }
    }
}

/// Appending a fresh key adds its value and changes nothing else.
pub proof fn lemma_entry_push(s: Seq<(u16, u64)>, k: u16, v: u64)
    requires
        entry_keys(s).no_duplicates(),
        !entry_has(s, k),
    ensures
        entry_keys(s.push((k, v))) == entry_keys(s).push(k),
        entry_keys(s.push((k, v))).no_duplicates(),
        entry_val(s.push((k, v)), k) == v,
        forall|k2: u16| k2 != k ==> entry_val(s.push((k, v)), k2) == entry_val(s, k2),
        forall|k2: u16| k2 != k ==> entry_has(s.push((k, v)), k2) == entry_has(s, k2),
        entry_has(s.push((k, v)), k),
{
    let t = s.push((k, v));
    assert(entry_keys(t) =~= entry_keys(s).push(k));
    assert forall|a: int, b: int| 0 <= a < b < entry_keys(t).len() implies entry_keys(t)[a]
        != entry_keys(t)[b] by {
        if b == entry_keys(t).len() - 1 {
            assert(s[a].0 == entry_keys(s)[a]);
        }
    }
    assert(t[s.len() as int].0 == k);
    lemma_entry_index_of(t, s.len() as int);
    assert forall|k2: u16| k2 != k implies entry_has(t, k2) == entry_has(s, k2) && entry_val(t, k2)
        == entry_val(s, k2) by {
        if entry_has(s, k2) {
            let j = entry_index(s, k2);
            assert(t[j].0 == k2);
            lemma_entry_index_of(t, j);
            lemma_entry_index_of(s, j);
        } else {
            if entry_has(t, k2) {
                let j = entry_index(t, k2);
                assert(j < s.len());
                assert(s[j].0 == k2);
            }
        }
    }
}

/// Where `k` sits in `counts`, or nothing when it holds no entry for `k`.
pub fn find_entry(counts: &Vec<(u16, u64)>, k: u16) -> (r: Option<usize>)
    requires
        entry_keys(counts@).no_duplicates(),
    ensures
        entry_has(counts@, k) ==> (r matches Some(i) && i == entry_index(counts@, k) && i
            < counts@.len() && counts@[i as int].0 == k),
        !entry_has(counts@, k) ==> r is None,
{
    let n = counts.len();
    let mut i: usize = 0;
    while i < n
        invariant
            0 <= i <= n == counts@.len(),
            entry_keys(counts@).no_duplicates(),
            forall|j: int| 0 <= j < i ==> (#[trigger] counts@[j]).0 != k,
        decreases n - i,
    {
        if counts[i].0 == k {
            proof {
                lemma_entry_index_of(counts@, i as int);
            }
            return Some(i);
        }
        i = i + 1;
    }
    None
}

} // verus!
