//! The pairwise preference table: for each ordered candidate pair `(a, b)`,
//! the number of ballots (weighted by shared-prefix count in the trie) that
//! rank `a` strictly above `b`, counting a ballot that lists `a` but never
//! `b` as preferring `a`.

use vstd::prelude::*;

use crate::trie::sum_child_votes;
use crate::trie::TrieNode;
use crate::vote::VoteValues;

verus! {

pub open spec fn pair_keys(s: Seq<((u16, u16), u64)>) -> Seq<(u16, u16)> {
    s.map_values(|p: ((u16, u16), u64)| p.0)
}

pub open spec fn pair_has(s: Seq<((u16, u16), u64)>, k: (u16, u16)) -> bool {
    exists|i: int| 0 <= i < s.len() && (#[trigger] s[i]).0 == k
}

pub open spec fn pair_index(s: Seq<((u16, u16), u64)>, k: (u16, u16)) -> int {
    choose|i: int| 0 <= i < s.len() && (#[trigger] s[i]).0 == k
}

/// The count recorded for the ordered pair `k`, zero when absent.
pub open spec fn pair_val(s: Seq<((u16, u16), u64)>, k: (u16, u16)) -> int {
    if pair_has(s, k) {
        s[pair_index(s, k)].1 as int
    } else {
        0
    }
}

pub proof fn lemma_pair_index_of(s: Seq<((u16, u16), u64)>, i: int)
    requires
        pair_keys(s).no_duplicates(),
        0 <= i < s.len(),
    ensures
        pair_has(s, s[i].0),
        pair_index(s, s[i].0) == i,
        pair_val(s, s[i].0) == s[i].1,
{
    let k = s[i].0;
    assert(pair_has(s, k));
    let j = pair_index(s, k);
    assert(pair_keys(s)[i] == k && pair_keys(s)[j] == k);
}

pub proof fn lemma_pair_update(s: Seq<((u16, u16), u64)>, i: int, v: u64)
    requires
        pair_keys(s).no_duplicates(),
        0 <= i < s.len(),
    ensures
        pair_keys(s.update(i, (s[i].0, v))) == pair_keys(s),
        pair_val(s.update(i, (s[i].0, v)), s[i].0) == v,
        forall|k: (u16, u16)|
            k != s[i].0 ==> pair_val(s.update(i, (s[i].0, v)), k) == pair_val(s, k),
{
    let t = s.update(i, (s[i].0, v));
    assert(pair_keys(t) =~= pair_keys(s));
    lemma_pair_index_of(s, i);
    lemma_pair_index_of(t, i);
    assert forall|k: (u16, u16)| k != s[i].0 implies pair_val(t, k) == pair_val(s, k) by {
        if pair_has(s, k) {
            let j = pair_index(s, k);
            assert(j != i);
            assert(t[j].0 == k);
            lemma_pair_index_of(t, j);
            lemma_pair_index_of(s, j);
        } else {
            if pair_has(t, k) {
                let j = choose|j: int| 0 <= j < t.len() && (#[trigger] t[j]).0 == k;
                assert(s[j].0 == k);
            }
        }
    }
}

pub proof fn lemma_pair_push(s: Seq<((u16, u16), u64)>, k: (u16, u16), v: u64)
    requires
        pair_keys(s).no_duplicates(),
        !pair_has(s, k),
    ensures
        pair_keys(s.push((k, v))).no_duplicates(),
        pair_val(s.push((k, v)), k) == v,
        forall|k2: (u16, u16)| k2 != k ==> pair_val(s.push((k, v)), k2) == pair_val(s, k2),
{
    let t = s.push((k, v));
    assert(pair_keys(t) =~= pair_keys(s).push(k));
    assert forall|a: int, b: int| 0 <= a < b < pair_keys(t).len() implies pair_keys(t)[a]
        != pair_keys(t)[b] by {
        if b == pair_keys(t).len() - 1 {
            assert(s[a].0 == pair_keys(s)[a]);
        }
    }
    assert(t[s.len() as int].0 == k);
    lemma_pair_index_of(t, s.len() as int);
    assert forall|k2: (u16, u16)| k2 != k implies pair_val(t, k2) == pair_val(s, k2) by {
        if pair_has(s, k2) {
            let j = pair_index(s, k2);
            assert(t[j].0 == k2);
            lemma_pair_index_of(t, j);
            lemma_pair_index_of(s, j);
        } else {
            if pair_has(t, k2) {
                let j = choose|j: int| 0 <= j < t.len() && (#[trigger] t[j]).0 == k2;
                assert(j < s.len());
                assert(s[j].0 == k2);
            }
        }
    }
}

/// Where the ordered pair `k` sits in the table.
pub fn find_pair(table: &Vec<((u16, u16), u64)>, k: (u16, u16)) -> (r: Option<usize>)
    requires
        pair_keys(table@).no_duplicates(),
    ensures
        pair_has(table@, k) ==> (r matches Some(i) && i == pair_index(table@, k) && i
            < table@.len() && table@[i as int].0 == k),
        !pair_has(table@, k) ==> r is None,
{
    let n = table.len();
    let mut i: usize = 0;
    while i < n
        invariant
            0 <= i <= n == table@.len(),
            pair_keys(table@).no_duplicates(),
            forall|j: int| 0 <= j < i ==> (#[trigger] table@[j]).0 != k,
        decreases n - i,
    {
        let e = table[i];
        if e.0.0 == k.0 && e.0.1 == k.1 {
            proof {
                assert(table@[i as int].0 == k);
                lemma_pair_index_of(table@, i as int);
            }
            return Some(i);
        }
        i = i + 1;
    }
    None
}

/// How many ballots below `n`, reached along the candidates of `path`, rank
/// `a` above `b`: ballots entering a `b`-child while `a` is on the path, and
/// ballots ending below `n` while `a` is on the path and `b`, though a known
/// candidate, is not.
pub open spec fn node_pair_count(
    n: TrieNode,
    path: Seq<u16>,
    uniq: Seq<u16>,
    a: u16,
    b: u16,
) -> int
    decreases n, 1int,
{
    kids_pair_count(n.children@, path, uniq, a, b) + if path.contains(a) && uniq.contains(b)
        && !path.contains(b) {
        n.num_votes - sum_child_votes(n.children@)
    } else {
        0
    }
}

pub open spec fn kids_pair_count(
    s: Seq<(VoteValues, TrieNode)>,
    path: Seq<u16>,
    uniq: Seq<u16>,
    a: u16,
    b: u16,
) -> int
    decreases s, 0int,
{
    if s.len() == 0 {
        0
    } else {
        kids_pair_count(s.drop_last(), path, uniq, a, b) + match s.last().0 {
            VoteValues::Candidate(x) => (if x == b && path.contains(a) {
                s.last().1.num_votes as int
            } else {
                0
            }) + node_pair_count(s.last().1, path.push(x), uniq, a, b),
            VoteValues::SpecialVote(_) => 0,
        }
    }
}

/// Under the trie invariant every pairwise contribution is non-negative.
pub proof fn lemma_node_pair_nonneg(n: TrieNode, path: Seq<u16>, uniq: Seq<u16>, a: u16, b: u16)
    requires
        n.wf(),
    ensures
        node_pair_count(n, path, uniq, a, b) >= 0,
    decreases n, 1int,
{
    lemma_kids_pair_nonneg(n.children@, path, uniq, a, b);
}

pub proof fn lemma_kids_pair_nonneg(
    s: Seq<(VoteValues, TrieNode)>,
    path: Seq<u16>,
    uniq: Seq<u16>,
    a: u16,
    b: u16,
)
    requires
        forall|i: int| 0 <= i < s.len() ==> (#[trigger] s[i]).1.wf(),
    ensures
        kids_pair_count(s, path, uniq, a, b) >= 0,
    decreases s, 0int,
{
    if s.len() > 0 {
        assert forall|i: int| 0 <= i < s.drop_last().len() implies (
        #[trigger] s.drop_last()[i]).1.wf() by {
            assert(s.drop_last()[i] == s[i]);
        }
        lemma_kids_pair_nonneg(s.drop_last(), path, uniq, a, b);
        match s.last().0 {
            VoteValues::Candidate(x) => {
                assert(s[s.len() - 1].1.wf());
                lemma_node_pair_nonneg(s.last().1, path.push(x), uniq, a, b);
            },
            VoteValues::SpecialVote(_) => {},
        }
    }
}

/// A prefix of the children contributes at most the whole.
pub proof fn lemma_kids_take_le(
    s: Seq<(VoteValues, TrieNode)>,
    path: Seq<u16>,
    uniq: Seq<u16>,
    a: u16,
    b: u16,
    i: int,
)
    requires
        forall|j: int| 0 <= j < s.len() ==> (#[trigger] s[j]).1.wf(),
        0 <= i <= s.len(),
    ensures
        kids_pair_count(s.take(i), path, uniq, a, b) <= kids_pair_count(s, path, uniq, a, b),
        kids_pair_count(s.take(i), path, uniq, a, b) >= 0,
    decreases s.len() - i,
{
    assert forall|j: int| 0 <= j < s.take(i).len() implies (#[trigger] s.take(i)[j]).1.wf() by {
        assert(s.take(i)[j] == s[j]);
    }
    lemma_kids_pair_nonneg(s.take(i), path, uniq, a, b);
    if i == s.len() {
        assert(s.take(i) =~= s);
    } else {
        assert(s.take(i + 1).drop_last() =~= s.take(i));
        assert(s.take(i + 1).last() == s[i]);
        assert(kids_pair_count(s.take(i + 1), path, uniq, a, b) >= kids_pair_count(
            s.take(i),
            path,
            uniq,
            a,
            b,
        )) by {
            match s[i].0 {
                VoteValues::Candidate(x) => {
                    assert(s[i].1.wf());
                    lemma_node_pair_nonneg(s[i].1, path.push(x), uniq, a, b);
                },
                VoteValues::SpecialVote(_) => {},
            }
        }
        lemma_kids_take_le(s, path, uniq, a, b, i + 1);
    }
}

/// Accumulate into `ranked_pairs_map` every pairwise preference recorded in
/// the sub-trie at `node`, reached along the candidates of `search_path`.
/// The path is handed back exactly as it was. That ballots never over-count
/// — each node's children counters stay within its own — is guaranteed by
/// the trie invariant rather than checked at run time.
pub fn build_ranked_pairs_map(
    node: &TrieNode,
    search_path: &mut Vec<u16>,
    ranked_pairs_map: &mut Vec<((u16, u16), u64)>,
    unique_candidates: &Vec<u16>,
)
    requires
        node.wf(),
        crate::engine::trie_fresh(*node, old(search_path)@),
        old(search_path)@.no_duplicates(),
        unique_candidates@.no_duplicates(),
        pair_keys(old(ranked_pairs_map)@).no_duplicates(),
        forall|a: u16, b: u16|
            pair_val(old(ranked_pairs_map)@, (a, b)) + node_pair_count(
                *node,
                old(search_path)@,
                unique_candidates@,
                a,
                b,
            ) <= u64::MAX,
    ensures
        final(search_path)@ == old(search_path)@,
        pair_keys(final(ranked_pairs_map)@).no_duplicates(),
        forall|a: u16, b: u16|
            pair_val(final(ranked_pairs_map)@, (a, b)) == pair_val(
                old(ranked_pairs_map)@,
                (a, b),
            ) + node_pair_count(*node, old(search_path)@, unique_candidates@, a, b),
    decreases *node,
{
    let ghost path0 = search_path@;
    let ghost map0 = ranked_pairs_map@;
    let ghost uniq = unique_candidates@;
    let n = node.children.len();
    let mut child_sum: u64 = 0;
    let mut i: usize = 0;
    proof {
        assert(node.children@.take(0) =~= Seq::<(VoteValues, TrieNode)>::empty());
        crate::trie::lemma_sum_nonneg(node.children@);
    }
    while i < n
        invariant
            0 <= i <= n == node.children@.len(),
            node.wf(),
            crate::engine::trie_fresh(*node, path0),
            path0.no_duplicates(),
            uniq.no_duplicates(),
            uniq == unique_candidates@,
            search_path@ == path0,
            pair_keys(ranked_pairs_map@).no_duplicates(),
            child_sum == sum_child_votes(node.children@.take(i as int)),
            forall|a: u16, b: u16|
                #[trigger] pair_val(ranked_pairs_map@, (a, b)) == pair_val(map0, (a, b))
                    + kids_pair_count(node.children@.take(i as int), path0, uniq, a, b),
            forall|a: u16, b: u16|
                pair_val(map0, (a, b)) + node_pair_count(*node, path0, uniq, a, b) <= u64::MAX,
        decreases n - i,
    {
        let ghost take_i = node.children@.take(i as int);
        let ghost take_i1 = node.children@.take(i as int + 1);
        let ghost map_i = ranked_pairs_map@;
        proof {
            assert(take_i1.drop_last() =~= take_i);
            assert(take_i1.last() == node.children@[i as int]);
            crate::round::lemma_take_sum_le(node.children@, i as int + 1);
            assert(sum_child_votes(node.children@) <= node.num_votes);
        }
        let child = &node.children[i];
        let child_votes = child.1.get_num_votes();
        child_sum = child_sum + child_votes;
        match child.0 {
            VoteValues::SpecialVote(_) => {
                proof {
                    assert forall|a: u16, b: u16| #[trigger] pair_val(ranked_pairs_map@, (a, b))
                        == pair_val(map0, (a, b)) + kids_pair_count(take_i1, path0, uniq, a, b) by {
                        assert(pair_val(ranked_pairs_map@, (a, b)) == pair_val(map0, (a, b))
                            + kids_pair_count(take_i, path0, uniq, a, b));
                    }
                }
            },
            VoteValues::Candidate(x) => {
                proof {
                    assert(node.children@[i as int].1.wf());
                    assert(!path0.contains(x) && crate::engine::trie_fresh(
                        node.children@[i as int].1,
                        path0.push(x),
                    )) by {
                        assert(crate::engine::trie_fresh(*node, path0));
                    }
                }
                // credit every path member over the child's candidate
                let plen = search_path.len();
                let mut m: usize = 0;
                proof {
                    assert(path0.take(0) =~= Seq::<u16>::empty());
                    assert forall|a: u16, b: u16| pair_val(map_i, (a, b)) + (if b == x
                        && path0.contains(a) {
                        child_votes as int
                    } else {
                        0
                    }) <= u64::MAX by {
                        assert(pair_val(map_i, (a, b)) == pair_val(map0, (a, b))
                            + kids_pair_count(take_i, path0, uniq, a, b));
                        lemma_node_pair_nonneg(node.children@[i as int].1, path0.push(x), uniq, a, b);
                        assert(kids_pair_count(take_i1, path0, uniq, a, b) == kids_pair_count(
                            take_i,
                            path0,
                            uniq,
                            a,
                            b,
                        ) + (if b == x && path0.contains(a) {
                            child_votes as int
                        } else {
                            0
                        }) + node_pair_count(node.children@[i as int].1, path0.push(x), uniq, a, b));
                        lemma_kids_take_le(node.children@, path0, uniq, a, b, i as int + 1);
                        assert(kids_pair_count(node.children@, path0, uniq, a, b)
                            <= node_pair_count(*node, path0, uniq, a, b));
                        assert(pair_val(map0, (a, b)) + node_pair_count(*node, path0, uniq, a, b)
                            <= u64::MAX);
                    }
                }
                while m < plen
                    invariant
                        0 <= m <= plen == search_path@.len(),
                        search_path@ == path0,
                        uniq == unique_candidates@,
                        node.wf(),
                        0 <= i < node.children@.len(),
                        node.children@[i as int].0 == VoteValues::Candidate(x),
                        child_votes == node.children@[i as int].1.num_votes,
                        take_i == node.children@.take(i as int),
                        take_i1 == node.children@.take(i as int + 1),
                        path0.no_duplicates(),
                        pair_keys(ranked_pairs_map@).no_duplicates(),
                        forall|a: u16, b: u16|
                            #[trigger] pair_val(ranked_pairs_map@, (a, b)) == pair_val(
                                map_i,
                                (a, b),
                            ) + (if b == x && path0.take(m as int).contains(a) {
                                child_votes as int
                            } else {
                                0
                            }),
                        forall|a: u16, b: u16|
                            pair_val(map_i, (a, b)) + (if b == x && path0.contains(a) {
                                child_votes as int
                            } else {
                                0
                            }) <= u64::MAX,
                    decreases plen - m,
                {
                    let p = search_path[m];
                    proof {
                        assert(path0.take(m as int + 1).drop_last() =~= path0.take(m as int));
                        assert(path0.take(m as int + 1).last() == path0[m as int]);
                        assert(!path0.take(m as int).contains(p)) by {
                            if path0.take(m as int).contains(p) {
                                let q = choose|q: int|
                                    0 <= q < m && path0.take(m as int)[q] == p;
                                assert(path0[q] == path0[m as int]);
                            }
                        }
                        assert(path0.contains(p)) by {
                            assert(path0[m as int] == p);
                        }
                    }
                    let ghost map_m = ranked_pairs_map@;
                    match find_pair(ranked_pairs_map, (p, x)) {
                        Some(idx) => {
                            let e = ranked_pairs_map[idx];
                            proof {
                                lemma_pair_index_of(map_m, idx as int);
                                assert(e.1 == pair_val(map_m, (p, x)));
                                assert(pair_val(map_m, (p, x)) == pair_val(map_i, (p, x)));
                                assert(pair_val(map_i, (p, x)) + child_votes <= u64::MAX);
                            }
                            let bumped = e.1 + child_votes;
                            ranked_pairs_map.remove(idx);
                            ranked_pairs_map.insert(idx, (e.0, bumped));
                            proof {
                                assert(ranked_pairs_map@ =~= map_m.update(
                                    idx as int,
                                    (e.0, bumped),
                                ));
                                lemma_pair_update(map_m, idx as int, bumped);
                            }
                        },
                        None => {
                            proof {
                                assert(pair_val(map_m, (p, x)) == 0);
                                assert(pair_val(map_m, (p, x)) == pair_val(map_i, (p, x)));
                                assert(pair_val(map_i, (p, x)) + child_votes <= u64::MAX);
                            }
                            ranked_pairs_map.push(((p, x), child_votes));
                            proof {
                                lemma_pair_push(map_m, (p, x), child_votes);
                            }
                        },
                    }
                    proof {
                        assert forall|a: u16, b: u16| #[trigger] pair_val(
                            ranked_pairs_map@,
                            (a, b),
                        ) == pair_val(map_i, (a, b)) + (if b == x && path0.take(
                            m as int + 1,
                        ).contains(a) {
                            child_votes as int
                        } else {
                            0
                        }) by {
                            if a == p && b == x {
                                assert(path0.take(m as int + 1).contains(a)) by {
                                    assert(path0.take(m as int + 1)[m as int] == p);
                                }
                            } else {
                                assert(pair_val(ranked_pairs_map@, (a, b)) == pair_val(
                                    map_m,
                                    (a, b),
                                ));
                                assert(path0.take(m as int + 1).contains(a) == path0.take(
                                    m as int,
                                ).contains(a) || a == p) by {
                                    if path0.take(m as int + 1).contains(a) && a != p {
                                        let q = choose|q: int|
                                            0 <= q < m + 1 && #[trigger] path0.take(
                                                m as int + 1,
                                            )[q] == a;
                                        assert(path0.take(m as int)[q] == a);
                                    }
                                    if path0.take(m as int).contains(a) {
                                        let q = choose|q: int|
                                            0 <= q < m && #[trigger] path0.take(m as int)[q] == a;
                                        assert(path0.take(m as int + 1)[q] == a);
                                    }
                                }
                            }
                        }
                    }
                    m = m + 1;
                }
                proof {
                    assert(path0.take(plen as int) =~= path0);
                }
                // descend into the child's sub-trie
                search_path.push(x);
                let ghost map_c = ranked_pairs_map@;
                proof {
                    assert(search_path@ =~= path0.push(x));
                    assert(search_path@.no_duplicates()) by {
                        assert forall|a2: int, b2: int|
                            0 <= a2 < b2 < path0.push(x).len() implies path0.push(x)[a2]
                            != path0.push(x)[b2] by {
                            if b2 == path0.len() {
                                assert(path0[a2] == path0.push(x)[a2]);
                                assert(path0.contains(path0[a2]));
                            }
                        }
                    }
                    assert(node.children@[i as int].1.wf());
                    assert forall|a: u16, b: u16| pair_val(map_c, (a, b)) + node_pair_count(
                        node.children@[i as int].1,
                        path0.push(x),
                        uniq,
                        a,
                        b,
                    ) <= u64::MAX by {
                        assert(pair_val(map_c, (a, b)) == pair_val(map_i, (a, b)) + (if b == x
                            && path0.contains(a) {
                            child_votes as int
                        } else {
                            0
                        }));
                        assert(pair_val(map_i, (a, b)) == pair_val(map0, (a, b))
                            + kids_pair_count(take_i, path0, uniq, a, b));
                        assert(kids_pair_count(take_i1, path0, uniq, a, b) == kids_pair_count(
                            take_i,
                            path0,
                            uniq,
                            a,
                            b,
                        ) + (if b == x && path0.contains(a) {
                            child_votes as int
                        } else {
                            0
                        }) + node_pair_count(
                            node.children@[i as int].1,
                            path0.push(x),
                            uniq,
                            a,
                            b,
                        ));
                        assert(kids_pair_count(take_i1, path0, uniq, a, b) <= kids_pair_count(
                            node.children@,
                            path0,
                            uniq,
                            a,
                            b,
                        )) by {
                            lemma_kids_take_le(node.children@, path0, uniq, a, b, i as int + 1);
                        }
                        assert(kids_pair_count(node.children@, path0, uniq, a, b)
                            <= node_pair_count(*node, path0, uniq, a, b));
                        assert(pair_val(map0, (a, b)) + node_pair_count(*node, path0, uniq, a, b)
                            <= u64::MAX);
                    }
                }
                build_ranked_pairs_map(&node.children[i].1, search_path, ranked_pairs_map, unique_candidates);
                search_path.pop();
                proof {
                    assert(search_path@ =~= path0);
                    assert forall|a: u16, b: u16| #[trigger] pair_val(ranked_pairs_map@, (a, b))
                        == pair_val(map0, (a, b)) + kids_pair_count(take_i1, path0, uniq, a, b)
                        by {
                        assert(pair_val(ranked_pairs_map@, (a, b)) == pair_val(map_c, (a, b))
                            + node_pair_count(
                            node.children@[i as int].1,
                            path0.push(x),
                            uniq,
                            a,
                            b,
                        ));
                        assert(pair_val(map_c, (a, b)) == pair_val(map_i, (a, b)) + (if b == x
                            && path0.contains(a) {
                            child_votes as int
                        } else {
                            0
                        }));
                        assert(pair_val(map_i, (a, b)) == pair_val(map0, (a, b))
                            + kids_pair_count(take_i, path0, uniq, a, b));
                    }
                }
            },
        }
        i = i + 1;
    }
    proof {
        assert(node.children@.take(n as int) =~= node.children@);
    }
    // ballots ending exactly here prefer every path member over every known
    // candidate the ballot never listed
    proof {
        assert(child_sum <= node.num_votes);
    }
    let terminating_votes = node.get_num_votes() - child_sum;
    let ghost map_t = ranked_pairs_map@;
    if terminating_votes > 0 {
        let plen = search_path.len();
        let ulen = unique_candidates.len();
        let mut m: usize = 0;
        proof {
            assert(path0.take(0) =~= Seq::<u16>::empty());
            assert forall|a: u16, b: u16| pair_val(map_t, (a, b)) + (if path0.contains(a)
                && uniq.contains(b) && !path0.contains(b) {
                terminating_votes as int
            } else {
                0
            }) <= u64::MAX by {
                assert(pair_val(map_t, (a, b)) == pair_val(map0, (a, b)) + kids_pair_count(
                    node.children@,
                    path0,
                    uniq,
                    a,
                    b,
                ));
                assert(node_pair_count(*node, path0, uniq, a, b) == kids_pair_count(
                    node.children@,
                    path0,
                    uniq,
                    a,
                    b,
                ) + (if path0.contains(a) && uniq.contains(b) && !path0.contains(b) {
                    node.num_votes - sum_child_votes(node.children@)
                } else {
                    0
                }));
                assert(pair_val(map0, (a, b)) + node_pair_count(*node, path0, uniq, a, b)
                    <= u64::MAX);
            }
        }
        while m < plen
            invariant
                0 <= m <= plen == search_path@.len(),
                search_path@ == path0,
                uniq == unique_candidates@,
                path0.no_duplicates(),
                uniq.no_duplicates(),
                ulen == uniq.len(),
                terminating_votes == node.num_votes - sum_child_votes(node.children@),
                terminating_votes > 0,
                pair_keys(ranked_pairs_map@).no_duplicates(),
                forall|a: u16, b: u16|
                    #[trigger] pair_val(ranked_pairs_map@, (a, b)) == pair_val(map_t, (a, b)) + (
                    if path0.take(m as int).contains(a) && uniq.contains(b) && !path0.contains(b) {
                        terminating_votes as int
                    } else {
                        0
                    }),
                forall|a: u16, b: u16|
                    pair_val(map_t, (a, b)) + (if path0.contains(a) && uniq.contains(b)
                        && !path0.contains(b) {
                        terminating_votes as int
                    } else {
                        0
                    }) <= u64::MAX,
            decreases plen - m,
        {
            let p = search_path[m];
            let ghost map_pm = ranked_pairs_map@;
            proof {
                assert(path0.take(m as int + 1).drop_last() =~= path0.take(m as int));
                assert(path0.take(m as int + 1).last() == path0[m as int]);
                assert(!path0.take(m as int).contains(p)) by {
                    if path0.take(m as int).contains(p) {
                        let q = choose|q: int| 0 <= q < m && path0.take(m as int)[q] == p;
                        assert(path0[q] == path0[m as int]);
                    }
                }
                assert(path0.contains(p)) by {
                    assert(path0[m as int] == p);
                }
            }
            let mut u: usize = 0;
            proof {
                assert(uniq.take(0) =~= Seq::<u16>::empty());
            }
            while u < ulen
                invariant
                    0 <= u <= ulen == unique_candidates@.len(),
                    0 <= m < plen == search_path@.len(),
                    search_path@ == path0,
                    uniq == unique_candidates@,
                    path0.no_duplicates(),
                    uniq.no_duplicates(),
                    p == path0[m as int],
                    path0.contains(p),
                    !path0.take(m as int).contains(p),
                    terminating_votes > 0,
                    pair_keys(ranked_pairs_map@).no_duplicates(),
                    forall|a: u16, b: u16|
                        #[trigger] pair_val(ranked_pairs_map@, (a, b)) == pair_val(
                            map_pm,
                            (a, b),
                        ) + (if a == p && uniq.take(u as int).contains(b) && !path0.contains(b) {
                            terminating_votes as int
                        } else {
                            0
                        }),
                    forall|a: u16, b: u16|
                        pair_val(map_pm, (a, b)) + (if a == p && uniq.contains(b)
                            && !path0.contains(b) {
                            terminating_votes as int
                        } else {
                            0
                        }) <= u64::MAX,
                decreases ulen - u,
            {
                let cand = unique_candidates[u];
                proof {
                    assert(uniq.take(u as int + 1).drop_last() =~= uniq.take(u as int));
                    assert(uniq.take(u as int + 1).last() == uniq[u as int]);
                    assert(uniq.contains(cand)) by {
                        assert(uniq[u as int] == cand);
                    }
                }
                let mut on_path = false;
                let mut q: usize = 0;
                while q < plen
                    invariant
                        0 <= q <= plen == search_path@.len(),
                        search_path@ == path0,
                        on_path == path0.take(q as int).contains(cand),
                    decreases plen - q,
                {
                    proof {
                        assert(path0.take(q as int + 1).drop_last() =~= path0.take(q as int));
                        assert(path0.take(q as int + 1).last() == path0[q as int]);
                    }
                    if search_path[q] == cand {
                        on_path = true;
                        proof {
                            assert(path0.take(q as int + 1).contains(cand)) by {
                                assert(path0.take(q as int + 1)[q as int] == cand);
                            }
                        }
                    }
                    q = q + 1;
                }
                proof {
                    assert(path0.take(plen as int) =~= path0);
                }
                let ghost map_u = ranked_pairs_map@;
                if !on_path {
                    match find_pair(ranked_pairs_map, (p, cand)) {
                        Some(idx) => {
                            let e = ranked_pairs_map[idx];
                            proof {
                                lemma_pair_index_of(map_u, idx as int);
                                assert(!uniq.take(u as int).contains(cand)) by {
                                    if uniq.take(u as int).contains(cand) {
                                        let q2 = choose|q2: int|
                                            0 <= q2 < u && uniq.take(u as int)[q2] == cand;
                                        assert(uniq[q2] == uniq[u as int]);
                                    }
                                }
                                assert(e.1 == pair_val(map_pm, (p, cand)));
                                assert(pair_val(map_pm, (p, cand)) + terminating_votes
                                    <= u64::MAX);
                            }
                            let bumped = e.1 + terminating_votes;
                            ranked_pairs_map.remove(idx);
                            ranked_pairs_map.insert(idx, (e.0, bumped));
                            proof {
                                assert(ranked_pairs_map@ =~= map_u.update(
                                    idx as int,
                                    (e.0, bumped),
                                ));
                                lemma_pair_update(map_u, idx as int, bumped);
                            }
                        },
                        None => {
                            proof {
                                assert(!uniq.take(u as int).contains(cand)) by {
                                    if uniq.take(u as int).contains(cand) {
                                        let q2 = choose|q2: int|
                                            0 <= q2 < u && uniq.take(u as int)[q2] == cand;
                                        assert(uniq[q2] == uniq[u as int]);
                                    }
                                }
                                assert(pair_val(map_u, (p, cand)) == 0);
                                assert(pair_val(map_pm, (p, cand)) == 0);
                            }
                            ranked_pairs_map.push(((p, cand), terminating_votes));
                            proof {
                                lemma_pair_push(map_u, (p, cand), terminating_votes);
                            }
                        },
                    }
                }
                proof {
                    assert forall|a: u16, b: u16| #[trigger] pair_val(ranked_pairs_map@, (a, b))
                        == pair_val(map_pm, (a, b)) + (if a == p && uniq.take(
                        u as int + 1,
                    ).contains(b) && !path0.contains(b) {
                        terminating_votes as int
                    } else {
                        0
                    }) by {
                        assert(uniq.take(u as int + 1).contains(b) == (uniq.take(
                            u as int,
                        ).contains(b) || b == cand)) by {
                            if uniq.take(u as int + 1).contains(b) && b != cand {
                                let qq = choose|qq: int|
                                    0 <= qq < u + 1 && #[trigger] uniq.take(u as int + 1)[qq]
                                        == b;
                                assert(uniq.take(u as int)[qq] == b);
                            }
                            if uniq.take(u as int).contains(b) {
                                let qq = choose|qq: int|
                                    0 <= qq < u && #[trigger] uniq.take(u as int)[qq] == b;
                                assert(uniq.take(u as int + 1)[qq] == b);
                            }
                            assert(uniq.take(u as int + 1)[u as int] == cand);
                        }
                        if a == p && b == cand && !path0.contains(cand) {
                        } else {
                            assert(pair_val(ranked_pairs_map@, (a, b)) == pair_val(
                                map_u,
                                (a, b),
                            ));
                        }
                    }
                }
                u = u + 1;
            }
            proof {
                assert(uniq.take(ulen as int) =~= uniq);
                assert forall|a: u16, b: u16| #[trigger] pair_val(ranked_pairs_map@, (a, b))
                    == pair_val(map_t, (a, b)) + (if path0.take(m as int + 1).contains(a)
                    && uniq.contains(b) && !path0.contains(b) {
                    terminating_votes as int
                } else {
                    0
                }) by {
                    assert(pair_val(ranked_pairs_map@, (a, b)) == pair_val(map_pm, (a, b)) + (
                    if a == p && uniq.contains(b) && !path0.contains(b) {
                        terminating_votes as int
                    } else {
                        0
                    }));
                    assert(pair_val(map_pm, (a, b)) == pair_val(map_t, (a, b)) + (if path0.take(
                        m as int,
                    ).contains(a) && uniq.contains(b) && !path0.contains(b) {
                        terminating_votes as int
                    } else {
                        0
                    }));
                    assert(path0.take(m as int + 1).contains(a) == (path0.take(
                        m as int,
                    ).contains(a) || a == p)) by {
                        if path0.take(m as int + 1).contains(a) && a != p {
                            let q2 = choose|q2: int|
                                0 <= q2 < m + 1 && #[trigger] path0.take(m as int + 1)[q2] == a;
                            assert(path0.take(m as int)[q2] == a);
                        }
                        if path0.take(m as int).contains(a) {
                            let q2 = choose|q2: int|
                                0 <= q2 < m && #[trigger] path0.take(m as int)[q2] == a;
                            assert(path0.take(m as int + 1)[q2] == a);
                        }
                        assert(path0.take(m as int + 1)[m as int] == p);
                    }
                }
            }
            m = m + 1;
        }
        proof {
            assert(path0.take(plen as int) =~= path0);
        }
    }
    proof {
        assert forall|a: u16, b: u16| #[trigger] pair_val(ranked_pairs_map@, (a, b)) == pair_val(
            map0,
            (a, b),
        ) + node_pair_count(*node, path0, uniq, a, b) by {
            assert(pair_val(map_t, (a, b)) == pair_val(map0, (a, b)) + kids_pair_count(
                node.children@,
                path0,
                uniq,
                a,
                b,
            ));
            if terminating_votes > 0 {
                assert(pair_val(ranked_pairs_map@, (a, b)) == pair_val(map_t, (a, b)) + (
                if path0.contains(a) && uniq.contains(b) && !path0.contains(b) {
                    terminating_votes as int
                } else {
                    0
                }));
            } else {
                assert(ranked_pairs_map@ == map_t);
            }
        }
    }
}


/// Below a node whose sub-trie cannot mention `b` again while `b` already
/// sits on the path, the pair `(a, b)` gains nothing.
proof fn lemma_pair_blocked(
    n: TrieNode,
    path: Seq<u16>,
    uniq: Seq<u16>,
    a: u16,
    b: u16,
    seen: Seq<u16>,
)
    requires
        n.wf(),
        crate::engine::trie_fresh(n, seen),
        seen.contains(b),
        path.contains(b),
    ensures
        node_pair_count(n, path, uniq, a, b) == 0,
    decreases n, 1int,
{
    lemma_kids_blocked(n, path, uniq, a, b, seen, n.children@.len() as int);
    assert(n.children@.take(n.children@.len() as int) =~= n.children@);
}

proof fn lemma_kids_blocked(
    n: TrieNode,
    path: Seq<u16>,
    uniq: Seq<u16>,
    a: u16,
    b: u16,
    seen: Seq<u16>,
    k: int,
)
    requires
        n.wf(),
        crate::engine::trie_fresh(n, seen),
        seen.contains(b),
        path.contains(b),
        0 <= k <= n.children@.len(),
    ensures
        kids_pair_count(n.children@.take(k), path, uniq, a, b) == 0,
    decreases n, 0int, k,
{
    if k == 0 {
        assert(n.children@.take(0) =~= Seq::<(VoteValues, TrieNode)>::empty());
    } else {
        lemma_kids_blocked(n, path, uniq, a, b, seen, k - 1);
        assert(n.children@.take(k).drop_last() =~= n.children@.take(k - 1));
        assert(n.children@.take(k).last() == n.children@[k - 1]);
        match n.children@[k - 1].0 {
            VoteValues::Candidate(x) => {
                assert(!seen.contains(x) && crate::engine::trie_fresh(
                    n.children@[k - 1].1,
                    seen.push(x),
                ));
                assert(x != b);
                assert(seen.push(x).contains(b)) by {
                    let q = choose|q: int| 0 <= q < seen.len() && seen[q] == b;
                    assert(seen.push(x)[q] == b);
                }
                assert(path.push(x).contains(b)) by {
                    let q = choose|q: int| 0 <= q < path.len() && path[q] == b;
                    assert(path.push(x)[q] == b);
                }
                assert(n.children@[k - 1].1.wf());
                lemma_pair_blocked(n.children@[k - 1].1, path.push(x), uniq, a, b, seen.push(x));
            },
            VoteValues::SpecialVote(_) => {},
        }
    }
}

/// No pair gains more from a sub-trie than the ballots the sub-trie counts.
pub proof fn lemma_pair_le(
    n: TrieNode,
    path: Seq<u16>,
    uniq: Seq<u16>,
    a: u16,
    b: u16,
    seen: Seq<u16>,
)
    requires
        n.wf(),
        crate::engine::trie_fresh(n, seen),
    ensures
        0 <= node_pair_count(n, path, uniq, a, b) <= n.num_votes,
    decreases n, 1int,
{
    lemma_node_pair_nonneg(n, path, uniq, a, b);
    lemma_kids_le(n, path, uniq, a, b, seen, n.children@.len() as int);
    assert(n.children@.take(n.children@.len() as int) =~= n.children@);
}

proof fn lemma_kids_le(
    n: TrieNode,
    path: Seq<u16>,
    uniq: Seq<u16>,
    a: u16,
    b: u16,
    seen: Seq<u16>,
    k: int,
)
    requires
        n.wf(),
        crate::engine::trie_fresh(n, seen),
        0 <= k <= n.children@.len(),
    ensures
        kids_pair_count(n.children@.take(k), path, uniq, a, b) <= sum_child_votes(
            n.children@.take(k),
        ),
    decreases n, 0int, k,
{
    if k == 0 {
        assert(n.children@.take(0) =~= Seq::<(VoteValues, TrieNode)>::empty());
    } else {
        lemma_kids_le(n, path, uniq, a, b, seen, k - 1);
        assert(n.children@.take(k).drop_last() =~= n.children@.take(k - 1));
        assert(n.children@.take(k).last() == n.children@[k - 1]);
        let child = n.children@[k - 1].1;
        assert(child.wf());
        match n.children@[k - 1].0 {
            VoteValues::Candidate(x) => {
                assert(!seen.contains(x) && crate::engine::trie_fresh(child, seen.push(x)));
                if x == b && path.contains(a) {
                    assert(seen.push(b).contains(b)) by {
                        assert(seen.push(b)[seen.len() as int] == b);
                    }
                    assert(path.push(b).contains(b)) by {
                        assert(path.push(b)[path.len() as int] == b);
                    }
                    lemma_pair_blocked(child, path.push(x), uniq, a, b, seen.push(x));
                } else {
                    lemma_pair_le(child, path.push(x), uniq, a, b, seen.push(x));
                }
            },
            VoteValues::SpecialVote(_) => {},
        }
    }
}


/// Membership after appending a candidate to a path.
proof fn lemma_push_contains_u16(s: Seq<u16>, x: u16)
    ensures
        forall|y: u16| s.push(x).contains(y) == (s.contains(y) || y == x),
{
    assert forall|y: u16| s.push(x).contains(y) == (s.contains(y) || y == x) by {
        if s.contains(y) {
            let j = choose|j: int| 0 <= j < s.len() && s[j] == y;
            assert(s.push(x)[j] == y);
        }
        assert(s.push(x)[s.len() as int] == x);
        if s.push(x).contains(y) {
            let j = choose|j: int| 0 <= j < s.push(x).len() && s.push(x)[j] == y;
            if j < s.len() {
                assert(s[j] == y);
            }
        }
    }
}

/// Two opposite pairwise counts below one node never exceed together the
/// ballots the node counts: each ballot prefers `a` to `b`, or `b` to `a`,
/// or neither.
pub proof fn lemma_pair_sum_le(
    n: TrieNode,
    path: Seq<u16>,
    uniq: Seq<u16>,
    a: u16,
    b: u16,
    seen: Seq<u16>,
)
    requires
        n.wf(),
        crate::engine::trie_fresh(n, seen),
        a != b,
        forall|c: u16| path.contains(c) ==> seen.contains(c),
    ensures
        node_pair_count(n, path, uniq, a, b) + node_pair_count(n, path, uniq, b, a)
            <= n.num_votes,
    decreases n, 1int,
{
    lemma_kids_sum_le(n, path, uniq, a, b, seen, n.children@.len() as int);
    assert(n.children@.take(n.children@.len() as int) =~= n.children@);
    let t = n.num_votes - sum_child_votes(n.children@);
    assert(!(path.contains(a) && !path.contains(b) && path.contains(b) && !path.contains(a)));
    lemma_node_pair_nonneg(n, path, uniq, a, b);
    lemma_node_pair_nonneg(n, path, uniq, b, a);
}

proof fn lemma_kids_sum_le(
    n: TrieNode,
    path: Seq<u16>,
    uniq: Seq<u16>,
    a: u16,
    b: u16,
    seen: Seq<u16>,
    k: int,
)
    requires
        n.wf(),
        crate::engine::trie_fresh(n, seen),
        a != b,
        forall|c: u16| path.contains(c) ==> seen.contains(c),
        0 <= k <= n.children@.len(),
    ensures
        kids_pair_count(n.children@.take(k), path, uniq, a, b) + kids_pair_count(
            n.children@.take(k),
            path,
            uniq,
            b,
            a,
        ) <= sum_child_votes(n.children@.take(k)),
    decreases n, 0int, k,
{
    if k == 0 {
        assert(n.children@.take(0) =~= Seq::<(VoteValues, TrieNode)>::empty());
    } else {
        lemma_kids_sum_le(n, path, uniq, a, b, seen, k - 1);
        assert(n.children@.take(k).drop_last() =~= n.children@.take(k - 1));
        assert(n.children@.take(k).last() == n.children@[k - 1]);
        let child = n.children@[k - 1].1;
        assert(child.wf());
        match n.children@[k - 1].0 {
            VoteValues::Candidate(x) => {
                assert(!seen.contains(x) && crate::engine::trie_fresh(child, seen.push(x)));
                lemma_push_contains_u16(path, x);
                lemma_push_contains_u16(seen, x);
                assert forall|c: u16|
                    path.push(x).contains(c) implies seen.push(x).contains(c) by {
                    assert(path.contains(c) || c == x);
                    if c != x {
                        assert(seen.contains(c));
                    }
                }
                if x == b && path.contains(a) {
                    lemma_pair_blocked(child, path.push(x), uniq, a, b, seen.push(x));
                    assert(seen.push(x).contains(a) && path.push(x).contains(a));
                    lemma_pair_blocked(child, path.push(x), uniq, b, a, seen.push(x));
                } else if x == a && path.contains(b) {
                    lemma_pair_blocked(child, path.push(x), uniq, b, a, seen.push(x));
                    assert(seen.push(x).contains(b) && path.push(x).contains(b));
                    lemma_pair_blocked(child, path.push(x), uniq, a, b, seen.push(x));
                } else {
                    lemma_pair_sum_le(child, path.push(x), uniq, a, b, seen.push(x));
                }
            },
            VoteValues::SpecialVote(_) => {},
        }
    }
}

/// Law: for two distinct candidates, the ballots preferring one over the
/// other and the ballots preferring the other over the one together never
/// outnumber the ballots inserted.
pub proof fn lemma_pairwise_totals_bound(rcv: crate::engine::RankedChoiceVoteTrie, a: u16, b: u16)
    requires
        rcv.wf(),
        a != b,
    ensures
        node_pair_count(rcv.root, Seq::empty(), rcv.unique_candidates@, a, b) + node_pair_count(
            rcv.root,
            Seq::empty(),
            rcv.unique_candidates@,
            b,
            a,
        ) <= rcv.root.num_votes,
{
    lemma_pair_sum_le(rcv.root, Seq::empty(), rcv.unique_candidates@, a, b, Seq::empty());
}

} // verus!


