//! The ballot prefix trie.
//!
//! Each node maps ballot values to children and counts the ballots whose
//! prefix reaches or passes through it. Two ballots sharing a prefix share a
//! path, so eliminating a candidate moves whole sub-tries instead of
//! rescanning ballots.

use vstd::prelude::*;

use crate::vote::RankedVote;
use crate::vote::VoteValues;

verus! {

/// A trie node: children keyed by ballot value, and the number of ballots
/// whose prefix reaches or passes through this node.
pub struct TrieNode {
    pub children: Vec<(VoteValues, TrieNode)>,
    pub num_votes: u64,
}

/// The total of the children's vote counters.
pub open spec fn sum_child_votes(s: Seq<(VoteValues, TrieNode)>) -> int
    decreases s.len(),
{
    if s.len() == 0 {
        0
    } else {
        sum_child_votes(s.drop_last()) + s.last().1.num_votes
    }
}

pub proof fn lemma_sum_nonneg(s: Seq<(VoteValues, TrieNode)>)
    ensures
        sum_child_votes(s) >= 0,
    decreases s.len(),
{
    if s.len() > 0 {
        lemma_sum_nonneg(s.drop_last());
    }
}

/// Every child's counter is at most the total of all the children's counters.
pub proof fn lemma_sum_each_le(s: Seq<(VoteValues, TrieNode)>, i: int)
    requires
        0 <= i < s.len(),
    ensures
        s[i].1.num_votes <= sum_child_votes(s),
    decreases s.len(),
{
    if i == s.len() - 1 {
        lemma_sum_nonneg(s.drop_last());
    } else {
        lemma_sum_each_le(s.drop_last(), i);
    }
}

pub proof fn lemma_sum_update(s: Seq<(VoteValues, TrieNode)>, i: int, p: (VoteValues, TrieNode))
    requires
        0 <= i < s.len(),
    ensures
        sum_child_votes(s.update(i, p)) == sum_child_votes(s) - s[i].1.num_votes + p.1.num_votes,
    decreases s.len(),
{
    if i == s.len() - 1 {
        assert(s.update(i, p).drop_last() =~= s.drop_last());
    } else {
        assert(s.update(i, p).drop_last() =~= s.drop_last().update(i, p));
        lemma_sum_update(s.drop_last(), i, p);
    }
}

pub proof fn lemma_sum_push(s: Seq<(VoteValues, TrieNode)>, p: (VoteValues, TrieNode))
    ensures
        sum_child_votes(s.push(p)) == sum_child_votes(s) + p.1.num_votes,
{
    assert(s.push(p).drop_last() =~= s);
}

impl TrieNode {
    /// The keys of the children, in insertion order.
    pub open spec fn child_keys(self) -> Seq<VoteValues> {
        self.children@.map_values(|p: (VoteValues, TrieNode)| p.0)
    }

    pub open spec fn has_child(self, k: VoteValues) -> bool {
        exists|i: int| 0 <= i < self.children@.len() && (#[trigger] self.children@[i]).0 == k
    }

    /// The position of the child keyed `k`; meaningful when the keys are
    /// unique and `has_child(k)` holds.
    pub open spec fn child_index(self, k: VoteValues) -> int {
        choose|i: int| 0 <= i < self.children@.len() && (#[trigger] self.children@[i]).0 == k
    }

    pub open spec fn spec_child(self, k: VoteValues) -> TrieNode {
        self.children@[self.child_index(k)].1
    }

    /// Structural invariant: child keys are unique, each node's counter is at
    /// least the total of its children's counters (the difference is the
    /// number of ballots terminating exactly here), and the same holds below.
    pub open spec fn wf(self) -> bool
        decreases self,
    {
        &&& self.child_keys().no_duplicates()
        &&& sum_child_votes(self.children@) <= self.num_votes
        &&& forall|i: int|
            0 <= i < self.children@.len() ==> (#[trigger] self.children@[i]).1.wf()
    }

    /// Every node strictly below this one counts at least one ballot. Holds
    /// of every trie built by insertions.
    pub open spec fn nodes_positive(self) -> bool
        decreases self,
    {
        forall|i: int|
            0 <= i < self.children@.len() ==> (#[trigger] self.children@[i]).1.num_votes >= 1
                && self.children@[i].1.nodes_positive()
    }

    /// With unique keys, a child's position is determined by its key.
    pub proof fn lemma_child_index_of(self, i: int)
        requires
            self.child_keys().no_duplicates(),
            0 <= i < self.children@.len(),
        ensures
            self.has_child(self.children@[i].0),
            self.child_index(self.children@[i].0) == i,
    {
        let k = self.children@[i].0;
        assert(self.has_child(k));
        let j = self.child_index(k);
        assert(self.child_keys()[i] == k && self.child_keys()[j] == k);
    }

    /// Law: every child counts at most as many ballots as its parent.
    pub proof fn lemma_counter_monotonic(self, i: int)
        requires
            self.wf(),
            0 <= i < self.children@.len(),
        ensures
            self.children@[i].1.num_votes <= self.num_votes,
    {
        lemma_sum_each_le(self.children@, i);
    }

    pub fn new() -> (r: TrieNode)
        ensures
            r.children@ =~= Seq::<(VoteValues, TrieNode)>::empty(),
            r.num_votes == 0,
            r.wf(),
            r.nodes_positive(),
    {
        TrieNode { children: Vec::new(), num_votes: 0 }
    }

    pub fn get_num_votes(&self) -> (r: u64)
        ensures
            r == self.num_votes,
    {
        self.num_votes
    }

    /// The child keyed by `vote_value`, if there is one.
    pub fn search_child(&self, vote_value: VoteValues) -> (r: Option<&TrieNode>)
        requires
            self.wf(),
        ensures
            self.has_child(vote_value) ==> (r matches Some(c) && *c == self.spec_child(
                vote_value,
            )),
            !self.has_child(vote_value) ==> r is None,
    {
        let n = self.children.len();
        let mut i: usize = 0;
        while i < n
            invariant
                0 <= i <= n == self.children@.len(),
                self.wf(),
                forall|j: int| 0 <= j < i ==> (#[trigger] self.children@[j]).0 != vote_value,
            decreases n - i,
        {
            if self.children[i].0 == vote_value {
                proof {
                    self.lemma_child_index_of(i as int);
                }
                return Some(&self.children[i].1);
            }
            i = i + 1;
        }
        None
    }

    /// The position of the child keyed by `vote_value`, creating an empty
    /// child under that key if there was none. The counters do not change.
    pub fn search_or_create_child(&mut self, vote_value: VoteValues) -> (idx: usize)
        requires
            old(self).child_keys().no_duplicates(),
        ensures
            final(self).num_votes == old(self).num_votes,
            final(self).child_keys().no_duplicates(),
            idx < final(self).children@.len(),
            final(self).children@[idx as int].0 == vote_value,
            old(self).has_child(vote_value) ==> final(self).children@ == old(self).children@ && idx
                == old(self).child_index(vote_value),
            !old(self).has_child(vote_value) ==> ({
                let oc = old(self).children@;
                let nc = final(self).children@;
                &&& nc.len() == oc.len() + 1
                &&& forall|j: int| 0 <= j < oc.len() ==> nc[j] == oc[j]
                &&& idx == oc.len()
                &&& nc.last().1.num_votes == 0
                &&& nc.last().1.children@.len() == 0
            }),
    {
        let n = self.children.len();
        let mut i: usize = 0;
        while i < n
            invariant
                0 <= i <= n == self.children@.len(),
                *self == *old(self),
                self.child_keys().no_duplicates(),
                forall|j: int| 0 <= j < i ==> (#[trigger] self.children@[j]).0 != vote_value,
            decreases n - i,
        {
            if self.children[i].0 == vote_value {
                proof {
                    self.lemma_child_index_of(i as int);
                }
                return i;
            }
            i = i + 1;
        }
        self.children.push((vote_value, TrieNode::new()));
        proof {
            let ks = self.child_keys();
            let old_ks = old(self).child_keys();
            assert(ks =~= old_ks.push(vote_value));
            assert forall|a: int, b: int| 0 <= a < b < ks.len() implies ks[a] != ks[b] by {
                if b == ks.len() - 1 {
                    assert(old(self).children@[a].0 == old_ks[a]);
                }
            }
        }
        self.children.len() - 1
    }
}

/// How a trie changes when one ballot's value sequence `vs` is inserted:
/// every counter on the path gains one, existing children are reused, and a
/// missing child starts a fresh path.
pub open spec fn is_insert(o: TrieNode, vs: Seq<VoteValues>, n: TrieNode) -> bool
    decreases vs.len(),
{
    &&& n.num_votes == o.num_votes + 1
    &&& if vs.len() == 0 {
        n.children@ == o.children@
    } else {
        let k = vs[0];
        if o.has_child(k) {
            let i = o.child_index(k);
            &&& n.children@.len() == o.children@.len()
            &&& forall|j: int|
                0 <= j < o.children@.len() && j != i ==> n.children@[j] == o.children@[j]
            &&& n.children@[i].0 == k
            &&& is_insert(o.children@[i].1, vs.drop_first(), n.children@[i].1)
        } else {
            &&& n.children@.len() == o.children@.len() + 1
            &&& forall|j: int| 0 <= j < o.children@.len() ==> n.children@[j] == o.children@[j]
            &&& n.children@.last().0 == k
            &&& is_fresh_path(n.children@.last().1, vs.drop_first())
        }
    }
}

/// A chain of single-child nodes counting one ballot each, keyed by `vs`.
pub open spec fn is_fresh_path(n: TrieNode, vs: Seq<VoteValues>) -> bool
    decreases vs.len(),
{
    &&& n.num_votes == 1
    &&& if vs.len() == 0 {
        n.children@.len() == 0
    } else {
        &&& n.children@.len() == 1
        &&& n.children@[0].0 == vs[0]
        &&& is_fresh_path(n.children@[0].1, vs.drop_first())
    }
}

pub proof fn lemma_fresh_path_wf(n: TrieNode, vs: Seq<VoteValues>)
    requires
        is_fresh_path(n, vs),
    ensures
        n.wf(),
        n.nodes_positive(),
    decreases vs.len(),
{
    if vs.len() == 0 {
        assert(n.children@ =~= Seq::<(VoteValues, TrieNode)>::empty());
        assert(sum_child_votes(n.children@) == 0);
    } else {
        assert(n.children@.len() == 1);
        let c = n.children@[0].1;
        assert(is_fresh_path(c, vs.drop_first()));
        assert(c.num_votes == 1);
        lemma_fresh_path_wf(c, vs.drop_first());
        assert(n.children@.last() == n.children@[0]);
        assert(n.children@.drop_last() =~= Seq::<(VoteValues, TrieNode)>::empty());
        assert(sum_child_votes(Seq::<(VoteValues, TrieNode)>::empty()) == 0);
        assert(sum_child_votes(n.children@) == 1);
        assert(n.child_keys().no_duplicates());
        assert forall|i: int| 0 <= i < n.children@.len() implies (
        #[trigger] n.children@[i]).1.wf() by {
            assert(i == 0);
        }
        assert forall|i: int| 0 <= i < n.children@.len() implies (
        #[trigger] n.children@[i]).1.num_votes >= 1 && n.children@[i].1.nodes_positive() by {
            assert(i == 0);
        }
    }
}

/// Inserting into a node that counts nothing and has no children builds
/// exactly a fresh path.
pub proof fn lemma_insert_into_empty(o: TrieNode, vs: Seq<VoteValues>, n: TrieNode)
    requires
        o.num_votes == 0,
        o.children@.len() == 0,
        is_insert(o, vs, n),
    ensures
        is_fresh_path(n, vs),
{
    if vs.len() == 0 {
    } else {
        assert(!o.has_child(vs[0]));
        assert(n.children@[0] == n.children@.last());
    }
}

/// Insert the values of `vote` from position `pos` on, bumping this node's
/// counter and every counter on the path below it.
pub fn insert_values(node: &mut TrieNode, vote: &RankedVote, pos: usize)
    requires
        old(node).wf(),
        vote.wf(),
        pos <= vote.spec_len(),
        old(node).num_votes < u64::MAX,
    ensures
        final(node).wf(),
        is_insert(*old(node), vote.spec_values().skip(pos as int), *final(node)),
    decreases vote.spec_len() - pos,
{
    let ghost vs = vote.spec_values().skip(pos as int);
    let ghost oldn = *old(node);
    node.num_votes = node.num_votes + 1;
    let len = vote.len();
    if pos < len {
        let value = match vote.get(pos) {
            Ok(v) => v,
            Err(_) => {
                proof {
                    assert(false);
                }
                VoteValues::Candidate(0)
            },
        };
        assert(vs[0] == value);
        let idx = node.search_or_create_child(value);
        let ghost mid = *node;
        let ghost had = oldn.has_child(value);
        let (key, mut child) = node.children.remove(idx);
        let ghost fresh = child;
        proof {
            assert(key == value);
            if had {
                assert(mid.children@ == oldn.children@);
                lemma_sum_each_le(oldn.children@, idx as int);
                assert(child.num_votes <= sum_child_votes(oldn.children@) <= oldn.num_votes);
                assert(child.wf());
            } else {
                assert(child.num_votes == 0 && child.children@.len() == 0);
                assert(child.wf());
            }
        }
        insert_values(&mut child, vote, pos + 1);
        proof {
            assert(vote.spec_values().skip((pos + 1) as int) =~= vs.drop_first());
        }
        node.children.insert(idx, (key, child));
        proof {
            assert(node.children@ =~= mid.children@.update(idx as int, (key, child)));
            lemma_sum_update(mid.children@, idx as int, (key, child));
            assert(node.child_keys() =~= mid.child_keys());
            if had {
                oldn.lemma_child_index_of(idx as int);
                assert(sum_child_votes(node.children@) == sum_child_votes(oldn.children@) + 1);
                assert(node.wf());
                assert(is_insert(oldn, vs, *node));
            } else {
                assert(mid.child_keys() =~= oldn.child_keys().push(value)) by {
                    assert forall|j: int| 0 <= j < mid.children@.len() implies mid.child_keys()[j]
                        == oldn.child_keys().push(value)[j] by {
                        if j < oldn.children@.len() {
                            assert(mid.children@[j] == oldn.children@[j]);
                        }
                    }
                }
                assert(sum_child_votes(mid.children@) == sum_child_votes(oldn.children@)) by {
                    assert(mid.children@.drop_last() =~= oldn.children@);
                }
                assert(node.wf());
                lemma_insert_into_empty(fresh, vs.drop_first(), child);
                assert(node.children@.last() == (key, child));
                assert(is_insert(oldn, vs, *node));
            }
        }
    } else {
        proof {
            assert(vs =~= Seq::<VoteValues>::empty());
            assert(node.children@ == oldn.children@);
        }
    }
}


/// `p` is an initial run of `vs`.
pub open spec fn seq_prefix(p: Seq<VoteValues>, vs: Seq<VoteValues>) -> bool
    decreases p.len(),
{
    p.len() == 0 || (vs.len() > 0 && p[0] == vs[0] && seq_prefix(p.drop_first(), vs.drop_first()))
}

/// The ballots counted at the node reached from `n` along `path`, zero when
/// the path leaves the trie.
pub open spec fn votes_at(n: TrieNode, path: Seq<VoteValues>) -> int
    decreases path.len(),
{
    if path.len() == 0 {
        n.num_votes as int
    } else if n.has_child(path[0]) {
        votes_at(n.spec_child(path[0]), path.drop_first())
    } else {
        0
    }
}

/// Insertion keeps the trie well formed.
pub proof fn lemma_insert_wf(o: TrieNode, vs: Seq<VoteValues>, n: TrieNode)
    requires
        o.wf(),
        is_insert(o, vs, n),
    ensures
        n.wf(),
    decreases vs.len(),
{
    if vs.len() == 0 {
        assert(n.children@ == o.children@);
        assert(n.child_keys() =~= o.child_keys());
        lemma_sum_nonneg(o.children@);
    } else {
        let k = vs[0];
        if o.has_child(k) {
            let i = o.child_index(k);
            assert(is_insert(o.children@[i].1, vs.drop_first(), n.children@[i].1));
            lemma_insert_wf(o.children@[i].1, vs.drop_first(), n.children@[i].1);
            assert(n.children@[i].1.num_votes == o.children@[i].1.num_votes + 1);
            assert(n.children@ =~= o.children@.update(i, (k, n.children@[i].1)));
            lemma_sum_update(o.children@, i, (k, n.children@[i].1));
            assert(n.child_keys() =~= o.child_keys());
            assert forall|j: int| 0 <= j < n.children@.len() implies (
            #[trigger] n.children@[j]).1.wf() by {
                if j != i {
                    assert(n.children@[j] == o.children@[j]);
                }
            }
        } else {
            assert(is_fresh_path(n.children@.last().1, vs.drop_first()));
            lemma_fresh_path_wf(n.children@.last().1, vs.drop_first());
            assert(n.children@.last().1.num_votes == 1);
            assert(n.children@ =~= o.children@.push(n.children@.last()));
            lemma_sum_push(o.children@, n.children@.last());
            assert(n.child_keys() =~= o.child_keys().push(k));
            assert forall|a: int, b: int|
                0 <= a < b < n.child_keys().len() implies n.child_keys()[a]
                != n.child_keys()[b] by {
                if b == n.child_keys().len() - 1 {
                    assert(o.child_keys()[a] == o.children@[a].0);
                }
            }
            assert forall|j: int| 0 <= j < n.children@.len() implies (
            #[trigger] n.children@[j]).1.wf() by {
                if j < o.children@.len() {
                    assert(n.children@[j] == o.children@[j]);
                }
            }
        }
    }
}

/// Along a fresh single-ballot path the count is one exactly on the prefixes
/// of the inserted values.
proof fn lemma_fresh_path_votes_at(f: TrieNode, vs: Seq<VoteValues>, p: Seq<VoteValues>)
    requires
        is_fresh_path(f, vs),
    ensures
        votes_at(f, p) == if seq_prefix(p, vs) {
            1int
        } else {
            0int
        },
    decreases p.len(),
{
    if p.len() == 0 {
    } else {
        if vs.len() == 0 {
            assert(!f.has_child(p[0]));
        } else {
            if p[0] == vs[0] {
                assert(f.has_child(p[0])) by {
                    assert(f.children@[0].0 == vs[0]);
                }
                assert(f.child_index(p[0]) == 0);
                lemma_fresh_path_votes_at(f.children@[0].1, vs.drop_first(), p.drop_first());
            } else {
                assert(!f.has_child(p[0])) by {
                    if f.has_child(p[0]) {
                        let i = choose|i: int|
                            0 <= i < f.children@.len() && (#[trigger] f.children@[i]).0 == p[0];
                        assert(i == 0);
                    }
                }
            }
        }
    }
}

/// Law: inserting one ballot raises the count on every prefix of its value
/// sequence by exactly one and changes no other path's count.
pub proof fn lemma_insert_votes_at(o: TrieNode, vs: Seq<VoteValues>, n: TrieNode, p: Seq<VoteValues>)
    requires
        o.wf(),
        is_insert(o, vs, n),
    ensures
        votes_at(n, p) == votes_at(o, p) + if seq_prefix(p, vs) {
            1int
        } else {
            0int
        },
    decreases p.len(),
{
    lemma_insert_wf(o, vs, n);
    if p.len() == 0 {
    } else {
        let p0 = p[0];
        if vs.len() == 0 {
            assert(n.children@ == o.children@);
            assert(!seq_prefix(p, vs));
            if o.has_child(p0) {
                assert(n.has_child(p0) && n.spec_child(p0) == o.spec_child(p0));
            } else {
                assert(!n.has_child(p0));
            }
        } else {
            let k = vs[0];
            if o.has_child(k) {
                let i = o.child_index(k);
                o.lemma_child_index_of(i);
                assert(n.children@[i].0 == k);
                n.lemma_child_index_of(i);
                if p0 == k {
                    lemma_insert_votes_at(
                        o.children@[i].1,
                        vs.drop_first(),
                        n.children@[i].1,
                        p.drop_first(),
                    );
                } else {
                    if o.has_child(p0) {
                        let ip = o.child_index(p0);
                        o.lemma_child_index_of(ip);
                        assert(ip != i);
                        assert(n.children@[ip] == o.children@[ip]);
                        n.lemma_child_index_of(ip);
                    } else {
                        assert(!n.has_child(p0)) by {
                            if n.has_child(p0) {
                                let ip = n.child_index(p0);
                                assert(n.children@[ip].0 == p0);
                                assert(o.children@[ip].0 == p0);
                            }
                        }
                    }
                }
            } else {
                let last = o.children@.len() as int;
                assert(n.children@[last].0 == k);
                n.lemma_child_index_of(last);
                if p0 == k {
                    assert(!o.has_child(p0));
                    assert(votes_at(o, p) == 0);
                    lemma_fresh_path_votes_at(n.children@[last].1, vs.drop_first(), p.drop_first());
                } else {
                    if o.has_child(p0) {
                        let ip = o.child_index(p0);
                        o.lemma_child_index_of(ip);
                        assert(n.children@[ip] == o.children@[ip]);
                        n.lemma_child_index_of(ip);
                    } else {
                        assert(!n.has_child(p0)) by {
                            if n.has_child(p0) {
                                let ip = n.child_index(p0);
                                assert(n.children@[ip].0 == p0);
                                if ip < last {
                                    assert(o.children@[ip].0 == p0);
                                } else {
                                    assert(n.children@[ip].0 == k);
                                }
                            }
                        }
                    }
                }
            }
        }
    }
}

} // verus!

