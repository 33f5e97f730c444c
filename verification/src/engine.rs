//! The tally engine: a ballot trie together with Dowdall scores, the set of
//! candidates seen so far, and the configured elimination strategy.

use vstd::prelude::*;

use crate::counts::entry_keys;
use crate::counts::entry_val;
use crate::counts::find_entry;
use crate::counts::lemma_entry_index_of;
use crate::counts::lemma_entry_push;
use crate::counts::lemma_entry_update;
use crate::trie::is_fresh_path;
use crate::trie::is_insert;
use crate::trie::insert_values;
use crate::trie::lemma_fresh_path_wf;
use crate::trie::lemma_sum_push;
use crate::trie::lemma_sum_update;
use crate::trie::sum_child_votes;
use crate::trie::TrieNode;
use crate::vote::RankedVote;
use crate::vote::VoteValues;

verus! {

/// Denominator of the fixed-point Dowdall scores: the least common multiple
/// of 1 through 16, so that `1/(r+1)` is represented exactly for every rank
/// up to 15 and rounded down beyond.
pub const DOWDALL_SCALE: u64 = 720720;

/// Cap on the number of ballots one engine accepts; keeps every vote counter
/// and every fixed-point score within 64 bits.
pub const MAX_TOTAL_VOTES: u64 = 0x800_0000_0000;

/// How the candidates to eliminate are chosen each round among those with
/// the fewest votes.
#[derive(Copy, Clone, PartialEq, Eq, Structural)]
pub enum EliminationStrategies {
    /// Remove every candidate with the fewest votes.
    EliminateAll,
    /// Among those with the fewest votes, remove the ones with the lowest
    /// Dowdall score.
    DowdallScoring,
    /// Among those with the fewest votes, remove the ones that lose every
    /// head-to-head comparison, when the preference graph is decisive.
    RankedPairs,
    /// Compare the candidates at or below the second-lowest vote count
    /// head-to-head and remove the losers, when the graph is decisive.
    CondorcetRankedPairs,
}

/// The ranked-choice tally engine.
pub struct RankedChoiceVoteTrie {
    pub root: TrieNode,
    pub dowdall_score_map: Vec<(u16, u64)>,
    pub elimination_strategy: EliminationStrategies,
    pub unique_candidates: Vec<u16>,
}

/// The fixed-point Dowdall credit for an appearance at 0-based rank `r`.
pub open spec fn dowdall_unit(r: int) -> int {
    DOWDALL_SCALE as int / (r + 1)
}

/// The fixed-point Dowdall score one ballot with values `values` gives
/// candidate `c`.
pub open spec fn ballot_contrib(values: Seq<VoteValues>, c: u16) -> int
    decreases values.len(),
{
    if values.len() == 0 {
        0
    } else {
        ballot_contrib(values.drop_last(), c) + if values.last() == VoteValues::Candidate(c) {
            dowdall_unit(values.len() - 1)
        } else {
            0
        }
    }
}

/// `uniq` with every candidate of `values` not yet present appended, in rank
/// order.
pub open spec fn with_new_cands(uniq: Seq<u16>, values: Seq<VoteValues>) -> Seq<u16>
    decreases values.len(),
{
    if values.len() == 0 {
        uniq
    } else {
        let u1 = with_new_cands(uniq, values.drop_last());
        match values.last() {
            VoteValues::Candidate(c) => if u1.contains(c) {
                u1
            } else {
                u1.push(c)
            },
            VoteValues::SpecialVote(_) => u1,
        }
    }
}

/// No candidate of `seen` keys an edge anywhere below `n`, and no candidate
/// keys two edges on one path. Holds of every trie built from well-formed
/// ballots, which never rank a candidate twice.
pub open spec fn trie_fresh(n: TrieNode, seen: Seq<u16>) -> bool
    decreases n,
{
    forall|i: int|
        0 <= i < n.children@.len() ==> ((#[trigger] n.children@[i]).0 matches
        VoteValues::Candidate(c) ==> !seen.contains(c) && trie_fresh(
            n.children@[i].1,
            seen.push(c),
        ))
}

proof fn lemma_fresh_path_fresh(f: TrieNode, vs: Seq<VoteValues>, seen: Seq<u16>)
    requires
        is_fresh_path(f, vs),
        vs.no_duplicates(),
        forall|j: int|
            0 <= j < vs.len() ==> ((#[trigger] vs[j]) matches VoteValues::Candidate(c)
                ==> !seen.contains(c)),
    ensures
        trie_fresh(f, seen),
    decreases vs.len(),
{
    if vs.len() == 0 {
    } else {
        match vs[0] {
            VoteValues::Candidate(c) => {
                assert(vs.drop_first().no_duplicates()) by {
                    assert forall|a: int, b: int|
                        0 <= a < b < vs.drop_first().len() implies vs.drop_first()[a]
                        != vs.drop_first()[b] by {
                        assert(vs[a + 1] == vs.drop_first()[a] && vs[b + 1] == vs.drop_first()[b]);
                    }
                }
                assert forall|j: int|
                    0 <= j < vs.drop_first().len() implies ((#[trigger] vs.drop_first()[j]) matches
                    VoteValues::Candidate(c2) ==> !seen.push(c).contains(c2)) by {
                    assert(vs.drop_first()[j] == vs[j + 1]);
                    match vs[j + 1] {
                        VoteValues::Candidate(c2) => {
                            assert(vs[j + 1] != vs[0]);
                            assert(c2 != c);
                            assert(!seen.contains(c2));
                            if seen.push(c).contains(c2) {
                                let q = choose|q: int|
                                    0 <= q < seen.push(c).len() && seen.push(c)[q] == c2;
                                assert(q < seen.len());
                                assert(seen[q] == c2);
                            }
                        },
                        VoteValues::SpecialVote(_) => {},
                    }
                }
                lemma_fresh_path_fresh(f.children@[0].1, vs.drop_first(), seen.push(c));
                assert forall|i: int|
                    0 <= i < f.children@.len() implies ((#[trigger] f.children@[i]).0 matches
                    VoteValues::Candidate(c2) ==> !seen.contains(c2) && trie_fresh(
                        f.children@[i].1,
                        seen.push(c2),
                    )) by {
                    assert(i == 0);
                    assert(f.children@[0].0 == vs[0]);
                }
            },
            VoteValues::SpecialVote(_) => {
                assert forall|i: int|
                    0 <= i < f.children@.len() implies ((#[trigger] f.children@[i]).0 matches
                    VoteValues::Candidate(c2) ==> !seen.contains(c2) && trie_fresh(
                        f.children@[i].1,
                        seen.push(c2),
                    )) by {
                    assert(i == 0);
                    assert(f.children@[0].0 == vs[0]);
                }
            },
        }
    }
}

/// Inserting a ballot that ranks no candidate twice and none of `seen`
/// keeps the trie free of repeated candidates along its paths.
pub proof fn lemma_insert_fresh(o: TrieNode, vs: Seq<VoteValues>, n: TrieNode, seen: Seq<u16>)
    requires
        is_insert(o, vs, n),
        trie_fresh(o, seen),
        vs.no_duplicates(),
        forall|j: int|
            0 <= j < vs.len() ==> ((#[trigger] vs[j]) matches VoteValues::Candidate(c)
                ==> !seen.contains(c)),
    ensures
        trie_fresh(n, seen),
    decreases vs.len(),
{
    if vs.len() == 0 {
        assert forall|i: int|
            0 <= i < n.children@.len() implies ((#[trigger] n.children@[i]).0 matches
            VoteValues::Candidate(c) ==> !seen.contains(c) && trie_fresh(
                n.children@[i].1,
                seen.push(c),
            )) by {
            assert(n.children@[i] == o.children@[i]);
        }
    } else {
        let k = vs[0];
        assert(vs.drop_first().no_duplicates()) by {
            assert forall|a: int, b: int|
                0 <= a < b < vs.drop_first().len() implies vs.drop_first()[a]
                != vs.drop_first()[b] by {
                assert(vs[a + 1] == vs.drop_first()[a] && vs[b + 1] == vs.drop_first()[b]);
            }
        }
        if o.has_child(k) {
            let i0 = o.child_index(k);
            match k {
                VoteValues::Candidate(c) => {
                    assert(vs[0] == k);
                    assert forall|j: int|
                        0 <= j < vs.drop_first().len() implies ((
                        #[trigger] vs.drop_first()[j]) matches VoteValues::Candidate(c2)
                            ==> !seen.push(c).contains(c2)) by {
                        assert(vs.drop_first()[j] == vs[j + 1]);
                        match vs[j + 1] {
                            VoteValues::Candidate(c2) => {
                                assert(vs[j + 1] != vs[0]);
                                assert(!seen.contains(c2));
                                if seen.push(c).contains(c2) {
                                    let q = choose|q: int|
                                        0 <= q < seen.push(c).len() && seen.push(c)[q] == c2;
                                    assert(q < seen.len());
                                    assert(seen[q] == c2);
                                }
                            },
                            VoteValues::SpecialVote(_) => {},
                        }
                    }
                    assert(o.children@[i0].0 == k);
                    assert(trie_fresh(o.children@[i0].1, seen.push(c)));
                    lemma_insert_fresh(
                        o.children@[i0].1,
                        vs.drop_first(),
                        n.children@[i0].1,
                        seen.push(c),
                    );
                },
                VoteValues::SpecialVote(_) => {},
            }
            assert forall|i: int|
                0 <= i < n.children@.len() implies ((#[trigger] n.children@[i]).0 matches
                VoteValues::Candidate(c) ==> !seen.contains(c) && trie_fresh(
                    n.children@[i].1,
                    seen.push(c),
                )) by {
                if i != i0 {
                    assert(n.children@[i] == o.children@[i]);
                } else {
                    assert(n.children@[i].0 == k);
                }
            }
        } else {
            match k {
                VoteValues::Candidate(c) => {
                    assert forall|j: int|
                        0 <= j < vs.drop_first().len() implies ((
                        #[trigger] vs.drop_first()[j]) matches VoteValues::Candidate(c2)
                            ==> !seen.push(c).contains(c2)) by {
                        assert(vs.drop_first()[j] == vs[j + 1]);
                        match vs[j + 1] {
                            VoteValues::Candidate(c2) => {
                                assert(vs[j + 1] != vs[0]);
                                assert(!seen.contains(c2));
                                if seen.push(c).contains(c2) {
                                    let q = choose|q: int|
                                        0 <= q < seen.push(c).len() && seen.push(c)[q] == c2;
                                    assert(q < seen.len());
                                    assert(seen[q] == c2);
                                }
                            },
                            VoteValues::SpecialVote(_) => {},
                        }
                    }
                    lemma_fresh_path_fresh(n.children@.last().1, vs.drop_first(), seen.push(c));
                },
                VoteValues::SpecialVote(_) => {},
            }
            assert forall|i: int|
                0 <= i < n.children@.len() implies ((#[trigger] n.children@[i]).0 matches
                VoteValues::Candidate(c) ==> !seen.contains(c) && trie_fresh(
                    n.children@[i].1,
                    seen.push(c),
                )) by {
                if i < o.children@.len() {
                    assert(n.children@[i] == o.children@[i]);
                } else {
                    assert(n.children@[i] == n.children@.last());
                    assert(n.children@.last().0 == k);
                }
            }
        }
    }
}

/// Every candidate keying an edge of the trie is a member of `uniq`.
pub open spec fn trie_cands_in(n: TrieNode, uniq: Seq<u16>) -> bool
    decreases n,
{
    forall|i: int|
        0 <= i < n.children@.len() ==> (((#[trigger] n.children@[i]).0 matches
        VoteValues::Candidate(c) ==> uniq.contains(c)) && trie_cands_in(n.children@[i].1, uniq))
}

impl RankedChoiceVoteTrie {
    /// The engine's invariant: the trie is well formed, every node below the
    /// root counts at least one ballot, no ballot stops at the root, the
    /// score table is keyed exactly by the unique candidates, every candidate
    /// in the trie has been recorded, and all scores are bounded by the
    /// ballot count.
    pub open spec fn wf(self) -> bool {
        &&& self.root.wf()
        &&& self.root.nodes_positive()
        &&& sum_child_votes(self.root.children@) == self.root.num_votes
        &&& trie_fresh(self.root, Seq::empty())
        &&& entry_keys(self.dowdall_score_map@) == self.unique_candidates@
        &&& self.unique_candidates@.no_duplicates()
        &&& trie_cands_in(self.root, self.unique_candidates@)
        &&& forall|i: int|
            0 <= i < self.dowdall_score_map@.len() ==> (#[trigger] self.dowdall_score_map@[i]).1
                <= DOWDALL_SCALE as int * self.root.num_votes as int
    }

    /// The score recorded for candidate `c`, zero when unseen.
    pub open spec fn score_of(self, c: u16) -> int {
        entry_val(self.dowdall_score_map@, c)
    }
}

/// How one inserted ballot changes the engine: the trie gains the ballot's
/// path, new candidates join the unique list in rank order, every candidate's
/// score grows by the ballot's contribution, and the strategy is unchanged.
pub open spec fn is_engine_insert(
    pre: RankedChoiceVoteTrie,
    vote: RankedVote,
    post: RankedChoiceVoteTrie,
) -> bool {
    &&& is_insert(pre.root, vote.spec_values(), post.root)
    &&& post.elimination_strategy == pre.elimination_strategy
    &&& post.unique_candidates@ == with_new_cands(pre.unique_candidates@, vote.spec_values())
    &&& forall|c: u16|
        post.score_of(c) == pre.score_of(c) + ballot_contrib(vote.spec_values(), c)
}

/// How a sequence of inserted ballots changes the engine, one at a time in
/// order.
pub open spec fn is_engine_insert_seq(
    pre: RankedChoiceVoteTrie,
    votes: Seq<RankedVote>,
    post: RankedChoiceVoteTrie,
) -> bool
    decreases votes.len(),
{
    if votes.len() == 0 {
        post == pre
    } else {
        exists|mid: RankedChoiceVoteTrie|
            is_engine_insert_seq(pre, votes.drop_last(), mid) && is_engine_insert(
                mid,
                votes.last(),
                post,
            )
    }
}

pub proof fn lemma_engine_insert_seq_snoc(
    pre: RankedChoiceVoteTrie,
    votes: Seq<RankedVote>,
    mid: RankedChoiceVoteTrie,
    v: RankedVote,
    post: RankedChoiceVoteTrie,
)
    requires
        is_engine_insert_seq(pre, votes, mid),
        is_engine_insert(mid, v, post),
    ensures
        is_engine_insert_seq(pre, votes.push(v), post),
{
    assert(votes.push(v).drop_last() =~= votes);
    assert(votes.push(v).last() == v);
    assert(is_engine_insert_seq(pre, votes.push(v).drop_last(), mid) && is_engine_insert(
        mid,
        votes.push(v).last(),
        post,
    ));
}

/// Inserting a ballot keeps every sub-root's counter positive.
pub proof fn lemma_insert_positive(o: TrieNode, vs: Seq<VoteValues>, n: TrieNode)
    requires
        o.nodes_positive(),
        is_insert(o, vs, n),
    ensures
        n.nodes_positive(),
    decreases vs.len(),
{
    if vs.len() == 0 {
        assert forall|i: int| 0 <= i < n.children@.len() implies (
        #[trigger] n.children@[i]).1.num_votes >= 1 && n.children@[i].1.nodes_positive() by {
            assert(n.children@[i] == o.children@[i]);
        }
    } else {
        let k = vs[0];
        if o.has_child(k) {
            let i = o.child_index(k);
            lemma_insert_positive(o.children@[i].1, vs.drop_first(), n.children@[i].1);
            assert forall|j: int| 0 <= j < n.children@.len() implies (
            #[trigger] n.children@[j]).1.num_votes >= 1 && n.children@[j].1.nodes_positive() by {
                if j != i {
                    assert(n.children@[j] == o.children@[j]);
                }
            }
        } else {
            lemma_fresh_path_wf(n.children@.last().1, vs.drop_first());
            assert forall|j: int| 0 <= j < n.children@.len() implies (
            #[trigger] n.children@[j]).1.num_votes >= 1 && n.children@[j].1.nodes_positive() by {
                if j < o.children@.len() {
                    assert(n.children@[j] == o.children@[j]);
                } else {
                    assert(n.children@[j] == n.children@.last());
                }
            }
        }
    }
}

/// Inserting a non-empty ballot raises the root's child total by one.
pub proof fn lemma_insert_root_sum(o: TrieNode, vs: Seq<VoteValues>, n: TrieNode)
    requires
        o.child_keys().no_duplicates(),
        is_insert(o, vs, n),
        vs.len() >= 1,
    ensures
        sum_child_votes(n.children@) == sum_child_votes(o.children@) + 1,
{
    let k = vs[0];
    if o.has_child(k) {
        let i = o.child_index(k);
        assert(is_insert(o.children@[i].1, vs.drop_first(), n.children@[i].1));
        assert(n.children@ =~= o.children@.update(i, (k, n.children@[i].1)));
        lemma_sum_update(o.children@, i, (k, n.children@[i].1));
    } else {
        assert(is_fresh_path(n.children@.last().1, vs.drop_first()));
        assert(n.children@ =~= o.children@.push(n.children@.last()));
        lemma_sum_push(o.children@, n.children@.last());
    }
}

/// A larger candidate list still covers the trie.
pub proof fn lemma_trie_cands_mono(n: TrieNode, u1: Seq<u16>, u2: Seq<u16>)
    requires
        trie_cands_in(n, u1),
        forall|c: u16| u1.contains(c) ==> u2.contains(c),
    ensures
        trie_cands_in(n, u2),
    decreases n,
{
    assert forall|i: int| 0 <= i < n.children@.len() implies (((#[trigger] n.children@[i]).0
        matches VoteValues::Candidate(c) ==> u2.contains(c)) && trie_cands_in(
        n.children@[i].1,
        u2,
    )) by {
        lemma_trie_cands_mono(n.children@[i].1, u1, u2);
    }
}

proof fn lemma_fresh_path_cands(n: TrieNode, vs: Seq<VoteValues>, uniq: Seq<u16>)
    requires
        is_fresh_path(n, vs),
        forall|j: int|
            0 <= j < vs.len() ==> ((#[trigger] vs[j]) matches VoteValues::Candidate(c)
                ==> uniq.contains(c)),
    ensures
        trie_cands_in(n, uniq),
    decreases vs.len(),
{
    if vs.len() == 0 {
    } else {
        assert(vs[0] == vs[0]);
        assert forall|j: int|
            0 <= j < vs.drop_first().len() implies ((#[trigger] vs.drop_first()[j]) matches
            VoteValues::Candidate(c) ==> uniq.contains(c)) by {
            assert(vs.drop_first()[j] == vs[j + 1]);
        }
        lemma_fresh_path_cands(n.children@[0].1, vs.drop_first(), uniq);
        assert forall|i: int| 0 <= i < n.children@.len() implies (((#[trigger] n.children@[i]).0
            matches VoteValues::Candidate(c) ==> uniq.contains(c)) && trie_cands_in(
            n.children@[i].1,
            uniq,
        )) by {
            assert(i == 0);
            assert(n.children@[0].0 == vs[0]);
        }
    }
}

/// After inserting a ballot whose candidates are all in `uniq`, the trie's
/// candidates are still all in `uniq`.
pub proof fn lemma_insert_cands(o: TrieNode, vs: Seq<VoteValues>, n: TrieNode, uniq: Seq<u16>)
    requires
        is_insert(o, vs, n),
        trie_cands_in(o, uniq),
        forall|j: int|
            0 <= j < vs.len() ==> ((#[trigger] vs[j]) matches VoteValues::Candidate(c)
                ==> uniq.contains(c)),
    ensures
        trie_cands_in(n, uniq),
    decreases vs.len(),
{
    if vs.len() == 0 {
        assert forall|i: int| 0 <= i < n.children@.len() implies (((#[trigger] n.children@[i]).0
            matches VoteValues::Candidate(c) ==> uniq.contains(c)) && trie_cands_in(
            n.children@[i].1,
            uniq,
        )) by {
            assert(n.children@[i] == o.children@[i]);
        }
    } else {
        let k = vs[0];
        assert forall|j: int|
            0 <= j < vs.drop_first().len() implies ((#[trigger] vs.drop_first()[j]) matches
            VoteValues::Candidate(c) ==> uniq.contains(c)) by {
            assert(vs.drop_first()[j] == vs[j + 1]);
        }
        if o.has_child(k) {
            let i = o.child_index(k);
            lemma_insert_cands(o.children@[i].1, vs.drop_first(), n.children@[i].1, uniq);
            assert forall|j: int| 0 <= j < n.children@.len() implies (((
            #[trigger] n.children@[j]).0 matches VoteValues::Candidate(c) ==> uniq.contains(c))
                && trie_cands_in(n.children@[j].1, uniq)) by {
                if j != i {
                    assert(n.children@[j] == o.children@[j]);
                } else {
                    assert(n.children@[j].0 == k && vs[0] == k);
                }
            }
        } else {
            lemma_fresh_path_cands(n.children@.last().1, vs.drop_first(), uniq);
            assert forall|j: int| 0 <= j < n.children@.len() implies (((
            #[trigger] n.children@[j]).0 matches VoteValues::Candidate(c) ==> uniq.contains(c))
                && trie_cands_in(n.children@[j].1, uniq)) by {
                if j < o.children@.len() {
                    assert(n.children@[j] == o.children@[j]);
                } else {
                    assert(n.children@[j] == n.children@.last());
                    assert(vs[0] == vs[0]);
                }
            }
        }
    }
}

/// A ballot without `c` gives `c` no score.
proof fn lemma_contrib_zero(values: Seq<VoteValues>, c: u16)
    requires
        !values.contains(VoteValues::Candidate(c)),
    ensures
        ballot_contrib(values, c) == 0,
    decreases values.len(),
{
    if values.len() > 0 {
        assert forall|j: int| 0 <= j < values.drop_last().len() implies values.drop_last()[j]
            != VoteValues::Candidate(c) by {
            assert(values[j] == values.drop_last()[j]);
        }
        lemma_contrib_zero(values.drop_last(), c);
        assert(values.last() == values[values.len() - 1]);
    }
}

/// One ballot credits each candidate with at most one fixed-point unit.
pub proof fn lemma_contrib_bounds(values: Seq<VoteValues>, c: u16)
    requires
        values.no_duplicates(),
    ensures
        0 <= ballot_contrib(values, c) <= DOWDALL_SCALE,
    decreases values.len(),
{
    if values.len() > 0 {
        let rest = values.drop_last();
        assert(rest.no_duplicates()) by {
            assert forall|a: int, b: int| 0 <= a < b < rest.len() implies rest[a] != rest[b] by {
                assert(values[a] == rest[a] && values[b] == rest[b]);
            }
        }
        let d = values.len() as int;
        assert(0 <= DOWDALL_SCALE as int / d <= DOWDALL_SCALE as int) by (nonlinear_arith)
            requires
                d >= 1,
        ;
        if values.last() == VoteValues::Candidate(c) {
            assert forall|j: int| 0 <= j < rest.len() implies rest[j] != VoteValues::Candidate(
                c,
            ) by {
                assert(values[j] == rest[j] && values[j] != values[values.len() - 1]);
            }
            lemma_contrib_zero(rest, c);
        } else {
            lemma_contrib_bounds(rest, c);
        }
    }
}

/// What `with_new_cands` keeps and adds: all old members, all ranked
/// candidates, nothing else, and no duplicates.
pub proof fn lemma_with_new_cands(uniq: Seq<u16>, values: Seq<VoteValues>)
    ensures
        ({
            let r = with_new_cands(uniq, values);
            &&& forall|c: u16| uniq.contains(c) ==> r.contains(c)
            &&& forall|j: int|
                0 <= j < values.len() ==> ((#[trigger] values[j]) matches VoteValues::Candidate(c)
                    ==> r.contains(c))
            &&& (uniq.no_duplicates() ==> r.no_duplicates())
            &&& forall|c: u16|
                r.contains(c) ==> uniq.contains(c) || values.contains(VoteValues::Candidate(c))
        }),
    decreases values.len(),
{
    let r = with_new_cands(uniq, values);
    if values.len() == 0 {
    } else {
        let u1 = with_new_cands(uniq, values.drop_last());
        lemma_with_new_cands(uniq, values.drop_last());
        assert(forall|c: u16| u1.contains(c) ==> #[trigger] r.contains(c)) by {
            assert forall|c: u16| u1.contains(c) implies #[trigger] r.contains(c) by {
                if r != u1 {
                    let j = choose|j: int| 0 <= j < u1.len() && u1[j] == c;
                    assert(r[j] == c);
                }
            }
        }
        assert forall|j: int|
            0 <= j < values.len() implies ((#[trigger] values[j]) matches VoteValues::Candidate(c)
            ==> r.contains(c)) by {
            if j < values.len() - 1 {
                assert(values.drop_last()[j] == values[j]);
            } else {
                match values.last() {
                    VoteValues::Candidate(c) => {
                        if u1.contains(c) {
                        } else {
                            assert(r.last() == c);
                        }
                    },
                    VoteValues::SpecialVote(_) => {},
                }
            }
        }
        if uniq.no_duplicates() {
            assert(r.no_duplicates()) by {
                match values.last() {
                    VoteValues::Candidate(c) => {
                        if !u1.contains(c) {
                            assert forall|a: int, b: int| 0 <= a < b < r.len() implies r[a]
                                != r[b] by {
                                if b < r.len() - 1 {
                                    assert(r[a] == u1[a] && r[b] == u1[b]);
                                } else {
                                    assert(r[a] == u1[a]);
                                    assert(u1.contains(u1[a]));
                                }
                            }
                        }
                    },
                    VoteValues::SpecialVote(_) => {},
                }
            }
        }
        assert forall|c: u16| r.contains(c) implies uniq.contains(c) || values.contains(
            VoteValues::Candidate(c),
        ) by {
            let j = choose|j: int| 0 <= j < r.len() && r[j] == c;
            if j < u1.len() {
                assert(u1[j] == c);
                assert(u1.contains(c));
                if !uniq.contains(c) {
                    assert(values.drop_last().contains(VoteValues::Candidate(c)));
                    let m = choose|m: int|
                        0 <= m < values.drop_last().len() && values.drop_last()[m]
                            == VoteValues::Candidate(c);
                    assert(values[m] == VoteValues::Candidate(c));
                }
            } else {
                assert(values.last() == VoteValues::Candidate(c));
            }
        }
    }
}

/// Whether `v` holds `x`.
fn vec_contains_u16(v: &Vec<u16>, x: u16) -> (r: bool)
    ensures
        r == v@.contains(x),
{
    let n = v.len();
    let mut i: usize = 0;
    while i < n
        invariant
            0 <= i <= n == v@.len(),
            forall|j: int| 0 <= j < i ==> v@[j] != x,
        decreases n - i,
    {
        if v[i] == x {
            return true;
        }
        i = i + 1;
    }
    false
}

/// The node reached from `n` along `values`, if every step has a child.
pub open spec fn spec_descend(n: TrieNode, values: Seq<VoteValues>) -> Option<TrieNode>
    decreases values.len(),
{
    if values.len() == 0 {
        Some(n)
    } else if n.has_child(values[0]) {
        spec_descend(n.spec_child(values[0]), values.drop_first())
    } else {
        None
    }
}

pub proof fn lemma_descend_snoc(n: TrieNode, s: Seq<VoteValues>, v: VoteValues)
    ensures
        spec_descend(n, s.push(v)) == (match spec_descend(n, s) {
            Some(m) => if m.has_child(v) {
                Some(m.spec_child(v))
            } else {
                None
            },
            None => None::<TrieNode>,
        }),
    decreases s.len(),
{
    if s.len() == 0 {
        assert(s.push(v).drop_first() =~= Seq::<VoteValues>::empty());
        assert(s.push(v)[0] == v);
        assert(spec_descend(n, s) == Some(n));
        if n.has_child(v) {
            assert(spec_descend(n.spec_child(v), s.push(v).drop_first()) == Some(
                n.spec_child(v),
            ));
        }
    } else {
        assert(s.push(v)[0] == s[0]);
        assert(s.push(v).drop_first() =~= s.drop_first().push(v));
        if n.has_child(s[0]) {
            lemma_descend_snoc(n.spec_child(s[0]), s.drop_first(), v);
        }
    }
}

impl RankedChoiceVoteTrie {
    /// A fresh engine with no ballots and the default strategy, Dowdall
    /// scoring.
    pub fn new() -> (r: RankedChoiceVoteTrie)
        ensures
            r.wf(),
            r.root.num_votes == 0,
            r.root.children@.len() == 0,
            r.dowdall_score_map@.len() == 0,
            r.unique_candidates@.len() == 0,
            r.elimination_strategy == EliminationStrategies::DowdallScoring,
    {
        let r = RankedChoiceVoteTrie {
            root: TrieNode::new(),
            dowdall_score_map: Vec::new(),
            elimination_strategy: EliminationStrategies::DowdallScoring,
            unique_candidates: Vec::new(),
        };
        proof {
            assert(entry_keys(r.dowdall_score_map@) =~= r.unique_candidates@);
            assert(sum_child_votes(r.root.children@) == 0);
        }
        r
    }

    /// The number of ballots inserted so far.
    pub fn get_num_votes(&self) -> (r: u64)
        ensures
            r == self.root.num_votes,
    {
        self.root.get_num_votes()
    }

    pub fn set_elimination_strategy(&mut self, strategy: EliminationStrategies)
        ensures
            final(self).elimination_strategy == strategy,
            final(self).root == old(self).root,
            final(self).dowdall_score_map == old(self).dowdall_score_map,
            final(self).unique_candidates == old(self).unique_candidates,
            old(self).wf() ==> final(self).wf(),
    {
        self.elimination_strategy = strategy;
    }

    /// Insert one ballot: walk its values down the trie bumping counters,
    /// credit each ranked candidate's Dowdall score, and record candidates
    /// not seen before.
    pub fn insert_vote(&mut self, vote: RankedVote)
        requires
            old(self).wf(),
            vote.wf(),
            old(self).root.num_votes < MAX_TOTAL_VOTES,
        ensures
            final(self).wf(),
            is_engine_insert(*old(self), vote, *final(self)),
            final(self).root.num_votes == old(self).root.num_votes + 1,
    {
        let ghost pre = *old(self);
        let ghost values = vote.spec_values();
        proof {
            crate::vote::lemma_no_dup_u16_len(vote.rankings@);
        }
        insert_values(&mut self.root, &vote, 0);
        proof {
            assert(values.skip(0) =~= values);
            assert(values.len() >= 1);
            lemma_insert_positive(pre.root, values, self.root);
            lemma_insert_root_sum(pre.root, values, self.root);
        }
        let ghost newroot = self.root;
        let rlen = vote.rankings.len();
        let mut pos: usize = 0;
        while pos < rlen
            invariant
                0 <= pos <= rlen == vote.rankings@.len(),
                rlen <= 0x10000,
                vote.wf(),
                values == vote.spec_values(),
                self.root == newroot,
                newroot.num_votes == pre.root.num_votes + 1,
                pre.root.num_votes < MAX_TOTAL_VOTES,
                self.elimination_strategy == pre.elimination_strategy,
                entry_keys(pre.dowdall_score_map@) == pre.unique_candidates@,
                pre.unique_candidates@.no_duplicates(),
                entry_keys(self.dowdall_score_map@) == self.unique_candidates@,
                self.unique_candidates@.no_duplicates(),
                self.unique_candidates@ == with_new_cands(pre.unique_candidates@, values.take(pos as int)),
                forall|c: u16|
                    #[trigger] entry_val(self.dowdall_score_map@, c) == entry_val(
                        pre.dowdall_score_map@,
                        c,
                    ) + ballot_contrib(values.take(pos as int), c),
                forall|i: int|
                    0 <= i < pre.dowdall_score_map@.len() ==> (
                    #[trigger] pre.dowdall_score_map@[i]).1 <= DOWDALL_SCALE as int
                        * pre.root.num_votes as int,
                forall|i: int|
                    0 <= i < self.dowdall_score_map@.len() ==> (
                    #[trigger] self.dowdall_score_map@[i]).1 <= DOWDALL_SCALE as int
                        * newroot.num_votes as int,
            decreases rlen - pos,
        {
            let ghost prefix = values.take(pos as int);
            let ghost prefix1 = values.take(pos as int + 1);
            let c = vote.rankings[pos];
            proof {
                assert(values[pos as int] == VoteValues::Candidate(c));
                assert(prefix1.drop_last() =~= prefix);
                assert(prefix1.last() == values[pos as int]);
                assert(DOWDALL_SCALE as int / (pos as int + 1) <= DOWDALL_SCALE as int
                    && DOWDALL_SCALE as int / (pos as int + 1) >= 0) by (nonlinear_arith);
                assert(prefix.no_duplicates()) by {
                    assert(values.no_duplicates()) by {
                        lemma_values_no_dup(vote);
                    }
                    assert forall|a: int, b: int| 0 <= a < b < prefix.len() implies prefix[a]
                        != prefix[b] by {
                        assert(values[a] == prefix[a] && values[b] == prefix[b]);
                    }
                }
                lemma_contrib_bounds(prefix, c);
            }
            let ghost uq0 = self.unique_candidates@;
            let ghost dow = self.dowdall_score_map@;
            proof {
                assert(ballot_contrib(prefix, c) == 0) by {
                    if prefix.contains(VoteValues::Candidate(c)) {
                        let j = choose|j: int|
                            0 <= j < prefix.len() && prefix[j] == VoteValues::Candidate(c);
                        assert(values[j] == VoteValues::Candidate(vote.rankings@[j]));
                        assert(vote.rankings@[j] == c && vote.rankings@[pos as int] == c);
                        assert(false);
                    }
                    lemma_contrib_zero(prefix, c);
                }
            }
            let unit = DOWDALL_SCALE / (pos as u64 + 1);
            if !vec_contains_u16(&self.unique_candidates, c) {
                self.unique_candidates.push(c);
            }
            match find_entry(&self.dowdall_score_map, c) {
                Some(i) => {
                    let e = self.dowdall_score_map[i];
                    proof {
                        assert(entry_keys(dow).no_duplicates());
                        lemma_entry_index_of(dow, i as int);
                        assert(e.1 == entry_val(dow, c));
                        assert(e.1 <= DOWDALL_SCALE as int * newroot.num_votes as int);
                        assert(e.1 as int + unit as int <= DOWDALL_SCALE as int * (
                        newroot.num_votes as int)) by {
                            assert(e.1 == entry_val(pre.dowdall_score_map@, c));
                            if crate::counts::entry_has(pre.dowdall_score_map@, c) {
                                lemma_entry_index_of(
                                    pre.dowdall_score_map@,
                                    crate::counts::entry_index(pre.dowdall_score_map@, c),
                                );
                                assert(e.1 <= DOWDALL_SCALE as int * pre.root.num_votes as int);
                            }
                            assert(DOWDALL_SCALE as int * pre.root.num_votes as int
                                + DOWDALL_SCALE as int == DOWDALL_SCALE as int
                                * newroot.num_votes as int) by (nonlinear_arith)
                                requires
                                    newroot.num_votes == pre.root.num_votes + 1,
                            ;
                        }
                        assert((DOWDALL_SCALE as int * newroot.num_votes as int) < (
                        u64::MAX as int)) by (nonlinear_arith)
                            requires
                                newroot.num_votes <= MAX_TOTAL_VOTES,
                        ;
                        assert(uq0.contains(c)) by {
                            assert(entry_keys(dow)[i as int] == c);
                        }
                        assert(self.unique_candidates@ == uq0);
                    }
                    let bumped = e.1 + unit;
                    self.dowdall_score_map.remove(i);
                    self.dowdall_score_map.insert(i, (e.0, bumped));
                    proof {
                        assert(self.dowdall_score_map@ =~= dow.update(i as int, (e.0, bumped)));
                        lemma_entry_update(dow, i as int, bumped);
                        assert(entry_keys(self.dowdall_score_map@) == uq0);
                        assert(entry_val(self.dowdall_score_map@, c) == entry_val(dow, c)
                            + unit as int);
                        assert(forall|k: u16|
                            k != c ==> entry_val(self.dowdall_score_map@, k) == entry_val(dow, k));
                    }
                },
                None => {
                    proof {
                        assert(!uq0.contains(c)) by {
                            if uq0.contains(c) {
                                let j = choose|j: int| 0 <= j < uq0.len() && uq0[j] == c;
                                assert(entry_keys(dow)[j] == dow[j].0);
                                assert(dow[j].0 == c);
                                assert(crate::counts::entry_has(dow, c));
                                assert(false);
                            }
                        }
                        assert(self.unique_candidates@ == uq0.push(c));
                        assert(entry_val(pre.dowdall_score_map@, c) == 0) by {
                            if crate::counts::entry_has(pre.dowdall_score_map@, c) {
                                let j = crate::counts::entry_index(pre.dowdall_score_map@, c);
                                assert(entry_keys(pre.dowdall_score_map@)[j] == pre.dowdall_score_map@[j].0);
                                assert(pre.unique_candidates@.contains(c));
                                lemma_with_new_cands(pre.unique_candidates@, prefix);
                                assert(with_new_cands(pre.unique_candidates@, prefix).contains(c));
                                assert(uq0.contains(c));
                                assert(false);
                            }
                        }
                        assert(DOWDALL_SCALE as int <= DOWDALL_SCALE as int
                            * newroot.num_votes as int) by (nonlinear_arith)
                            requires
                                newroot.num_votes >= 1,
                        ;
                    }
                    self.dowdall_score_map.push((c, unit));
                    proof {
                        lemma_entry_push(dow, c, unit);
                        assert(entry_keys(self.dowdall_score_map@) == entry_keys(dow).push(c));
                        assert(entry_val(self.dowdall_score_map@, c) == entry_val(dow, c)
                            + unit as int);
                        assert(forall|k: u16|
                            k != c ==> entry_val(self.dowdall_score_map@, k) == entry_val(dow, k));
                    }
                },
            }
            proof {
                let uq = self.unique_candidates@;
                assert(uq == with_new_cands(pre.unique_candidates@, prefix1)) by {
                    assert(prefix1.drop_last() =~= prefix);
                }
                assert forall|c2: u16| #[trigger] entry_val(self.dowdall_score_map@, c2)
                    == entry_val(pre.dowdall_score_map@, c2) + ballot_contrib(prefix1, c2) by {
                    assert(prefix1.drop_last() =~= prefix);
                    assert(entry_val(dow, c2) == entry_val(pre.dowdall_score_map@, c2)
                        + ballot_contrib(prefix, c2));
                    if c2 == c {
                        assert(ballot_contrib(prefix1, c) == ballot_contrib(prefix, c)
                            + dowdall_unit(pos as int));
                        assert(unit as int == dowdall_unit(pos as int));
                    } else {
                        assert(ballot_contrib(prefix1, c2) == ballot_contrib(prefix, c2));
                    }
                }
                assert(entry_keys(self.dowdall_score_map@) == uq);
            }
            pos = pos + 1;
        }
        proof {
            assert(values.take(rlen as int).no_duplicates() || true);
            let prefix = values.take(rlen as int);
            assert(with_new_cands(pre.unique_candidates@, values) == with_new_cands(
                pre.unique_candidates@,
                prefix,
            ) && forall|c: u16|
                ballot_contrib(values, c) == ballot_contrib(prefix, c)) by {
                if values.len() == rlen {
                    assert(prefix =~= values);
                } else {
                    assert(values.len() == rlen + 1);
                    assert(values.drop_last() =~= prefix);
                    assert(values.last() == VoteValues::SpecialVote(
                        vote.special_vote->0,
                    ));
                }
            }
            lemma_with_new_cands(pre.unique_candidates@, values);
            assert forall|j: int|
                0 <= j < values.len() implies ((#[trigger] values[j]) matches
                VoteValues::Candidate(cc) ==> self.unique_candidates@.contains(cc)) by {}
            lemma_trie_cands_mono(pre.root, pre.unique_candidates@, self.unique_candidates@);
            lemma_insert_cands(pre.root, values, self.root, self.unique_candidates@);
            lemma_values_no_dup(vote);
            assert forall|j: int|
                0 <= j < values.len() implies ((#[trigger] values[j]) matches
                VoteValues::Candidate(cc) ==> !Seq::<u16>::empty().contains(cc)) by {}
            lemma_insert_fresh(pre.root, values, self.root, Seq::empty());
            assert(self.wf());
            assert(is_engine_insert(pre, vote, *self));
        }
    }

    /// Insert every ballot of `votes`, in order.
    pub fn insert_votes(&mut self, votes: Vec<RankedVote>)
        requires
            old(self).wf(),
            forall|i: int| 0 <= i < votes@.len() ==> (#[trigger] votes@[i]).wf(),
            old(self).root.num_votes + votes@.len() <= MAX_TOTAL_VOTES,
        ensures
            final(self).wf(),
            is_engine_insert_seq(*old(self), votes@, *final(self)),
            final(self).root.num_votes == old(self).root.num_votes + votes@.len(),
    {
        let ghost pre = *old(self);
        let ghost all = votes@;
        let mut votes = votes;
        let mut i: usize = 0;
        let n = votes.len();
        while i < n
            invariant
                0 <= i <= n == all.len(),
                votes@ =~= all.skip(i as int),
                self.wf(),
                forall|j: int| 0 <= j < all.len() ==> (#[trigger] all[j]).wf(),
                is_engine_insert_seq(pre, all.take(i as int), *self),
                self.root.num_votes == pre.root.num_votes + i,
                pre.root.num_votes + all.len() <= MAX_TOTAL_VOTES,
            decreases n - i,
        {
            let ghost cur = *self;
            let v = votes.remove(0);
            proof {
                assert(all.skip(i as int)[0] == all[i as int]);
                assert(votes@ =~= all.skip(i as int + 1));
            }
            self.insert_vote(v);
            proof {
                lemma_engine_insert_seq_snoc(pre, all.take(i as int), cur, all[i as int], *self);
                assert(all.take(i as int).push(all[i as int]) =~= all.take(i as int + 1));
            }
            i = i + 1;
        }
        proof {
            assert(all.take(n as int) =~= all);
        }
    }

    /// The path of trie nodes a ballot's values select from the root, or
    /// nothing if some prefix is absent from the trie.
    pub fn search_nodes(&self, ranked_vote: RankedVote) -> (r: Option<Vec<&TrieNode>>)
        requires
            self.wf(),
            ranked_vote.wf(),
        ensures
            (r is Some) == (spec_descend(self.root, ranked_vote.spec_values()) is Some),
            r matches Some(nodes) ==> nodes@.len() == ranked_vote.spec_len() + 1 && forall|k: int|
                0 <= k <= ranked_vote.spec_len() ==> spec_descend(
                    self.root,
                    ranked_vote.spec_values().take(k),
                ) == Some(*(#[trigger] nodes@[k])),
    {
        let ghost values = ranked_vote.spec_values();
        let mut current: &TrieNode = &self.root;
        let mut node_path: Vec<&TrieNode> = Vec::new();
        node_path.push(current);
        let len = ranked_vote.len();
        let mut k: usize = 0;
        proof {
            assert(values.take(0) =~= Seq::<VoteValues>::empty());
        }
        while k < len
            invariant
                0 <= k <= len == values.len(),
                values == ranked_vote.spec_values(),
                ranked_vote.wf(),
                self.wf(),
                node_path@.len() == k + 1,
                current.wf(),
                spec_descend(self.root, values.take(k as int)) == Some(*current),
                forall|m: int|
                    0 <= m <= k ==> spec_descend(self.root, values.take(m)) == Some(*(
                    #[trigger] node_path@[m])),
            decreases len - k,
        {
            let value = match ranked_vote.get(k) {
                Ok(v) => v,
                Err(_) => {
                    proof {
                        assert(false);
                    }
                    VoteValues::Candidate(0)
                },
            };
            let child_node = match current.search_child(value) {
                Some(node) => node,
                None => {
                    proof {
                        lemma_descend_snoc(self.root, values.take(k as int), value);
                        assert(values.take(k as int).push(value) =~= values.take(k as int + 1));
                        lemma_descend_absent(self.root, values, k as int + 1);
                    }
                    return None;
                },
            };
            proof {
                lemma_descend_snoc(self.root, values.take(k as int), value);
                assert(values.take(k as int).push(value) =~= values.take(k as int + 1));
            }
            current = child_node;
            node_path.push(current);
            k = k + 1;
        }
        proof {
            assert(values.take(len as int) =~= values);
        }
        Some(node_path)
    }
}

/// Once a prefix of `values` selects no node, the whole of `values` selects
/// none.
pub proof fn lemma_descend_absent(n: TrieNode, values: Seq<VoteValues>, k: int)
    requires
        0 <= k <= values.len(),
        spec_descend(n, values.take(k)) is None,
    ensures
        spec_descend(n, values) is None,
    decreases values.len() - k,
{
    if k == values.len() {
        assert(values.take(k) =~= values);
    } else {
        lemma_descend_snoc(n, values.take(k), values[k]);
        assert(values.take(k).push(values[k]) =~= values.take(k + 1));
        lemma_descend_absent(n, values, k + 1);
    }
}

/// A well-formed ballot's value sequence has no repeated values.
pub proof fn lemma_values_no_dup(vote: RankedVote)
    requires
        vote.wf(),
    ensures
        vote.spec_values().no_duplicates(),
{
    let values = vote.spec_values();
    assert forall|a: int, b: int| 0 <= a < b < values.len() implies values[a] != values[b] by {
        if b < vote.rankings@.len() {
            assert(vote.rankings@[a] != vote.rankings@[b]);
        }
    }
}


impl RankedChoiceVoteTrie {
    /// The lowest Dowdall score held among `cands`.
    pub open spec fn min_score(self, cands: Seq<u16>) -> int
        decreases cands.len(),
    {
        if cands.len() == 0 {
            u64::MAX as int
        } else {
            let rest = self.min_score(cands.drop_last());
            if self.score_of(cands.last()) < rest {
                self.score_of(cands.last())
            } else {
                rest
            }
        }
    }

    /// The members of `cands` scoring exactly `m`, in order.
    pub open spec fn cands_with_score(self, cands: Seq<u16>, m: int) -> Seq<u16>
        decreases cands.len(),
    {
        if cands.len() == 0 {
            Seq::empty()
        } else {
            let rest = self.cands_with_score(cands.drop_last(), m);
            if self.score_of(cands.last()) == m {
                rest.push(cands.last())
            } else {
                rest
            }
        }
    }

    /// Members of `cands_with_score` come from `cands`, without repetition.
    pub proof fn lemma_cands_with_score_members(self, cands: Seq<u16>, m: int)
        ensures
            forall|k: int|
                0 <= k < self.cands_with_score(cands, m).len() ==> cands.contains(
                    #[trigger] self.cands_with_score(cands, m)[k],
                ),
            cands.no_duplicates() ==> self.cands_with_score(cands, m).no_duplicates(),
        decreases cands.len(),
    {
        let r = self.cands_with_score(cands, m);
        if cands.len() > 0 {
            let t = cands.drop_last();
            self.lemma_cands_with_score_members(t, m);
            assert(cands.no_duplicates() ==> t.no_duplicates()) by {
                if cands.no_duplicates() {
                    assert forall|a: int, b: int| 0 <= a < b < t.len() implies t[a] != t[b] by {
                        assert(cands[a] == t[a] && cands[b] == t[b]);
                    }
                }
            }
            assert forall|k: int| 0 <= k < r.len() implies cands.contains(#[trigger] r[k]) by {
                if self.score_of(cands.last()) == m && k == r.len() - 1 {
                    assert(cands[cands.len() - 1] == r[k]);
                } else {
                    assert(r[k] == self.cands_with_score(t, m)[k]);
                    assert(t.contains(r[k]));
                    let j = choose|j: int| 0 <= j < t.len() && t[j] == r[k];
                    assert(cands[j] == r[k]);
                }
            }
            if cands.no_duplicates() {
                assert(r.no_duplicates()) by {
                    if self.score_of(cands.last()) == m {
                        assert forall|a: int, b: int| 0 <= a < b < r.len() implies r[a]
                            != r[b] by {
                            if b == r.len() - 1 {
                                let rt = self.cands_with_score(t, m);
                                assert(r[a] == rt[a]);
                                assert(t.contains(rt[a]));
                                let j = choose|j: int| 0 <= j < t.len() && t[j] == rt[a];
                                assert(cands[j] != cands[cands.len() - 1]);
                            }
                        }
                    }
                }
            }
        }
    }

    /// The recorded score of a known candidate.
    fn get_score(&self, c: u16) -> (r: u64)
        requires
            self.wf(),
            self.unique_candidates@.contains(c),
        ensures
            r == self.score_of(c),
    {
        proof {
            let j = choose|j: int|
                0 <= j < self.unique_candidates@.len() && self.unique_candidates@[j] == c;
            assert(entry_keys(self.dowdall_score_map@)[j] == self.dowdall_score_map@[j].0);
            assert(crate::counts::entry_has(self.dowdall_score_map@, c));
        }
        match find_entry(&self.dowdall_score_map, c) {
            Some(i) => {
                proof {
                    lemma_entry_index_of(self.dowdall_score_map@, i as int);
                }
                self.dowdall_score_map[i].1
            },
            None => {
                proof {
                    assert(false);
                }
                0
            },
        }
    }

    /// Among `candidates`, the ones with the lowest Dowdall score; ties at
    /// the minimum are all returned.
    pub fn find_dowdall_weakest(&self, candidates: Vec<u16>) -> (r: Vec<u16>)
        requires
            self.wf(),
            forall|k: int|
                0 <= k < candidates@.len() ==> self.unique_candidates@.contains(
                    #[trigger] candidates@[k],
                ),
        ensures
            r@ == self.cands_with_score(candidates@, self.min_score(candidates@)),
    {
        let ghost cands = candidates@;
        let n = candidates.len();
        let mut min_score: u64 = u64::MAX;
        let mut i: usize = 0;
        while i < n
            invariant
                0 <= i <= n == cands.len(),
                cands == candidates@,
                self.wf(),
                forall|k: int|
                    0 <= k < cands.len() ==> self.unique_candidates@.contains(
                        #[trigger] cands[k],
                    ),
                min_score == self.min_score(cands.take(i as int)),
            decreases n - i,
        {
            proof {
                assert(cands.take(i as int + 1).drop_last() =~= cands.take(i as int));
                assert(cands.take(i as int + 1).last() == cands[i as int]);
            }
            let score = self.get_score(candidates[i]);
            if score < min_score {
                min_score = score;
            }
            i = i + 1;
        }
        proof {
            assert(cands.take(n as int) =~= cands);
        }
        let mut weakest_candidates: Vec<u16> = Vec::new();
        let mut i: usize = 0;
        proof {
            assert(cands.take(0) =~= Seq::<u16>::empty());
        }
        while i < n
            invariant
                0 <= i <= n == cands.len(),
                cands == candidates@,
                self.wf(),
                forall|k: int|
                    0 <= k < cands.len() ==> self.unique_candidates@.contains(
                        #[trigger] cands[k],
                    ),
                weakest_candidates@ == self.cands_with_score(
                    cands.take(i as int),
                    min_score as int,
                ),
            decreases n - i,
        {
            proof {
                assert(cands.take(i as int + 1).drop_last() =~= cands.take(i as int));
                assert(cands.take(i as int + 1).last() == cands[i as int]);
            }
            let score = self.get_score(candidates[i]);
            if score == min_score {
                weakest_candidates.push(candidates[i]);
            }
            i = i + 1;
        }
        proof {
            assert(cands.take(n as int) =~= cands);
        }
        weakest_candidates
    }
}


/// The sum of `f` over a sequence's members.
pub open spec fn seq_sum<A>(s: Seq<A>, f: spec_fn(A) -> int) -> int
    decreases s.len(),
{
    if s.len() == 0 {
        0
    } else {
        seq_sum(s.drop_last(), f) + f(s.last())
    }
}

pub proof fn lemma_seq_sum_remove<A>(s: Seq<A>, f: spec_fn(A) -> int, i: int)
    requires
        0 <= i < s.len(),
    ensures
        seq_sum(s.remove(i), f) == seq_sum(s, f) - f(s[i]),
    decreases s.len(),
{
    if i == s.len() - 1 {
        assert(s.remove(i) =~= s.drop_last());
    } else {
        assert(s.remove(i).drop_last() =~= s.drop_last().remove(i));
        assert(s.remove(i).last() == s.last());
        lemma_seq_sum_remove(s.drop_last(), f, i);
    }
}

/// Sums of `f` agree on sequences holding the same members the same number
/// of times.
pub proof fn lemma_seq_sum_permutation<A>(s1: Seq<A>, s2: Seq<A>, f: spec_fn(A) -> int)
    requires
        s1.to_multiset() == s2.to_multiset(),
    ensures
        seq_sum(s1, f) == seq_sum(s2, f),
    decreases s1.len(),
{
    broadcast use vstd::seq_lib::group_to_multiset_ensures;

    if s1.len() == 0 {
        assert(s2.to_multiset().len() == 0);
        assert(s2.len() == 0);
    } else {
        let x = s1.last();
        assert(s1.contains(x));
        assert(s1.to_multiset().count(x) > 0);
        assert(s2.to_multiset().count(x) > 0);
        assert(s2.contains(x));
        let i = choose|i: int| 0 <= i < s2.len() && s2[i] == x;
        assert(s1.drop_last() =~= s1.remove(s1.len() - 1));
        assert(s1[s1.len() - 1] == x);
        assert(s1.drop_last().to_multiset() =~= s2.remove(i).to_multiset()) by {
            assert(s1.remove(s1.len() - 1).to_multiset() =~= s1.to_multiset().remove(x));
            assert(s2.remove(i).to_multiset() =~= s2.to_multiset().remove(s2[i]));
        }
        lemma_seq_sum_permutation(s1.drop_last(), s2.remove(i), f);
        lemma_seq_sum_remove(s2, f, i);
    }
}

/// How many of the value sequences in `ballots` start with `p`.
pub open spec fn prefix_count(ballots: Seq<Seq<VoteValues>>, p: Seq<VoteValues>) -> int {
    seq_sum(
        ballots,
        |vs: Seq<VoteValues>|
            if crate::trie::seq_prefix(p, vs) {
                1int
            } else {
                0int
            },
    )
}

/// The fixed-point Dowdall score the ballots of `ballots` together give `c`.
pub open spec fn ballots_score(ballots: Seq<Seq<VoteValues>>, c: u16) -> int {
    seq_sum(ballots, |vs: Seq<VoteValues>| ballot_contrib(vs, c))
}

/// After a run of insertions, each path's count grew by the number of
/// inserted ballots opening with it, and each candidate's score by the
/// ballots' contributions.
pub proof fn lemma_chain_counts(
    pre: RankedChoiceVoteTrie,
    votes: Seq<RankedVote>,
    post: RankedChoiceVoteTrie,
)
    requires
        pre.root.wf(),
        is_engine_insert_seq(pre, votes, post),
    ensures
        post.root.wf(),
        forall|p: Seq<VoteValues>|
            #[trigger] crate::trie::votes_at(post.root, p) == crate::trie::votes_at(pre.root, p)
                + prefix_count(votes.map_values(|v: RankedVote| v.spec_values()), p),
        forall|c: u16|
            #[trigger] post.score_of(c) == pre.score_of(c) + ballots_score(
                votes.map_values(|v: RankedVote| v.spec_values()),
                c,
            ),
    decreases votes.len(),
{
    let bs = votes.map_values(|v: RankedVote| v.spec_values());
    if votes.len() == 0 {
        assert(post == pre);
        assert(bs =~= Seq::<Seq<VoteValues>>::empty());
    } else {
        let mid = choose|mid: RankedChoiceVoteTrie|
            is_engine_insert_seq(pre, votes.drop_last(), mid) && is_engine_insert(
                mid,
                votes.last(),
                post,
            );
        lemma_chain_counts(pre, votes.drop_last(), mid);
        crate::trie::lemma_insert_wf(mid.root, votes.last().spec_values(), post.root);
        let bs0 = votes.drop_last().map_values(|v: RankedVote| v.spec_values());
        assert(bs.drop_last() =~= bs0);
        assert(bs.last() == votes.last().spec_values());
        assert forall|p: Seq<VoteValues>| #[trigger] crate::trie::votes_at(post.root, p)
            == crate::trie::votes_at(pre.root, p) + prefix_count(bs, p) by {
            crate::trie::lemma_insert_votes_at(
                mid.root,
                votes.last().spec_values(),
                post.root,
                p,
            );
        }
        assert forall|c: u16| #[trigger] post.score_of(c) == pre.score_of(c) + ballots_score(
            bs,
            c,
        ) by {
            assert(post.score_of(c) == mid.score_of(c) + ballot_contrib(
                votes.last().spec_values(),
                c,
            ));
        }
    }
}

/// Law: inserting the same multiset of ballots, in any order, into engines
/// that start alike yields tries with the same count at every path and the
/// same Dowdall score for every candidate.
pub proof fn lemma_insertion_order_irrelevant(
    pre: RankedChoiceVoteTrie,
    votes1: Seq<RankedVote>,
    post1: RankedChoiceVoteTrie,
    votes2: Seq<RankedVote>,
    post2: RankedChoiceVoteTrie,
)
    requires
        pre.root.wf(),
        is_engine_insert_seq(pre, votes1, post1),
        is_engine_insert_seq(pre, votes2, post2),
        votes1.map_values(|v: RankedVote| v.spec_values()).to_multiset() == votes2.map_values(
            |v: RankedVote| v.spec_values(),
        ).to_multiset(),
    ensures
        forall|p: Seq<VoteValues>|
            #[trigger] crate::trie::votes_at(post1.root, p) == crate::trie::votes_at(
                post2.root,
                p,
            ),
        forall|c: u16| #[trigger] post1.score_of(c) == post2.score_of(c),
{
    lemma_chain_counts(pre, votes1, post1);
    lemma_chain_counts(pre, votes2, post2);
    let bs1 = votes1.map_values(|v: RankedVote| v.spec_values());
    let bs2 = votes2.map_values(|v: RankedVote| v.spec_values());
    assert forall|p: Seq<VoteValues>| #[trigger] crate::trie::votes_at(post1.root, p)
        == crate::trie::votes_at(post2.root, p) by {
        lemma_seq_sum_permutation(
            bs1,
            bs2,
            |vs: Seq<VoteValues>|
                if crate::trie::seq_prefix(p, vs) {
                    1int
                } else {
                    0int
                },
        );
    }
    assert forall|c: u16| #[trigger] post1.score_of(c) == post2.score_of(c) by {
        lemma_seq_sum_permutation(bs1, bs2, |vs: Seq<VoteValues>| ballot_contrib(vs, c));
    }
}

} // verus!


