//! Ballot values and ranked ballots.
//!
//! A ballot value is either a candidate identifier or a special marker
//! (withhold or abstain). A ranked ballot is a non-empty sequence of ballot
//! values without duplicates in which a special marker, if present, is the
//! final element.

use vstd::prelude::*;

verus! {

/// Special, non-candidate ballot values. `WITHHOLD` keeps the ballot in the
/// majority denominator without endorsing anyone; `ABSTAIN` removes it.
#[derive(Copy, Clone, Eq, PartialEq, Hash, Debug, Structural)]
pub enum SpecialVotes {
    WITHHOLD,
    ABSTAIN,
}

/// A single entry of a ranked ballot: a candidate or a special marker.
#[derive(Clone, Copy, Eq, PartialEq, Hash, Debug, Structural)]
pub enum VoteValues {
    Candidate(u16),
    SpecialVote(SpecialVotes),
}

/// Errors raised while constructing ballots from raw integer sequences.
/// The tally engine itself never produces errors.
#[derive(Copy, Clone, Eq, PartialEq, Debug, Structural)]
pub enum VoteErrors {
    InvalidCastToCandidate,
    InvalidCastToSpecialVote,
    ReadOutOfBounds,
    NonFinalSpecialVote,
    DuplicateVotes,
    VoteIsEmpty,
}

impl SpecialVotes {
    /// The raw integer encoding of this marker.
    pub open spec fn spec_to_int(self) -> i32 {
        match self {
            SpecialVotes::WITHHOLD => -1i32,
            SpecialVotes::ABSTAIN => -2i32,
        }
    }

    pub fn to_int(&self) -> (r: i32)
        ensures
            r == self.spec_to_int(),
    {
        match self {
            SpecialVotes::WITHHOLD => -1,
            SpecialVotes::ABSTAIN => -2,
        }
    }

    /// Decode a raw integer: `-1` is withhold, `-2` is abstain, anything
    /// else is rejected.
    pub fn from_int(raw_value: i32) -> (r: Result<SpecialVotes, VoteErrors>)
        ensures
            raw_value == -1 ==> r == Ok::<SpecialVotes, VoteErrors>(SpecialVotes::WITHHOLD),
            raw_value == -2 ==> r == Ok::<SpecialVotes, VoteErrors>(SpecialVotes::ABSTAIN),
            raw_value != -1 && raw_value != -2 ==> r == Err::<SpecialVotes, VoteErrors>(
                VoteErrors::InvalidCastToSpecialVote,
            ),
    {
        match raw_value {
            -1 => Ok(SpecialVotes::WITHHOLD),
            -2 => Ok(SpecialVotes::ABSTAIN),
            _ => Err(VoteErrors::InvalidCastToSpecialVote),
        }
    }
}

impl VoteValues {
    /// The raw integer encoding of this ballot value: candidates map to their
    /// identifier, special markers to their negative code.
    pub open spec fn spec_to_int(self) -> i32 {
        match self {
            VoteValues::Candidate(choice) => choice as i32,
            VoteValues::SpecialVote(special_vote) => special_vote.spec_to_int(),
        }
    }

    pub fn to_int(self) -> (r: i32)
        ensures
            r == self.spec_to_int(),
    {
        match self {
            VoteValues::Candidate(choice) => choice as i32,
            VoteValues::SpecialVote(special_vote) => special_vote.to_int(),
        }
    }

    /// Decode a raw integer: `-1` and `-2` are the special markers, values in
    /// the candidate-identifier range are candidates, and everything else is
    /// rejected.
    pub fn from_int(raw_value: i32) -> (r: Result<VoteValues, VoteErrors>)
        ensures
            raw_value == -1 ==> r == Ok::<VoteValues, VoteErrors>(
                VoteValues::SpecialVote(SpecialVotes::WITHHOLD),
            ),
            raw_value == -2 ==> r == Ok::<VoteValues, VoteErrors>(
                VoteValues::SpecialVote(SpecialVotes::ABSTAIN),
            ),
            0 <= raw_value <= u16::MAX ==> r == Ok::<VoteValues, VoteErrors>(
                VoteValues::Candidate(raw_value as u16),
            ),
            !(raw_value == -1 || raw_value == -2 || (0 <= raw_value <= u16::MAX)) ==> r == Err::<
                VoteValues,
                VoteErrors,
            >(VoteErrors::InvalidCastToCandidate),
    {
        let special_vote_cast_result = SpecialVotes::from_int(raw_value);
        if let Ok(special_vote) = special_vote_cast_result {
            return Ok(VoteValues::SpecialVote(special_vote));
        }
        if 0 <= raw_value && raw_value <= u16::MAX as i32 {
            Ok(VoteValues::Candidate(raw_value as u16))
        } else {
            Err(VoteErrors::InvalidCastToCandidate)
        }
    }
}

/// A ranked ballot: candidate identifiers in descending order of preference,
/// optionally terminated by a single special marker.
#[derive(Debug)]
pub struct RankedVote {
    pub rankings: Vec<u16>,
    pub special_vote: Option<SpecialVotes>,
}

impl RankedVote {
    /// Structural invariant: no candidate is ranked twice and the ballot is
    /// non-empty. Established by the constructors and assumed downstream.
    pub open spec fn wf(self) -> bool {
        &&& self.rankings@.no_duplicates()
        &&& (self.rankings@.len() > 0 || self.special_vote is Some)
    }

    /// The ballot as a sequence of ballot values: the ranked candidates in
    /// order, then the special marker if present.
    pub open spec fn spec_values(self) -> Seq<VoteValues> {
        let cands = self.rankings@.map_values(|c: u16| VoteValues::Candidate(c));
        match self.special_vote {
            None => cands,
            Some(s) => cands.push(VoteValues::SpecialVote(s)),
        }
    }

    pub open spec fn spec_len(self) -> nat {
        self.spec_values().len()
    }

    /// The raw integer form of a ballot with rankings `cands` and marker `sp`.
    pub open spec fn raw_of(cands: Seq<u16>, sp: Option<SpecialVotes>) -> Seq<i32> {
        let cand_ints = cands.map_values(|c: u16| c as i32);
        match sp {
            None => cand_ints,
            Some(s) => cand_ints.push(s.spec_to_int()),
        }
    }

    /// The raw integer form of this ballot; `from_vector` inverts it.
    pub open spec fn spec_to_vector(self) -> Seq<i32> {
        Self::raw_of(self.rankings@, self.special_vote)
    }
}

/// What scanning a raw ballot from position `k` onward yields, given the
/// candidates and marker accepted so far. Scanning stops at the first
/// offending element:
/// a value equal to an earlier one is `DuplicateVotes`, a negative value
/// before the last position is `NonFinalSpecialVote`, a negative value other
/// than the two special codes is `InvalidCastToSpecialVote`, as is a
/// non-negative value outside the candidate-identifier range; a ballot that
/// ends with no candidate and no marker is `VoteIsEmpty`.
pub open spec fn spec_from_vector_rec(
    raw: Seq<i32>,
    k: int,
    cands: Seq<u16>,
    special: Option<SpecialVotes>,
) -> Result<(Seq<u16>, Option<SpecialVotes>), VoteErrors>
    decreases raw.len() - k,
{
    if k < 0 || k >= raw.len() {
        if special is None && cands.len() == 0 {
            Err(VoteErrors::VoteIsEmpty)
        } else {
            Ok((cands, special))
        }
    } else {
        let v = raw[k];
        if raw.subrange(0, k).contains(v) {
            Err(VoteErrors::DuplicateVotes)
        } else if v < 0 {
            if k != raw.len() - 1 {
                Err(VoteErrors::NonFinalSpecialVote)
            } else if v == -1 {
                spec_from_vector_rec(raw, k + 1, cands, Some(SpecialVotes::WITHHOLD))
            } else if v == -2 {
                spec_from_vector_rec(raw, k + 1, cands, Some(SpecialVotes::ABSTAIN))
            } else {
                Err(VoteErrors::InvalidCastToSpecialVote)
            }
        } else if v > u16::MAX as i32 {
            Err(VoteErrors::InvalidCastToSpecialVote)
        } else {
            spec_from_vector_rec(raw, k + 1, cands.push(v as u16), special)
        }
    }
}

/// The rankings and marker that `from_vector` accepts for `raw`, or the
/// error it reports.
pub open spec fn spec_from_vector(raw: Seq<i32>) -> Result<
    (Seq<u16>, Option<SpecialVotes>),
    VoteErrors,
> {
    spec_from_vector_rec(raw, 0, Seq::empty(), None)
}

/// Whether `raw@[j] == x` for some `j < k`.
fn prefix_contains(raw: &Vec<i32>, k: usize, x: i32) -> (r: bool)
    requires
        k <= raw@.len(),
    ensures
        r == raw@.subrange(0, k as int).contains(x),
{
    let mut j: usize = 0;
    while j < k
        invariant
            0 <= j <= k <= raw@.len(),
            forall|m: int| 0 <= m < j ==> raw@[m] != x,
        decreases k - j,
    {
        if raw[j] == x {
            assert(raw@.subrange(0, k as int)[j as int] == x);
            return true;
        }
        j = j + 1;
    }
    assert(forall|m: int| 0 <= m < k ==> raw@.subrange(0, k as int)[m] == raw@[m]);
    false
}

impl RankedVote {
    /// The number of ballot values, counting the special marker if present.
    pub fn len(&self) -> (r: usize)
        requires
            self.wf(),
        ensures
            r == self.spec_len(),
    {
        proof {
            lemma_no_dup_u16_len(self.rankings@);
        }
        let mut length = self.rankings.len();
        if self.special_vote.is_some() {
            length += 1;
        }
        length
    }

    pub fn is_empty(&self) -> (r: bool)
        requires
            self.wf(),
        ensures
            r == (self.spec_len() == 0),
    {
        self.len() == 0
    }

    /// The ballot value at `index`, or `ReadOutOfBounds` past the end.
    pub fn get(&self, index: usize) -> (r: Result<VoteValues, VoteErrors>)
        ensures
            index < self.spec_len() ==> r == Ok::<VoteValues, VoteErrors>(
                self.spec_values()[index as int],
            ),
            index >= self.spec_len() ==> r == Err::<VoteValues, VoteErrors>(
                VoteErrors::ReadOutOfBounds,
            ),
    {
        let rankings_length = self.rankings.len();
        if index == rankings_length {
            if let Some(special_vote) = self.special_vote {
                return Ok(VoteValues::SpecialVote(special_vote));
            }
        }
        if index < rankings_length {
            Ok(VoteValues::Candidate(self.rankings[index]))
        } else {
            Err(VoteErrors::ReadOutOfBounds)
        }
    }

    /// Construct a ballot from raw integers; candidates are non-negative,
    /// `-1` is withhold and `-2` is abstain. Accepts exactly the sequences on
    /// which `spec_from_vector` succeeds and reports its error otherwise.
    pub fn from_vector(raw_ranked_vote: &Vec<i32>) -> (r: Result<RankedVote, VoteErrors>)
        ensures
            spec_from_vector(raw_ranked_vote@) matches Ok(p) ==> r matches Ok(v) && v.rankings@
                == p.0 && v.special_vote == p.1 && v.wf(),
            spec_from_vector(raw_ranked_vote@) matches Err(e) ==> r == Err::<
                RankedVote,
                VoteErrors,
            >(e),
    {
        let ghost raw = raw_ranked_vote@;
        let mut candidates: Vec<u16> = Vec::new();
        let mut special_vote_value: Option<SpecialVotes> = None;
        let mut k: usize = 0;
        let length = raw_ranked_vote.len();

        while k < length
            invariant
                0 <= k <= length == raw.len(),
                raw == raw_ranked_vote@,
                spec_from_vector(raw) == spec_from_vector_rec(
                    raw,
                    k as int,
                    candidates@,
                    special_vote_value,
                ),
                candidates@.no_duplicates(),
                forall|m: int|
                    0 <= m < candidates@.len() ==> raw.subrange(0, k as int).contains(
                        #[trigger] candidates@[m] as i32,
                    ),
                special_vote_value is Some ==> k == raw.len(),
            decreases length - k,
        {
            let v = raw_ranked_vote[k];
            let is_last_index = k == length - 1;
            if prefix_contains(raw_ranked_vote, k, v) {
                return Err(VoteErrors::DuplicateVotes);
            }
            if v < 0 {
                if !is_last_index {
                    return Err(VoteErrors::NonFinalSpecialVote);
                }
                match SpecialVotes::from_int(v) {
                    Err(cast_error) => {
                        return Err(cast_error);
                    },
                    Ok(cast_value) => {
                        special_vote_value = Some(cast_value);
                    },
                }
                proof {
                    assert forall|m: int| 0 <= m < candidates@.len() implies raw.subrange(
                        0,
                        (k + 1) as int,
                    ).contains(#[trigger] candidates@[m] as i32) by {
                        assert(raw.subrange(0, k as int).contains(candidates@[m] as i32));
                        let j = choose|j: int|
                            0 <= j < k && #[trigger] raw.subrange(0, k as int)[j] == candidates@[m]
                                as i32;
                        assert(raw.subrange(0, (k + 1) as int)[j] == candidates@[m] as i32);
                    }
                }
            } else {
                if v > u16::MAX as i32 {
                    return Err(VoteErrors::InvalidCastToSpecialVote);
                }
                let c = v as u16;
                proof {
                    assert forall|m: int| 0 <= m < candidates@.len() implies candidates@[m] != c by {
                        assert(raw.subrange(0, k as int).contains(candidates@[m] as i32));
                    }
                    assert(forall|m: int|
                        0 <= m < k ==> raw.subrange(0, (k + 1) as int)[m] == raw.subrange(
                            0,
                            k as int,
                        )[m]);
                }
                candidates.push(c);
                proof {
                    assert forall|m: int| 0 <= m < candidates@.len() implies raw.subrange(
                        0,
                        (k + 1) as int,
                    ).contains(#[trigger] candidates@[m] as i32) by {
                        if m == candidates@.len() - 1 {
                            assert(raw.subrange(0, (k + 1) as int)[k as int] == raw[k as int]);
                        } else {
                            assert(raw.subrange(0, k as int).contains(candidates@[m] as i32));
                            let j = choose|j: int|
                                0 <= j < k && #[trigger] raw.subrange(0, k as int)[j]
                                    == candidates@[m] as i32;
                            assert(raw.subrange(0, (k + 1) as int)[j] == candidates@[m] as i32);
                        }
                    }
                }
            }
            k = k + 1;
        }

        if special_vote_value.is_none() && candidates.len() == 0 {
            return Err(VoteErrors::VoteIsEmpty);
        }
        Ok(RankedVote { rankings: candidates, special_vote: special_vote_value })
    }

    /// Construct many ballots at once; the first failing ballot's error is
    /// reported and nothing is returned for the rest.
    pub fn from_vectors(raw_votes: &Vec<Vec<i32>>) -> (r: Result<Vec<RankedVote>, VoteErrors>)
        ensures
            spec_from_vectors(raw_votes@.map_values(|v: Vec<i32>| v@)) matches Ok(ps) ==> r matches
                Ok(votes) && votes@.len() == ps.len() && forall|i: int|
                0 <= i < ps.len() ==> (#[trigger] votes@[i]).rankings@ == ps[i].0 && votes@[i].special_vote
                    == ps[i].1 && votes@[i].wf(),
            spec_from_vectors(raw_votes@.map_values(|v: Vec<i32>| v@)) matches Err(e) ==> r == Err::<
                Vec<RankedVote>,
                VoteErrors,
            >(e),
    {
        let ghost raws = raw_votes@.map_values(|v: Vec<i32>| v@);
        let mut votes: Vec<RankedVote> = Vec::new();
        let mut i: usize = 0;
        while i < raw_votes.len()
            invariant
                0 <= i <= raw_votes.len() == raws.len(),
                raws == raw_votes@.map_values(|v: Vec<i32>| v@),
                votes@.len() == i,
                forall|j: int|
                    0 <= j < i ==> (spec_from_vector(raws[j]) matches Ok(p) && (
                    #[trigger] votes@[j]).rankings@ == p.0 && votes@[j].special_vote == p.1
                        && votes@[j].wf()),
            decreases raw_votes.len() - i,
        {
            let result = RankedVote::from_vector(&raw_votes[i]);
            match result {
                Err(err) => {
                    proof {
                        assert forall|j: int| 0 <= j < i implies (#[trigger] spec_from_vector(
                            raws[j],
                        )) is Ok by {
                            let vj = votes@[j];
                            assert(vj.wf());
                        }
                        lemma_from_vectors_prefix_err(raws, i as int, err);
                    }
                    return Err(err);
                },
                Ok(vote_struct) => {
                    votes.push(vote_struct);
                },
            }
            i = i + 1;
        }
        proof {
            let ps = votes@.map_values(|v: RankedVote| (v.rankings@, v.special_vote));
            assert forall|j: int| 0 <= j < raws.len() implies (#[trigger] spec_from_vector(
                raws[j],
            )) == Ok::<(Seq<u16>, Option<SpecialVotes>), VoteErrors>(ps[j]) by {
                let vj = votes@[j];
                assert(vj.wf());
            }
            lemma_from_vectors_prefix_ok(raws, ps);
        }
        Ok(votes)
    }

    /// Construct a ballot listing `candidates` in order, with no marker.
    pub fn from_candidates(candidates: &[u16]) -> (r: Result<RankedVote, VoteErrors>)
        ensures
            spec_from_vector(candidates@.map_values(|c: u16| c as i32)) matches Ok(p) ==> r matches
                Ok(v) && v.rankings@ == p.0 && v.special_vote == p.1 && v.wf(),
            spec_from_vector(candidates@.map_values(|c: u16| c as i32)) matches Err(e) ==> r
                == Err::<RankedVote, VoteErrors>(e),
    {
        let mut raw: Vec<i32> = Vec::new();
        let mut i: usize = 0;
        while i < candidates.len()
            invariant
                0 <= i <= candidates@.len(),
                raw@ == candidates@.subrange(0, i as int).map_values(|c: u16| c as i32),
            decreases candidates@.len() - i,
        {
            raw.push(candidates[i] as i32);
            proof {
                assert(raw@ =~= candidates@.subrange(0, (i + 1) as int).map_values(
                    |c: u16| c as i32,
                ));
            }
            i = i + 1;
        }
        proof {
            assert(candidates@.subrange(0, candidates@.len() as int) =~= candidates@);
        }
        Self::from_vector(&raw)
    }

    /// The raw integer form of this ballot.
    pub fn to_vector(&self) -> (r: Vec<i32>)
        ensures
            r@ == self.spec_to_vector(),
    {
        let mut all_rankings: Vec<i32> = Vec::new();
        let mut i: usize = 0;
        while i < self.rankings.len()
            invariant
                0 <= i <= self.rankings@.len(),
                all_rankings@ == self.rankings@.subrange(0, i as int).map_values(
                    |c: u16| c as i32,
                ),
            decreases self.rankings@.len() - i,
        {
            all_rankings.push(self.rankings[i] as i32);
            proof {
                assert(all_rankings@ =~= self.rankings@.subrange(0, (i + 1) as int).map_values(
                    |c: u16| c as i32,
                ));
            }
            i = i + 1;
        }
        proof {
            assert(self.rankings@.subrange(0, self.rankings@.len() as int) =~= self.rankings@);
        }
        if let Some(special_vote) = &self.special_vote {
            all_rankings.push(special_vote.to_int());
        }
        all_rankings
    }

    /// An iterator over the ballot values, candidates first, marker last.
    pub fn iter(&self) -> (r: VoteStructIterator<'_>)
        requires
            self.wf(),
        ensures
            r.vote == self,
            r.pos == 0,
    {
        VoteStructIterator { vote: self, pos: 0 }
    }
}

/// What constructing each member of `raws` in order yields: the first error,
/// or every ballot's rankings and marker.
pub open spec fn spec_from_vectors(raws: Seq<Seq<i32>>) -> Result<
    Seq<(Seq<u16>, Option<SpecialVotes>)>,
    VoteErrors,
>
    decreases raws.len(),
{
    if raws.len() == 0 {
        Ok(Seq::empty())
    } else {
        match spec_from_vector(raws[0]) {
            Err(e) => Err(e),
            Ok(p) => match spec_from_vectors(raws.drop_first()) {
                Err(e) => Err(e),
                Ok(rest) => Ok(seq![p] + rest),
            },
        }
    }
}

proof fn lemma_from_vectors_prefix_err(raws: Seq<Seq<i32>>, i: int, err: VoteErrors)
    requires
        0 <= i < raws.len(),
        forall|j: int| 0 <= j < i ==> (#[trigger] spec_from_vector(raws[j])) is Ok,
        spec_from_vector(raws[i]) == Err::<(Seq<u16>, Option<SpecialVotes>), VoteErrors>(err),
    ensures
        spec_from_vectors(raws) == Err::<Seq<(Seq<u16>, Option<SpecialVotes>)>, VoteErrors>(err),
    decreases raws.len(),
{
    if i == 0 {
    } else {
        assert(spec_from_vector(raws[0]) is Ok);
        assert(raws.drop_first()[i - 1] == raws[i]);
        assert(forall|j: int|
            0 <= j < i - 1 ==> raws.drop_first()[j] == raws[j + 1]);
        lemma_from_vectors_prefix_err(raws.drop_first(), i - 1, err);
    }
}

proof fn lemma_from_vectors_prefix_ok(raws: Seq<Seq<i32>>, ps: Seq<(Seq<u16>, Option<SpecialVotes>)>)
    requires
        ps.len() == raws.len(),
        forall|j: int|
            0 <= j < raws.len() ==> (#[trigger] spec_from_vector(raws[j])) == Ok::<
                (Seq<u16>, Option<SpecialVotes>),
                VoteErrors,
            >(ps[j]),
    ensures
        spec_from_vectors(raws) == Ok::<Seq<(Seq<u16>, Option<SpecialVotes>)>, VoteErrors>(ps),
    decreases raws.len(),
{
    if raws.len() == 0 {
        assert(ps =~= Seq::<(Seq<u16>, Option<SpecialVotes>)>::empty());
    } else {
        assert(forall|j: int|
            0 <= j < raws.len() - 1 ==> raws.drop_first()[j] == raws[j + 1]
                && ps.drop_first()[j] == ps[j + 1]);
        lemma_from_vectors_prefix_ok(raws.drop_first(), ps.drop_first());
        assert(ps =~= seq![ps[0]] + ps.drop_first());
    }
}

proof fn lemma_round_trip_rec(
    raw: Seq<i32>,
    k: int,
    c0: Seq<u16>,
    s0: Option<SpecialVotes>,
    cs: Seq<u16>,
    sp: Option<SpecialVotes>,
)
    requires
        0 <= k <= raw.len(),
        s0 is Some ==> k == raw.len(),
        spec_from_vector_rec(raw, k, c0, s0) == Ok::<(Seq<u16>, Option<SpecialVotes>), VoteErrors>(
            (cs, sp),
        ),
    ensures
        RankedVote::raw_of(cs, sp) == RankedVote::raw_of(c0, s0) + raw.subrange(
            k,
            raw.len() as int,
        ),
    decreases raw.len() - k,
{
    if k == raw.len() {
        assert(cs == c0 && sp == s0);
        assert(RankedVote::raw_of(cs, sp) =~= RankedVote::raw_of(c0, s0) + raw.subrange(
            k,
            raw.len() as int,
        ));
    } else {
        let v = raw[k];
        assert(raw.subrange(k, raw.len() as int) =~= seq![v] + raw.subrange(
            k + 1,
            raw.len() as int,
        ));
        if v < 0 {
            let s = if v == -1 {
                SpecialVotes::WITHHOLD
            } else {
                SpecialVotes::ABSTAIN
            };
            lemma_round_trip_rec(raw, k + 1, c0, Some(s), cs, sp);
            assert(RankedVote::raw_of(c0, Some(s)) =~= RankedVote::raw_of(c0, None) + seq![v]);
            assert(RankedVote::raw_of(cs, sp) =~= RankedVote::raw_of(c0, s0) + raw.subrange(
                k,
                raw.len() as int,
            ));
        } else {
            lemma_round_trip_rec(raw, k + 1, c0.push(v as u16), s0, cs, sp);
            assert(RankedVote::raw_of(c0.push(v as u16), s0) =~= RankedVote::raw_of(c0, s0)
                + seq![v]);
            assert(RankedVote::raw_of(cs, sp) =~= RankedVote::raw_of(c0, s0) + raw.subrange(
                k,
                raw.len() as int,
            ));
        }
    }
}

/// Law: a raw sequence accepted by `from_vector` is reproduced exactly by
/// `to_vector` on the resulting ballot.
pub proof fn lemma_from_to_vector_round_trip(raw: Seq<i32>)
    ensures
        spec_from_vector(raw) matches Ok(p) ==> RankedVote::raw_of(p.0, p.1) == raw,
{
    if spec_from_vector(raw) is Ok {
        let p = spec_from_vector(raw)->Ok_0;
        lemma_round_trip_rec(raw, 0, Seq::empty(), None, p.0, p.1);
        assert(RankedVote::raw_of(Seq::empty(), None) =~= Seq::<i32>::empty());
        assert(RankedVote::raw_of(p.0, p.1) =~= Seq::<i32>::empty() + raw.subrange(
            0,
            raw.len() as int,
        ));
        assert(Seq::<i32>::empty() + raw.subrange(0, raw.len() as int) =~= raw);
    }
}

/// A sequence of distinct 16-bit values has at most 65536 members.
pub proof fn lemma_no_dup_u16_len(s: Seq<u16>)
    requires
        s.no_duplicates(),
    ensures
        s.len() <= 0x10000,
{
    let ints = s.map_values(|c: u16| c as int);
    assert(forall|i: int, j: int|
        0 <= i < s.len() && 0 <= j < s.len() && i != j ==> ints[i] != ints[j]);
    ints.unique_seq_to_set();
    assert(ints.to_set().subset_of(vstd::set_lib::set_int_range(0, 0x10000))) by {
        assert forall|x: int| ints.to_set().contains(x) implies 0 <= x < 0x10000 by {
            let i = choose|i: int| 0 <= i < ints.len() && ints[i] == x;
        }
    }
    vstd::set_lib::lemma_int_range(0, 0x10000);
    vstd::set_lib::lemma_len_subset(ints.to_set(), vstd::set_lib::set_int_range(0, 0x10000));
}

/// Step-by-step iterator over a ballot's values.
pub struct VoteStructIterator<'a> {
    pub vote: &'a RankedVote,
    pub pos: usize,
}

impl<'a> VoteStructIterator<'a> {
    pub open spec fn spec_vote(self) -> RankedVote {
        *self.vote
    }

    pub open spec fn spec_pos(self) -> nat {
        self.pos as nat
    }

    /// The next ballot value, or `None` once the ballot is exhausted.
    pub fn next(&mut self) -> (r: Option<VoteValues>)
        requires
            old(self).vote.wf(),
            old(self).pos <= old(self).vote.spec_len(),
        ensures
            final(self).vote == old(self).vote,
            old(self).pos < old(self).vote.spec_len() ==> r == Some(
                old(self).vote.spec_values()[old(self).pos as int],
            ) && final(self).pos == old(self).pos + 1,
            old(self).pos >= old(self).vote.spec_len() ==> r == None::<VoteValues>
                && final(self).pos == old(self).pos,
    {
        match self.vote.get(self.pos) {
            Ok(value) => {
                proof {
                    lemma_no_dup_u16_len(self.vote.rankings@);
                }
                self.pos = self.pos + 1;
                Some(value)
            },
            Err(_) => None,
        }
    }
}

/// Conversion of raw integer ballots into ranked ballots.
pub trait ToVotes {
    /// What the conversion yields, as rankings and markers.
    spec fn spec_raws(&self) -> Seq<Seq<i32>>;

    fn to_votes(&self) -> (r: Result<Vec<RankedVote>, VoteErrors>)
        ensures
            spec_from_vectors(self.spec_raws()) matches Ok(ps) ==> r matches Ok(votes)
                && votes@.len() == ps.len() && forall|i: int|
                0 <= i < ps.len() ==> (#[trigger] votes@[i]).rankings@ == ps[i].0
                    && votes@[i].special_vote == ps[i].1 && votes@[i].wf(),
            spec_from_vectors(self.spec_raws()) matches Err(e) ==> r == Err::<
                Vec<RankedVote>,
                VoteErrors,
            >(e),
    ;
}

impl ToVotes for Vec<Vec<i32>> {
    open spec fn spec_raws(&self) -> Seq<Seq<i32>> {
        self@.map_values(|v: Vec<i32>| v@)
    }

    fn to_votes(&self) -> (r: Result<Vec<RankedVote>, VoteErrors>) {
        RankedVote::from_vectors(self)
    }
}

} // verus!
