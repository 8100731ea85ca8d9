use crate::regime::RegimeType;
use crate::score::MAX_SCORE;
use vstd::prelude::*;

verus! {

/// The year the scores describe.
pub const REPORT_YEAR: u16 = 2024;

/// The scores of one country, each a fixed-point value with two implied
/// decimals (939 stands for 9.39).
#[derive(Debug, Clone, Copy, PartialEq, Eq, Structural)]
pub struct DemocracyQualities {
    pub overall_score: u16,
    pub regime_type: RegimeType,
    pub electoral_process_and_pluralism: u16,
    pub functioning_of_government: u16,
    pub political_participation: u16,
    pub political_culture: u16,
    pub civil_liberties: u16,
}

/// Every score of `q` is a valid score.
pub open spec fn scores_valid(q: DemocracyQualities) -> bool {
    &&& q.overall_score <= MAX_SCORE
    &&& q.electoral_process_and_pluralism <= MAX_SCORE
    &&& q.functioning_of_government <= MAX_SCORE
    &&& q.political_participation <= MAX_SCORE
    &&& q.political_culture <= MAX_SCORE
    &&& q.civil_liberties <= MAX_SCORE
}

/// The record of a block with regime type `regime` and the six scores
/// `scores`: the overall score, then the five sub-scores in table order.
pub open spec fn record_of(regime: RegimeType, scores: Seq<u16>) -> DemocracyQualities {
    DemocracyQualities {
        overall_score: scores[0],
        regime_type: regime,
        electoral_process_and_pluralism: scores[1],
        functioning_of_government: scores[2],
        political_participation: scores[3],
        political_culture: scores[4],
        civil_liberties: scores[5],
    }
}

/// Whether some entry of `entries` has the code `code`.
pub open spec fn has_code(entries: Seq<(Seq<char>, DemocracyQualities)>, code: Seq<char>) -> bool {
    exists|i: int| 0 <= i < entries.len() && (#[trigger] entries[i]).0 == code
}

/// No two entries share a code.
pub open spec fn codes_unique(entries: Seq<(Seq<char>, DemocracyQualities)>) -> bool {
    forall|i: int, j: int|
        0 <= i < entries.len() && 0 <= j < entries.len() && i != j ==> (#[trigger] entries[i]).0
            != (#[trigger] entries[j]).0
}

/// Codes unique and every score valid.
pub open spec fn entries_valid(entries: Seq<(Seq<char>, DemocracyQualities)>) -> bool {
    &&& codes_unique(entries)
    &&& forall|i: int| 0 <= i < entries.len() ==> scores_valid(#[trigger] entries[i].1)
}

/// The records of a table, keyed by country code, in the order in which the
/// table lists the countries.
#[derive(Debug, Clone, PartialEq, Eq)]
pub struct Dataset {
    entries: Vec<(String, DemocracyQualities)>,
}

impl View for Dataset {
    type V = Seq<(Seq<char>, DemocracyQualities)>;

    closed spec fn view(&self) -> Seq<(Seq<char>, DemocracyQualities)> {
        self.entries@.map_values(|e: (String, DemocracyQualities)| (e.0@, e.1))
    }
}

impl Dataset {
    /// Codes unique and every score valid.
    pub open spec fn wf(&self) -> bool {
        entries_valid(self@)
    }

    /// The index of the entry with code `code`.
    pub open spec fn index_of(&self, code: Seq<char>) -> int {
        choose|i: int| 0 <= i < self@.len() && (#[trigger] self@[i]).0 == code
    }

    /// The records keyed by country code.
    pub open spec fn records(&self) -> Map<Seq<char>, DemocracyQualities> {
        Map::new(|code: Seq<char>| has_code(self@, code), |code: Seq<char>| self@[self.index_of(code)].1)
    }

    pub(crate) fn from_entries(entries: Vec<(String, DemocracyQualities)>) -> (r: Dataset)
        ensures
            r@ == entries@.map_values(|e: (String, DemocracyQualities)| (e.0@, e.1)),
    {
        Dataset { entries }
    }

    /// The number of countries.
    pub fn len(&self) -> (r: usize)
        ensures
            r == self@.len(),
    {
        self.entries.len()
    }

    /// The (code, record) pairs in the order in which the table lists the
    /// countries. The table is ordered by rank; this order is kept as it is
    /// and not sorted again.
    pub fn ranking(&self) -> (r: &Vec<(String, DemocracyQualities)>)
        ensures
            r@.map_values(|e: (String, DemocracyQualities)| (e.0@, e.1)) == self@,
    {
        &self.entries
    }

    /// The record of the country with code `code`.
    pub fn get(&self, code: &str) -> (r: Option<&DemocracyQualities>)
        requires
            self.wf(),
        ensures
            match r {
                Some(q) => self.records().contains_key(code@) && self.records()[code@] == *q,
                None => !self.records().contains_key(code@),
            },
    {
        let key = code.to_owned();
        let mut i: usize = 0;
        while i < self.entries.len()
            invariant
                i <= self.entries.len(),
                key@ == code@,
                self.wf(),
                forall|k: int| 0 <= k < i ==> (#[trigger] self@[k]).0 != code@,
            decreases self.entries.len() - i,
        {
            if self.entries[i].0 == key {
                proof {
                    assert(self@[i as int].0 == code@);
                    assert(has_code(self@, code@));
                    let j = self.index_of(code@);
                    assert(0 <= j < self@.len() && self@[j].0 == code@);
                    assert(codes_unique(self@));
                    if j != i {
                        assert(self@[j].0 != self@[i as int].0);
                    }
                }
                return Some(&self.entries[i].1);
            }
            assert(self@[i as int].0 != code@);
            i += 1;
        }
        None
    }
}

/// Every code of the records appears exactly once in the ranking, with its
/// record, and every code of the ranking is a code of the records.
pub proof fn lemma_ranking_matches_records(d: &Dataset)
    requires
        d.wf(),
    ensures
        forall|i: int| 0 <= i < d@.len() ==> d.records().contains_key(#[trigger] d@[i].0)
            && d.records()[d@[i].0] == d@[i].1,
        forall|code: Seq<char>| #[trigger]
            d.records().contains_key(code) ==> exists|i: int|
                0 <= i < d@.len() && d@[i].0 == code && d@[i].1 == d.records()[code] && forall|
                    j: int,
                | 0 <= j < d@.len() && #[trigger] d@[j].0 == code ==> j == i,
{
    assert forall|i: int| 0 <= i < d@.len() implies d.records().contains_key(#[trigger] d@[i].0)
        && d.records()[d@[i].0] == d@[i].1 by {
        assert(has_code(d@, d@[i].0));
        let j = d.index_of(d@[i].0);
        assert(j == i);
    }
    assert forall|code: Seq<char>| #[trigger]
        d.records().contains_key(code) implies exists|i: int|
            0 <= i < d@.len() && d@[i].0 == code && d@[i].1 == d.records()[code] && forall|
                j: int,
            | 0 <= j < d@.len() && #[trigger] d@[j].0 == code ==> j == i by {
        let i = d.index_of(code);
        assert(0 <= i < d@.len() && d@[i].0 == code);
    }
}

} // verus!
