use vstd::prelude::*;

use crate::identity::Identity;
use crate::stakes::{
    has_key, has_unique_keys, is_desc, is_stable_desc_of, lemma_insert_ranked, lemma_map_of_keys,
    lemma_map_of_update, lemma_map_of_value, lemma_total_take, lemma_total_update, map_of,
    total_of, with_stake, StakeList,
};

verus! {

/// The view of a list of records: identity bytes and stake.
pub open spec fn stake_list(s: Seq<(Identity, u64)>) -> StakeList {
    s.map_values(|r: (Identity, u64)| (r.0@, r.1))
}

/// Aggregate of a stake mapping.
#[derive(Clone, Copy, Debug, PartialEq, Eq, Structural)]
pub struct StakeSummary {
    pub total_stakes: u64,
    pub min_stakes: u64,
    pub max_stakes: u64,
}

impl Default for StakeSummary {
    fn default() -> (r: StakeSummary)
        ensures
            r.total_stakes == 0,
            r.min_stakes == 0,
            r.max_stakes == 0,
    {
        StakeSummary { total_stakes: 0, min_stakes: 0, max_stakes: 0 }
    }
}

/// `m` is the summary of the mapping whose pairs are `s`: the sum of its
/// stakes, its least and its greatest stake, all three 0 when it is empty.
pub open spec fn is_summary_of(m: StakeSummary, s: StakeList) -> bool {
    &&& m.total_stakes == total_of(s)
    &&& s.len() == 0 ==> m.min_stakes == 0 && m.max_stakes == 0
    &&& s.len() > 0 ==> {
        &&& exists|i: int| 0 <= i < s.len() && s[i].1 == m.min_stakes
        &&& exists|i: int| 0 <= i < s.len() && s[i].1 == m.max_stakes
        &&& forall|i: int| 0 <= i < s.len() ==> m.min_stakes <= #[trigger] s[i].1 <= m.max_stakes
    }
}

/// Why a report was not taken.
#[derive(Clone, Copy, Debug, PartialEq, Eq, Structural)]
pub enum UpdateError {
    /// An identity in the report is not valid base-58 for 32 bytes.
    BadIdentity,
    /// The stakes of the report add up to more than a `u64` holds.
    StakeOverflow,
}

/// The three views of one report: the mapping, the ranked list, the summary.
pub open spec fn is_consistent(entries: StakeList, ranked: StakeList, summary: StakeSummary) -> bool {
    &&& is_desc(ranked)
    &&& has_unique_keys(entries)
    &&& map_of(entries) == map_of(ranked)
    &&& is_summary_of(summary, entries)
}

/// `d` is the snapshot of the records `recs`: its ranked list is `recs`
/// ranked by stake, its mapping collects the ranked list, its summary sums
/// the mapping up.
pub open spec fn is_snapshot_of(d: StakeData, recs: StakeList) -> bool {
    &&& is_stable_desc_of(d.ranked(), recs)
    &&& is_consistent(d.entries(), d.ranked(), d.summary_view())
}

/// One consistent snapshot of the stake distribution.
#[derive(Debug)]
pub struct StakeData {
    identity_to_stake: Vec<(Identity, u64)>,
    stakes_desc: Vec<(Identity, u64)>,
    summary: StakeSummary,
}

impl StakeData {
    #[verifier::type_invariant]
    spec fn inv(self) -> bool {
        is_consistent(stake_list(self.identity_to_stake@), stake_list(self.stakes_desc@), self.summary)
    }

    /// The pairs of the identity-to-stake mapping, each identity once.
    pub closed spec fn entries(self) -> StakeList {
        stake_list(self.identity_to_stake@)
    }

    /// The records ranked by stake, largest first.
    pub closed spec fn ranked(self) -> StakeList {
        stake_list(self.stakes_desc@)
    }

    pub closed spec fn summary_view(self) -> StakeSummary {
        self.summary
    }

    /// The identity-to-stake mapping.
    pub open spec fn stake_map(self) -> Map<Seq<u8>, u64> {
        map_of(self.entries())
    }

    /// The snapshot of no stakes at all.
    pub fn empty() -> (r: StakeData)
        ensures
            r.entries() == Seq::<(Seq<u8>, u64)>::empty(),
            r.ranked() == Seq::<(Seq<u8>, u64)>::empty(),
            r.summary_view() == (StakeSummary { total_stakes: 0, min_stakes: 0, max_stakes: 0 }),
    {
        let r = StakeData {
            identity_to_stake: Vec::new(),
            stakes_desc: Vec::new(),
            summary: StakeSummary { total_stakes: 0, min_stakes: 0, max_stakes: 0 },
        };
        assert(stake_list(r.identity_to_stake@) =~= Seq::empty());
        assert(stake_list(r.stakes_desc@) =~= Seq::empty());
        r
    }

    /// Builds the snapshot of parsed records: ranked by stake, largest
    /// first, equal stakes in their given order; the mapping keeps, for an
    /// identity that occurs twice, the stake that comes last in the ranking.
    /// Fails when the stakes add up to more than a `u64` holds.
    pub fn from_records(records: &Vec<(Identity, u64)>) -> (r: Result<StakeData, UpdateError>)
        ensures
            r is Err <==> total_of(stake_list(records@)) > u64::MAX,
            r is Err ==> r->Err_0 == UpdateError::StakeOverflow,
            r is Ok ==> is_snapshot_of(r->Ok_0, stake_list(records@)),
    {
        if checked_total(records).is_none() {
            return Err(UpdateError::StakeOverflow);
        }
        let stakes_desc = sort_by_stake_desc(records);
        let identity_to_stake = collect_mapping(&stakes_desc);
        let summary = summarize(&identity_to_stake);
        Ok(StakeData { identity_to_stake, stakes_desc, summary })
    }

    pub fn summary(&self) -> (r: StakeSummary)
        ensures
            r == self.summary_view(),
    {
        self.summary
    }

    /// The stake of `identity`, if the mapping holds it.
    pub fn stake_of(&self, identity: &Identity) -> (r: Option<u64>)
        ensures
            r is Some <==> self.stake_map().contains_key(identity@),
            r is Some ==> r->0 == self.stake_map()[identity@],
    {
        proof {
            use_type_invariant(self);
            lemma_map_of_keys(self.entries());
        }
        match position_of(&self.identity_to_stake, identity) {
            Some(k) => {
                proof {
                    lemma_map_of_value(self.entries(), k as int);
                }
                Some(self.identity_to_stake[k].1)
            },
            None => {
                proof {
                    assert(!has_key(self.entries(), identity@));
                }
                None
            },
        }
    }

    /// A copy of the mapping's pairs, each identity once.
    pub fn entries_vec(&self) -> (r: Vec<(Identity, u64)>)
        ensures
            stake_list(r@) == self.entries(),
    {
        copy_records(&self.identity_to_stake)
    }

    /// A copy of the ranked records.
    pub fn ranked_vec(&self) -> (r: Vec<(Identity, u64)>)
        ensures
            stake_list(r@) == self.ranked(),
    {
        copy_records(&self.stakes_desc)
    }
}

fn copy_records(v: &Vec<(Identity, u64)>) -> (r: Vec<(Identity, u64)>)
    ensures
        r@ == v@,
{
    let mut r: Vec<(Identity, u64)> = Vec::new();
    let mut i: usize = 0;
    while i < v.len()
        invariant
            i <= v.len(),
            r@ == v@.take(i as int),
        decreases v.len() - i,
    {
        r.push(v[i]);
        i = i + 1;
        proof {
            assert(r@ =~= v@.take(i as int));
        }
    }
    proof {
        assert(v@.take(i as int) =~= v@);
    }
    r
}

/// The sum of the stakes, if it fits in a `u64`.
fn checked_total(records: &Vec<(Identity, u64)>) -> (r: Option<u64>)
    ensures
        r is Some <==> total_of(stake_list(records@)) <= u64::MAX,
        r is Some ==> r->0 == total_of(stake_list(records@)),
{
    let ghost s = stake_list(records@);
    let mut total: u64 = 0;
    let mut i: usize = 0;
    while i < records.len()
        invariant
            i <= records.len(),
            s == stake_list(records@),
            total == total_of(s.take(i as int)),
        decreases records.len() - i,
    {
        proof {
            lemma_total_take(s, i as int);
            lemma_total_take(s, i as int + 1);
        }
        match total.checked_add(records[i].1) {
            Some(t) => total = t,
            None => return None,
        }
        i = i + 1;
    }
    proof {
        assert(s.take(i as int) =~= s);
    }
    Some(total)
}

/// The records ranked by stake, largest first; a record goes after every
/// earlier one whose stake is not below its own, so equal stakes keep their order.
fn sort_by_stake_desc(records: &Vec<(Identity, u64)>) -> (r: Vec<(Identity, u64)>)
    ensures
        is_stable_desc_of(stake_list(r@), stake_list(records@)),
        total_of(stake_list(r@)) == total_of(stake_list(records@)),
{
    broadcast use Seq::lemma_filter_push;

    let ghost s = stake_list(records@);
    let mut r: Vec<(Identity, u64)> = Vec::new();
    let mut i: usize = 0;
    proof {
        assert(stake_list(r@) =~= s.take(0));
    }
    while i < records.len()
        invariant
            i <= records.len(),
            s == stake_list(records@),
            is_desc(stake_list(r@)),
            forall|v: u64| #[trigger] with_stake(stake_list(r@), v) == with_stake(s.take(i as int), v),
            total_of(stake_list(r@)) == total_of(s.take(i as int)),
        decreases records.len() - i,
    {
        let x = records[i];
        let p = insert_position(&r, x.1);
        let ghost before = stake_list(r@);
        let ghost y = (x.0@, x.1);
        proof {
            lemma_insert_ranked(before, p as int, y);
            lemma_total_take(s, i as int);
            assert(s[i as int] == y);
            assert(s.take(i as int + 1) =~= s.take(i as int).push(y));
            assert forall|v: u64| #[trigger] with_stake(before.insert(p as int, y), v) == with_stake(s.take(i as int + 1), v) by {
                let t = s.take(i as int);
                assert(with_stake(before, v) == with_stake(t, v));
                t.lemma_filter_push(y, |e: (Seq<u8>, u64)| e.1 == v);
                assert(with_stake(t.push(y), v) == if v == y.1 {
                    with_stake(t, v).push(y)
                } else {
                    with_stake(t, v)
                });
            }
        }
        r.insert(p, x);
        proof {
            assert(stake_list(r@) =~= before.insert(p as int, y));
        }
        i = i + 1;
    }
    proof {
        assert(s.take(i as int) =~= s);
    }
    r
}

/// The first place in a descending list whose stake is below `stake`.
fn insert_position(r: &Vec<(Identity, u64)>, stake: u64) -> (p: usize)
    requires
        is_desc(stake_list(r@)),
    ensures
        p <= r.len(),
        forall|k: int| 0 <= k < p ==> stake_list(r@)[k].1 >= stake,
        forall|k: int| p <= k < r.len() ==> stake_list(r@)[k].1 < stake,
{
    let ghost s = stake_list(r@);
    let mut p: usize = 0;
    while p < r.len() && r[p].1 >= stake
        invariant
            p <= r.len(),
            s == stake_list(r@),
            is_desc(s),
            forall|k: int| 0 <= k < p ==> s[k].1 >= stake,
        decreases r.len() - p,
    {
        p = p + 1;
    }
    proof {
        if p < r.len() {
            assert(s[p as int].1 < stake);
        }
    }
    p
}

/// Where `identity` stands in the list, if it does.
fn position_of(r: &Vec<(Identity, u64)>, identity: &Identity) -> (k: Option<usize>)
    ensures
        k is Some ==> k->0 < r.len() && stake_list(r@)[k->0 as int].0 == identity@,
        k is None ==> forall|j: int| 0 <= j < r.len() ==> stake_list(r@)[j].0 != identity@,
{
    let mut k: usize = 0;
    while k < r.len()
        invariant
            k <= r.len(),
            forall|j: int| 0 <= j < k ==> stake_list(r@)[j].0 != identity@,
        decreases r.len() - k,
    {
        if r[k].0.same_as(identity) {
            return Some(k);
        }
        k = k + 1;
    }
    None
}

/// The mapping that the ranked records give, each identity once, holding
/// the stake of its last record.
fn collect_mapping(ranked: &Vec<(Identity, u64)>) -> (r: Vec<(Identity, u64)>)
    ensures
        has_unique_keys(stake_list(r@)),
        map_of(stake_list(r@)) == map_of(stake_list(ranked@)),
        total_of(stake_list(r@)) <= total_of(stake_list(ranked@)),
{
    let ghost s = stake_list(ranked@);
    let mut r: Vec<(Identity, u64)> = Vec::new();
    let mut i: usize = 0;
    proof {
        assert(stake_list(r@) =~= s.take(0));
    }
    while i < ranked.len()
        invariant
            i <= ranked.len(),
            s == stake_list(ranked@),
            has_unique_keys(stake_list(r@)),
            map_of(stake_list(r@)) == map_of(s.take(i as int)),
            total_of(stake_list(r@)) <= total_of(s.take(i as int)),
        decreases ranked.len() - i,
    {
        let x = ranked[i];
        let ghost before = stake_list(r@);
        let ghost y = (x.0@, x.1);
        proof {
            lemma_total_take(s, i as int);
            assert(s.take(i as int + 1).drop_last() =~= s.take(i as int));
        }
        match position_of(&r, &x.0) {
            Some(k) => {
                proof {
                    lemma_map_of_update(before, k as int, y);
                    lemma_total_update(before, k as int, y);
                }
                r.set(k, x);
                proof {
                    assert(stake_list(r@) =~= before.update(k as int, y));
                }
            },
            None => {
                r.push(x);
                proof {
                    assert(stake_list(r@) =~= before.push(y));
                    assert(stake_list(r@).drop_last() =~= before);
                }
            },
        }
        i = i + 1;
    }
    proof {
        assert(s.take(i as int) =~= s);
    }
    r
}

/// Sum, least and greatest stake of the pairs.
fn summarize(entries: &Vec<(Identity, u64)>) -> (r: StakeSummary)
    requires
        total_of(stake_list(entries@)) <= u64::MAX,
    ensures
        is_summary_of(r, stake_list(entries@)),
{
    let ghost s = stake_list(entries@);
    if entries.len() == 0 {
        return StakeSummary { total_stakes: 0, min_stakes: 0, max_stakes: 0 };
    }
    let mut total: u64 = 0;
    let mut min: u64 = entries[0].1;
    let mut max: u64 = entries[0].1;
    let mut i: usize = 0;
    proof {
        assert(s[0].1 == min);
    }
    while i < entries.len()
        invariant
            0 < entries.len(),
            i <= entries.len(),
            s == stake_list(entries@),
            total_of(s) <= u64::MAX,
            total == total_of(s.take(i as int)),
            exists|j: int| 0 <= j < s.len() && s[j].1 == min,
            exists|j: int| 0 <= j < s.len() && s[j].1 == max,
            forall|j: int| 0 <= j < i ==> min <= #[trigger] s[j].1 <= max,
            min <= s[0].1 <= max,
        decreases entries.len() - i,
    {
        proof {
            lemma_total_take(s, i as int);
            lemma_total_take(s, i as int + 1);
            lemma_total_take(s.take(i as int + 1), i as int);
        }
        let v = entries[i].1;
        total = total + v;
        if v < min {
            min = v;
        }
        if v > max {
            max = v;
        }
        i = i + 1;
    }
    proof {
        assert(s.take(i as int) =~= s);
    }
    StakeSummary { total_stakes: total, min_stakes: min, max_stakes: max }
}

} // verus!
