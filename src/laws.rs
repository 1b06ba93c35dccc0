use vstd::prelude::*;

use crate::report::{decoded, listed, reported, VoteAccountStatus};
use crate::snapshot::{is_snapshot_of, StakeData};
use crate::stakes::{
    has_key, is_desc, lemma_map_of_keys, lemma_ranking_unique, lemma_with_stake_has, lemma_with_stake_member, map_of,
    total_of, with_stake, StakeList,
};

verus! {

/// The summary's total is the sum of the stakes in the mapping that the
/// snapshot hands out.
pub proof fn total_is_sum_of_mapping(d: StakeData, recs: StakeList)
    requires
        is_snapshot_of(d, recs),
    ensures
        d.summary_view().total_stakes == total_of(d.entries()),
{
}

/// The ranked list of a report never grows in stake, and the records of one
/// stake keep the order of the report: current participants first, then
/// delinquent ones.
pub proof fn ranking_is_stable(report: VoteAccountStatus, d: StakeData)
    requires
        is_snapshot_of(d, decoded(reported(report))),
    ensures
        is_desc(d.ranked()),
        forall|v: u64|
            #[trigger] with_stake(d.ranked(), v) == with_stake(decoded(listed(report.current@)), v)
                + with_stake(decoded(listed(report.delinquent@)), v),
{
    broadcast use Seq::filter_distributes_over_add;

    let c = decoded(listed(report.current@));
    let l = decoded(listed(report.delinquent@));
    assert(decoded(reported(report)) =~= c + l);
}

/// A report with no participants gives an empty mapping, an empty ranked
/// list and a summary of zeros.
pub proof fn empty_report_gives_empty_snapshot(report: VoteAccountStatus, d: StakeData)
    requires
        report.current@.len() == 0,
        report.delinquent@.len() == 0,
        is_snapshot_of(d, decoded(reported(report))),
    ensures
        d.entries().len() == 0,
        d.ranked().len() == 0,
        d.summary_view().total_stakes == 0,
        d.summary_view().min_stakes == 0,
        d.summary_view().max_stakes == 0,
{
    let recs = decoded(reported(report));
    assert(recs.len() == 0);
    let r = d.ranked();
    if r.len() > 0 {
        let v = r[0].1;
        lemma_with_stake_has(r, 0);
        assert(with_stake(r, v) == with_stake(recs, v));
        reveal(Seq::filter);
        assert(with_stake(recs, v).len() == 0);
        assert(false);
    }
    let e = d.entries();
    if e.len() > 0 {
        lemma_map_of_keys(e);
        lemma_map_of_keys(r);
        assert(has_key(e, e[0].0));
        assert(map_of(e).contains_key(e[0].0));
    }
}

/// An identity that a report does not name has no stake in its snapshot.
pub proof fn unreported_identity_is_absent(report: VoteAccountStatus, d: StakeData, id: Seq<u8>)
    requires
        is_snapshot_of(d, decoded(reported(report))),
        forall|i: int|
            0 <= i < decoded(reported(report)).len() ==> (#[trigger] decoded(reported(report))[i]).0
                != id,
    ensures
        !d.stake_map().contains_key(id),
{
    let recs = decoded(reported(report));
    let r = d.ranked();
    lemma_map_of_keys(d.entries());
    lemma_map_of_keys(r);
    if d.stake_map().contains_key(id) {
        assert(has_key(r, id));
        let i = choose|i: int| 0 <= i < r.len() && r[i].0 == id;
        let v = r[i].1;
        lemma_with_stake_has(r, i);
        assert(with_stake(r, v) == with_stake(recs, v));
        lemma_with_stake_member(recs, v, r[i]);
        let j = choose|j: int| 0 <= j < recs.len() && recs[j] == r[i];
        assert(recs[j].0 == id);
    }
}

/// Two snapshots of the same records have the same ranked list and the same
/// mapping: what an update installs is determined by the report alone.
pub proof fn snapshot_is_determined(recs: StakeList, d1: StakeData, d2: StakeData)
    requires
        is_snapshot_of(d1, recs),
        is_snapshot_of(d2, recs),
    ensures
        d1.ranked() == d2.ranked(),
        d1.stake_map() == d2.stake_map(),
{
    assert forall|v: u64| #[trigger] with_stake(d1.ranked(), v) == with_stake(d2.ranked(), v) by {
        assert(with_stake(d1.ranked(), v) == with_stake(recs, v));
        assert(with_stake(d2.ranked(), v) == with_stake(recs, v));
    }
    lemma_ranking_unique(d1.ranked(), d2.ranked());
}

} // verus!
