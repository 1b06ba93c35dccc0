use vstd::prelude::*;

use crate::identity::{pubkey_from_str, Identity};
use crate::snapshot::{is_snapshot_of, stake_list, StakeData, UpdateError};
use crate::stakes::{total_of, StakeList};

verus! {

/// One participant of a stake report: its identity as base-58 text and its
/// activated stake.
#[derive(Clone, Debug)]
pub struct VoteAccountInfo {
    pub node_pubkey: String,
    pub activated_stake: u64,
}

/// A stake report: the current participants, then the delinquent ones.
#[derive(Clone, Debug)]
pub struct VoteAccountStatus {
    pub current: Vec<VoteAccountInfo>,
    pub delinquent: Vec<VoteAccountInfo>,
}

/// The (identity text, stake) pairs of a list of participants.
pub open spec fn listed(v: Seq<VoteAccountInfo>) -> Seq<(Seq<char>, u64)> {
    v.map_values(|a: VoteAccountInfo| (a.node_pubkey@, a.activated_stake))
}

/// The pairs of a report, current participants first.
pub open spec fn reported(st: VoteAccountStatus) -> Seq<(Seq<char>, u64)> {
    listed(st.current@) + listed(st.delinquent@)
}

/// Every identity text decodes.
pub open spec fn all_decode(recs: Seq<(Seq<char>, u64)>) -> bool {
    forall|i: int| 0 <= i < recs.len() ==> (#[trigger] pubkey_from_str(recs[i].0)) is Some
}

/// The pairs with each identity text replaced by its bytes.
pub open spec fn decoded(recs: Seq<(Seq<char>, u64)>) -> StakeList {
    recs.map_values(|r: (Seq<char>, u64)| (pubkey_from_str(r.0)->0, r.1))
}

/// Decodes the identities of `list` onto the end of `out`; on a failure
/// returns false, `out` then holding some of them.
fn decode_onto(list: &Vec<VoteAccountInfo>, out: &mut Vec<(Identity, u64)>) -> (r: bool)
    ensures
        r == all_decode(listed(list@)),
        r ==> stake_list(final(out)@) == stake_list(old(out)@) + decoded(listed(list@)),
{
    let ghost l = listed(list@);
    let ghost start = stake_list(out@);
    let mut i: usize = 0;
    while i < list.len()
        invariant
            i <= list.len(),
            l == listed(list@),
            forall|j: int| 0 <= j < i ==> (#[trigger] pubkey_from_str(l[j].0)) is Some,
            stake_list(out@) == start + decoded(l.take(i as int)),
        decreases list.len() - i,
    {
        let info = &list[i];
        match Identity::parse(info.node_pubkey.as_str()) {
            Some(id) => {
                let ghost before = stake_list(out@);
                out.push((id, info.activated_stake));
                proof {
                    assert(l[i as int] == (info.node_pubkey@, info.activated_stake));
                    assert(decoded(l.take(i as int + 1)) =~= decoded(l.take(i as int)).push(
                        (id@, info.activated_stake),
                    ));
                    assert(stake_list(out@) =~= before.push((id@, info.activated_stake)));
                }
                i = i + 1;
            },
            None => {
                proof {
                    assert(l[i as int].0 == info.node_pubkey@);
                }
                return false;
            },
        }
    }
    proof {
        assert(l.take(i as int) =~= l);
    }
    true
}

impl StakeData {
    /// Builds the snapshot of a report. Fails when an identity does not
    /// decode, and otherwise when the stakes add up to more than a `u64` holds.
    pub fn from_report(report: &VoteAccountStatus) -> (r: Result<StakeData, UpdateError>)
        ensures
            r == Err::<StakeData, UpdateError>(UpdateError::BadIdentity) <==> !all_decode(
                reported(*report),
            ),
            r == Err::<StakeData, UpdateError>(UpdateError::StakeOverflow) <==> all_decode(
                reported(*report),
            ) && total_of(decoded(reported(*report))) > u64::MAX,
            r is Ok ==> is_snapshot_of(r->Ok_0, decoded(reported(*report))),
    {
        let ghost c = listed(report.current@);
        let ghost d = listed(report.delinquent@);
        let mut records: Vec<(Identity, u64)> = Vec::new();
        let ok_current = decode_onto(&report.current, &mut records);
        if !ok_current {
            proof {
                let i = choose|i: int| 0 <= i < c.len() && !(pubkey_from_str(c[i].0) is Some);
                assert(reported(*report)[i] == c[i]);
            }
            return Err(UpdateError::BadIdentity);
        }
        let ok_delinquent = decode_onto(&report.delinquent, &mut records);
        if !ok_delinquent {
            proof {
                let i = choose|i: int| 0 <= i < d.len() && !(pubkey_from_str(d[i].0) is Some);
                assert(reported(*report)[c.len() + i] == d[i]);
            }
            return Err(UpdateError::BadIdentity);
        }
        proof {
            assert forall|i: int| 0 <= i < reported(*report).len() implies (#[trigger] pubkey_from_str(
                reported(*report)[i].0,
            )) is Some by {
                if i < c.len() {
                    assert(reported(*report)[i] == c[i]);
                } else {
                    assert(reported(*report)[i] == d[i - c.len()]);
                }
            }
        }
        proof {
            assert(stake_list(records@) =~= decoded(reported(*report)));
        }
        StakeData::from_records(&records)
    }
}

} // verus!
