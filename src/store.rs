use vstd::prelude::*;

use crate::identity::Identity;
use crate::report::{all_decode, decoded, reported, VoteAccountStatus};
use crate::snapshot::{is_snapshot_of, stake_list, StakeData, StakeSummary, UpdateError};
use crate::stakes::total_of;

verus! {

/// How the owner of the registry is classified for admission.
#[derive(Clone, Copy, Debug, PartialEq, Eq, Structural)]
pub enum PeerType {
    Unstaked,
    Staked,
}

/// The owner's own stake together with the current summary.
#[derive(Clone, Copy, Debug, PartialEq, Eq, Structural)]
pub struct IdentityStakesData {
    pub peer_type: PeerType,
    pub stakes: u64,
    pub total_stakes: u64,
    pub min_stakes: u64,
    pub max_stakes: u64,
}

impl Default for IdentityStakesData {
    fn default() -> (r: IdentityStakesData)
        ensures
            r == (IdentityStakesData {
                peer_type: PeerType::Unstaked,
                stakes: 0,
                total_stakes: 0,
                min_stakes: 0,
                max_stakes: 0,
            }),
    {
        IdentityStakesData {
            peer_type: PeerType::Unstaked,
            stakes: 0,
            total_stakes: 0,
            min_stakes: 0,
            max_stakes: 0,
        }
    }
}

/// The stake registry: the owner's identity and the current snapshot, which
/// every successful update replaces as a whole.
#[derive(Debug)]
pub struct StakesStore {
    own_identity: Identity,
    data: StakeData,
}

impl StakesStore {
    /// The owner's identity bytes.
    pub closed spec fn own(self) -> Seq<u8> {
        self.own_identity@
    }

    /// The current snapshot.
    pub closed spec fn snapshot(self) -> StakeData {
        self.data
    }

    pub fn new(identity: Identity) -> (r: StakesStore)
        ensures
            r.own() == identity@,
            r.snapshot().entries() == Seq::<(Seq<u8>, u64)>::empty(),
            r.snapshot().ranked() == Seq::<(Seq<u8>, u64)>::empty(),
            r.snapshot().summary_view() == (StakeSummary {
                total_stakes: 0,
                min_stakes: 0,
                max_stakes: 0,
            }),
    {
        StakesStore { own_identity: identity, data: StakeData::empty() }
    }

    pub fn get_summary(&self) -> (r: StakeSummary)
        ensures
            r == self.snapshot().summary_view(),
    {
        self.data.summary()
    }

    /// The owner's stake and the summary when the mapping holds the owner;
    /// all zero and unstaked otherwise.
    pub fn get_identity_stakes(&self) -> (r: IdentityStakesData)
        ensures
            self.snapshot().stake_map().contains_key(self.own()) ==> r == (IdentityStakesData {
                peer_type: PeerType::Staked,
                stakes: self.snapshot().stake_map()[self.own()],
                total_stakes: self.snapshot().summary_view().total_stakes,
                min_stakes: self.snapshot().summary_view().min_stakes,
                max_stakes: self.snapshot().summary_view().max_stakes,
            }),
            !self.snapshot().stake_map().contains_key(self.own()) ==> r == (IdentityStakesData {
                peer_type: PeerType::Unstaked,
                stakes: 0,
                total_stakes: 0,
                min_stakes: 0,
                max_stakes: 0,
            }),
    {
        match self.data.stake_of(&self.own_identity) {
            Some(stake) => {
                let summary = self.data.summary();
                IdentityStakesData {
                    peer_type: PeerType::Staked,
                    stakes: stake,
                    total_stakes: summary.total_stakes,
                    min_stakes: summary.min_stakes,
                    max_stakes: summary.max_stakes,
                }
            },
            None => IdentityStakesData::default(),
        }
    }

    pub fn get_node_stake(&self, identity: &Identity) -> (r: Option<u64>)
        ensures
            r is Some <==> self.snapshot().stake_map().contains_key(identity@),
            r is Some ==> r->0 == self.snapshot().stake_map()[identity@],
    {
        self.data.stake_of(identity)
    }

    /// A copy of the mapping, each identity once.
    pub fn get_stake_per_node(&self) -> (r: Vec<(Identity, u64)>)
        ensures
            stake_list(r@) == self.snapshot().entries(),
    {
        self.data.entries_vec()
    }

    /// A copy of the ranked list.
    pub fn get_all_stakes_desc(&self) -> (r: Vec<(Identity, u64)>)
        ensures
            stake_list(r@) == self.snapshot().ranked(),
    {
        self.data.ranked_vec()
    }

    /// Replaces the snapshot with one built beforehand.
    pub fn replace_data(&mut self, data: StakeData)
        ensures
            final(self).own() == old(self).own(),
            final(self).snapshot() == data,
    {
        self.data = data;
    }

    /// Builds the snapshot of `report` and, only once it is complete,
    /// replaces the current one with it. On a failure nothing changes.
    pub fn update_stakes(&mut self, report: &VoteAccountStatus) -> (r: Result<(), UpdateError>)
        ensures
            r == Err::<(), UpdateError>(UpdateError::BadIdentity) <==> !all_decode(
                reported(*report),
            ),
            r == Err::<(), UpdateError>(UpdateError::StakeOverflow) <==> all_decode(
                reported(*report),
            ) && total_of(decoded(reported(*report))) > u64::MAX,
            r is Err ==> *final(self) == *old(self),
            r is Ok ==> final(self).own() == old(self).own() && is_snapshot_of(
                final(self).snapshot(),
                decoded(reported(*report)),
            ),
    {
        match StakeData::from_report(report) {
            Ok(data) => {
                self.data = data;
                Ok(())
            },
            Err(e) => Err(e),
        }
    }
}

} // verus!
