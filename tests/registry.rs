use stakes_store::identity::Identity;
use stakes_store::report::{VoteAccountInfo, VoteAccountStatus};
use stakes_store::snapshot::{StakeData, StakeSummary, UpdateError};
use stakes_store::store::{IdentityStakesData, PeerType, StakesStore};

const ZERO_KEY: &str = "11111111111111111111111111111111";
const KEY_A: &str = "Vote111111111111111111111111111111111111111";
const KEY_B: &str = "Stake11111111111111111111111111111111111111";
const KEY_C: &str = "Config1111111111111111111111111111111111111";
const KEY_D: &str = "SysvarC1ock11111111111111111111111111111111";

fn id(s: &str) -> Identity {
    Identity::parse(s).expect("valid key")
}

fn info(key: &str, stake: u64) -> VoteAccountInfo {
    VoteAccountInfo { node_pubkey: key.to_string(), activated_stake: stake }
}

fn report(current: Vec<(&str, u64)>, delinquent: Vec<(&str, u64)>) -> VoteAccountStatus {
    VoteAccountStatus {
        current: current.into_iter().map(|(k, s)| info(k, s)).collect(),
        delinquent: delinquent.into_iter().map(|(k, s)| info(k, s)).collect(),
    }
}

fn summary(total: u64, min: u64, max: u64) -> StakeSummary {
    StakeSummary { total_stakes: total, min_stakes: min, max_stakes: max }
}

#[test]
fn parse_decodes_base58() {
    assert_eq!(id(ZERO_KEY).to_bytes(), [0u8; 32]);
    let a = id(KEY_A).to_bytes();
    assert_ne!(a, [0u8; 32]);
    assert_ne!(id(KEY_A), id(KEY_B));
    assert_eq!(Identity::new_from_array(a), id(KEY_A));
}

#[test]
fn parse_rejects_bad_text() {
    assert!(Identity::parse("not-base58!").is_none());
    assert!(Identity::parse("0OIl").is_none());
    assert!(Identity::parse("").is_none());
    let long = "1".repeat(45);
    assert!(Identity::parse(&long).is_none());
}

#[test]
fn new_store_is_empty() {
    let store = StakesStore::new(id(KEY_A));
    assert_eq!(store.get_summary(), summary(0, 0, 0));
    assert!(store.get_stake_per_node().is_empty());
    assert!(store.get_all_stakes_desc().is_empty());
    assert_eq!(store.get_node_stake(&id(KEY_A)), None);
}

#[test]
fn example_ranking_and_summary() {
    let mut store = StakesStore::new(id(KEY_D));
    let r = report(vec![(KEY_A, 100), (KEY_B, 300)], vec![(KEY_C, 300)]);
    assert_eq!(store.update_stakes(&r), Ok(()));
    assert_eq!(
        store.get_all_stakes_desc(),
        vec![(id(KEY_B), 300), (id(KEY_C), 300), (id(KEY_A), 100)]
    );
    assert_eq!(store.get_summary(), summary(700, 100, 300));
}

#[test]
fn total_is_sum_of_mapping() {
    let mut store = StakesStore::new(id(KEY_D));
    let r = report(vec![(KEY_A, 5), (KEY_B, 7)], vec![(KEY_C, 11), (KEY_D, 13)]);
    assert_eq!(store.update_stakes(&r), Ok(()));
    let sum: u64 = store.get_stake_per_node().iter().map(|(_, s)| *s).sum();
    assert_eq!(store.get_summary().total_stakes, sum);
    assert_eq!(sum, 36);
}

#[test]
fn equal_stakes_keep_report_order() {
    let mut store = StakesStore::new(id(KEY_D));
    let r = report(vec![(KEY_C, 50), (KEY_A, 10)], vec![(KEY_B, 50), (KEY_D, 80)]);
    assert_eq!(store.update_stakes(&r), Ok(()));
    let ranked = store.get_all_stakes_desc();
    assert_eq!(ranked, vec![(id(KEY_D), 80), (id(KEY_C), 50), (id(KEY_B), 50), (id(KEY_A), 10)]);
    for w in ranked.windows(2) {
        assert!(w[0].1 >= w[1].1);
    }
}

#[test]
fn empty_report_gives_zeros() {
    let mut store = StakesStore::new(id(KEY_A));
    assert_eq!(store.update_stakes(&report(vec![(KEY_A, 9)], vec![])), Ok(()));
    assert_eq!(store.update_stakes(&report(vec![], vec![])), Ok(()));
    assert_eq!(store.get_summary(), summary(0, 0, 0));
    assert!(store.get_stake_per_node().is_empty());
    assert!(store.get_all_stakes_desc().is_empty());
}

#[test]
fn malformed_identity_keeps_snapshot() {
    let mut store = StakesStore::new(id(KEY_A));
    let good = report(vec![(KEY_A, 100), (KEY_B, 300)], vec![(KEY_C, 300)]);
    assert_eq!(store.update_stakes(&good), Ok(()));
    let before_ranked = store.get_all_stakes_desc();
    let before_map = store.get_stake_per_node();
    let before_summary = store.get_summary();
    let bad = report(vec![(KEY_D, 1000)], vec![("bad identity", 5)]);
    assert_eq!(store.update_stakes(&bad), Err(UpdateError::BadIdentity));
    assert_eq!(store.get_all_stakes_desc(), before_ranked);
    assert_eq!(store.get_stake_per_node(), before_map);
    assert_eq!(store.get_summary(), before_summary);
    assert_eq!(store.get_node_stake(&id(KEY_D)), None);
}

#[test]
fn overflowing_total_is_refused() {
    let mut store = StakesStore::new(id(KEY_A));
    let r = report(vec![(KEY_A, u64::MAX)], vec![(KEY_B, 1)]);
    assert_eq!(store.update_stakes(&r), Err(UpdateError::StakeOverflow));
    assert_eq!(store.get_summary(), summary(0, 0, 0));
    let fits = report(vec![(KEY_A, u64::MAX - 1)], vec![(KEY_B, 1)]);
    assert_eq!(store.update_stakes(&fits), Ok(()));
    assert_eq!(store.get_summary(), summary(u64::MAX, 1, u64::MAX - 1));
}

#[test]
fn unknown_identity_has_no_stake() {
    let mut store = StakesStore::new(id(KEY_A));
    let r = report(vec![(KEY_A, 100)], vec![(KEY_B, 300)]);
    assert_eq!(store.update_stakes(&r), Ok(()));
    assert_eq!(store.get_node_stake(&id(KEY_C)), None);
    assert_eq!(store.get_node_stake(&id(KEY_B)), Some(300));
}

#[test]
fn duplicate_identity_keeps_last_ranked() {
    let mut store = StakesStore::new(id(KEY_A));
    let r = report(vec![(KEY_A, 10), (KEY_B, 20)], vec![(KEY_A, 30)]);
    assert_eq!(store.update_stakes(&r), Ok(()));
    assert_eq!(
        store.get_all_stakes_desc(),
        vec![(id(KEY_A), 30), (id(KEY_B), 20), (id(KEY_A), 10)]
    );
    assert_eq!(store.get_node_stake(&id(KEY_A)), Some(10));
    assert_eq!(store.get_stake_per_node().len(), 2);
    assert_eq!(store.get_summary(), summary(30, 10, 20));
}

#[test]
fn own_stake_info_when_staked() {
    let mut store = StakesStore::new(id(KEY_B));
    let r = report(vec![(KEY_A, 100), (KEY_B, 300)], vec![(KEY_C, 200)]);
    assert_eq!(store.update_stakes(&r), Ok(()));
    assert_eq!(
        store.get_identity_stakes(),
        IdentityStakesData {
            peer_type: PeerType::Staked,
            stakes: 300,
            total_stakes: 600,
            min_stakes: 100,
            max_stakes: 300,
        }
    );
}

#[test]
fn own_stake_info_when_zero_stake() {
    let mut store = StakesStore::new(id(KEY_B));
    let r = report(vec![(KEY_A, 100), (KEY_B, 0)], vec![]);
    assert_eq!(store.update_stakes(&r), Ok(()));
    let info = store.get_identity_stakes();
    assert_eq!(info.peer_type, PeerType::Staked);
    assert_eq!(info.stakes, 0);
    assert_eq!(info.total_stakes, 100);
}

#[test]
fn own_stake_info_when_absent() {
    let mut store = StakesStore::new(id(KEY_D));
    let r = report(vec![(KEY_A, 100)], vec![]);
    assert_eq!(store.update_stakes(&r), Ok(()));
    assert_eq!(store.get_identity_stakes(), IdentityStakesData::default());
    assert_eq!(store.get_identity_stakes().peer_type, PeerType::Unstaked);
}

#[test]
fn snapshot_built_apart_then_installed() {
    let mut store = StakesStore::new(id(KEY_A));
    let r = report(vec![(KEY_A, 4)], vec![(KEY_B, 6)]);
    let data = StakeData::from_report(&r).expect("valid report");
    assert_eq!(data.summary(), summary(10, 4, 6));
    store.replace_data(data);
    assert_eq!(store.get_node_stake(&id(KEY_A)), Some(4));
    assert_eq!(store.get_summary(), summary(10, 4, 6));
}

#[test]
fn from_records_ranks_parsed_records() {
    let recs = vec![(id(KEY_A), 1), (id(KEY_B), 3), (id(KEY_C), 2)];
    let data = StakeData::from_records(&recs).expect("fits");
    assert_eq!(data.ranked_vec(), vec![(id(KEY_B), 3), (id(KEY_C), 2), (id(KEY_A), 1)]);
    assert_eq!(data.stake_of(&id(KEY_C)), Some(2));
    assert_eq!(data.entries_vec().len(), 3);
    let too_big = vec![(id(KEY_A), u64::MAX), (id(KEY_B), u64::MAX)];
    assert!(matches!(StakeData::from_records(&too_big), Err(UpdateError::StakeOverflow)));
}
