use eth_msgs::eth_msg::{
    merge_update, EthMsg, EthMsgUpdate, MergeError, MergeOutcome, MultiSignedEthEvent,
};
use eth_msgs::voting_power::{Quorum, VOTING_POWER_SCALE};

const A: u64 = 1;
const B: u64 = 2;
const C: u64 = 3;

fn event_e() -> Vec<u8> {
    vec![7, 0, 0, 0, 42]
}

fn two_thirds() -> Quorum {
    Quorum { numer: 2, denom: 3 }
}

/// A(0.4), B(0.3), C(0.3).
fn weights() -> Vec<(u64, u64)> {
    vec![(A, 400_000_000), (B, 300_000_000), (C, 300_000_000)]
}

fn update(signers: Vec<(u64, u64)>) -> EthMsgUpdate {
    EthMsgUpdate::from_multi_signed(MultiSignedEthEvent { event: event_e(), signers })
}

fn apply(record: &EthMsg, u: &EthMsgUpdate) -> MergeOutcome {
    record.merge(u, &weights(), &two_thirds()).unwrap()
}

#[test]
fn test_from_multi_signed_eth_event_for_eth_msg_update() {
    let sole_validator: u64 = 1;
    let event = vec![1u8, 2, 3, 4];
    let with_signers = MultiSignedEthEvent {
        event: event.clone(),
        signers: vec![(sole_validator, 100)],
    };
    let expected = EthMsgUpdate { body: event, seen_by: vec![(sole_validator, 100)] };

    let update = EthMsgUpdate::from_multi_signed(with_signers);

    assert_eq!(update, expected);
}

#[test]
fn from_multi_signed_sorts_and_dedups_signers() {
    let u = update(vec![(3, 5), (1, 9), (3, 2), (1, 9), (2, 1)]);
    assert_eq!(u.seen_by, vec![(1, 9), (2, 1), (3, 2), (3, 5)]);
    assert_eq!(u.body, event_e());
}

#[test]
fn scenario_three_separate_deltas_in_order_c_a_b() {
    assert_eq!(VOTING_POWER_SCALE, 1_000_000_000);
    let start = EthMsg::unseen(event_e());
    let dc = update(vec![(C, 10)]);
    let da = update(vec![(A, 11)]);
    let db = update(vec![(B, 12)]);

    let after_c = apply(&start, &dc);
    assert_eq!(after_c.record.voting_power, 300_000_000);
    assert!(!after_c.record.seen);
    assert!(!after_c.became_final);

    let after_a = apply(&after_c.record, &da);
    assert_eq!(after_a.record.voting_power, 700_000_000);
    assert!(after_a.record.seen);
    assert!(after_a.became_final);

    let after_b = apply(&after_a.record, &db);
    assert_eq!(after_b.record.voting_power, 1_000_000_000);
    assert!(after_b.record.seen);
    assert!(!after_b.became_final);
    assert_eq!(after_b.record.seen_by, vec![A, B, C]);

    let again_c = apply(&after_b.record, &dc);
    assert_eq!(again_c.added_power, 0);
    assert_eq!(again_c.record.voting_power, after_b.record.voting_power);
    assert_eq!(again_c.record.seen_by, after_b.record.seen_by);
    assert!(again_c.record.seen);
}

#[test]
fn scenario_bundled_delta_matches_separate_deltas() {
    let start = EthMsg::unseen(event_e());
    let bundled = update(vec![(A, 5), (B, 5)]);
    let only_a = update(vec![(A, 5)]);
    let only_b = update(vec![(B, 5)]);

    let x = apply(&apply(&start, &bundled).record, &only_a).record;
    let y = apply(&apply(&start, &only_a).record, &only_b).record;
    assert_eq!(x, y);
    assert_eq!(x.voting_power, 700_000_000);
    assert_eq!(x.seen_by, vec![A, B]);
    assert!(x.seen);
}

#[test]
fn merging_twice_is_idempotent() {
    let start = EthMsg::unseen(event_e());
    let d = update(vec![(A, 1), (C, 2)]);
    let once = apply(&start, &d);
    let twice = apply(&once.record, &d);
    assert_eq!(twice.record, once.record);
    assert_eq!(twice.added_power, 0);
    assert!(!twice.became_final);
}

#[test]
fn merge_order_does_not_matter() {
    let start = EthMsg::unseen(event_e());
    let d1 = update(vec![(A, 1), (B, 1)]);
    let d2 = update(vec![(B, 2), (C, 2)]);
    let x = apply(&apply(&start, &d1).record, &d2).record;
    let y = apply(&apply(&start, &d2).record, &d1).record;
    assert_eq!(x, y);
    assert_eq!(x.voting_power, 1_000_000_000);
}

#[test]
fn validator_in_many_deltas_counts_once() {
    let mut record = EthMsg::unseen(event_e());
    for h in 0..5u64 {
        record = apply(&record, &update(vec![(B, h), (B, h + 100)])).record;
    }
    assert_eq!(record.voting_power, 300_000_000);
    assert_eq!(record.seen_by, vec![B]);
}

#[test]
fn power_and_seen_never_decrease() {
    let deltas = vec![update(vec![(A, 1)]), update(vec![(A, 2)]), update(vec![(B, 3)])];
    let mut record = EthMsg::unseen(event_e());
    for d in deltas.iter() {
        let next = apply(&record, d).record;
        assert!(next.voting_power >= record.voting_power);
        assert!(next.seen_by.len() >= record.seen_by.len());
        assert!(!record.seen || next.seen);
        record = next;
    }
    assert!(record.seen);
}

#[test]
fn seen_turns_true_exactly_at_the_threshold() {
    let w = vec![(A, 333_333_333), (B, 333_333_333), (C, 333_333_334)];
    let q = two_thirds();
    let start = EthMsg::unseen(event_e());
    let one = start.merge(&update(vec![(A, 1)]), &w, &q).unwrap();
    assert!(!one.record.seen);
    let two = one.record.merge(&update(vec![(B, 1)]), &w, &q).unwrap();
    // 666_666_666 parts are just under two thirds.
    assert!(!two.record.seen);
    assert!(!two.became_final);
    let three = two.record.merge(&update(vec![(C, 1)]), &w, &q).unwrap();
    assert!(three.record.seen);
    assert!(three.became_final);
}

#[test]
fn quorum_is_reached_at_equality() {
    let q = Quorum { numer: 1, denom: 2 };
    assert!(q.is_reached_by(500_000_000));
    assert!(!q.is_reached_by(499_999_999));
    assert!(two_thirds().is_reached_by(666_666_667));
    assert!(!two_thirds().is_reached_by(666_666_666));
}

#[test]
fn zero_weight_validator_is_counted_without_power() {
    let w = vec![(A, 0)];
    let start = EthMsg::unseen(event_e());
    let o = start.merge(&update(vec![(A, 1)]), &w, &two_thirds()).unwrap();
    assert_eq!(o.record.voting_power, 0);
    assert_eq!(o.record.seen_by, vec![A]);
    assert_eq!(o.added_power, 0);
}

#[test]
fn first_weight_entry_of_a_validator_counts() {
    let w = vec![(A, 100), (A, 900)];
    let start = EthMsg::unseen(event_e());
    let o = start.merge(&update(vec![(A, 1)]), &w, &two_thirds()).unwrap();
    assert_eq!(o.record.voting_power, 100);
}

#[test]
fn mismatched_event_is_rejected() {
    let start = EthMsg::unseen(vec![9, 9]);
    let r = start.merge(&update(vec![(A, 1)]), &weights(), &two_thirds());
    assert_eq!(r, Err(MergeError::EventMismatch));
}

#[test]
fn empty_attesters_are_rejected() {
    let start = EthMsg::unseen(event_e());
    let empty = EthMsgUpdate { body: event_e(), seen_by: vec![] };
    let r = start.merge(&empty, &weights(), &two_thirds());
    assert_eq!(r, Err(MergeError::EmptyAttestersRejected));
}

#[test]
fn unknown_validator_fails_the_whole_delta() {
    let start = apply(&EthMsg::unseen(event_e()), &update(vec![(A, 1)])).record;
    let r = start.merge(&update(vec![(B, 1), (99, 1)]), &weights(), &two_thirds());
    assert_eq!(r, Err(MergeError::UnknownValidatorWeight));
    assert_eq!(start.voting_power, 400_000_000);
    assert_eq!(start.seen_by, vec![A]);
}

#[test]
fn known_validator_needs_no_weight() {
    let start = apply(&EthMsg::unseen(event_e()), &update(vec![(A, 1)])).record;
    let o = start.merge(&update(vec![(A, 2)]), &vec![], &two_thirds()).unwrap();
    assert_eq!(o.record, start);
}

#[test]
fn overflowing_power_is_rejected() {
    let w = vec![(A, u64::MAX), (B, 1)];
    let start = EthMsg::unseen(event_e());
    let r = start.merge(&update(vec![(A, 1), (B, 1)]), &w, &two_thirds());
    assert_eq!(r, Err(MergeError::VotingPowerOverflow));
}

#[test]
fn unknown_weight_is_reported_before_overflow() {
    let w = vec![(A, u64::MAX), (B, 1)];
    let start = EthMsg::unseen(event_e());
    let r = start.merge(&update(vec![(A, 1), (B, 1), (C, 1)]), &w, &two_thirds());
    assert_eq!(r, Err(MergeError::UnknownValidatorWeight));
}

#[test]
fn merge_update_creates_an_absent_record() {
    let u = update(vec![(A, 1), (B, 1)]);
    let o = merge_update(None, &u, &weights(), &two_thirds()).unwrap();
    assert_eq!(o.record.body, event_e());
    assert_eq!(o.record.voting_power, 700_000_000);
    assert!(o.became_final);
    let again = merge_update(Some(&o.record), &u, &weights(), &two_thirds()).unwrap();
    assert_eq!(again.record, o.record);
}

#[test]
fn well_formedness_checks() {
    assert!(update(vec![(2, 1), (1, 1)]).is_well_formed());
    assert!(!EthMsgUpdate { body: vec![], seen_by: vec![(2, 1), (1, 1)] }.is_well_formed());
    assert!(!EthMsgUpdate { body: vec![], seen_by: vec![(1, 1), (1, 1)] }.is_well_formed());
    let good = EthMsg { body: vec![], voting_power: 0, seen_by: vec![1, 4, 9], seen: false };
    assert!(good.is_well_formed());
    let bad = EthMsg { body: vec![], voting_power: 0, seen_by: vec![1, 4, 4], seen: false };
    assert!(!bad.is_well_formed());
}
