use vstd::prelude::*;
use crate::eth_msg::{EthMsgView, MergeError, fresh_validators, merge_spec};
use crate::tally::{
    lemma_power_of_disjoint_union, lemma_power_of_empty, lemma_power_of_nonneg,
    lemma_validators_upto_finite, power_of, validators_of,
};
use crate::voting_power::{Quorum, reaches};

verus! {

spec fn weight_lookup_is_some(table: Seq<(u64, u64)>, v: u64) -> bool {
    crate::tally::weight_lookup(table, v) is Some
}

/// Folds the updates `updates`, all about the event `body`, into `r` in
/// order; the first error stops the fold.
pub open spec fn merge_all(
    r: EthMsgView,
    body: Seq<u8>,
    updates: Seq<Seq<(u64, u64)>>,
    table: Seq<(u64, u64)>,
    q: Quorum,
) -> Result<EthMsgView, MergeError>
    decreases updates.len(),
{
    if updates.len() == 0 {
        Ok(r)
    } else {
        match merge_spec(r, body, updates[0], table, q) {
            Ok((r1, _)) => merge_all(r1, body, updates.drop_first(), table, q),
            Err(e) => Err(e),
        }
    }
}

/// Every validator named by any of `updates`.
pub open spec fn validators_of_all(updates: Seq<Seq<(u64, u64)>>) -> Set<u64>
    decreases updates.len(),
{
    if updates.len() == 0 {
        Set::empty()
    } else {
        validators_of(updates[0]).union(validators_of_all(updates.drop_first()))
    }
}

/// More voting power reaches a quorum that less power reaches.
pub proof fn lemma_reaches_monotone(p1: nat, p2: nat, q: Quorum)
    requires
        p1 <= p2,
        reaches(p1, q),
    ensures
        reaches(p2, q),
{
    assert(p1 * q.denom <= p2 * q.denom) by (nonlinear_arith)
        requires
            p1 <= p2,
    ;
}

pub proof fn lemma_validators_of_finite(attesters: Seq<(u64, u64)>)
    ensures
        validators_of(attesters).finite(),
{
    lemma_validators_upto_finite(attesters, attesters.len() as int);
}

pub proof fn lemma_validators_of_all_finite(updates: Seq<Seq<(u64, u64)>>)
    ensures
        validators_of_all(updates).finite(),
    decreases updates.len(),
{
    if updates.len() > 0 {
        lemma_validators_of_finite(updates[0]);
        lemma_validators_of_all_finite(updates.drop_first());
    }
}

/// Merging an update a second time changes nothing and adds no power.
pub proof fn lemma_merge_idempotent(
    r: EthMsgView,
    body: Seq<u8>,
    attesters: Seq<(u64, u64)>,
    table: Seq<(u64, u64)>,
    q: Quorum,
)
    requires
        merge_spec(r, body, attesters, table, q) is Ok,
    ensures
        merge_spec(merge_spec(r, body, attesters, table, q)->Ok_0.0, body, attesters, table, q)
            == Ok::<(EthMsgView, nat), MergeError>(
            (merge_spec(r, body, attesters, table, q)->Ok_0.0, 0),
        ),
{
    let r1 = merge_spec(r, body, attesters, table, q)->Ok_0.0;
    lemma_validators_of_finite(attesters);
    lemma_power_of_nonneg(fresh_validators(r, attesters), table);
    assert(fresh_validators(r1, attesters) =~= Set::<u64>::empty());
    lemma_power_of_empty(table);
    assert(r1.seen_by.union(validators_of(attesters)) =~= r1.seen_by);
}

proof fn lemma_fresh_finite(r: EthMsgView, attesters: Seq<(u64, u64)>, table: Seq<(u64, u64)>)
    ensures
        fresh_validators(r, attesters).finite(),
        power_of(fresh_validators(r, attesters), table) >= 0,
{
    lemma_validators_of_finite(attesters);
    lemma_power_of_nonneg(fresh_validators(r, attesters), table);
}

/// Merging two updates about the same event gives the same record in
/// either order: where one order succeeds, so does the other, with an
/// equal record.
pub proof fn lemma_merge_commutative(
    r: EthMsgView,
    body: Seq<u8>,
    first: Seq<(u64, u64)>,
    second: Seq<(u64, u64)>,
    table: Seq<(u64, u64)>,
    q: Quorum,
)
    requires
        merge_spec(r, body, first, table, q) is Ok,
        merge_spec(merge_spec(r, body, first, table, q)->Ok_0.0, body, second, table, q) is Ok,
    ensures
        merge_spec(r, body, second, table, q) is Ok,
        merge_spec(merge_spec(r, body, second, table, q)->Ok_0.0, body, first, table, q) is Ok,
        merge_spec(merge_spec(r, body, second, table, q)->Ok_0.0, body, first, table, q)->Ok_0.0
            == merge_spec(merge_spec(r, body, first, table, q)->Ok_0.0, body, second, table, q)->Ok_0.0,
{
    let r1 = merge_spec(r, body, first, table, q)->Ok_0.0;
    let r12 = merge_spec(r1, body, second, table, q)->Ok_0.0;
    let v1 = validators_of(first);
    let v2 = validators_of(second);
    let s = r.seen_by;
    let f1 = fresh_validators(r, first);
    let f12 = fresh_validators(r1, second);
    let f2 = fresh_validators(r, second);
    let all = v1.union(v2).difference(s);
    lemma_fresh_finite(r, first, table);
    lemma_fresh_finite(r, second, table);
    lemma_fresh_finite(r1, second, table);
    assert(f1.union(f12) =~= all);
    lemma_power_of_disjoint_union(f1, f12, table);
    // Every validator new to `r` in `second` has a weight.
    assert forall|v: u64| #[trigger] f2.contains(v) implies weight_lookup_is_some(table, v) by {
        if f1.contains(v) {
        } else {
            assert(f12.contains(v));
        }
    }
    assert(!exists|v: u64| #[trigger] f2.contains(v) && crate::tally::weight_lookup(table, v) is None);
    let f21 = v1.difference(s.union(v2));
    lemma_validators_of_finite(first);
    lemma_power_of_nonneg(f21, table);
    assert(f2.union(f21) =~= all);
    lemma_power_of_disjoint_union(f2, f21, table);
    let r2 = merge_spec(r, body, second, table, q)->Ok_0.0;
    assert(r2.seen_by == s.union(v2));
    assert(fresh_validators(r2, first) == f21);
    assert forall|v: u64| #[trigger] f21.contains(v) implies weight_lookup_is_some(table, v) by {
        if f1.contains(v) {
        } else {
            assert(f12.contains(v));
        }
    }
    assert(!exists|v: u64| #[trigger] f21.contains(v) && crate::tally::weight_lookup(table, v) is None);
    let r21 = merge_spec(r2, body, first, table, q)->Ok_0.0;
    assert(r21.voting_power == r12.voting_power);
    if reaches(r1.voting_power, q) {
        lemma_reaches_monotone(r1.voting_power, r12.voting_power, q);
    }
    if reaches(r2.voting_power, q) {
        lemma_reaches_monotone(r2.voting_power, r21.voting_power, q);
    }
    assert(r21.seen_by =~= r12.seen_by);
}

/// Across any sequence of merges the voting power never decreases, no
/// validator leaves `seen_by`, and `seen` never goes back to false.
pub proof fn lemma_merge_all_monotone(
    r: EthMsgView,
    body: Seq<u8>,
    updates: Seq<Seq<(u64, u64)>>,
    table: Seq<(u64, u64)>,
    q: Quorum,
)
    requires
        merge_all(r, body, updates, table, q) is Ok,
    ensures
        merge_all(r, body, updates, table, q)->Ok_0.voting_power >= r.voting_power,
        r.seen_by.subset_of(merge_all(r, body, updates, table, q)->Ok_0.seen_by),
        r.seen ==> merge_all(r, body, updates, table, q)->Ok_0.seen,
    decreases updates.len(),
{
    if updates.len() > 0 {
        let r1 = merge_spec(r, body, updates[0], table, q)->Ok_0.0;
        lemma_fresh_finite(r, updates[0], table);
        lemma_merge_all_monotone(r1, body, updates.drop_first(), table, q);
    }
}

/// However many updates name a validator, its voting power is counted
/// once: after a sequence of merges the power is the record's first
/// power plus the power of each validator named by the updates and not
/// counted before, once each.
pub proof fn lemma_merge_all_counts_once(
    r: EthMsgView,
    body: Seq<u8>,
    updates: Seq<Seq<(u64, u64)>>,
    table: Seq<(u64, u64)>,
    q: Quorum,
)
    requires
        merge_all(r, body, updates, table, q) is Ok,
    ensures
        merge_all(r, body, updates, table, q)->Ok_0.voting_power == r.voting_power + power_of(
            validators_of_all(updates).difference(r.seen_by),
            table,
        ),
        merge_all(r, body, updates, table, q)->Ok_0.seen_by == r.seen_by.union(
            validators_of_all(updates),
        ),
    decreases updates.len(),
{
    if updates.len() == 0 {
        assert(validators_of_all(updates).difference(r.seen_by) =~= Set::<u64>::empty());
        lemma_power_of_empty(table);
        assert(r.seen_by.union(validators_of_all(updates)) =~= r.seen_by);
    } else {
        let first = updates[0];
        let rest = updates.drop_first();
        let r1 = merge_spec(r, body, first, table, q)->Ok_0.0;
        lemma_merge_all_counts_once(r1, body, rest, table, q);
        let f0 = fresh_validators(r, first);
        let later = validators_of_all(rest).difference(r1.seen_by);
        lemma_fresh_finite(r, first, table);
        lemma_validators_of_all_finite(rest);
        assert(f0.union(later) =~= validators_of_all(updates).difference(r.seen_by));
        lemma_power_of_disjoint_union(f0, later, table);
        assert(r1.seen_by.union(validators_of_all(rest)) =~= r.seen_by.union(
            validators_of_all(updates),
        ));
    }
}

/// After any sequence of merges `seen` is true exactly when it was true
/// before or the accumulated power has reached the quorum: it turns true
/// on the first merge whose power reaches the quorum, and not before.
/// This holds of a record that is already seen wherever its power reaches
/// the quorum, as every record that merges produce is.
pub proof fn lemma_merge_all_threshold(
    r: EthMsgView,
    body: Seq<u8>,
    updates: Seq<Seq<(u64, u64)>>,
    table: Seq<(u64, u64)>,
    q: Quorum,
)
    requires
        reaches(r.voting_power, q) ==> r.seen,
        merge_all(r, body, updates, table, q) is Ok,
    ensures
        merge_all(r, body, updates, table, q)->Ok_0.seen == (r.seen || reaches(
            merge_all(r, body, updates, table, q)->Ok_0.voting_power,
            q,
        )),
    decreases updates.len(),
{
    if updates.len() > 0 {
        let r1 = merge_spec(r, body, updates[0], table, q)->Ok_0.0;
        let f = merge_all(r, body, updates, table, q)->Ok_0;
        lemma_merge_all_threshold(r1, body, updates.drop_first(), table, q);
        lemma_merge_all_monotone(r1, body, updates.drop_first(), table, q);
        if reaches(r1.voting_power, q) {
            lemma_reaches_monotone(r1.voting_power, f.voting_power, q);
        }
    }
}

} // verus!
