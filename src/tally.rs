use vstd::prelude::*;
use vstd::set::fold::lemma_fold_insert;
use vstd::set::fold::lemma_fold_empty;

verus! {

/// The first voting power recorded for `validator` in a table of
/// `(validator, power)` entries.
pub open spec fn weight_lookup(table: Seq<(u64, u64)>, validator: u64) -> Option<u64>
    decreases table.len(),
{
    if table.len() == 0 {
        None
    } else if table[0].0 == validator {
        Some(table[0].1)
    } else {
        weight_lookup(table.subrange(1, table.len() as int), validator)
    }
}

/// The voting power of `validator` in `table`, zero where it has none.
pub open spec fn weight_of(table: Seq<(u64, u64)>, validator: u64) -> nat {
    match weight_lookup(table, validator) {
        Some(p) => p as nat,
        None => 0,
    }
}

pub open spec fn weight_adder(table: Seq<(u64, u64)>) -> spec_fn(int, u64) -> int {
    |acc: int, v: u64| acc + weight_of(table, v)
}

/// The summed voting power of a finite set of validators.
pub open spec fn power_of(validators: Set<u64>, table: Seq<(u64, u64)>) -> int {
    validators.fold(0int, weight_adder(table))
}

/// The validators named by the first `n` attestations of `attesters`.
pub open spec fn validators_upto(attesters: Seq<(u64, u64)>, n: int) -> Set<u64> {
    Set::new(|v: u64| exists|k: int| 0 <= k < n && #[trigger] attesters[k].0 == v)
}

/// The validators named by `attesters`, heights dropped.
pub open spec fn validators_of(attesters: Seq<(u64, u64)>) -> Set<u64> {
    validators_upto(attesters, attesters.len() as int)
}

pub proof fn lemma_weight_adder_commutative(table: Seq<(u64, u64)>)
    ensures
        vstd::set::fold::is_fun_commutative(weight_adder(table)),
{
}

pub proof fn lemma_power_of_empty(table: Seq<(u64, u64)>)
    ensures
        power_of(Set::empty(), table) == 0,
{
    lemma_fold_empty(0int, weight_adder(table));
}

pub proof fn lemma_power_of_insert(s: Set<u64>, v: u64, table: Seq<(u64, u64)>)
    requires
        s.finite(),
        !s.contains(v),
    ensures
        power_of(s.insert(v), table) == power_of(s, table) + weight_of(table, v),
{
    lemma_weight_adder_commutative(table);
    lemma_fold_insert(s, 0int, weight_adder(table), v);
}

pub proof fn lemma_power_of_nonneg(s: Set<u64>, table: Seq<(u64, u64)>)
    requires
        s.finite(),
    ensures
        power_of(s, table) >= 0,
    decreases s.len(),
{
    if s.is_empty() {
        assert(s =~= Set::empty());
        lemma_power_of_empty(table);
    } else {
        let v = s.choose();
        lemma_power_of_nonneg(s.remove(v), table);
        lemma_power_of_insert(s.remove(v), v, table);
        assert(s.remove(v).insert(v) =~= s);
    }
}

/// The power of two disjoint finite sets together is the sum of their powers.
pub proof fn lemma_power_of_disjoint_union(a: Set<u64>, b: Set<u64>, table: Seq<(u64, u64)>)
    requires
        a.finite(),
        b.finite(),
        a.disjoint(b),
    ensures
        power_of(a.union(b), table) == power_of(a, table) + power_of(b, table),
    decreases b.len(),
{
    if b.is_empty() {
        assert(b =~= Set::empty());
        assert(a.union(b) =~= a);
        lemma_power_of_empty(table);
    } else {
        let v = b.choose();
        let rest = b.remove(v);
        lemma_power_of_disjoint_union(a, rest, table);
        lemma_power_of_insert(rest, v, table);
        assert(rest.insert(v) =~= b);
        assert(!a.union(rest).contains(v));
        lemma_power_of_insert(a.union(rest), v, table);
        assert(a.union(rest).insert(v) =~= a.union(b));
    }
}

pub proof fn lemma_validators_upto_step(attesters: Seq<(u64, u64)>, n: int)
    requires
        0 <= n < attesters.len(),
    ensures
        validators_upto(attesters, n + 1) == validators_upto(attesters, n).insert(attesters[n].0),
{
    assert forall|v: u64|
        validators_upto(attesters, n + 1).contains(v) implies validators_upto(
            attesters,
            n,
        ).insert(attesters[n].0).contains(v) by {
        let k = choose|k: int| 0 <= k < n + 1 && #[trigger] attesters[k].0 == v;
        if k < n {
            assert(validators_upto(attesters, n).contains(v));
        }
    }
    assert forall|v: u64|
        validators_upto(attesters, n).insert(attesters[n].0).contains(v) implies validators_upto(
            attesters,
            n + 1,
        ).contains(v) by {
        if v != attesters[n].0 {
            let k = choose|k: int| 0 <= k < n && #[trigger] attesters[k].0 == v;
            assert(0 <= k < n + 1 && attesters[k].0 == v);
        }
    }
    assert(validators_upto(attesters, n + 1) =~= validators_upto(attesters, n).insert(
        attesters[n].0,
    ));
}

pub proof fn lemma_validators_upto_finite(attesters: Seq<(u64, u64)>, n: int)
    requires
        0 <= n <= attesters.len(),
    ensures
        validators_upto(attesters, n).finite(),
    decreases n,
{
    if n == 0 {
        assert(validators_upto(attesters, 0) =~= Set::empty());
    } else {
        lemma_validators_upto_finite(attesters, n - 1);
        lemma_validators_upto_step(attesters, n - 1);
    }
}

} // verus!
