use vstd::prelude::*;
use crate::tally::{
    lemma_power_of_empty, lemma_power_of_insert, lemma_power_of_nonneg, lemma_validators_upto_step,
    power_of, validators_of, validators_upto, weight_lookup};
use crate::voting_power::{Quorum, reaches};

verus! {

/// An Ethereum event being seen by some validators.
///
/// `body` is the canonical encoding of the event; two updates speak of
/// the same event exactly when their bodies are equal. `seen_by` holds
/// `(validator, block height)` pairs in strictly increasing order, so a
/// pair occurs at most once and equal updates have equal bytes.
#[derive(Clone, Debug, PartialEq, Eq, Hash, PartialOrd, Ord)]
pub struct EthMsgUpdate {
    pub body: Vec<u8>,
    pub seen_by: Vec<(u64, u64)>,
}

/// Lexicographic order on `(validator, height)` pairs.
pub open spec fn pair_lt(a: (u64, u64), b: (u64, u64)) -> bool {
    a.0 < b.0 || (a.0 == b.0 && a.1 < b.1)
}

/// The attesters are strictly increasing in lexicographic order.
pub open spec fn attesters_canonical(s: Seq<(u64, u64)>) -> bool {
    forall|i: int, j: int| 0 <= i < j < s.len() ==> pair_lt(#[trigger] s[i], #[trigger] s[j])
}

/// The validators are strictly increasing.
pub open spec fn strictly_increasing(s: Seq<u64>) -> bool {
    forall|i: int, j: int| 0 <= i < j < s.len() ==> #[trigger] s[i] < #[trigger] s[j]
}

impl EthMsgUpdate {
    pub open spec fn wf(&self) -> bool {
        attesters_canonical(self.seen_by@)
    }

    /// Tells whether `seen_by` is in canonical order.
    pub fn is_well_formed(&self) -> (r: bool)
        ensures
            r == self.wf(),
    {
        let s = &self.seen_by;
        let mut i: usize = 1;
        while i < s.len()
            invariant
                1 <= i,
                s@ == self.seen_by@,
                forall|a: int, b: int| 0 <= a < b < i && b < s.len() ==> pair_lt(#[trigger] s@[a], #[trigger] s@[b]),
            decreases s.len() - i,
        {
            let p = s[i - 1];
            let n = s[i];
            if !(p.0 < n.0 || (p.0 == n.0 && p.1 < n.1)) {
                assert(!pair_lt(s@[i - 1], s@[i as int]));
                assert(!attesters_canonical(self.seen_by@));
                return false;
            }
            proof {
                assert forall|a: int, b: int| 0 <= a < b < i + 1 && b < s.len() implies pair_lt(#[trigger] s@[a], #[trigger] s@[b]) by {
                    if b == i && a < i - 1 {
                        assert(pair_lt(s@[a], s@[i - 1]));
                    }
                }
            }
            i += 1;
        }
        true
    }

    /// The update of `event` signed by `signers`, in canonical order: each
    /// distinct `(validator, height)` pair once, in increasing order.
    pub fn from_multi_signed(event: MultiSignedEthEvent) -> (r: EthMsgUpdate)
        ensures
            r.wf(),
            r.body@ == event.event@,
            r.seen_by@.to_set() == event.signers@.to_set(),
    {
        let MultiSignedEthEvent { event, signers } = event;
        let mut out: Vec<(u64, u64)> = Vec::new();
        let mut i: usize = 0;
        assert(out@.to_set() =~= signers@.subrange(0, 0).to_set());
        while i < signers.len()
            invariant
                i <= signers.len(),
                attesters_canonical(out@),
                out@.to_set() == signers@.subrange(0, i as int).to_set(),
            decreases signers.len() - i,
        {
            let p = signers[i];
            proof {
                assert(signers@.subrange(0, i + 1) =~= signers@.subrange(0, i as int).push(p));
                signers@.subrange(0, i as int).lemma_push_to_set_commute(p);
            }
            let mut pos: usize = 0;
            while pos < out.len() && (out[pos].0 < p.0 || (out[pos].0 == p.0 && out[pos].1 < p.1))
                invariant
                    pos <= out.len(),
                    forall|k: int| 0 <= k < pos ==> pair_lt(#[trigger] out@[k], p),
                decreases out.len() - pos,
            {
                pos += 1;
            }
            if pos < out.len() && out[pos].0 == p.0 && out[pos].1 == p.1 {
                proof {
                    assert(out@.to_set().contains(p)) by {
                        assert(out@[pos as int] == p);
                    }
                    assert(out@.to_set().insert(p) =~= out@.to_set());
                }
            } else {
                let ghost before = out@;
                out.insert(pos, p);
                proof {
                    assert(out@ == before.insert(pos as int, p));
                    assert forall|a: int, b: int| 0 <= a < b < out@.len() implies pair_lt(
                        #[trigger] out@[a],
                        #[trigger] out@[b],
                    ) by {
                        if b < pos {
                            assert(out@[a] == before[a] && out@[b] == before[b]);
                        } else if b == pos {
                            assert(out@[a] == before[a]);
                        } else if a < pos {
                            assert(out@[a] == before[a] && out@[b] == before[b - 1]);
                            assert(pair_lt(before[a], before[pos as int]) || a == pos);
                        } else if a == pos {
                            assert(out@[b] == before[b - 1]);
                            if b - 1 > pos {
                                assert(pair_lt(before[pos as int], before[b - 1]));
                            }
                        } else {
                            assert(out@[a] == before[a - 1] && out@[b] == before[b - 1]);
                        }
                    }
                    assert forall|x: (u64, u64)| #[trigger] out@.to_set().contains(x) implies before.to_set().insert(p).contains(x) by {
                        let k = choose|k: int| 0 <= k < out@.len() && out@[k] == x;
                        if k < pos {
                            assert(before[k] == x);
                        } else if k > pos {
                            assert(before[k - 1] == x);
                        }
                    }
                    assert forall|x: (u64, u64)| #[trigger] before.to_set().insert(p).contains(x) implies out@.to_set().contains(x) by {
                        if x == p {
                            assert(out@[pos as int] == p);
                        } else {
                            let k = choose|k: int| 0 <= k < before.len() && before[k] == x;
                            if k < pos {
                                assert(out@[k] == x);
                            } else {
                                assert(out@[k + 1] == x);
                            }
                        }
                    }
                    assert(out@.to_set() =~= before.to_set().insert(p));
                }
            }
            i += 1;
        }
        assert(signers@.subrange(0, signers.len() as int) =~= signers@);
        EthMsgUpdate { body: event, seen_by: out }
    }
}

/// An Ethereum event together with the validators that signed it, each
/// with the block height at which it saw the event.
#[derive(Clone, Debug, PartialEq, Eq)]
pub struct MultiSignedEthEvent {
    /// The canonical encoding of the event.
    pub event: Vec<u8>,
    /// `(validator, block height)` pairs, in any order.
    pub signers: Vec<(u64, u64)>,
}

/// An event stored under `eth_msgs`: the tally of the validators that
/// have attested to it.
#[derive(Clone, Debug, PartialEq, Eq)]
pub struct EthMsg {
    /// The canonical encoding of the event.
    pub body: Vec<u8>,
    /// The total voting power that has voted for this event across all
    /// epochs, in parts of `VOTING_POWER_SCALE`.
    pub voting_power: u64,
    /// The validators that voted for this event, strictly increasing.
    pub seen_by: Vec<u64>,
    /// Whether the voting power has reached the quorum.
    pub seen: bool,
}

/// What a tally record stands for: its event, its power, the set of
/// validators counted and its finalization flag.
pub struct EthMsgView {
    pub body: Seq<u8>,
    pub voting_power: nat,
    pub seen_by: Set<u64>,
    pub seen: bool,
}

impl View for EthMsg {
    type V = EthMsgView;

    open spec fn view(&self) -> EthMsgView {
        EthMsgView {
            body: self.body@,
            voting_power: self.voting_power as nat,
            seen_by: self.seen_by@.to_set(),
            seen: self.seen,
        }
    }
}

impl EthMsg {
    pub open spec fn wf(&self) -> bool {
        strictly_increasing(self.seen_by@)
    }

    /// Tells whether `seen_by` is strictly increasing.
    pub fn is_well_formed(&self) -> (r: bool)
        ensures
            r == self.wf(),
    {
        let s = &self.seen_by;
        let mut i: usize = 1;
        while i < s.len()
            invariant
                1 <= i,
                s@ == self.seen_by@,
                forall|a: int, b: int| 0 <= a < b < i && b < s.len() ==> #[trigger] s@[a] < #[trigger] s@[b],
            decreases s.len() - i,
        {
            if s[i - 1] >= s[i] {
                assert(!(s@[i - 1] < s@[i as int]));
                assert(!strictly_increasing(self.seen_by@));
                return false;
            }
            proof {
                assert forall|a: int, b: int| 0 <= a < b < i + 1 && b < s.len() implies #[trigger] s@[a] < #[trigger] s@[b] by {
                    if b == i && a < i - 1 {
                        assert(s@[a] < s@[i - 1]);
                    }
                }
            }
            i += 1;
        }
        true
    }
}

/// Why an update could not be merged into a record.
#[derive(Clone, Copy, Debug, PartialEq, Eq)]
pub enum MergeError {
    /// The update is about another event than the record.
    EventMismatch,
    /// The update names no validator.
    EmptyAttestersRejected,
    /// A validator new to the record has no entry in the weight table.
    UnknownValidatorWeight,
    /// The summed voting power does not fit in a `u64`.
    VotingPowerOverflow,
}

/// The result of a successful merge.
#[derive(Clone, Debug, PartialEq, Eq)]
pub struct MergeOutcome {
    /// The record with the update folded in.
    pub record: EthMsg,
    /// The voting power that the update added.
    pub added_power: u64,
    /// The merge turned `seen` from false to true.
    pub became_final: bool,
}

/// The validators of `attesters` that `r` has not counted yet.
pub open spec fn fresh_validators(r: EthMsgView, attesters: Seq<(u64, u64)>) -> Set<u64> {
    validators_of(attesters).difference(r.seen_by)
}

/// Folding the update `(body, attesters)` into `r`, with the voting
/// powers of `table` and the threshold `q`: the new record and the power
/// added, or the error.
pub open spec fn merge_spec(
    r: EthMsgView,
    body: Seq<u8>,
    attesters: Seq<(u64, u64)>,
    table: Seq<(u64, u64)>,
    q: Quorum,
) -> Result<(EthMsgView, nat), MergeError> {
    let fresh = fresh_validators(r, attesters);
    if body != r.body {
        Err(MergeError::EventMismatch)
    } else if attesters.len() == 0 {
        Err(MergeError::EmptyAttestersRejected)
    } else if exists|v: u64| #[trigger] fresh.contains(v) && weight_lookup(table, v) is None {
        Err(MergeError::UnknownValidatorWeight)
    } else if r.voting_power + power_of(fresh, table) > u64::MAX {
        Err(MergeError::VotingPowerOverflow)
    } else {
        let p = (r.voting_power + power_of(fresh, table)) as nat;
        Ok(
            (
                EthMsgView {
                    body: r.body,
                    voting_power: p,
                    seen_by: r.seen_by.union(validators_of(attesters)),
                    seen: r.seen || reaches(p, q),
                },
                power_of(fresh, table) as nat,
            ),
        )
    }
}

fn same_bytes(a: &Vec<u8>, b: &Vec<u8>) -> (r: bool)
    ensures
        r == (a@ == b@),
{
    if a.len() != b.len() {
        return false;
    }
    let mut i: usize = 0;
    while i < a.len()
        invariant
            a.len() == b.len(),
            i <= a.len(),
            forall|k: int| 0 <= k < i ==> a@[k] == b@[k],
        decreases a.len() - i,
    {
        if a[i] != b[i] {
            return false;
        }
        i += 1;
    }
    assert(a@ =~= b@);
    true
}

/// Looks up the voting power of `validator` in `table`.
pub fn lookup_weight(table: &Vec<(u64, u64)>, validator: u64) -> (r: Option<u64>)
    ensures
        r == weight_lookup(table@, validator),
{
    let mut i: usize = 0;
    assert(table@.subrange(0, table.len() as int) =~= table@);
    while i < table.len()
        invariant
            i <= table.len(),
            weight_lookup(table@, validator) == weight_lookup(
                table@.subrange(i as int, table.len() as int),
                validator,
            ),
        decreases table.len() - i,
    {
        let rest = Ghost(table@.subrange(i as int, table.len() as int));
        assert(rest@.subrange(1, rest@.len() as int) =~= table@.subrange(
            i + 1,
            table.len() as int,
        ));
        if table[i].0 == validator {
            return Some(table[i].1);
        }
        i += 1;
    }
    None
}

impl EthMsg {
    /// A record of `body` that no validator has attested to yet.
    pub fn unseen(body: Vec<u8>) -> (r: EthMsg)
        ensures
            r.wf(),
            r@.body == body@,
            r@.voting_power == 0,
            r@.seen_by == Set::<u64>::empty(),
            !r@.seen,
    {
        let r = EthMsg { body, voting_power: 0, seen_by: Vec::new(), seen: false };
        assert(r.seen_by@.to_set() =~= Set::<u64>::empty());
        r
    }

    /// Folds `update` into this record.
    ///
    /// The validators of `update` that the record has not counted yet
    /// have their voting power looked up in `weights` (the first entry
    /// of a validator counts) and added, once each, to `voting_power`;
    /// they join `seen_by`; and `seen` becomes true once the power
    /// reaches `quorum`. Nothing is changed on error.
    pub fn merge(&self, update: &EthMsgUpdate, weights: &Vec<(u64, u64)>, quorum: &Quorum) -> (r:
        Result<MergeOutcome, MergeError>)
        requires
            self.wf(),
            update.wf(),
        ensures
            match r {
                Ok(o) => {
                    &&& o.record.wf()
                    &&& merge_spec(self@, update.body@, update.seen_by@, weights@, *quorum) == Ok::<(EthMsgView, nat), MergeError>(
                        (o.record@, o.added_power as nat),
                    )
                    &&& o.became_final == (!self.seen && o.record.seen)
                    &&& o.record.voting_power == self.voting_power + o.added_power
                    &&& self@.seen_by.subset_of(o.record@.seen_by)
                    &&& self.seen ==> o.record.seen
                },
                Err(e) => merge_spec(self@, update.body@, update.seen_by@, weights@, *quorum)
                    == Err::<(EthMsgView, nat), MergeError>(e),
            },
    {
        if !same_bytes(&update.body, &self.body) {
            return Err(MergeError::EventMismatch);
        }
        if update.seen_by.len() == 0 {
            return Err(MergeError::EmptyAttestersRejected);
        }
        let old = &self.seen_by;
        let d = &update.seen_by;
        let ghost known = self@.seen_by;
        let ghost table = weights@;
        let mut out: Vec<u64> = Vec::new();
        let mut total: u64 = self.voting_power;
        let mut over: bool = false;
        let mut i: usize = 0;
        let mut j: usize = 0;
        let ghost mut fresh: Set<u64> = Set::empty();
        proof {
            lemma_power_of_empty(table);
            assert(old@.subrange(0, 0).to_set() =~= Set::<u64>::empty());
            assert(validators_upto(d@, 0) =~= Set::<u64>::empty());
            assert(out@.to_set() =~= Set::<u64>::empty());
            assert(fresh =~= validators_upto(d@, 0).difference(known));
        }
        while i < old.len() || j < d.len()
            invariant
                strictly_increasing(old@),
                attesters_canonical(d@),
                known == old@.to_set(),
                known == self@.seen_by,
                old == &self.seen_by,
                d == &update.seen_by,
                update.body@ == self.body@,
                d.len() > 0,
                table == weights@,
                i <= old.len(),
                j <= d.len(),
                strictly_increasing(out@),
                forall|a: int, m: int|
                    0 <= a < out.len() && j <= m < d.len() ==> #[trigger] out@[a] <= #[trigger] d@[m].0,
                forall|a: int, k: int|
                    0 <= a < out.len() && i <= k < old.len() ==> #[trigger] out@[a] < #[trigger] old@[k],
                out@.to_set() == old@.subrange(0, i as int).to_set().union(validators_upto(d@, j as int)),
                fresh == validators_upto(d@, j as int).difference(known),
                fresh.finite(),
                forall|v: u64| #[trigger] fresh.contains(v) ==> weight_lookup(table, v) is Some,
                over == (self.voting_power + power_of(fresh, table) > u64::MAX),
                !over ==> total == self.voting_power + power_of(fresh, table),
            decreases old.len() - i + d.len() - j,
        {
            if j == d.len() || (i < old.len() && old[i] < d[j].0) {
                let x = old[i];
                proof {
                    assert(old@.subrange(0, i + 1) =~= old@.subrange(0, i as int).push(x));
                    old@.subrange(0, i as int).lemma_push_to_set_commute(x);
                    out@.lemma_push_to_set_commute(x);
                }
                out.push(x);
                i += 1;
                proof {
                    assert(out@.to_set() =~= old@.subrange(0, i as int).to_set().union(validators_upto(d@, j as int)));
                }
            } else {
                let v = d[j].0;
                proof {
                    lemma_validators_upto_step(d@, j as int);
                }
                if i < old.len() && old[i] == v {
                    proof {
                        assert(old@.subrange(0, i + 1) =~= old@.subrange(0, i as int).push(v));
                        old@.subrange(0, i as int).lemma_push_to_set_commute(v);
                        out@.lemma_push_to_set_commute(v);
                        assert(old@.to_set().contains(v)) by {
                            assert(old@[i as int] == v);
                        }
                    }
                    out.push(v);
                    i += 1;
                    j += 1;
                    proof {
                        assert(out@.to_set() =~= old@.subrange(0, i as int).to_set().union(validators_upto(d@, j as int)));
                        assert(fresh =~= validators_upto(d@, j as int).difference(known));
                    }
                } else if out.len() > 0 && out[out.len() - 1] == v {
                    proof {
                        let last = out@[out.len() - 1];
                        assert(out@.to_set().contains(last)) by {
                            assert(out@.contains(last));
                        }
                        if old@.subrange(0, i as int).to_set().contains(v) {
                            let k = choose|k: int| 0 <= k < i && old@.subrange(0, i as int)[k] == v;
                            assert(old@[k] == v);
                            assert(known.contains(v));
                        }
                    }
                    j += 1;
                    proof {
                        assert(out@.to_set() =~= old@.subrange(0, i as int).to_set().union(validators_upto(d@, j as int)));
                        assert(fresh =~= validators_upto(d@, j as int).difference(known));
                    }
                } else {
                    proof {
                        // `v` is neither counted already nor named earlier in the update.
                        if out@.to_set().contains(v) {
                            let a = choose|a: int| 0 <= a < out.len() && out@[a] == v;
                            let last = out.len() - 1;
                            if a < last {
                                assert(out@[a] < out@[last as int]);
                                assert(out@[last as int] <= d@[j as int].0);
                            }
                        }
                        assert(!out@.to_set().contains(v));
                        if known.contains(v) {
                            let k = choose|k: int| 0 <= k < old.len() && old@[k] == v;
                            if k < i {
                                assert(old@.subrange(0, i as int)[k] == v);
                                assert(old@.subrange(0, i as int).to_set().contains(v));
                            } else {
                                assert(old@[i as int] <= old@[k]);
                            }
                        }
                        assert(!known.contains(v));
                        assert(!validators_upto(d@, j as int).contains(v));
                    }
                    match lookup_weight(weights, v) {
                        None => {
                            proof {
                                assert(validators_of(d@).contains(v)) by {
                                    assert(d@[j as int].0 == v);
                                }
                                assert(known == self@.seen_by);
                                assert(fresh_validators(self@, d@).contains(v));

                            }
                            return Err(MergeError::UnknownValidatorWeight);
                        },
                        Some(w) => {
                            proof {
                                lemma_power_of_insert(fresh, v, table);
                                lemma_power_of_nonneg(fresh, table);
                                out@.lemma_push_to_set_commute(v);
                            }
                            if !over {
                                match total.checked_add(w) {
                                    Some(t) => {
                                        total = t;
                                    },
                                    None => {
                                        over = true;
                                    },
                                }
                            }
                            out.push(v);
                            j += 1;
                            proof {
                                fresh = fresh.insert(v);
                                assert(out@.to_set() =~= old@.subrange(0, i as int).to_set().union(validators_upto(d@, j as int)));
                                assert(fresh =~= validators_upto(d@, j as int).difference(known));
                            }
                        },
                    }
                }
            }
        }
        proof {
            assert(old@.subrange(0, i as int) =~= old@);
            assert(fresh =~= fresh_validators(self@, d@));
        }
        if over {
            return Err(MergeError::VotingPowerOverflow);
        }
        let seen = self.seen || quorum.is_reached_by(total);
        let record = EthMsg { body: self.body.clone(), voting_power: total, seen_by: out, seen };
        proof {
            assert(record.body@ == self.body@);
            lemma_power_of_nonneg(fresh, table);
            assert(record@.seen_by =~= self@.seen_by.union(validators_of(d@)));
        }
        Ok(MergeOutcome { record, added_power: total - self.voting_power, became_final: seen && !self.seen })
    }
}

/// The view of a record of `body` that nobody has attested to yet.
pub open spec fn unseen_view(body: Seq<u8>) -> EthMsgView {
    EthMsgView { body, voting_power: 0, seen_by: Set::empty(), seen: false }
}

/// Folds `update` into `record`, or, where there is no record of its event
/// yet, into an unseen record of that event.
pub fn merge_update(
    record: Option<&EthMsg>,
    update: &EthMsgUpdate,
    weights: &Vec<(u64, u64)>,
    quorum: &Quorum,
) -> (r: Result<MergeOutcome, MergeError>)
    requires
        record matches Some(m) ==> m.wf(),
        update.wf(),
    ensures
        ({
            let start = match record {
                Some(m) => m@,
                None => unseen_view(update.body@),
            };
            match r {
                Ok(o) => {
                    &&& o.record.wf()
                    &&& merge_spec(start, update.body@, update.seen_by@, weights@, *quorum) == Ok::<
                        (EthMsgView, nat),
                        MergeError,
                    >((o.record@, o.added_power as nat))
                    &&& o.became_final == (!start.seen && o.record.seen)
                },
                Err(e) => merge_spec(start, update.body@, update.seen_by@, weights@, *quorum)
                    == Err::<(EthMsgView, nat), MergeError>(e),
            }
        }),
{
    match record {
        Some(m) => m.merge(update, weights, quorum),
        None => {
            let fresh = EthMsg::unseen(update.body.clone());
            assert(fresh@ == unseen_view(update.body@));
            fresh.merge(update, weights, quorum)
        },
    }
}

} // verus!
