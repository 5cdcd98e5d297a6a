use vstd::prelude::*;

use crate::error::Error;
use crate::keys::{clone_bytes, u8_vec_eq};

verus! {

// ---------------------------------------------------------------------------
// Association-list maps with unique keys, viewed as mathematical maps.
// ---------------------------------------------------------------------------

/// The map an association list denotes; later entries would win, and the
/// well-formed lists used here never repeat a key.
pub open spec fn assoc_map<K, V>(es: Seq<(K, V)>) -> Map<K, V>
    decreases es.len(),
{
    if es.len() == 0 {
        Map::empty()
    } else {
        assoc_map(es.drop_last()).insert(es.last().0, es.last().1)
    }
}

pub open spec fn assoc_distinct<K, V>(es: Seq<(K, V)>) -> bool {
    forall|a: int, b: int| 0 <= a < b < es.len() ==> (#[trigger] es[a]).0 != (#[trigger] es[b]).0
}

proof fn lemma_assoc_push<K, V>(es: Seq<(K, V)>, k: K, v: V)
    ensures
        assoc_map(es.push((k, v))) == assoc_map(es).insert(k, v),
{
    assert(es.push((k, v)).drop_last() =~= es);
}

proof fn lemma_assoc_update<K, V>(es: Seq<(K, V)>, i: int, k: K, v: V)
    requires
        assoc_distinct(es),
        0 <= i < es.len(),
        es[i].0 == k,
    ensures
        assoc_map(es.update(i, (k, v))) == assoc_map(es).insert(k, v),
    decreases es.len(),
{
    let u = es.update(i, (k, v));
    if i == es.len() - 1 {
        assert(u.drop_last() =~= es.drop_last());
        assert(assoc_map(es).insert(k, v) =~= assoc_map(es.drop_last()).insert(k, v));
        assert(assoc_map(u) == assoc_map(es.drop_last()).insert(k, v));
    } else {
        assert(u.drop_last() =~= es.drop_last().update(i, (k, v)));
        assert(assoc_distinct(es.drop_last()));
        lemma_assoc_update(es.drop_last(), i, k, v);
        assert(es.last().0 != k);
        assert(u.last() == es.last());
        assert((assoc_map(es.drop_last()).insert(k, v)).insert(es.last().0, es.last().1)
            =~= (assoc_map(es.drop_last()).insert(es.last().0, es.last().1)).insert(k, v));
    }
}

proof fn lemma_assoc_get<K, V>(es: Seq<(K, V)>, k: K)
    requires
        assoc_distinct(es),
    ensures
        forall|i: int| 0 <= i < es.len() && (#[trigger] es[i]).0 == k ==> assoc_map(
            es,
        ).contains_key(k) && assoc_map(es)[k] == es[i].1,
        (forall|i: int| 0 <= i < es.len() ==> (#[trigger] es[i]).0 != k) ==> !assoc_map(
            es,
        ).contains_key(k),
    decreases es.len(),
{
    if es.len() > 0 {
        assert(assoc_distinct(es.drop_last()));
        lemma_assoc_get(es.drop_last(), k);
        assert forall|i: int| 0 <= i < es.len() && (#[trigger] es[i]).0 == k implies assoc_map(
            es,
        ).contains_key(k) && assoc_map(es)[k] == es[i].1 by {
            if i < es.len() - 1 {
                assert(es.drop_last()[i] == es[i]);
                assert(es.last().0 != k);
            }
        }
        if forall|i: int| 0 <= i < es.len() ==> (#[trigger] es[i]).0 != k {
            assert(es.last().0 != k);
            assert(forall|i: int|
                0 <= i < es.drop_last().len() ==> (#[trigger] es.drop_last()[i]).0 != k);
        }
    }
}

// ---------------------------------------------------------------------------
// The keyed partial-signature map of one input.
// ---------------------------------------------------------------------------

/// Partial signatures keyed by public key bytes.
#[derive(Debug)]
pub struct SigMap {
    pub entries: Vec<(Vec<u8>, Vec<u8>)>,
}

pub open spec fn sig_pairs_view(es: Seq<(Vec<u8>, Vec<u8>)>) -> Seq<(Seq<u8>, Seq<u8>)> {
    Seq::new(es.len(), |i: int| (es[i].0@, es[i].1@))
}

impl View for SigMap {
    type V = Map<Seq<u8>, Seq<u8>>;

    open spec fn view(&self) -> Map<Seq<u8>, Seq<u8>> {
        assoc_map(sig_pairs_view(self.entries@))
    }
}

impl SigMap {
    pub open spec fn wf(&self) -> bool {
        assoc_distinct(sig_pairs_view(self.entries@))
    }

    pub fn new() -> (r: Self)
        ensures
            r@ == Map::<Seq<u8>, Seq<u8>>::empty(),
            r.wf(),
    {
        let r = SigMap { entries: Vec::new() };
        proof {
            assert(sig_pairs_view(r.entries@) =~= Seq::<(Seq<u8>, Seq<u8>)>::empty());
        }
        r
    }

    /// Upsert: a repeated key keeps one entry and the newest value.
    pub fn insert(&mut self, key: &Vec<u8>, value: &Vec<u8>)
        requires
            old(self).wf(),
        ensures
            final(self).wf(),
            final(self)@ == old(self)@.insert(key@, value@),
    {
        let ghost es0 = sig_pairs_view(self.entries@);
        proof {
            assert(es0 == sig_pairs_view(old(self).entries@));
            assert(assoc_distinct(es0));
        }
        let mut i: usize = 0;
        while i < self.entries.len()
            invariant
                i <= self.entries.len(),
                self == old(self),
                es0 == sig_pairs_view(self.entries@),
                assoc_distinct(es0),
                forall|m: int| 0 <= m < i ==> (#[trigger] es0[m]).0 != key@,
            decreases self.entries.len() - i,
        {
            if u8_vec_eq(&self.entries[i].0, key) {
                let pair = (clone_bytes(key), clone_bytes(value));
                self.entries.remove(i);
                self.entries.insert(i, pair);
                proof {
                    let es1 = sig_pairs_view(self.entries@);
                    assert(es1 =~= es0.update(i as int, (key@, value@)));
                    lemma_assoc_update(es0, i as int, key@, value@);
                    assert(es0[i as int].0 == key@);
                    assert forall|a: int, b: int| 0 <= a < b < es1.len() implies (
                    #[trigger] es1[a]).0 != (#[trigger] es1[b]).0 by {
                        assert(es1[a].0 == es0[a].0);
                        assert(es1[b].0 == es0[b].0);
                    }
                }
                return;
            }
            i += 1;
        }
        self.entries.push((clone_bytes(key), clone_bytes(value)));
        proof {
            let es1 = sig_pairs_view(self.entries@);
            assert(es1 =~= es0.push((key@, value@)));
            lemma_assoc_push(es0, key@, value@);
            assert forall|a: int, b: int| 0 <= a < b < es1.len() implies (#[trigger] es1[a]).0
                != (#[trigger] es1[b]).0 by {
                if b < es0.len() {
                    assert(es1[a].0 == es0[a].0);
                    assert(es1[b].0 == es0[b].0);
                } else {
                    assert(es1[b].0 == key@);
                    assert(es1[a].0 == es0[a].0);
                }
            }
        }
    }

    /// Look a public key up.
    pub fn get(&self, key: &Vec<u8>) -> (r: Option<&Vec<u8>>)
        requires
            self.wf(),
        ensures
            match r {
                Some(v) => self@.contains_key(key@) && v@ == self@[key@],
                None => !self@.contains_key(key@),
            },
    {
        let ghost es = sig_pairs_view(self.entries@);
        let mut i: usize = 0;
        while i < self.entries.len()
            invariant
                i <= self.entries.len(),
                self.wf(),
                es == sig_pairs_view(self.entries@),
                forall|m: int| 0 <= m < i ==> (#[trigger] es[m]).0 != key@,
            decreases self.entries.len() - i,
        {
            if u8_vec_eq(&self.entries[i].0, key) {
                proof {
                    lemma_assoc_get(es, key@);
                    assert(es[i as int].0 == key@);
                    assert(self@.contains_key(key@) && self@[key@] == es[i as int].1);
                }
                return Some(&self.entries[i].1);
            }
            i += 1;
        }
        proof {
            lemma_assoc_get(es, key@);
        }
        None
    }
}

// ---------------------------------------------------------------------------
// The script-path signature map of one input, keyed by (pubkey, leaf hash).
// ---------------------------------------------------------------------------

/// Taproot script-path signatures keyed by public key and leaf hash.
#[derive(Debug)]
pub struct TapSigMap {
    pub entries: Vec<((Vec<u8>, Vec<u8>), Vec<u8>)>,
}

pub open spec fn tap_pairs_view(es: Seq<((Vec<u8>, Vec<u8>), Vec<u8>)>) -> Seq<
    ((Seq<u8>, Seq<u8>), Seq<u8>),
> {
    Seq::new(es.len(), |i: int| ((es[i].0.0@, es[i].0.1@), es[i].1@))
}

impl View for TapSigMap {
    type V = Map<(Seq<u8>, Seq<u8>), Seq<u8>>;

    open spec fn view(&self) -> Map<(Seq<u8>, Seq<u8>), Seq<u8>> {
        assoc_map(tap_pairs_view(self.entries@))
    }
}

impl TapSigMap {
    pub open spec fn wf(&self) -> bool {
        assoc_distinct(tap_pairs_view(self.entries@))
    }

    pub fn new() -> (r: Self)
        ensures
            r@ == Map::<(Seq<u8>, Seq<u8>), Seq<u8>>::empty(),
            r.wf(),
    {
        let r = TapSigMap { entries: Vec::new() };
        proof {
            assert(tap_pairs_view(r.entries@) =~= Seq::<((Seq<u8>, Seq<u8>), Seq<u8>)>::empty());
        }
        r
    }

    /// Upsert under the pair key: a repeated pair keeps the newest value.
    pub fn insert(&mut self, pubkey: &Vec<u8>, leaf_hash: &Vec<u8>, value: &Vec<u8>)
        requires
            old(self).wf(),
        ensures
            final(self).wf(),
            final(self)@ == old(self)@.insert((pubkey@, leaf_hash@), value@),
    {
        let ghost es0 = tap_pairs_view(self.entries@);
        proof {
            assert(es0 == tap_pairs_view(old(self).entries@));
            assert(assoc_distinct(es0));
        }
        let mut i: usize = 0;
        while i < self.entries.len()
            invariant
                i <= self.entries.len(),
                self == old(self),
                es0 == tap_pairs_view(self.entries@),
                assoc_distinct(es0),
                forall|m: int| 0 <= m < i ==> (#[trigger] es0[m]).0 != (pubkey@, leaf_hash@),
            decreases self.entries.len() - i,
        {
            if u8_vec_eq(&self.entries[i].0.0, pubkey) && u8_vec_eq(&self.entries[i].0.1, leaf_hash)
            {
                let pair = ((clone_bytes(pubkey), clone_bytes(leaf_hash)), clone_bytes(value));
                self.entries.remove(i);
                self.entries.insert(i, pair);
                proof {
                    let es1 = tap_pairs_view(self.entries@);
                    assert(es1 =~= es0.update(i as int, ((pubkey@, leaf_hash@), value@)));
                    lemma_assoc_update(es0, i as int, (pubkey@, leaf_hash@), value@);
                    assert(es0[i as int].0 == (pubkey@, leaf_hash@));
                    assert forall|a: int, b: int| 0 <= a < b < es1.len() implies (
                    #[trigger] es1[a]).0 != (#[trigger] es1[b]).0 by {
                        assert(es1[a].0 == es0[a].0);
                        assert(es1[b].0 == es0[b].0);
                    }
                }
                return;
            }
            i += 1;
        }
        self.entries.push(((clone_bytes(pubkey), clone_bytes(leaf_hash)), clone_bytes(value)));
        proof {
            let es1 = tap_pairs_view(self.entries@);
            assert(es1 =~= es0.push(((pubkey@, leaf_hash@), value@)));
            lemma_assoc_push(es0, (pubkey@, leaf_hash@), value@);
            assert forall|a: int, b: int| 0 <= a < b < es1.len() implies (#[trigger] es1[a]).0
                != (#[trigger] es1[b]).0 by {
                if b < es0.len() {
                    assert(es1[a].0 == es0[a].0);
                    assert(es1[b].0 == es0[b].0);
                } else {
                    assert(es1[b].0 == (pubkey@, leaf_hash@));
                    assert(es1[a].0 == es0[a].0);
                }
            }
        }
    }

    /// Look a (pubkey, leaf hash) pair up.
    pub fn get(&self, pubkey: &Vec<u8>, leaf_hash: &Vec<u8>) -> (r: Option<&Vec<u8>>)
        requires
            self.wf(),
        ensures
            match r {
                Some(v) => self@.contains_key((pubkey@, leaf_hash@)) && v@ == self@[
                    (pubkey@, leaf_hash@)
                ],
                None => !self@.contains_key((pubkey@, leaf_hash@)),
            },
    {
        let ghost es = tap_pairs_view(self.entries@);
        let mut i: usize = 0;
        while i < self.entries.len()
            invariant
                i <= self.entries.len(),
                self.wf(),
                es == tap_pairs_view(self.entries@),
                forall|m: int| 0 <= m < i ==> (#[trigger] es[m]).0 != (pubkey@, leaf_hash@),
            decreases self.entries.len() - i,
        {
            if u8_vec_eq(&self.entries[i].0.0, pubkey) && u8_vec_eq(&self.entries[i].0.1, leaf_hash)
            {
                proof {
                    lemma_assoc_get(es, (pubkey@, leaf_hash@));
                    assert(es[i as int].0 == (pubkey@, leaf_hash@));
                    assert(self@.contains_key((pubkey@, leaf_hash@)) && self@[
                        (pubkey@, leaf_hash@)
                    ] == es[i as int].1);
                }
                return Some(&self.entries[i].1);
            }
            i += 1;
        }
        proof {
            lemma_assoc_get(es, (pubkey@, leaf_hash@));
        }
        None
    }
}

// ---------------------------------------------------------------------------
// Inputs, transactions, signature records, and the merge itself.
// ---------------------------------------------------------------------------

/// The signature-bearing state of one transaction input.
#[derive(Debug)]
pub struct PsbtInput {
    pub partial_sigs: SigMap,
    pub tap_script_sigs: TapSigMap,
    pub tap_key_sig: Option<Vec<u8>>,
}

#[verifier::ext_equal]
pub struct PsbtInputV {
    pub partial_sigs: Map<Seq<u8>, Seq<u8>>,
    pub tap_script_sigs: Map<(Seq<u8>, Seq<u8>), Seq<u8>>,
    pub tap_key_sig: Option<Seq<u8>>,
}

impl View for PsbtInput {
    type V = PsbtInputV;

    open spec fn view(&self) -> PsbtInputV {
        PsbtInputV {
            partial_sigs: self.partial_sigs@,
            tap_script_sigs: self.tap_script_sigs@,
            tap_key_sig: match self.tap_key_sig {
                Some(ref s) => Some(s@),
                None => None,
            },
        }
    }
}

impl PsbtInput {
    pub open spec fn wf(&self) -> bool {
        self.partial_sigs.wf() && self.tap_script_sigs.wf()
    }

    pub fn new() -> (r: Self)
        ensures
            r.wf(),
            r@.partial_sigs == Map::<Seq<u8>, Seq<u8>>::empty(),
            r@.tap_script_sigs == Map::<(Seq<u8>, Seq<u8>), Seq<u8>>::empty(),
            r@.tap_key_sig is None,
    {
        PsbtInput { partial_sigs: SigMap::new(), tap_script_sigs: TapSigMap::new(), tap_key_sig: None }
    }
}

/// One per-input signature returned by a device signing call.
#[derive(Debug)]
pub enum SignatureRecord {
    /// A keyed partial signature.
    Plain { pubkey: Vec<u8>, signature: Vec<u8> },
    /// A taproot script-path signature for a given leaf.
    TapScript { pubkey: Vec<u8>, leaf_hash: Vec<u8>, signature: Vec<u8> },
    /// The taproot key-path signature of the input.
    TapKey { signature: Vec<u8> },
}

/// A partially-signed transaction, reduced to what reconciliation touches:
/// the per-input signature state.
#[derive(Debug)]
pub struct Psbt {
    pub inputs: Vec<PsbtInput>,
}

impl View for Psbt {
    type V = Seq<PsbtInputV>;

    open spec fn view(&self) -> Seq<PsbtInputV> {
        Seq::new(self.inputs@.len(), |i: int| self.inputs@[i]@)
    }
}

impl Psbt {
    pub open spec fn wf(&self) -> bool {
        forall|i: int| 0 <= i < self.inputs@.len() ==> (#[trigger] self.inputs@[i]).wf()
    }

    /// A transaction with `n` inputs carrying no signatures yet.
    pub fn new(n: usize) -> (r: Self)
        ensures
            r.wf(),
            r@.len() == n,
            forall|i: int| 0 <= i < n ==> (#[trigger] r@[i]).partial_sigs.is_empty()
                && r@[i].tap_script_sigs.is_empty() && r@[i].tap_key_sig is None,
    {
        let mut inputs: Vec<PsbtInput> = Vec::new();
        let mut j: usize = 0;
        while j < n
            invariant
                j <= n,
                inputs@.len() == j,
                forall|i: int| 0 <= i < j ==> (#[trigger] inputs@[i]).wf(),
                forall|i: int| 0 <= i < j ==> (#[trigger] inputs@[i])@.partial_sigs
                    =~= Map::<Seq<u8>, Seq<u8>>::empty(),
                forall|i: int| 0 <= i < j ==> (#[trigger] inputs@[i])@.tap_script_sigs
                    =~= Map::<(Seq<u8>, Seq<u8>), Seq<u8>>::empty(),
                forall|i: int| 0 <= i < j ==> (#[trigger] inputs@[i])@.tap_key_sig is None,
            decreases n - j,
        {
            inputs.push(PsbtInput::new());
            j += 1;
        }
        Psbt { inputs }
    }
}

/// One record merged into the input at `idx`, by variant: a plain
/// signature upserts the keyed map, a script-path signature upserts the
/// (pubkey, leaf) map, a key-path signature overwrites the single slot.
pub open spec fn apply_record(
    inputs: Seq<PsbtInputV>,
    idx: int,
    r: SignatureRecord,
) -> Seq<PsbtInputV>
    recommends
        0 <= idx < inputs.len(),
{
    let inp = inputs[idx];
    match r {
        SignatureRecord::Plain { pubkey, signature } => inputs.update(
            idx,
            PsbtInputV {
                partial_sigs: inp.partial_sigs.insert(pubkey@, signature@),
                tap_script_sigs: inp.tap_script_sigs,
                tap_key_sig: inp.tap_key_sig,
            },
        ),
        SignatureRecord::TapScript { pubkey, leaf_hash, signature } => inputs.update(
            idx,
            PsbtInputV {
                partial_sigs: inp.partial_sigs,
                tap_script_sigs: inp.tap_script_sigs.insert((pubkey@, leaf_hash@), signature@),
                tap_key_sig: inp.tap_key_sig,
            },
        ),
        SignatureRecord::TapKey { signature } => inputs.update(
            idx,
            PsbtInputV {
                partial_sigs: inp.partial_sigs,
                tap_script_sigs: inp.tap_script_sigs,
                tap_key_sig: Some(signature@),
            },
        ),
    }
}

/// The first `j` records applied in order; a record naming a missing input
/// leaves the transaction as it stands.
pub open spec fn apply_upto(
    inputs: Seq<PsbtInputV>,
    recs: Seq<(usize, SignatureRecord)>,
    j: int,
) -> Seq<PsbtInputV>
    recommends
        j <= recs.len(),
    decreases j,
    when j >= 0
{
    if j <= 0 {
        inputs
    } else {
        let prev = apply_upto(inputs, recs, j - 1);
        let idx = recs[j - 1].0 as int;
        if 0 <= idx < prev.len() {
            apply_record(prev, idx, recs[j - 1].1)
        } else {
            prev
        }
    }
}

/// The position of the first record whose input index is out of range.
pub open spec fn first_bad_from(
    n_inputs: int,
    recs: Seq<(usize, SignatureRecord)>,
    j: int,
) -> Option<int>
    decreases recs.len() - j,
    when 0 <= j <= recs.len()
{
    if j >= recs.len() {
        None
    } else if recs[j].0 >= n_inputs {
        Some(j)
    } else {
        first_bad_from(n_inputs, recs, j + 1)
    }
}

proof fn lemma_first_bad_char(n_inputs: int, recs: Seq<(usize, SignatureRecord)>, a: int, j: int)
    requires
        0 <= a <= j <= recs.len(),
        forall|m: int| a <= m < j ==> (#[trigger] recs[m]).0 < n_inputs,
        j == recs.len() || recs[j].0 >= n_inputs,
    ensures
        first_bad_from(n_inputs, recs, a) == if j == recs.len() {
            None
        } else {
            Some(j)
        },
    decreases j - a,
{
    if a < j {
        lemma_first_bad_char(n_inputs, recs, a + 1, j);
    }
}

/// Re-applying an identical record is a no-op in effect: the second merge
/// leaves the transaction exactly as the first left it.
pub proof fn lemma_apply_record_idempotent(
    inputs: Seq<PsbtInputV>,
    idx: int,
    r: SignatureRecord,
)
    requires
        0 <= idx < inputs.len(),
    ensures
        apply_record(apply_record(inputs, idx, r), idx, r) == apply_record(inputs, idx, r),
{
    let once = apply_record(inputs, idx, r);
    let twice = apply_record(once, idx, r);
    match r {
        SignatureRecord::Plain { pubkey, signature } => {
            assert(once[idx].partial_sigs.insert(pubkey@, signature@)
                =~= once[idx].partial_sigs);
        },
        SignatureRecord::TapScript { pubkey, leaf_hash, signature } => {
            assert(once[idx].tap_script_sigs.insert((pubkey@, leaf_hash@), signature@)
                =~= once[idx].tap_script_sigs);
        },
        SignatureRecord::TapKey { signature } => {},
    }
    assert(twice[idx] =~= once[idx]);
    assert(twice =~= once);
}

/// Merges into two different inputs commute: the records may arrive in
/// either order without changing the outcome.
pub proof fn lemma_apply_record_commutes(
    inputs: Seq<PsbtInputV>,
    i: int,
    r1: SignatureRecord,
    j: int,
    r2: SignatureRecord,
)
    requires
        0 <= i < inputs.len(),
        0 <= j < inputs.len(),
        i != j,
    ensures
        apply_record(apply_record(inputs, i, r1), j, r2) == apply_record(
            apply_record(inputs, j, r2),
            i,
            r1,
        ),
{
    let a = apply_record(inputs, i, r1);
    let b = apply_record(inputs, j, r2);
    assert(a[j] == inputs[j]);
    assert(b[i] == inputs[i]);
    match r1 {
        SignatureRecord::Plain { .. } => {},
        SignatureRecord::TapScript { .. } => {},
        SignatureRecord::TapKey { .. } => {},
    }
    match r2 {
        SignatureRecord::Plain { .. } => {},
        SignatureRecord::TapScript { .. } => {},
        SignatureRecord::TapKey { .. } => {},
    }
    assert(apply_record(a, j, r2) =~= apply_record(b, i, r1));
}

/// Merge a device's ordered signature records into the transaction. Every
/// record up to the first out-of-range input index is applied and kept; a
/// record naming a missing input stops the merge with `DeviceDidNotSign`
/// and itself changes nothing.
pub fn apply_signatures(psbt: &mut Psbt, sigs: &Vec<(usize, SignatureRecord)>) -> (r: Result<
    (),
    Error,
>)
    requires
        old(psbt).wf(),
    ensures
        final(psbt).wf(),
        match r {
            Ok(()) => first_bad_from(old(psbt)@.len() as int, sigs@, 0) is None && final(psbt)@
                == apply_upto(old(psbt)@, sigs@, sigs@.len() as int),
            Err(e) => {
                &&& e == Error::DeviceDidNotSign
                &&& first_bad_from(old(psbt)@.len() as int, sigs@, 0) matches Some(b)
                    && final(psbt)@ == apply_upto(old(psbt)@, sigs@, b)
            },
        },
{
    let ghost inputs0 = psbt@;
    let n = psbt.inputs.len();
    let mut j: usize = 0;
    while j < sigs.len()
        invariant
            j <= sigs.len(),
            psbt.wf(),
            psbt.inputs.len() == n,
            inputs0.len() == n,
            inputs0 == old(psbt)@,
            forall|m: int| 0 <= m < j ==> (#[trigger] sigs@[m]).0 < n,
            psbt@ == apply_upto(inputs0, sigs@, j as int),
        decreases sigs.len() - j,
    {
        let ghost prev = psbt@;
        let pair = &sigs[j];
        let idx = pair.0;
        if idx >= n {
            proof {
                lemma_first_bad_char(n as int, sigs@, 0, j as int);
            }
            return Err(Error::DeviceDidNotSign);
        }
        let ghost inputs_before = psbt.inputs@;
        let mut inp = psbt.inputs.remove(idx);
        proof {
            assert(inp@ == prev[idx as int]);
        }
        match &pair.1 {
            SignatureRecord::Plain { pubkey, signature } => {
                inp.partial_sigs.insert(pubkey, signature);
            },
            SignatureRecord::TapScript { pubkey, leaf_hash, signature } => {
                inp.tap_script_sigs.insert(pubkey, leaf_hash, signature);
            },
            SignatureRecord::TapKey { signature } => {
                inp.tap_key_sig = Some(clone_bytes(signature));
            },
        }
        psbt.inputs.insert(idx, inp);
        proof {
            assert(psbt.inputs@ =~= inputs_before.update(idx as int, inp));
            assert(psbt@ =~= prev.update(idx as int, inp@));
            assert(inp@ =~= apply_record(prev, idx as int, sigs@[j as int].1)[idx as int]);
            assert(psbt@ =~= apply_record(prev, idx as int, sigs@[j as int].1));
            assert(psbt@ == apply_upto(inputs0, sigs@, j + 1));
        }
        j += 1;
    }
    proof {
        lemma_first_bad_char(n as int, sigs@, 0, sigs@.len() as int);
    }
    Ok(())
}

} // verus!
