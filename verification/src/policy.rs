use vstd::prelude::*;

use crate::descriptor::{extract_keys_and_template, keys_view, parse_descriptor};
use crate::error::{Error, ParamField, ParamIssue};
use crate::keys::{clone_bytes, clone_key_origin, key_origin_eq, slice_eq, slice_to_vec, KeyOrigin, KeyOriginV};

verus! {

/// The protocol version tag a wallet policy is registered under.
#[derive(Clone, Copy, Debug, PartialEq, Eq, Structural)]
pub enum PolicyVersion {
    V1,
    V2,
}

/// A wallet policy: a named, canonical script template over an ordered key
/// list, plus the opaque 32-byte registration proof once the device has
/// accepted it. A policy counts as registered only while the proof is
/// present.
#[derive(Debug)]
pub struct WalletPolicy {
    pub name: Vec<u8>,
    pub version: PolicyVersion,
    pub descriptor_template: Vec<u8>,
    pub keys: Vec<KeyOrigin>,
    pub hmac: Option<Vec<u8>>,
}

#[verifier::ext_equal]
pub struct WalletPolicyV {
    pub name: Seq<u8>,
    pub version: PolicyVersion,
    pub descriptor_template: Seq<u8>,
    pub keys: Seq<KeyOriginV>,
    pub hmac: Option<Seq<u8>>,
}

impl View for WalletPolicy {
    type V = WalletPolicyV;

    open spec fn view(&self) -> WalletPolicyV {
        WalletPolicyV {
            name: self.name@,
            version: self.version,
            descriptor_template: self.descriptor_template@,
            keys: keys_view(self.keys@),
            hmac: match self.hmac {
                Some(ref h) => Some(h@),
                None => None,
            },
        }
    }
}

impl WalletPolicy {
    /// A registration proof, when present, is exactly 32 bytes.
    pub open spec fn wf(&self) -> bool {
        match self@.hmac {
            Some(h) => h.len() == 32,
            None => true,
        }
    }

    /// Pure construction; no validation beyond what the parser guaranteed.
    pub fn new(name: Vec<u8>, descriptor_template: Vec<u8>, keys: Vec<KeyOrigin>) -> (r:
        WalletPolicy)
        ensures
            r@.name == name@,
            r@.version == PolicyVersion::V2,
            r@.descriptor_template == descriptor_template@,
            r@.keys == keys_view(keys@),
            r@.hmac is None,
            r.wf(),
    {
        WalletPolicy { name, version: PolicyVersion::V2, descriptor_template, keys, hmac: None }
    }

    /// Attach the registration proof the device returned.
    pub fn attach_proof(&mut self, hmac: Vec<u8>)
        requires
            hmac@.len() == 32,
        ensures
            final(self)@.name == old(self)@.name,
            final(self)@.version == old(self)@.version,
            final(self)@.descriptor_template == old(self)@.descriptor_template,
            final(self)@.keys == old(self)@.keys,
            final(self)@.hmac == Some(hmac@),
            final(self).wf(),
    {
        self.hmac = Some(hmac);
    }
}

/// A deep copy of a wallet policy, field for field.
pub fn clone_wallet_policy(w: &WalletPolicy) -> (r: WalletPolicy)
    ensures
        r@ == w@,
{
    let mut keys: Vec<KeyOrigin> = Vec::new();
    let mut i: usize = 0;
    while i < w.keys.len()
        invariant
            i <= w.keys.len(),
            keys_view(keys@) == keys_view(w.keys@).subrange(0, i as int),
        decreases w.keys.len() - i,
    {
        let ghost kv_prev = keys_view(keys@);
        keys.push(clone_key_origin(&w.keys[i]));
        proof {
            assert forall|k: int| 0 <= k < keys@.len() implies keys_view(keys@)[k] == keys_view(
                w.keys@,
            ).subrange(0, i + 1)[k] by {
                if k < kv_prev.len() {
                    assert(keys@[k] == keys@.drop_last()[k]);
                    assert(keys_view(keys@)[k] == kv_prev[k]);
                } else {
                    assert(keys@[k]@ == w.keys@[i as int]@);
                }
            }
            assert(keys_view(keys@) =~= keys_view(w.keys@).subrange(0, i + 1));
        }
        i += 1;
    }
    let hmac: Option<Vec<u8>> = match &w.hmac {
        Some(h) => Some(clone_bytes(h)),
        None => None,
    };
    let r = WalletPolicy {
        name: clone_bytes(&w.name),
        version: w.version,
        descriptor_template: clone_bytes(&w.descriptor_template),
        keys,
        hmac,
    };
    proof {
        assert(r@.keys =~= w@.keys);
        assert(r@ =~= w@);
    }
    r
}

/// Field-wise equality of two key lists.
pub fn key_list_eq(a: &Vec<KeyOrigin>, b: &Vec<KeyOrigin>) -> (r: bool)
    ensures
        r == (keys_view(a@) == keys_view(b@)),
{
    if a.len() != b.len() {
        proof {
            assert(keys_view(a@).len() != keys_view(b@).len());
        }
        return false;
    }
    let mut i: usize = 0;
    while i < a.len()
        invariant
            i <= a.len(),
            a.len() == b.len(),
            forall|k: int| 0 <= k < i ==> keys_view(a@)[k] == keys_view(b@)[k],
        decreases a.len() - i,
    {
        if !key_origin_eq(&a[i], &b[i]) {
            proof {
                assert(keys_view(a@)[i as int] != keys_view(b@)[i as int]);
            }
            return false;
        }
        i += 1;
    }
    proof {
        assert(keys_view(a@) =~= keys_view(b@));
    }
    true
}

/// Compile a descriptor and build the wallet policy carrying its template,
/// its deduplicated key list and, optionally, an already-known proof.
pub fn compile_wallet_policy(name: &[u8], policy: &[u8], hmac: Option<Vec<u8>>) -> (r: Result<
    WalletPolicy,
    Error,
>)
    requires
        hmac matches Some(h) ==> h@.len() == 32,
    ensures
        match r {
            Ok(w) => {
                &&& parse_descriptor(policy@) matches Ok((t, ks)) && w@.descriptor_template == t
                    && w@.keys == ks
                &&& w@.name == name@
                &&& w@.version == PolicyVersion::V2
                &&& w@.hmac == match hmac {
                    Some(h) => Some(h@),
                    None => None::<Seq<u8>>,
                }
                &&& w.wf()
            },
            Err(e) => parse_descriptor(policy@) matches Err(issue) && e == Error::InvalidParameter(
                ParamField::Policy,
                issue,
            ),
        },
{
    match extract_keys_and_template(policy) {
        Err(e) => Err(e),
        Ok((descriptor_template, keys)) => Ok(
            WalletPolicy {
                name: slice_to_vec(name),
                version: PolicyVersion::V2,
                descriptor_template,
                keys,
                hmac,
            },
        ),
    }
}

/// True only when a stored policy exists, carries its registration proof,
/// and its name, template and key list equal the candidates field for
/// field; the proof itself is only tested for presence, never re-derived.
/// Purely local: no device interaction.
pub fn is_registered(
    stored: &Option<WalletPolicy>,
    name: &[u8],
    descriptor_template: &[u8],
    keys: &Vec<KeyOrigin>,
) -> (r: bool)
    ensures
        r == match stored {
            Some(w) => w@.hmac is Some && w@.name == name@ && w@.descriptor_template
                == descriptor_template@ && w@.keys == keys_view(keys@),
            None => false,
        },
{
    match stored {
        None => false,
        Some(w) => w.hmac.is_some() && slice_eq(w.name.as_slice(), name) && slice_eq(
            w.descriptor_template.as_slice(),
            descriptor_template,
        ) && key_list_eq(&w.keys, keys),
    }
}

/// Compile the candidate descriptor and test it against the stored policy.
/// Without a stored policy the answer is `false` and the candidate is not
/// even parsed.
pub fn is_wallet_registered(stored: &Option<WalletPolicy>, name: &[u8], policy: &[u8]) -> (r:
    Result<bool, Error>)
    ensures
        match stored {
            None => r == Ok::<bool, Error>(false),
            Some(w) => match r {
                Ok(b) => parse_descriptor(policy@) matches Ok((t, ks)) && b == (w@.hmac is Some
                    && w@.name == name@ && w@.descriptor_template == t && w@.keys == ks),
                Err(e) => parse_descriptor(policy@) matches Err(issue) && e
                    == Error::InvalidParameter(ParamField::Policy, issue),
            },
        },
{
    match stored {
        None => Ok(false),
        Some(w) => match extract_keys_and_template(policy) {
            Err(e) => Err(e),
            Ok((descriptor_template, keys)) => Ok(
                w.hmac.is_some() && slice_eq(w.name.as_slice(), name) && slice_eq(
                    w.descriptor_template.as_slice(),
                    descriptor_template.as_slice(),
                ) && key_list_eq(&w.keys, &keys),
            ),
        },
    }
}

} // verus!
