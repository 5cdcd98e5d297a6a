use vstd::prelude::*;

use crate::descriptor::{dec_digits, extract_keys_and_template, parse_descriptor, push_decimal};
use crate::error::{Error, ParamField, ParamIssue};
use crate::keys::{pow16, HARDENED_FLAG};
use crate::policy::{clone_wallet_policy, PolicyVersion, WalletPolicy};

verus! {

/// Which derivation algorithm an address request runs: an ad-hoc
/// single-signer taproot scheme over a caller-given path, or a previously
/// attached multi-key wallet policy.
#[derive(Debug)]
pub enum AddressRequest {
    SingleSigTaproot { path: Vec<u32> },
    PolicyAddress { index: u32, is_change: bool },
}

/// Everything a device session needs to show and return one address. The
/// display flag is always set: addresses are never derived silently, the
/// on-device confirmation is the trust anchor.
#[derive(Debug)]
pub struct AddressCall {
    pub policy: WalletPolicy,
    pub is_change: bool,
    pub index: u32,
    pub display: bool,
}

pub open spec fn is_hardened(c: u32) -> bool {
    c >= HARDENED_FLAG
}

/// The single-signer taproot shape: a three-component hardened prefix
/// (purpose, coin, account) and exactly two trailing unhardened components
/// (change selector, address index).
pub open spec fn taproot_path_ok(p: Seq<u32>) -> bool {
    &&& p.len() == 5
    &&& is_hardened(p[0])
    &&& is_hardened(p[1])
    &&& is_hardened(p[2])
    &&& !is_hardened(p[3])
    &&& !is_hardened(p[4])
}

/// Split a single-signer taproot path into its account-level prefix, the
/// change flag (selector equal to zero) and the address index; any other
/// arity or hardening pattern is rejected.
pub fn split_taproot_path(path: &Vec<u32>) -> (r: Result<(Vec<u32>, bool, u32), Error>)
    ensures
        match r {
            Ok((account, is_change, index)) => {
                &&& taproot_path_ok(path@)
                &&& account@ == path@.subrange(0, 3)
                &&& is_change == (path@[3] == 0)
                &&& index == path@[4]
            },
            Err(e) => !taproot_path_ok(path@) && e == Error::InvalidParameter(
                ParamField::DerivationPath,
                ParamIssue::WrongTaprootPathShape,
            ),
        },
{
    if path.len() != 5 || path[0] < HARDENED_FLAG || path[1] < HARDENED_FLAG || path[2]
        < HARDENED_FLAG || path[3] >= HARDENED_FLAG || path[4] >= HARDENED_FLAG {
        return Err(
            Error::InvalidParameter(ParamField::DerivationPath, ParamIssue::WrongTaprootPathShape),
        );
    }
    let mut account: Vec<u32> = Vec::new();
    account.push(path[0]);
    account.push(path[1]);
    account.push(path[2]);
    proof {
        assert(account@ =~= path@.subrange(0, 3));
    }
    Ok((account, path[3] == 0, path[4]))
}

// ---------------------------------------------------------------------------
// Textual synthesis of the single-signer taproot policy.
// ---------------------------------------------------------------------------

pub open spec fn hex_digit_char(d: int) -> u8
    recommends
        0 <= d < 16,
{
    if d < 10 {
        (0x30 + d) as u8
    } else {
        (0x61 + d - 10) as u8
    }
}

/// The fingerprint as eight lowercase hex characters, most significant
/// nibble first.
pub open spec fn hex8(fp: u32) -> Seq<u8> {
    Seq::new(8, |i: int| hex_digit_char(((fp as int) / pow16((7 - i) as nat)) % 16))
}

/// One path component: the child index in decimal, with `'` marking a
/// hardened step.
pub open spec fn component_text(c: u32) -> Seq<u8> {
    if c >= HARDENED_FLAG {
        dec_digits(c - HARDENED_FLAG).push(0x27)
    } else {
        dec_digits(c as int)
    }
}

/// The path as `/`-led components.
pub open spec fn path_text(p: Seq<u32>) -> Seq<u8>
    decreases p.len(),
{
    if p.len() == 0 {
        Seq::empty()
    } else {
        path_text(p.drop_last()) + seq![0x2Fu8] + component_text(p.last())
    }
}

/// The synthesized descriptor `tr([<fingerprint><path>]<xpub>/**)`.
pub open spec fn taproot_policy_text(fp: u32, path: Seq<u32>, xpub: Seq<u8>) -> Seq<u8> {
    seq![0x74u8, 0x72, 0x28, 0x5B] + hex8(fp) + path_text(path) + seq![0x5Du8] + xpub + seq![
        0x2Fu8,
        0x2A,
        0x2A,
        0x29,
    ]
}

fn hex_char(d: u32) -> (r: u8)
    requires
        d < 16,
    ensures
        r == hex_digit_char(d as int),
{
    if d < 10 {
        0x30 + (d as u8)
    } else {
        0x61 + ((d - 10) as u8)
    }
}

fn push_hex8(out: &mut Vec<u8>, fp: u32)
    ensures
        final(out)@ == old(out)@ + hex8(fp),
{
    proof {
        assert(pow16(0) == 1 && pow16(1) == 0x10 && pow16(2) == 0x100 && pow16(3) == 0x1000
            && pow16(4) == 0x10000 && pow16(5) == 0x100000 && pow16(6) == 0x1000000 && pow16(7)
            == 0x10000000) by {
            reveal_with_fuel(pow16, 9);
        }
    }
    out.push(hex_char((fp / 0x1000_0000) % 16));
    out.push(hex_char((fp / 0x100_0000) % 16));
    out.push(hex_char((fp / 0x10_0000) % 16));
    out.push(hex_char((fp / 0x1_0000) % 16));
    out.push(hex_char((fp / 0x1000) % 16));
    out.push(hex_char((fp / 0x100) % 16));
    out.push(hex_char((fp / 0x10) % 16));
    out.push(hex_char(fp % 16));
    proof {
        assert(final(out)@ =~= old(out)@ + hex8(fp));
    }
}

fn push_path(out: &mut Vec<u8>, path: &Vec<u32>)
    ensures
        final(out)@ == old(out)@ + path_text(path@),
{
    let mut i: usize = 0;
    proof {
        assert(path_text(path@.subrange(0, 0)) =~= Seq::<u8>::empty());
        assert(out@ =~= old(out)@ + path_text(path@.subrange(0, 0)));
    }
    while i < path.len()
        invariant
            i <= path.len(),
            out@ == old(out)@ + path_text(path@.subrange(0, i as int)),
        decreases path.len() - i,
    {
        out.push(0x2F);
        let c = path[i];
        if c >= HARDENED_FLAG {
            push_decimal(out, (c - HARDENED_FLAG) as usize);
            out.push(0x27);
        } else {
            push_decimal(out, c as usize);
        }
        proof {
            let p1 = path@.subrange(0, i + 1);
            assert(p1.drop_last() =~= path@.subrange(0, i as int));
            assert(p1.last() == path@[i as int]);
            if c >= HARDENED_FLAG {
                assert(dec_digits(((c - HARDENED_FLAG) as usize) as int) == dec_digits(
                    c - HARDENED_FLAG,
                ));
            }
            assert(out@ =~= old(out)@ + path_text(p1));
        }
        i += 1;
    }
    proof {
        assert(path@.subrange(0, path@.len() as int) =~= path@);
    }
}

/// Synthesize the unnamed single-key taproot descriptor for an account:
/// `tr([<fingerprint><hardened account path>]<xpub>/**)`.
pub fn single_sig_taproot_policy(fingerprint: u32, account_path: &Vec<u32>, xpub: &[u8]) -> (r:
    Vec<u8>)
    ensures
        r@ == taproot_policy_text(fingerprint, account_path@, xpub@),
{
    let mut out: Vec<u8> = Vec::new();
    out.push(0x74);
    out.push(0x72);
    out.push(0x28);
    out.push(0x5B);
    proof {
        assert(out@ =~= seq![0x74u8, 0x72, 0x28, 0x5B]);
    }
    push_hex8(&mut out, fingerprint);
    push_path(&mut out, account_path);
    out.push(0x5D);
    let mut j: usize = 0;
    let ghost mid = out@;
    while j < xpub.len()
        invariant
            j <= xpub.len(),
            out@ == mid + xpub@.subrange(0, j as int),
        decreases xpub.len() - j,
    {
        out.push(xpub[j]);
        proof {
            assert(out@ =~= mid + xpub@.subrange(0, j + 1));
        }
        j += 1;
    }
    out.push(0x2F);
    out.push(0x2A);
    out.push(0x2A);
    out.push(0x29);
    proof {
        assert(xpub@.subrange(0, xpub@.len() as int) =~= xpub@);
        assert(out@ =~= taproot_policy_text(fingerprint, account_path@, xpub@));
    }
    out
}

/// The textual form of one extracted key record: the bracketed origin if
/// there is one, the extended key, and any multipath suffix, exactly as
/// the parser consumes them.
pub open spec fn key_expression_text(k: crate::keys::KeyOriginV) -> Seq<u8> {
    (match k.origin {
        Some(ks) => seq![0x5Bu8] + hex8(ks.fingerprint) + path_text(ks.path) + seq![0x5Du8],
        None => Seq::<u8>::empty(),
    }) + k.xpub + (match k.multipath {
        Some(m) => m,
        None => Seq::<u8>::empty(),
    })
}

/// Render a key record back to its textual key expression.
pub fn key_expression(k: &crate::keys::KeyOrigin) -> (r: Vec<u8>)
    ensures
        r@ == key_expression_text(k@),
{
    let mut out: Vec<u8> = Vec::new();
    match &k.origin {
        Some(ks) => {
            out.push(0x5B);
            proof {
                assert(out@ =~= seq![0x5Bu8]);
            }
            push_hex8(&mut out, ks.fingerprint);
            push_path(&mut out, &ks.path);
            out.push(0x5D);
        },
        None => {},
    }
    let ghost with_origin = out@;
    let mut j: usize = 0;
    while j < k.xpub.len()
        invariant
            j <= k.xpub.len(),
            out@ == with_origin + k.xpub@.subrange(0, j as int),
        decreases k.xpub.len() - j,
    {
        out.push(k.xpub[j]);
        proof {
            assert(out@ =~= with_origin + k.xpub@.subrange(0, j + 1));
        }
        j += 1;
    }
    proof {
        assert(k.xpub@.subrange(0, k.xpub@.len() as int) =~= k.xpub@);
    }
    let ghost with_xpub = out@;
    match &k.multipath {
        Some(m) => {
            let mut j2: usize = 0;
            while j2 < m.len()
                invariant
                    j2 <= m.len(),
                    out@ == with_xpub + m@.subrange(0, j2 as int),
                decreases m.len() - j2,
            {
                out.push(m[j2]);
                proof {
                    assert(out@ =~= with_xpub + m@.subrange(0, j2 + 1));
                }
                j2 += 1;
            }
            proof {
                assert(m@.subrange(0, m@.len() as int) =~= m@);
            }
        },
        None => {},
    }
    proof {
        assert(out@ =~= key_expression_text(k@));
    }
    out
}

/// Build the device call for a single-signer taproot address: validate and
/// split the path, synthesize the account descriptor around the fetched
/// fingerprint and extended key, compile it, and request the address for
/// (change selector, index) with on-device display enabled.
pub fn taproot_address_call(path: &Vec<u32>, fingerprint: u32, xpub: &[u8]) -> (r: Result<
    AddressCall,
    Error,
>)
    ensures
        match r {
            Ok(call) => {
                &&& taproot_path_ok(path@)
                &&& parse_descriptor(
                    taproot_policy_text(fingerprint, path@.subrange(0, 3), xpub@),
                ) matches Ok((t, ks)) && call.policy@.descriptor_template == t && call.policy@.keys
                    == ks
                &&& call.policy@.name == Seq::<u8>::empty()
                &&& call.policy@.version == PolicyVersion::V2
                &&& call.policy@.hmac is None
                &&& call.is_change == (path@[3] == 0)
                &&& call.index == path@[4]
                &&& call.display == true
            },
            Err(e) => {
                ||| (!taproot_path_ok(path@) && e == Error::InvalidParameter(
                    ParamField::DerivationPath,
                    ParamIssue::WrongTaprootPathShape,
                ))
                ||| (taproot_path_ok(path@) && (parse_descriptor(
                    taproot_policy_text(fingerprint, path@.subrange(0, 3), xpub@),
                ) matches Err(issue) && e == Error::InvalidParameter(ParamField::Policy, issue)))
            },
        },
{
    let (account, is_change, index) = match split_taproot_path(path) {
        Err(e) => {
            return Err(e);
        },
        Ok(t) => t,
    };
    let text = single_sig_taproot_policy(fingerprint, &account, xpub);
    match extract_keys_and_template(text.as_slice()) {
        Err(e) => Err(e),
        Ok((descriptor_template, keys)) => {
            let policy = WalletPolicy {
                name: Vec::new(),
                version: PolicyVersion::V2,
                descriptor_template,
                keys,
                hmac: None,
            };
            Ok(AddressCall { policy, is_change, index, display: true })
        },
    }
}

/// Build the device call for an address of the attached wallet policy;
/// without one the request fails with `MissingPolicy`. Display is always
/// enabled.
pub fn policy_address_call(stored: &Option<WalletPolicy>, index: u32, is_change: bool) -> (r:
    Result<AddressCall, Error>)
    ensures
        match stored {
            None => r matches Err(e) && e == Error::MissingPolicy,
            Some(w) => r matches Ok(call) && call.policy@ == w@ && call.is_change == is_change
                && call.index == index && call.display == true,
        },
{
    match stored {
        None => Err(Error::MissingPolicy),
        Some(w) => Ok(
            AddressCall { policy: clone_wallet_policy(w), is_change, index, display: true },
        ),
    }
}

} // verus!
