use vstd::prelude::*;

use crate::error::ParamIssue;

verus! {

/// Derivation steps are carried in the BIP32 raw form: a child index below
/// `HARDENED_FLAG` is unhardened, adding `HARDENED_FLAG` marks it hardened.
pub const HARDENED_FLAG: u32 = 0x8000_0000;

// ---------------------------------------------------------------------------
// Character classes of the descriptor grammar (ASCII bytes).
// ---------------------------------------------------------------------------

pub open spec fn is_digit(c: u8) -> bool {
    0x30 <= c <= 0x39
}

pub open spec fn is_hex_digit(c: u8) -> bool {
    is_digit(c) || (0x41 <= c <= 0x46) || (0x61 <= c <= 0x66)
}

pub open spec fn hex_digit_val(c: u8) -> int {
    if is_digit(c) {
        c - 0x30
    } else if 0x41 <= c <= 0x46 {
        c - 0x41 + 10
    } else {
        c - 0x61 + 10
    }
}

/// The base58 alphabet: `1-9`, `A-Z` without `I` and `O`, `a-z` without `l`.
pub open spec fn is_base58(c: u8) -> bool {
    ||| (0x31 <= c <= 0x39)
    ||| (0x41 <= c <= 0x5A && c != 0x49 && c != 0x4F)
    ||| (0x61 <= c <= 0x7A && c != 0x6C)
}

/// The version-byte classes of recognized extended keys: the first letter of
/// `xpub`, `ypub`, `Ypub`, `zpub`, `Zpub`, `tpub`, `upub`, `Upub`, `vpub`,
/// `Vpub`.
pub open spec fn is_version_prefix(c: u8) -> bool {
    ||| c == 0x78 ||| c == 0x79 ||| c == 0x59 ||| c == 0x7A ||| c == 0x5A
    ||| c == 0x74 ||| c == 0x75 ||| c == 0x55 ||| c == 0x76 ||| c == 0x56
}

/// Characters a multipath suffix may carry after its leading `/`: digits,
/// `*`, `'`, `h`, `H`, `<`, `>`, `;` and further `/` separators.
pub open spec fn is_multipath_char(c: u8) -> bool {
    ||| is_digit(c)
    ||| c == 0x2A ||| c == 0x27 ||| c == 0x68 ||| c == 0x48
    ||| c == 0x3C ||| c == 0x3E ||| c == 0x3B ||| c == 0x2F
}

// ---------------------------------------------------------------------------
// Numeric parsing: decimal child indices and hexadecimal fingerprints.
// ---------------------------------------------------------------------------

pub open spec fn all_digits(s: Seq<u8>, lo: int, hi: int) -> bool {
    forall|k: int| lo <= k < hi ==> is_digit(#[trigger] s[k])
}

pub open spec fn all_hex(s: Seq<u8>, lo: int, hi: int) -> bool {
    forall|k: int| lo <= k < hi ==> is_hex_digit(#[trigger] s[k])
}

/// The value of the decimal digits `s[lo..hi]`, most significant first.
pub open spec fn dec_val(s: Seq<u8>, lo: int, hi: int) -> int
    decreases hi - lo,
{
    if hi <= lo {
        0
    } else {
        dec_val(s, lo, hi - 1) * 10 + (s[hi - 1] - 0x30)
    }
}

/// The value of the hexadecimal digits `s[lo..hi]`, most significant first.
pub open spec fn hex_val(s: Seq<u8>, lo: int, hi: int) -> int
    decreases hi - lo,
{
    if hi <= lo {
        0
    } else {
        hex_val(s, lo, hi - 1) * 16 + hex_digit_val(s[hi - 1])
    }
}

pub open spec fn pow16(n: nat) -> int
    decreases n,
{
    if n == 0 {
        1
    } else {
        16 * pow16((n - 1) as nat)
    }
}

proof fn lemma_pow16_le(a: nat, b: nat)
    requires
        a <= b,
    ensures
        1 <= pow16(a) <= pow16(b),
    decreases b,
{
    if b > 0 {
        if a == b {
            lemma_pow16_le((a - 1) as nat, (b - 1) as nat);
        } else {
            lemma_pow16_le(a, (b - 1) as nat);
        }
    }
}

proof fn lemma_hex_val_bound(s: Seq<u8>, lo: int, hi: int)
    requires
        lo <= hi,
        all_hex(s, lo, hi),
    ensures
        0 <= hex_val(s, lo, hi) < pow16((hi - lo) as nat),
    decreases hi - lo,
{
    if hi > lo {
        lemma_hex_val_bound(s, lo, hi - 1);
        lemma_pow16_le(((hi - 1) - lo) as nat, ((hi - 1) - lo) as nat);
        assert(hex_digit_val(s[hi - 1]) <= 15);
    }
}

proof fn lemma_dec_val_monotone(s: Seq<u8>, lo: int, j: int, hi: int)
    requires
        lo <= j <= hi,
        all_digits(s, lo, hi),
    ensures
        0 <= dec_val(s, lo, j) <= dec_val(s, lo, hi),
    decreases hi - j,
{
    if j == hi {
        lemma_dec_val_nonneg(s, lo, hi);
    } else {
        lemma_dec_val_monotone(s, lo, j, hi - 1);
    }
}

proof fn lemma_dec_val_nonneg(s: Seq<u8>, lo: int, hi: int)
    requires
        all_digits(s, lo, hi),
    ensures
        dec_val(s, lo, hi) >= 0,
    decreases hi - lo,
{
    if hi > lo {
        lemma_dec_val_nonneg(s, lo, hi - 1);
    }
}

/// A four-byte master fingerprint: exactly eight hex digits.
pub open spec fn parse_fingerprint(s: Seq<u8>, lo: int, hi: int) -> Option<u32> {
    if hi - lo == 8 && all_hex(s, lo, hi) {
        Some(hex_val(s, lo, hi) as u32)
    } else {
        None
    }
}

/// An unhardened child index: one or more decimal digits, value below 2^31.
pub open spec fn parse_index(s: Seq<u8>, lo: int, hi: int) -> Option<u32> {
    if lo < hi && all_digits(s, lo, hi) && dec_val(s, lo, hi) < HARDENED_FLAG {
        Some(dec_val(s, lo, hi) as u32)
    } else {
        None
    }
}

/// A path component: a child index, hardened when suffixed with `'` or `h`.
pub open spec fn parse_component(s: Seq<u8>, lo: int, hi: int) -> Option<u32> {
    if hi - lo >= 1 && (s[hi - 1] == 0x27 || s[hi - 1] == 0x68) {
        match parse_index(s, lo, hi - 1) {
            Some(n) => Some((n + HARDENED_FLAG) as u32),
            None => None,
        }
    } else {
        parse_index(s, lo, hi)
    }
}

/// The position of the first `/` in `s[lo..hi]`, or `hi` when there is none.
pub open spec fn slash_idx(s: Seq<u8>, lo: int, hi: int) -> int
    decreases hi - lo,
{
    if lo >= hi {
        hi
    } else if s[lo] == 0x2F {
        lo
    } else {
        slash_idx(s, lo + 1, hi)
    }
}

pub proof fn lemma_slash_idx_bounds(s: Seq<u8>, lo: int, hi: int)
    requires
        lo <= hi,
    ensures
        lo <= slash_idx(s, lo, hi) <= hi,
    decreases hi - lo,
{
    if lo < hi && s[lo] != 0x2F {
        lemma_slash_idx_bounds(s, lo + 1, hi);
    }
}

/// A derivation path: non-empty `/`-separated components.
pub open spec fn parse_path(s: Seq<u8>, lo: int, hi: int) -> Option<Seq<u32>>
    decreases hi - lo,
    when lo <= hi
    via parse_path_decreases
{
    let k = slash_idx(s, lo, hi);
    match parse_component(s, lo, k) {
        None => None,
        Some(c) => if k >= hi {
            Some(seq![c])
        } else {
            match parse_path(s, k + 1, hi) {
                None => None,
                Some(rest) => Some(seq![c] + rest),
            }
        },
    }
}

#[via_fn]
proof fn parse_path_decreases(s: Seq<u8>, lo: int, hi: int) {
    lemma_slash_idx_bounds(s, lo, hi);
}

/// A bracketed key origin `fingerprint(/path)?`: the fingerprint runs up to
/// the first `/`; an absent path means the master key itself.
pub open spec fn parse_origin(s: Seq<u8>, lo: int, hi: int) -> Result<(u32, Seq<u32>), ParamIssue>
    recommends
        lo <= hi,
{
    let k = slash_idx(s, lo, hi);
    match parse_fingerprint(s, lo, k) {
        None => Err(ParamIssue::BadFingerprint),
        Some(fp) => if k >= hi {
            Ok((fp, Seq::empty()))
        } else {
            match parse_path(s, k + 1, hi) {
                None => Err(ParamIssue::BadDerivationPath),
                Some(p) => Ok((fp, p)),
            }
        },
    }
}

// ---------------------------------------------------------------------------
// Key origin records.
// ---------------------------------------------------------------------------

/// Origin metadata of an extended key: the master fingerprint it derives
/// from and the derivation path below that master key. An empty path is the
/// master key itself.
#[derive(Debug)]
pub struct KeySource {
    pub fingerprint: u32,
    pub path: Vec<u32>,
}

#[verifier::ext_equal]
pub struct KeySourceV {
    pub fingerprint: u32,
    pub path: Seq<u32>,
}

impl View for KeySource {
    type V = KeySourceV;

    open spec fn view(&self) -> KeySourceV {
        KeySourceV { fingerprint: self.fingerprint, path: self.path@ }
    }
}

/// One extracted key expression: optional origin metadata, the extended key
/// exactly as written, and an optional multipath suffix kept verbatim.
/// An absent origin means "no origin metadata", which is distinct from an
/// origin whose path is empty (the master key).
#[derive(Debug)]
pub struct KeyOrigin {
    pub origin: Option<KeySource>,
    pub xpub: Vec<u8>,
    pub multipath: Option<Vec<u8>>,
}

#[verifier::ext_equal]
pub struct KeyOriginV {
    pub origin: Option<KeySourceV>,
    pub xpub: Seq<u8>,
    pub multipath: Option<Seq<u8>>,
}

impl View for KeyOrigin {
    type V = KeyOriginV;

    open spec fn view(&self) -> KeyOriginV {
        KeyOriginV {
            origin: match self.origin {
                Some(ks) => Some(ks@),
                None => None,
            },
            xpub: self.xpub@,
            multipath: match self.multipath {
                Some(m) => Some(m@),
                None => None,
            },
        }
    }
}

// ---------------------------------------------------------------------------
// Executable byte utilities.
// ---------------------------------------------------------------------------

pub fn u8_vec_eq(a: &Vec<u8>, b: &Vec<u8>) -> (r: bool)
    ensures
        r == (a@ == b@),
{
    if a.len() != b.len() {
        return false;
    }
    let mut i: usize = 0;
    while i < a.len()
        invariant
            i <= a.len(),
            a.len() == b.len(),
            forall|k: int| 0 <= k < i ==> a@[k] == b@[k],
        decreases a.len() - i,
    {
        if a[i] != b[i] {
            return false;
        }
        i += 1;
    }
    proof {
        assert(a@ =~= b@);
    }
    true
}

pub fn u32_vec_eq(a: &Vec<u32>, b: &Vec<u32>) -> (r: bool)
    ensures
        r == (a@ == b@),
{
    if a.len() != b.len() {
        return false;
    }
    let mut i: usize = 0;
    while i < a.len()
        invariant
            i <= a.len(),
            a.len() == b.len(),
            forall|k: int| 0 <= k < i ==> a@[k] == b@[k],
        decreases a.len() - i,
    {
        if a[i] != b[i] {
            return false;
        }
        i += 1;
    }
    proof {
        assert(a@ =~= b@);
    }
    true
}

pub fn slice_eq(a: &[u8], b: &[u8]) -> (r: bool)
    ensures
        r == (a@ == b@),
{
    if a.len() != b.len() {
        return false;
    }
    let mut i: usize = 0;
    while i < a.len()
        invariant
            i <= a.len(),
            a.len() == b.len(),
            forall|k: int| 0 <= k < i ==> a@[k] == b@[k],
        decreases a.len() - i,
    {
        if a[i] != b[i] {
            return false;
        }
        i += 1;
    }
    proof {
        assert(a@ =~= b@);
    }
    true
}

pub fn slice_to_vec(s: &[u8]) -> (r: Vec<u8>)
    ensures
        r@ == s@,
{
    let mut r: Vec<u8> = Vec::new();
    let mut i: usize = 0;
    while i < s.len()
        invariant
            i <= s.len(),
            r@ == s@.subrange(0, i as int),
        decreases s.len() - i,
    {
        r.push(s[i]);
        proof {
            assert(r@ =~= s@.subrange(0, i + 1));
        }
        i += 1;
    }
    proof {
        assert(r@ =~= s@);
    }
    r
}

pub fn clone_bytes(v: &Vec<u8>) -> (r: Vec<u8>)
    ensures
        r@ == v@,
{
    let mut r: Vec<u8> = Vec::new();
    let mut i: usize = 0;
    while i < v.len()
        invariant
            i <= v.len(),
            r@ == v@.subrange(0, i as int),
        decreases v.len() - i,
    {
        r.push(v[i]);
        proof {
            assert(r@ =~= v@.subrange(0, i + 1));
        }
        i += 1;
    }
    proof {
        assert(r@ =~= v@);
    }
    r
}

pub fn clone_u32s(v: &Vec<u32>) -> (r: Vec<u32>)
    ensures
        r@ == v@,
{
    let mut r: Vec<u32> = Vec::new();
    let mut i: usize = 0;
    while i < v.len()
        invariant
            i <= v.len(),
            r@ == v@.subrange(0, i as int),
        decreases v.len() - i,
    {
        r.push(v[i]);
        proof {
            assert(r@ =~= v@.subrange(0, i + 1));
        }
        i += 1;
    }
    proof {
        assert(r@ =~= v@);
    }
    r
}

/// Structural equality of two key records: origins, extended key bytes and
/// multipath suffixes must all agree. This is the identity deduplication
/// uses.
pub fn key_origin_eq(a: &KeyOrigin, b: &KeyOrigin) -> (r: bool)
    ensures
        r == (a@ == b@),
{
    let origin_eq: bool = match (&a.origin, &b.origin) {
        (None, None) => true,
        (Some(x), Some(y)) => {
            if x.fingerprint == y.fingerprint && u32_vec_eq(&x.path, &y.path) {
                proof {
                    assert(x@ =~= y@);
                }
                true
            } else {
                false
            }
        },
        _ => false,
    };
    if !origin_eq {
        return false;
    }
    if !u8_vec_eq(&a.xpub, &b.xpub) {
        return false;
    }
    let multipath_eq: bool = match (&a.multipath, &b.multipath) {
        (None, None) => true,
        (Some(x), Some(y)) => u8_vec_eq(x, y),
        _ => false,
    };
    if !multipath_eq {
        return false;
    }
    proof {
        assert(a@ =~= b@);
    }
    true
}

/// A deep copy of a key record, field for field.
pub fn clone_key_origin(k: &KeyOrigin) -> (r: KeyOrigin)
    ensures
        r@ == k@,
{
    let origin: Option<KeySource> = match &k.origin {
        Some(ks) => Some(
            KeySource { fingerprint: ks.fingerprint, path: clone_u32s(&ks.path) },
        ),
        None => None,
    };
    let multipath: Option<Vec<u8>> = match &k.multipath {
        Some(m) => Some(clone_bytes(m)),
        None => None,
    };
    let r = KeyOrigin { origin, xpub: clone_bytes(&k.xpub), multipath };
    proof {
        assert(r@ =~= k@);
    }
    r
}

// ---------------------------------------------------------------------------
// Executable parsers, each proved against its specification above.
// ---------------------------------------------------------------------------

pub fn find_slash(s: &[u8], lo: usize, hi: usize) -> (k: usize)
    requires
        lo <= hi <= s.len(),
    ensures
        k == slash_idx(s@, lo as int, hi as int),
        lo <= k <= hi,
{
    let mut j: usize = lo;
    while j < hi
        invariant
            lo <= j <= hi <= s.len(),
            slash_idx(s@, lo as int, hi as int) == slash_idx(s@, j as int, hi as int),
        decreases hi - j,
    {
        if s[j] == 0x2F {
            return j;
        }
        j += 1;
    }
    j
}

pub fn parse_fingerprint_exec(s: &[u8], lo: usize, hi: usize) -> (r: Option<u32>)
    requires
        lo <= hi <= s.len(),
    ensures
        r == parse_fingerprint(s@, lo as int, hi as int),
{
    if hi - lo != 8 {
        return None;
    }
    let mut acc: u64 = 0;
    let mut j: usize = lo;
    while j < hi
        invariant
            lo <= j <= hi <= s.len(),
            hi - lo == 8,
            all_hex(s@, lo as int, j as int),
            acc == hex_val(s@, lo as int, j as int),
            acc < 0x1_0000_0000u64,
        decreases hi - j,
    {
        let c = s[j];
        let d: u64 = if 0x30 <= c && c <= 0x39 {
            (c - 0x30) as u64
        } else if 0x41 <= c && c <= 0x46 {
            (c - 0x41 + 10) as u64
        } else if 0x61 <= c && c <= 0x66 {
            (c - 0x61 + 10) as u64
        } else {
            return None;
        };
        acc = acc * 16 + d;
        j += 1;
        proof {
            lemma_hex_val_bound(s@, lo as int, j as int);
            lemma_pow16_le((j - lo) as nat, 8);
            assert(pow16(8) == 0x1_0000_0000) by {
                reveal_with_fuel(pow16, 9);
            }
        }
    }
    Some(acc as u32)
}

pub fn parse_index_exec(s: &[u8], lo: usize, hi: usize) -> (r: Option<u32>)
    requires
        lo <= hi <= s.len(),
    ensures
        r == parse_index(s@, lo as int, hi as int),
{
    if lo >= hi {
        return None;
    }
    let mut acc: u64 = 0;
    let mut j: usize = lo;
    while j < hi
        invariant
            lo <= j <= hi <= s.len(),
            all_digits(s@, lo as int, j as int),
            acc == dec_val(s@, lo as int, j as int),
            acc < 0x8000_0000u64,
        decreases hi - j,
    {
        let c = s[j];
        if !(0x30 <= c && c <= 0x39) {
            return None;
        }
        acc = acc * 10 + ((c - 0x30) as u64);
        j += 1;
        if acc >= 0x8000_0000 {
            proof {
                if all_digits(s@, lo as int, hi as int) {
                    lemma_dec_val_monotone(s@, lo as int, j as int, hi as int);
                }
            }
            return None;
        }
    }
    Some(acc as u32)
}

pub fn parse_component_exec(s: &[u8], lo: usize, hi: usize) -> (r: Option<u32>)
    requires
        lo <= hi <= s.len(),
    ensures
        r == parse_component(s@, lo as int, hi as int),
{
    if hi - lo >= 1 && (s[hi - 1] == 0x27 || s[hi - 1] == 0x68) {
        match parse_index_exec(s, lo, hi - 1) {
            Some(n) => {
                proof {
                    lemma_dec_val_nonneg(s@, lo as int, hi - 1);
                }
                Some(n + HARDENED_FLAG)
            },
            None => None,
        }
    } else {
        parse_index_exec(s, lo, hi)
    }
}

pub fn parse_path_exec(s: &[u8], lo: usize, hi: usize) -> (r: Option<Vec<u32>>)
    requires
        lo <= hi <= s.len(),
    ensures
        match r {
            Some(v) => parse_path(s@, lo as int, hi as int) == Some(v@),
            None => parse_path(s@, lo as int, hi as int) is None,
        },
{
    let mut comps: Vec<u32> = Vec::new();
    let mut pos: usize = lo;
    loop
        invariant
            lo <= pos <= hi <= s.len(),
            parse_path(s@, pos as int, hi as int) matches Some(rest) ==> parse_path(
                s@,
                lo as int,
                hi as int,
            ) == Some(comps@ + rest),
            parse_path(s@, pos as int, hi as int) is None ==> parse_path(
                s@,
                lo as int,
                hi as int,
            ) is None,
        decreases hi - pos,
    {
        let k = find_slash(s, pos, hi);
        match parse_component_exec(s, pos, k) {
            None => {
                return None;
            },
            Some(c) => {
                let ghost old_comps = comps@;
                comps.push(c);
                if k >= hi {
                    proof {
                        assert(parse_path(s@, pos as int, hi as int) == Some(seq![c]));
                        assert(old_comps + seq![c] =~= comps@);
                    }
                    return Some(comps);
                }
                proof {
                    match parse_path(s@, k + 1, hi as int) {
                        Some(rest) => {
                            assert(parse_path(s@, pos as int, hi as int) == Some(
                                seq![c] + rest,
                            ));
                            assert(old_comps + (seq![c] + rest) =~= comps@ + rest);
                        },
                        None => {
                            assert(parse_path(s@, pos as int, hi as int) is None);
                        },
                    }
                }
                pos = k + 1;
            },
        }
    }
}

pub fn parse_origin_exec(s: &[u8], lo: usize, hi: usize) -> (r: Result<KeySource, ParamIssue>)
    requires
        lo <= hi <= s.len(),
    ensures
        match r {
            Ok(ks) => parse_origin(s@, lo as int, hi as int) == Ok::<_, ParamIssue>(
                (ks.fingerprint, ks.path@),
            ),
            Err(e) => parse_origin(s@, lo as int, hi as int) == Err::<(u32, Seq<u32>), _>(e),
        },
{
    let k = find_slash(s, lo, hi);
    match parse_fingerprint_exec(s, lo, k) {
        None => Err(ParamIssue::BadFingerprint),
        Some(fp) => {
            if k >= hi {
                Ok(KeySource { fingerprint: fp, path: Vec::new() })
            } else {
                match parse_path_exec(s, k + 1, hi) {
                    None => Err(ParamIssue::BadDerivationPath),
                    Some(p) => Ok(KeySource { fingerprint: fp, path: p }),
                }
            }
        },
    }
}

} // verus!
