use vstd::prelude::*;

use crate::error::{Error, ParamField, ParamIssue};
use crate::keys::{
    dec_val, hex_val, is_base58, is_digit, is_multipath_char, is_version_prefix, key_origin_eq,
    parse_origin, parse_origin_exec, slash_idx, KeyOrigin, KeyOriginV, KeySourceV,
};

verus! {

// ---------------------------------------------------------------------------
// The key-expression grammar: `([fingerprint(/path)*])?` followed by an
// extended key (`xpub`-class prefix plus 79 to 108 base58 characters),
// optionally followed by a `/`-led multipath suffix.
// ---------------------------------------------------------------------------

/// End of the maximal base58 run starting at `i`.
pub open spec fn b58_end(s: Seq<u8>, i: int) -> int
    decreases s.len() - i,
    when 0 <= i <= s.len()
{
    if i < s.len() && is_base58(s[i]) {
        b58_end(s, i + 1)
    } else {
        i
    }
}

pub proof fn lemma_b58_end_bounds(s: Seq<u8>, i: int)
    requires
        0 <= i <= s.len(),
    ensures
        i <= b58_end(s, i) <= s.len(),
    decreases s.len() - i,
{
    if i < s.len() && is_base58(s[i]) {
        lemma_b58_end_bounds(s, i + 1);
    }
}

/// End of the maximal multipath-character run starting at `i`.
pub open spec fn mp_run_end(s: Seq<u8>, i: int) -> int
    decreases s.len() - i,
    when 0 <= i <= s.len()
{
    if i < s.len() && is_multipath_char(s[i]) {
        mp_run_end(s, i + 1)
    } else {
        i
    }
}

pub proof fn lemma_mp_run_end_bounds(s: Seq<u8>, i: int)
    requires
        0 <= i <= s.len(),
    ensures
        i <= mp_run_end(s, i) <= s.len(),
    decreases s.len() - i,
{
    if i < s.len() && is_multipath_char(s[i]) {
        lemma_mp_run_end_bounds(s, i + 1);
    }
}

/// End of the extended-key token starting at `i`: a version prefix, the
/// letters `pub`, then a maximal base58 run of 79 to 108 characters.
/// `None` when no such token starts at `i`.
pub open spec fn key_body_end(s: Seq<u8>, i: int) -> Option<int>
    recommends
        0 <= i,
{
    if i + 4 <= s.len() && is_version_prefix(s[i]) && s[i + 1] == 0x70 && s[i + 2] == 0x75 && s[i
        + 3] == 0x62 {
        let e = b58_end(s, i + 4);
        if 79 <= e - (i + 4) <= 108 {
            Some(e)
        } else {
            None
        }
    } else {
        None
    }
}

pub proof fn lemma_key_body_end_bounds(s: Seq<u8>, i: int)
    requires
        0 <= i,
    ensures
        key_body_end(s, i) matches Some(e) ==> i + 83 <= e <= s.len(),
{
    if i + 4 <= s.len() {
        lemma_b58_end_bounds(s, i + 4);
    }
}

/// End of the multipath suffix following a key that ends at `e`: a `/` must
/// be followed by at least one multipath character; otherwise there is no
/// suffix and the result is `e` itself.
pub open spec fn multipath_end(s: Seq<u8>, e: int) -> int
    recommends
        0 <= e <= s.len(),
{
    if e < s.len() && s[e] == 0x2F && e + 1 < s.len() && is_multipath_char(s[e + 1]) {
        mp_run_end(s, e + 1)
    } else {
        e
    }
}

pub proof fn lemma_multipath_end_bounds(s: Seq<u8>, e: int)
    requires
        0 <= e <= s.len(),
    ensures
        e <= multipath_end(s, e) <= s.len(),
{
    if e < s.len() && s[e] == 0x2F && e + 1 < s.len() && is_multipath_char(s[e + 1]) {
        lemma_mp_run_end_bounds(s, e + 1);
    }
}

/// Position of the first `]` at or after `i`.
pub open spec fn close_idx(s: Seq<u8>, i: int) -> Option<int>
    decreases s.len() - i,
    when 0 <= i <= s.len()
{
    if i >= s.len() {
        None
    } else if s[i] == 0x5D {
        Some(i)
    } else {
        close_idx(s, i + 1)
    }
}

pub proof fn lemma_close_idx_bounds(s: Seq<u8>, i: int)
    requires
        0 <= i <= s.len(),
    ensures
        close_idx(s, i) matches Some(j) ==> i <= j < s.len(),
    decreases s.len() - i,
{
    if i < s.len() && s[i] != 0x5D {
        lemma_close_idx_bounds(s, i + 1);
    }
}

/// The bracketed key expression starting at the `[` at position `i`: the
/// origin runs to the first `]`, and the extended key must follow at once.
pub open spec fn bracketed_key(s: Seq<u8>, i: int) -> Result<(KeyOriginV, int), ParamIssue>
    recommends
        0 <= i < s.len(),
{
    match close_idx(s, i + 1) {
        None => Err(ParamIssue::MissingClosingBracket),
        Some(j) => match parse_origin(s, i + 1, j) {
            Err(issue) => Err(issue),
            Ok((fp, path)) => match key_body_end(s, j + 1) {
                None => Err(ParamIssue::BadKeyEncoding),
                Some(e) => {
                    let m = multipath_end(s, e);
                    Ok(
                        (
                            KeyOriginV {
                                origin: Some(KeySourceV { fingerprint: fp, path }),
                                xpub: s.subrange(j + 1, e),
                                multipath: if m > e {
                                    Some(s.subrange(e, m))
                                } else {
                                    None
                                },
                            },
                            m,
                        ),
                    )
                },
            },
        },
    }
}

pub proof fn lemma_bracketed_key_bounds(s: Seq<u8>, i: int)
    requires
        0 <= i < s.len(),
    ensures
        bracketed_key(s, i) matches Ok((k, m)) ==> i < m <= s.len(),
{
    lemma_close_idx_bounds(s, i + 1);
    match close_idx(s, i + 1) {
        Some(j) => {
            lemma_key_body_end_bounds(s, j + 1);
            match key_body_end(s, j + 1) {
                Some(e) => {
                    lemma_multipath_end_bounds(s, e);
                },
                None => {},
            }
        },
        None => {},
    }
}

// ---------------------------------------------------------------------------
// Deduplication and placeholders.
// ---------------------------------------------------------------------------

/// Index of the first key equal to `k`, or `ks.len()` when there is none.
pub open spec fn dedup_idx(ks: Seq<KeyOriginV>, k: KeyOriginV) -> int
    decreases ks.len(),
{
    if ks.len() == 0 {
        0
    } else if ks[0] == k {
        0
    } else {
        1 + dedup_idx(ks.drop_first(), k)
    }
}

pub proof fn lemma_dedup_idx_props(ks: Seq<KeyOriginV>, k: KeyOriginV)
    ensures
        0 <= dedup_idx(ks, k) <= ks.len(),
        dedup_idx(ks, k) < ks.len() ==> ks[dedup_idx(ks, k)] == k,
        dedup_idx(ks, k) == ks.len() ==> forall|m: int| 0 <= m < ks.len() ==> ks[m] != k,
    decreases ks.len(),
{
    if ks.len() > 0 && ks[0] != k {
        lemma_dedup_idx_props(ks.drop_first(), k);
        if dedup_idx(ks, k) == ks.len() {
            assert forall|m: int| 0 <= m < ks.len() implies ks[m] != k by {
                if m >= 1 {
                    assert(ks.drop_first()[m - 1] == ks[m]);
                    assert(ks.drop_first()[m - 1] != k);
                }
            }
        }
    }
}

pub proof fn lemma_dedup_idx_char(ks: Seq<KeyOriginV>, k: KeyOriginV, n: int)
    requires
        0 <= n <= ks.len(),
        forall|m: int| 0 <= m < n ==> ks[m] != k,
        n == ks.len() || ks[n] == k,
    ensures
        dedup_idx(ks, k) == n,
    decreases ks.len(),
{
    if ks.len() > 0 {
        if n == 0 && ks[0] == k {
        } else {
            assert(ks[0] != k);
            assert(forall|m: int|
                0 <= m < ks.drop_first().len() ==> #[trigger] ks.drop_first()[m] == ks[m + 1]);
            lemma_dedup_idx_char(ks.drop_first(), k, n - 1);
        }
    }
}

/// The decimal digits of `n`, most significant first.
pub open spec fn dec_digits(n: int) -> Seq<u8>
    decreases n,
    when n >= 0
{
    if n < 10 {
        seq![(0x30 + n) as u8]
    } else {
        dec_digits(n / 10).push((0x30 + n % 10) as u8)
    }
}

/// The placeholder token `@<n>` that replaces a key expression.
pub open spec fn placeholder(n: int) -> Seq<u8>
    recommends
        n >= 0,
{
    seq![0x40u8] + dec_digits(n)
}

pub proof fn lemma_dec_digits_are_digits(n: int)
    requires
        n >= 0,
    ensures
        forall|j: int| 0 <= j < dec_digits(n).len() ==> is_digit(#[trigger] dec_digits(n)[j]),
    decreases n,
{
    if n < 10 {
        assert(dec_digits(n)[0] == (0x30 + n) as u8);
    } else {
        lemma_dec_digits_are_digits(n / 10);
        assert forall|j: int| 0 <= j < dec_digits(n).len() implies is_digit(
            #[trigger] dec_digits(n)[j],
        ) by {
            if j < dec_digits(n).len() - 1 {
                assert(dec_digits(n)[j] == dec_digits(n / 10)[j]);
            } else {
                assert(dec_digits(n)[j] == (0x30 + n % 10) as u8);
            }
        }
    }
}

// ---------------------------------------------------------------------------
// Checksum stripping.
// ---------------------------------------------------------------------------

pub open spec fn has_hash(t: Seq<u8>) -> bool {
    exists|j: int| 0 <= j < t.len() && t[j] == 0x23
}

/// Everything from the last `#` onward is a checksum and is dropped; a text
/// without `#` is kept whole.
pub open spec fn strip_checksum(t: Seq<u8>) -> Seq<u8>
    decreases t.len(),
{
    if !has_hash(t) {
        t
    } else if t[t.len() - 1] == 0x23 {
        t.take(t.len() - 1)
    } else {
        strip_checksum(t.take(t.len() - 1))
    }
}

proof fn lemma_strip_suffix(t: Seq<u8>, j: int)
    requires
        0 <= j <= t.len(),
        forall|k: int| j <= k < t.len() ==> t[k] != 0x23,
    ensures
        strip_checksum(t) == if has_hash(t.take(j)) {
            strip_checksum(t.take(j))
        } else {
            t
        },
    decreases t.len() - j,
{
    if j == t.len() {
        assert(t.take(j) =~= t);
    } else {
        lemma_strip_suffix(t, j + 1);
        let tj1 = t.take(j + 1);
        let tj = t.take(j);
        assert(has_hash(tj1) == has_hash(tj)) by {
            if has_hash(tj) {
                let w = choose|w: int| 0 <= w < tj.len() && tj[w] == 0x23;
                assert(tj1[w] == 0x23);
            }
            if has_hash(tj1) {
                let w = choose|w: int| 0 <= w < tj1.len() && tj1[w] == 0x23;
                assert(w != j);
                assert(tj[w] == 0x23);
            }
        }
        if has_hash(tj1) {
            assert(tj1[tj1.len() - 1] == t[j]);
            assert(tj1.take(tj1.len() - 1) =~= tj);
        }
    }
}

/// A text made of a hash-free body, `#`, and a hash-free checksum strips to
/// the body alone; a hash-free text strips to itself.
pub proof fn lemma_checksum_strip(body: Seq<u8>, suffix: Seq<u8>)
    requires
        !has_hash(body),
        !has_hash(suffix),
    ensures
        strip_checksum(body.push(0x23) + suffix) == body,
        strip_checksum(body) == body,
    decreases suffix.len(),
{
    let t = body.push(0x23) + suffix;
    assert(t[body.len() as int] == 0x23);
    assert(has_hash(t));
    if suffix.len() == 0 {
        assert(t.take(t.len() - 1) =~= body);
    } else {
        assert(t[t.len() - 1] == suffix[suffix.len() - 1]);
        assert(t[t.len() - 1] != 0x23);
        assert(t.take(t.len() - 1) =~= body.push(0x23) + suffix.take(suffix.len() - 1));
        assert(!has_hash(suffix.take(suffix.len() - 1))) by {
            if has_hash(suffix.take(suffix.len() - 1)) {
                let w = choose|w: int|
                    0 <= w < suffix.len() - 1 && #[trigger] suffix.take(suffix.len() - 1)[w]
                        == 0x23;
                assert(suffix[w] == 0x23);
            }
        }
        lemma_checksum_strip(body, suffix.take(suffix.len() - 1));
    }
}

// ---------------------------------------------------------------------------
// The scan itself.
// ---------------------------------------------------------------------------

pub open spec fn keys_view(ks: Seq<KeyOrigin>) -> Seq<KeyOriginV> {
    Seq::new(ks.len(), |i: int| ks[i]@)
}

/// Left-to-right scan from position `i`: key expressions become `@<index>`
/// placeholders against the deduplicated key list, all other characters are
/// kept verbatim, and the finished text loses any trailing checksum.
pub open spec fn scan_descriptor(
    s: Seq<u8>,
    i: int,
    tmpl: Seq<u8>,
    keys: Seq<KeyOriginV>,
) -> Result<(Seq<u8>, Seq<KeyOriginV>), ParamIssue>
    decreases s.len() - i,
    when 0 <= i <= s.len()
    via scan_descriptor_dec
{
    if i >= s.len() {
        Ok((strip_checksum(tmpl), keys))
    } else if s[i] == 0x5B {
        match bracketed_key(s, i) {
            Err(issue) => Err(issue),
            Ok((k, m)) => {
                let d = dedup_idx(keys, k);
                if d < keys.len() {
                    scan_descriptor(s, m, tmpl + placeholder(d), keys)
                } else {
                    scan_descriptor(s, m, tmpl + placeholder(keys.len() as int), keys.push(k))
                }
            },
        }
    } else {
        match key_body_end(s, i) {
            Some(e) => {
                let m = multipath_end(s, e);
                let k = KeyOriginV {
                    origin: None,
                    xpub: s.subrange(i, e),
                    multipath: if m > e {
                        Some(s.subrange(e, m))
                    } else {
                        None
                    },
                };
                let d = dedup_idx(keys, k);
                if d < keys.len() {
                    scan_descriptor(s, m, tmpl + placeholder(d), keys)
                } else {
                    scan_descriptor(s, m, tmpl + placeholder(keys.len() as int), keys.push(k))
                }
            },
            None => scan_descriptor(s, i + 1, tmpl.push(s[i]), keys),
        }
    }
}

#[via_fn]
proof fn scan_descriptor_dec(s: Seq<u8>, i: int, tmpl: Seq<u8>, keys: Seq<KeyOriginV>) {
    if 0 <= i < s.len() {
        if s[i] == 0x5B {
            lemma_bracketed_key_bounds(s, i);
        } else {
            lemma_key_body_end_bounds(s, i);
            match key_body_end(s, i) {
                Some(e) => {
                    lemma_multipath_end_bounds(s, e);
                },
                None => {},
            }
        }
    }
}

/// The whole parse of a descriptor: template and deduplicated key list, or
/// the reason the text was rejected.
pub open spec fn parse_descriptor(s: Seq<u8>) -> Result<(Seq<u8>, Seq<KeyOriginV>), ParamIssue> {
    scan_descriptor(s, 0, Seq::<u8>::empty(), Seq::<KeyOriginV>::empty())
}

// ---------------------------------------------------------------------------
// Executable scanner.
// ---------------------------------------------------------------------------

fn is_base58_exec(c: u8) -> (r: bool)
    ensures
        r == is_base58(c),
{
    (0x31 <= c && c <= 0x39) || (0x41 <= c && c <= 0x5A && c != 0x49 && c != 0x4F) || (0x61 <= c
        && c <= 0x7A && c != 0x6C)
}

fn is_version_prefix_exec(c: u8) -> (r: bool)
    ensures
        r == is_version_prefix(c),
{
    c == 0x78 || c == 0x79 || c == 0x59 || c == 0x7A || c == 0x5A || c == 0x74 || c == 0x75 || c
        == 0x55 || c == 0x76 || c == 0x56
}

fn is_multipath_char_exec(c: u8) -> (r: bool)
    ensures
        r == is_multipath_char(c),
{
    (0x30 <= c && c <= 0x39) || c == 0x2A || c == 0x27 || c == 0x68 || c == 0x48 || c == 0x3C || c
        == 0x3E || c == 0x3B || c == 0x2F
}

fn b58_end_exec(s: &[u8], i: usize) -> (e: usize)
    requires
        i <= s.len(),
    ensures
        e == b58_end(s@, i as int),
        i <= e <= s.len(),
{
    let mut j: usize = i;
    while j < s.len() && is_base58_exec(s[j])
        invariant
            i <= j <= s.len(),
            b58_end(s@, i as int) == b58_end(s@, j as int),
        decreases s.len() - j,
    {
        j += 1;
    }
    j
}

fn mp_run_end_exec(s: &[u8], i: usize) -> (e: usize)
    requires
        i <= s.len(),
    ensures
        e == mp_run_end(s@, i as int),
        i <= e <= s.len(),
{
    let mut j: usize = i;
    while j < s.len() && is_multipath_char_exec(s[j])
        invariant
            i <= j <= s.len(),
            mp_run_end(s@, i as int) == mp_run_end(s@, j as int),
        decreases s.len() - j,
    {
        j += 1;
    }
    j
}

fn key_body_at(s: &[u8], i: usize) -> (r: Option<usize>)
    requires
        i <= s.len(),
    ensures
        match r {
            Some(e) => key_body_end(s@, i as int) == Some(e as int) && i < e <= s.len(),
            None => key_body_end(s@, i as int) is None,
        },
{
    if s.len() - i < 4 {
        return None;
    }
    if !(is_version_prefix_exec(s[i]) && s[i + 1] == 0x70 && s[i + 2] == 0x75 && s[i + 3] == 0x62) {
        return None;
    }
    let e = b58_end_exec(s, i + 4);
    let run = e - (i + 4);
    if 79 <= run && run <= 108 {
        Some(e)
    } else {
        None
    }
}

fn multipath_end_exec(s: &[u8], e: usize) -> (m: usize)
    requires
        e <= s.len(),
    ensures
        m == multipath_end(s@, e as int),
        e <= m <= s.len(),
{
    if e < s.len() && s[e] == 0x2F && e + 1 < s.len() && is_multipath_char_exec(s[e + 1]) {
        mp_run_end_exec(s, e + 1)
    } else {
        e
    }
}

fn find_close(s: &[u8], i: usize) -> (r: Option<usize>)
    requires
        i <= s.len(),
    ensures
        match r {
            Some(j) => close_idx(s@, i as int) == Some(j as int) && i <= j < s.len(),
            None => close_idx(s@, i as int) is None,
        },
{
    let mut j: usize = i;
    while j < s.len()
        invariant
            i <= j <= s.len(),
            close_idx(s@, i as int) == close_idx(s@, j as int),
        decreases s.len() - j,
    {
        if s[j] == 0x5D {
            return Some(j);
        }
        j += 1;
    }
    None
}

fn copy_range(s: &[u8], lo: usize, hi: usize) -> (r: Vec<u8>)
    requires
        lo <= hi <= s.len(),
    ensures
        r@ == s@.subrange(lo as int, hi as int),
{
    let mut r: Vec<u8> = Vec::new();
    let mut j: usize = lo;
    while j < hi
        invariant
            lo <= j <= hi <= s.len(),
            r@ == s@.subrange(lo as int, j as int),
        decreases hi - j,
    {
        r.push(s[j]);
        proof {
            assert(r@ =~= s@.subrange(lo as int, j + 1));
        }
        j += 1;
    }
    r
}

/// Append the decimal digits of `n`.
pub(crate) fn push_decimal(out: &mut Vec<u8>, n: usize)
    ensures
        final(out)@ == old(out)@ + dec_digits(n as int),
    decreases n,
{
    if n >= 10 {
        push_decimal(out, n / 10);
        out.push(0x30 + (n % 10) as u8);
        proof {
            assert(out@ =~= old(out)@ + dec_digits(n as int));
        }
    } else {
        out.push(0x30 + (n % 10) as u8);
        proof {
            assert(out@ =~= old(out)@ + dec_digits(n as int));
        }
    }
}

fn find_key_index(keys: &Vec<KeyOrigin>, k: &KeyOrigin) -> (n: usize)
    ensures
        n == dedup_idx(keys_view(keys@), k@),
        n <= keys.len(),
{
    let mut j: usize = 0;
    while j < keys.len()
        invariant
            j <= keys.len(),
            forall|m: int| 0 <= m < j ==> keys_view(keys@)[m] != k@,
        decreases keys.len() - j,
    {
        if key_origin_eq(&keys[j], k) {
            proof {
                lemma_dedup_idx_char(keys_view(keys@), k@, j as int);
            }
            return j;
        }
        j += 1;
    }
    proof {
        lemma_dedup_idx_char(keys_view(keys@), k@, keys.len() as int);
    }
    keys.len()
}

/// Append the placeholder for `k` to the template, adding `k` to the key
/// list unless an identical key was already extracted.
fn emit_key(tmpl: &mut Vec<u8>, keys: &mut Vec<KeyOrigin>, k: KeyOrigin)
    ensures
        ({
            let kv = keys_view(old(keys)@);
            let d = dedup_idx(kv, k@);
            if d < kv.len() {
                &&& final(tmpl)@ == old(tmpl)@ + placeholder(d)
                &&& final(keys)@ == old(keys)@
            } else {
                &&& final(tmpl)@ == old(tmpl)@ + placeholder(kv.len() as int)
                &&& final(keys)@ == old(keys)@.push(k)
            }
        }),
{
    proof {
        lemma_dedup_idx_props(keys_view(keys@), k@);
    }
    let d = find_key_index(keys, &k);
    tmpl.push(0x40);
    if d < keys.len() {
        push_decimal(tmpl, d);
        proof {
            assert(tmpl@ =~= old(tmpl)@ + placeholder(d as int));
        }
    } else {
        push_decimal(tmpl, keys.len());
        proof {
            assert(tmpl@ =~= old(tmpl)@ + placeholder(keys@.len() as int));
        }
        keys.push(k);
    }
}

fn strip_checksum_exec(t: &[u8]) -> (r: Vec<u8>)
    ensures
        r@ == strip_checksum(t@),
{
    let mut j: usize = t.len();
    while j > 0
        invariant
            j <= t.len(),
            forall|k: int| j <= k < t@.len() ==> t@[k] != 0x23,
        decreases j,
    {
        if t[j - 1] == 0x23 {
            proof {
                lemma_strip_suffix(t@, j as int);
                assert(t@.take(j as int)[j - 1] == 0x23);
                assert(has_hash(t@.take(j as int)));
                assert(strip_checksum(t@.take(j as int)) == t@.take(j as int).take(j - 1));
                assert(t@.take(j as int).take(j - 1) =~= t@.take(j - 1));
                assert(strip_checksum(t@) == t@.take(j - 1));
            }
            let r = copy_range(t, 0, j - 1);
            proof {
                assert(r@ =~= t@.take(j - 1));
            }
            return r;
        }
        j -= 1;
    }
    proof {
        assert(!has_hash(t@)) by {
            if has_hash(t@) {
                let w = choose|w: int| 0 <= w < t@.len() && t@[w] == 0x23;
                assert(t@[w] != 0x23);
            }
        }
    }
    let r = copy_range(t, 0, t.len());
    proof {
        assert(r@ =~= t@);
    }
    r
}

/// Compile a textual wallet descriptor: every embedded key expression is
/// replaced by a positional `@<index>` placeholder, byte-identical key
/// expressions share one index, keys are listed in order of first
/// appearance, all other characters are kept verbatim, and a trailing
/// `#`-checksum is dropped. A malformed bracket, fingerprint, path or key
/// encoding rejects the whole descriptor with `InvalidParameter` and no key
/// list is produced.
pub fn extract_keys_and_template(policy: &[u8]) -> (r: Result<(Vec<u8>, Vec<KeyOrigin>), Error>)
    ensures
        match r {
            Ok((tmpl, keys)) => parse_descriptor(policy@) == Ok::<_, ParamIssue>(
                (tmpl@, keys_view(keys@)),
            ),
            Err(e) => parse_descriptor(policy@) matches Err(issue) && e == Error::InvalidParameter(
                ParamField::Policy,
                issue,
            ),
        },
{
    let mut tmpl: Vec<u8> = Vec::new();
    let mut keys: Vec<KeyOrigin> = Vec::new();
    let mut i: usize = 0;
    proof {
        assert(tmpl@ =~= Seq::<u8>::empty());
        assert(keys_view(keys@) =~= Seq::<KeyOriginV>::empty());
    }
    while i < policy.len()
        invariant
            i <= policy.len(),
            parse_descriptor(policy@) == scan_descriptor(
                policy@,
                i as int,
                tmpl@,
                keys_view(keys@),
            ),
        decreases policy.len() - i,
    {
        let ghost tmpl0 = tmpl@;
        let ghost kv0 = keys_view(keys@);
        if policy[i] == 0x5B {
            match find_close(policy, i + 1) {
                None => {
                    return Err(
                        Error::InvalidParameter(
                            ParamField::Policy,
                            ParamIssue::MissingClosingBracket,
                        ),
                    );
                },
                Some(j) => {
                    match parse_origin_exec(policy, i + 1, j) {
                        Err(issue) => {
                            return Err(Error::InvalidParameter(ParamField::Policy, issue));
                        },
                        Ok(ks) => {
                            match key_body_at(policy, j + 1) {
                                None => {
                                    return Err(
                                        Error::InvalidParameter(
                                            ParamField::Policy,
                                            ParamIssue::BadKeyEncoding,
                                        ),
                                    );
                                },
                                Some(e) => {
                                    let m = multipath_end_exec(policy, e);
                                    let xpub = copy_range(policy, j + 1, e);
                                    let multipath: Option<Vec<u8>> = if m > e {
                                        Some(copy_range(policy, e, m))
                                    } else {
                                        None
                                    };
                                    let k = KeyOrigin { origin: Some(ks), xpub, multipath };
                                    proof {
                                        lemma_dedup_idx_props(kv0, k@);
                                        assert(bracketed_key(policy@, i as int)
                                            == Ok::<_, ParamIssue>((k@, m as int)));
                                    }
                                    emit_key(&mut tmpl, &mut keys, k);
                                    proof {
                                        assert(keys_view(keys@) =~= if dedup_idx(kv0, k@)
                                            < kv0.len() {
                                            kv0
                                        } else {
                                            kv0.push(k@)
                                        });
                                    }
                                    i = m;
                                },
                            }
                        },
                    }
                },
            }
        } else {
            match key_body_at(policy, i) {
                Some(e) => {
                    let m = multipath_end_exec(policy, e);
                    let xpub = copy_range(policy, i, e);
                    let multipath: Option<Vec<u8>> = if m > e {
                        Some(copy_range(policy, e, m))
                    } else {
                        None
                    };
                    let k = KeyOrigin { origin: None, xpub, multipath };
                    proof {
                        lemma_dedup_idx_props(kv0, k@);
                    }
                    emit_key(&mut tmpl, &mut keys, k);
                    proof {
                        assert(keys_view(keys@) =~= if dedup_idx(kv0, k@) < kv0.len() {
                            kv0
                        } else {
                            kv0.push(k@)
                        });
                    }
                    i = m;
                },
                None => {
                    tmpl.push(policy[i]);
                    proof {
                        assert(tmpl@ =~= tmpl0.push(policy@[i as int]));
                    }
                    i += 1;
                },
            }
        }
    }
    let t = strip_checksum_exec(tmpl.as_slice());
    Ok((t, keys))
}

// ---------------------------------------------------------------------------
// Laws of the parser.
// ---------------------------------------------------------------------------

/// Parsing is deterministic: two parses of the same descriptor bytes agree
/// exactly, template, key list and failure alike.
pub proof fn lemma_parse_deterministic(
    s: Seq<u8>,
    r1: Result<(Seq<u8>, Seq<KeyOriginV>), ParamIssue>,
    r2: Result<(Seq<u8>, Seq<KeyOriginV>), ParamIssue>,
)
    requires
        r1 == parse_descriptor(s),
        r2 == parse_descriptor(s),
    ensures
        r1 == r2,
{
}

pub open spec fn distinct_keys(ks: Seq<KeyOriginV>) -> bool {
    forall|a: int, b: int| 0 <= a < b < ks.len() ==> ks[a] != ks[b]
}

proof fn lemma_scan_keys_distinct(s: Seq<u8>, i: int, tmpl: Seq<u8>, keys: Seq<KeyOriginV>)
    requires
        0 <= i <= s.len(),
        distinct_keys(keys),
    ensures
        scan_descriptor(s, i, tmpl, keys) matches Ok((t, ks)) ==> distinct_keys(ks),
    decreases s.len() - i,
{
    if i >= s.len() {
    } else if s[i] == 0x5B {
        lemma_bracketed_key_bounds(s, i);
        match bracketed_key(s, i) {
            Err(_) => {},
            Ok((k, m)) => {
                lemma_dedup_idx_props(keys, k);
                let d = dedup_idx(keys, k);
                if d < keys.len() {
                    lemma_scan_keys_distinct(s, m, tmpl + placeholder(d), keys);
                } else {
                    assert(distinct_keys(keys.push(k)));
                    lemma_scan_keys_distinct(
                        s,
                        m,
                        tmpl + placeholder(keys.len() as int),
                        keys.push(k),
                    );
                }
            },
        }
    } else {
        lemma_key_body_end_bounds(s, i);
        match key_body_end(s, i) {
            Some(e) => {
                lemma_multipath_end_bounds(s, e);
                let m = multipath_end(s, e);
                let k = KeyOriginV {
                    origin: None,
                    xpub: s.subrange(i, e),
                    multipath: if m > e {
                        Some(s.subrange(e, m))
                    } else {
                        None
                    },
                };
                lemma_dedup_idx_props(keys, k);
                let d = dedup_idx(keys, k);
                if d < keys.len() {
                    lemma_scan_keys_distinct(s, m, tmpl + placeholder(d), keys);
                } else {
                    assert(distinct_keys(keys.push(k)));
                    lemma_scan_keys_distinct(
                        s,
                        m,
                        tmpl + placeholder(keys.len() as int),
                        keys.push(k),
                    );
                }
            },
            None => {
                lemma_scan_keys_distinct(s, i + 1, tmpl.push(s[i]), keys);
            },
        }
    }
}

/// Byte-identical key expressions collapse: the key list of a successful
/// parse never holds the same key record twice.
pub proof fn lemma_parse_keys_distinct(s: Seq<u8>)
    ensures
        parse_descriptor(s) matches Ok((t, ks)) ==> distinct_keys(ks),
{
    lemma_scan_keys_distinct(s, 0, Seq::<u8>::empty(), Seq::<KeyOriginV>::empty());
}

/// `p` occurs somewhere in `t` as a contiguous run.
pub open spec fn occurs(t: Seq<u8>, p: Seq<u8>) -> bool {
    exists|pos: int|
        0 <= pos && pos + p.len() <= t.len() && #[trigger] t.subrange(pos, pos + p.len() as int)
            == p
}

proof fn lemma_occurs_append(t: Seq<u8>, x: Seq<u8>, p: Seq<u8>)
    requires
        occurs(t, p),
    ensures
        occurs(t + x, p),
{
    let pos = choose|pos: int|
        0 <= pos && pos + p.len() <= t.len() && #[trigger] t.subrange(pos, pos + p.len() as int)
            == p;
    assert((t + x).subrange(pos, pos + p.len()) =~= t.subrange(pos, pos + p.len()));
}

proof fn lemma_no_hash_append(t: Seq<u8>, x: Seq<u8>)
    requires
        !has_hash(t),
        !has_hash(x),
    ensures
        !has_hash(t + x),
{
    if has_hash(t + x) {
        let w = choose|w: int| 0 <= w < (t + x).len() && (t + x)[w] == 0x23;
        if w < t.len() {
            assert(t[w] == 0x23);
        } else {
            assert(x[w - t.len()] == 0x23);
        }
    }
}

proof fn lemma_placeholder_no_hash(n: int)
    requires
        n >= 0,
    ensures
        !has_hash(placeholder(n)),
{
    lemma_dec_digits_are_digits(n);
    if has_hash(placeholder(n)) {
        let w = choose|w: int| 0 <= w < placeholder(n).len() && placeholder(n)[w] == 0x23;
        if w > 0 {
            assert(placeholder(n)[w] == dec_digits(n)[w - 1]);
        }
    }
}

proof fn lemma_scan_placeholders(s: Seq<u8>, i: int, tmpl: Seq<u8>, keys: Seq<KeyOriginV>)
    requires
        0 <= i <= s.len(),
        forall|k: int| 0 <= k < s.len() ==> s[k] != 0x23,
        !has_hash(tmpl),
        forall|n: int| 0 <= n < keys.len() ==> occurs(tmpl, placeholder(n)),
    ensures
        scan_descriptor(s, i, tmpl, keys) matches Ok((t, ks)) ==> forall|n: int|
            0 <= n < ks.len() ==> occurs(t, placeholder(n)),
    decreases s.len() - i,
{
    if i >= s.len() {
        assert(strip_checksum(tmpl) == tmpl);
    } else if s[i] == 0x5B {
        lemma_bracketed_key_bounds(s, i);
        match bracketed_key(s, i) {
            Err(_) => {},
            Ok((k, m)) => {
                lemma_dedup_idx_props(keys, k);
                let d = dedup_idx(keys, k);
                let idx = if d < keys.len() {
                    d
                } else {
                    keys.len() as int
                };
                let tmpl2 = tmpl + placeholder(idx);
                lemma_placeholder_no_hash(idx);
                lemma_no_hash_append(tmpl, placeholder(idx));
                assert forall|n: int| 0 <= n < keys.len() implies occurs(
                    tmpl2,
                    placeholder(n),
                ) by {
                    lemma_occurs_append(tmpl, placeholder(idx), placeholder(n));
                }
                assert(tmpl2.subrange(
                    tmpl.len() as int,
                    tmpl.len() + placeholder(idx).len() as int,
                ) =~= placeholder(idx));
                assert(occurs(tmpl2, placeholder(idx)));
                if d < keys.len() {
                    lemma_scan_placeholders(s, m, tmpl2, keys);
                } else {
                    lemma_scan_placeholders(s, m, tmpl2, keys.push(k));
                }
            },
        }
    } else {
        lemma_key_body_end_bounds(s, i);
        match key_body_end(s, i) {
            Some(e) => {
                lemma_multipath_end_bounds(s, e);
                let m = multipath_end(s, e);
                let k = KeyOriginV {
                    origin: None,
                    xpub: s.subrange(i, e),
                    multipath: if m > e {
                        Some(s.subrange(e, m))
                    } else {
                        None
                    },
                };
                lemma_dedup_idx_props(keys, k);
                let d = dedup_idx(keys, k);
                let idx = if d < keys.len() {
                    d
                } else {
                    keys.len() as int
                };
                let tmpl2 = tmpl + placeholder(idx);
                lemma_placeholder_no_hash(idx);
                lemma_no_hash_append(tmpl, placeholder(idx));
                assert forall|n: int| 0 <= n < keys.len() implies occurs(
                    tmpl2,
                    placeholder(n),
                ) by {
                    lemma_occurs_append(tmpl, placeholder(idx), placeholder(n));
                }
                assert(tmpl2.subrange(
                    tmpl.len() as int,
                    tmpl.len() + placeholder(idx).len() as int,
                ) =~= placeholder(idx));
                assert(occurs(tmpl2, placeholder(idx)));
                if d < keys.len() {
                    lemma_scan_placeholders(s, m, tmpl2, keys);
                } else {
                    lemma_scan_placeholders(s, m, tmpl2, keys.push(k));
                }
            },
            None => {
                let tmpl2 = tmpl.push(s[i]);
                assert(tmpl2 =~= tmpl + seq![s[i]]);
                assert(!has_hash(seq![s[i]]));
                lemma_no_hash_append(tmpl, seq![s[i]]);
                assert forall|n: int| 0 <= n < keys.len() implies occurs(
                    tmpl2,
                    placeholder(n),
                ) by {
                    lemma_occurs_append(tmpl, seq![s[i]], placeholder(n));
                }
                lemma_scan_placeholders(s, i + 1, tmpl2, keys);
            },
        }
    }
}

// ---------------------------------------------------------------------------
// The checksum law: a `#`-led suffix of checksum characters never changes
// what a descriptor parses to. The helpers below show that every piece of
// the grammar reads only the bytes in front of such a suffix.
// ---------------------------------------------------------------------------

/// `s` and `t` carry the same bytes on `[lo, hi)`.
pub open spec fn agree(s: Seq<u8>, t: Seq<u8>, lo: int, hi: int) -> bool {
    &&& hi <= s.len()
    &&& hi <= t.len()
    &&& forall|k: int| lo <= k < hi ==> s[k] == #[trigger] t[k]
}

proof fn lemma_slash_idx_agree(s: Seq<u8>, t: Seq<u8>, lo: int, hi: int)
    requires
        0 <= lo <= hi,
        agree(s, t, lo, hi),
    ensures
        slash_idx(s, lo, hi) == slash_idx(t, lo, hi),
    decreases hi - lo,
{
    if lo < hi && s[lo] != 0x2F {
        lemma_slash_idx_agree(s, t, lo + 1, hi);
    }
}

proof fn lemma_dec_val_agree(s: Seq<u8>, t: Seq<u8>, lo: int, hi: int)
    requires
        0 <= lo,
        agree(s, t, lo, hi),
    ensures
        dec_val(s, lo, hi) == dec_val(t, lo, hi),
    decreases hi - lo,
{
    if hi > lo {
        lemma_dec_val_agree(s, t, lo, hi - 1);
    }
}

proof fn lemma_hex_val_agree(s: Seq<u8>, t: Seq<u8>, lo: int, hi: int)
    requires
        0 <= lo,
        agree(s, t, lo, hi),
    ensures
        hex_val(s, lo, hi) == hex_val(t, lo, hi),
    decreases hi - lo,
{
    if hi > lo {
        lemma_hex_val_agree(s, t, lo, hi - 1);
    }
}

proof fn lemma_all_digits_agree(s: Seq<u8>, t: Seq<u8>, lo: int, hi: int)
    requires
        0 <= lo,
        agree(s, t, lo, hi),
    ensures
        crate::keys::all_digits(s, lo, hi) == crate::keys::all_digits(t, lo, hi),
{
    if crate::keys::all_digits(s, lo, hi) {
        assert forall|k: int| lo <= k < hi implies is_digit(#[trigger] t[k]) by {
            assert(s[k] == t[k]);
        }
    }
    if crate::keys::all_digits(t, lo, hi) {
        assert forall|k: int| lo <= k < hi implies is_digit(#[trigger] s[k]) by {
            assert(s[k] == t[k]);
        }
    }
}

proof fn lemma_all_hex_agree(s: Seq<u8>, t: Seq<u8>, lo: int, hi: int)
    requires
        0 <= lo,
        agree(s, t, lo, hi),
    ensures
        crate::keys::all_hex(s, lo, hi) == crate::keys::all_hex(t, lo, hi),
{
    if crate::keys::all_hex(s, lo, hi) {
        assert forall|k: int| lo <= k < hi implies crate::keys::is_hex_digit(
            #[trigger] t[k],
        ) by {
            assert(s[k] == t[k]);
        }
    }
    if crate::keys::all_hex(t, lo, hi) {
        assert forall|k: int| lo <= k < hi implies crate::keys::is_hex_digit(
            #[trigger] s[k],
        ) by {
            assert(s[k] == t[k]);
        }
    }
}

proof fn lemma_parse_component_agree(s: Seq<u8>, t: Seq<u8>, lo: int, hi: int)
    requires
        0 <= lo <= hi,
        agree(s, t, lo, hi),
    ensures
        crate::keys::parse_component(s, lo, hi) == crate::keys::parse_component(t, lo, hi),
{
    lemma_all_digits_agree(s, t, lo, hi);
    lemma_dec_val_agree(s, t, lo, hi);
    if hi - lo >= 1 {
        lemma_dec_val_agree(s, t, lo, hi - 1);
        lemma_all_digits_agree(s, t, lo, hi - 1);
    }
}

proof fn lemma_parse_path_agree(s: Seq<u8>, t: Seq<u8>, lo: int, hi: int)
    requires
        0 <= lo <= hi,
        agree(s, t, lo, hi),
    ensures
        crate::keys::parse_path(s, lo, hi) == crate::keys::parse_path(t, lo, hi),
    decreases hi - lo,
{
    crate::keys::lemma_slash_idx_bounds(s, lo, hi);
    lemma_slash_idx_agree(s, t, lo, hi);
    let k = slash_idx(s, lo, hi);
    lemma_parse_component_agree(s, t, lo, k);
    if k < hi {
        lemma_parse_path_agree(s, t, k + 1, hi);
    }
}

proof fn lemma_parse_origin_agree(s: Seq<u8>, t: Seq<u8>, lo: int, hi: int)
    requires
        0 <= lo <= hi,
        agree(s, t, lo, hi),
    ensures
        parse_origin(s, lo, hi) == parse_origin(t, lo, hi),
{
    crate::keys::lemma_slash_idx_bounds(s, lo, hi);
    lemma_slash_idx_agree(s, t, lo, hi);
    let k = slash_idx(s, lo, hi);
    lemma_all_hex_agree(s, t, lo, k);
    lemma_hex_val_agree(s, t, lo, k);
    if k < hi {
        lemma_parse_path_agree(s, t, k + 1, hi);
    }
}

proof fn lemma_b58_end_ext(s: Seq<u8>, t: Seq<u8>, i: int)
    requires
        0 <= i <= s.len() < t.len(),
        agree(s, t, 0, s.len() as int),
        !is_base58(t[s.len() as int]),
    ensures
        b58_end(t, i) == b58_end(s, i),
    decreases s.len() - i,
{
    if i < s.len() && is_base58(s[i]) {
        lemma_b58_end_ext(s, t, i + 1);
    }
}

proof fn lemma_mp_run_end_ext(s: Seq<u8>, t: Seq<u8>, i: int)
    requires
        0 <= i <= s.len() < t.len(),
        agree(s, t, 0, s.len() as int),
        !is_multipath_char(t[s.len() as int]),
    ensures
        mp_run_end(t, i) == mp_run_end(s, i),
    decreases s.len() - i,
{
    if i < s.len() && is_multipath_char(s[i]) {
        lemma_mp_run_end_ext(s, t, i + 1);
    }
}

proof fn lemma_key_body_end_ext(s: Seq<u8>, t: Seq<u8>, i: int)
    requires
        0 <= i <= s.len() < t.len(),
        agree(s, t, 0, s.len() as int),
        t[s.len() as int] == 0x23,
    ensures
        key_body_end(t, i) == key_body_end(s, i),
{
    if i + 4 <= s.len() {
        lemma_b58_end_ext(s, t, i + 4);
    } else {
        assert(key_body_end(s, i) is None);
        if i + 4 <= t.len() {
            let d = s.len() - i;
            if d == 0 {
                assert(!is_version_prefix(t[i]));
            } else if d == 1 {
                assert(t[i + 1] != 0x70);
            } else if d == 2 {
                assert(t[i + 2] != 0x75);
            } else {
                assert(t[i + 3] != 0x62);
            }
        }
    }
}

proof fn lemma_multipath_end_ext(s: Seq<u8>, t: Seq<u8>, e: int)
    requires
        0 <= e <= s.len() < t.len(),
        agree(s, t, 0, s.len() as int),
        t[s.len() as int] == 0x23,
    ensures
        multipath_end(t, e) == multipath_end(s, e),
{
    if e < s.len() && s[e] == 0x2F && e + 1 < s.len() && is_multipath_char(s[e + 1]) {
        lemma_mp_run_end_ext(s, t, e + 1);
    }
}

proof fn lemma_close_idx_none_tail(t: Seq<u8>, h: int, i: int)
    requires
        0 <= h <= i <= t.len(),
        forall|j: int| h <= j < t.len() ==> t[j] != 0x5D,
    ensures
        close_idx(t, i) is None,
    decreases t.len() - i,
{
    if i < t.len() {
        lemma_close_idx_none_tail(t, h, i + 1);
    }
}

proof fn lemma_close_idx_ext(s: Seq<u8>, t: Seq<u8>, i: int)
    requires
        0 <= i <= s.len() < t.len(),
        agree(s, t, 0, s.len() as int),
        forall|j: int| s.len() <= j < t.len() ==> t[j] != 0x5D,
    ensures
        close_idx(t, i) == close_idx(s, i),
    decreases s.len() - i,
{
    if i == s.len() {
        lemma_close_idx_none_tail(t, s.len() as int, i);
    } else if s[i] != 0x5D {
        lemma_close_idx_ext(s, t, i + 1);
    }
}

proof fn lemma_bracketed_key_ext(s: Seq<u8>, t: Seq<u8>, i: int)
    requires
        0 <= i < s.len() < t.len(),
        agree(s, t, 0, s.len() as int),
        t[s.len() as int] == 0x23,
        forall|j: int| s.len() <= j < t.len() ==> t[j] != 0x5D,
    ensures
        bracketed_key(t, i) == bracketed_key(s, i),
{
    lemma_close_idx_ext(s, t, i + 1);
    lemma_close_idx_bounds(s, i + 1);
    match close_idx(s, i + 1) {
        None => {},
        Some(j) => {
            lemma_parse_origin_agree(s, t, i + 1, j);
            lemma_key_body_end_ext(s, t, j + 1);
            lemma_key_body_end_bounds(s, j + 1);
            match key_body_end(s, j + 1) {
                None => {},
                Some(e) => {
                    lemma_multipath_end_ext(s, t, e);
                    lemma_multipath_end_bounds(s, e);
                    let m = multipath_end(s, e);
                    assert(t.subrange(j + 1, e) =~= s.subrange(j + 1, e));
                    if m > e {
                        assert(t.subrange(e, m) =~= s.subrange(e, m));
                    }
                },
            }
        },
    }
}

/// A suffix made of checksum characters: nothing in it can open or close a
/// key origin, start an extended key, or carry a further `#`.
pub open spec fn checksum_chars(c: Seq<u8>) -> bool {
    forall|k: int|
        0 <= k < c.len() ==> (#[trigger] c[k]) != 0x23 && c[k] != 0x5B && c[k] != 0x5D
            && !is_version_prefix(c[k])
}

proof fn lemma_scan_tail(t: Seq<u8>, i: int, tmpl: Seq<u8>, keys: Seq<KeyOriginV>)
    requires
        0 <= i <= t.len(),
        forall|j: int| i <= j < t.len() ==> (#[trigger] t[j]) != 0x5B && !is_version_prefix(t[j]),
    ensures
        scan_descriptor(t, i, tmpl, keys) == Ok::<_, ParamIssue>(
            (strip_checksum(tmpl + t.subrange(i, t.len() as int)), keys),
        ),
    decreases t.len() - i,
{
    if i >= t.len() {
        assert(tmpl + t.subrange(i, t.len() as int) =~= tmpl);
    } else {
        assert(key_body_end(t, i) is None);
        lemma_scan_tail(t, i + 1, tmpl.push(t[i]), keys);
        assert(tmpl.push(t[i]) + t.subrange(i + 1, t.len() as int) =~= tmpl + t.subrange(
            i,
            t.len() as int,
        ));
    }
}

proof fn lemma_scan_ext(s: Seq<u8>, c: Seq<u8>, i: int, tmpl: Seq<u8>, keys: Seq<KeyOriginV>)
    requires
        0 <= i <= s.len(),
        forall|k: int| 0 <= k < s.len() ==> s[k] != 0x23,
        !has_hash(tmpl),
        checksum_chars(c),
    ensures
        scan_descriptor(s.push(0x23) + c, i, tmpl, keys) == scan_descriptor(s, i, tmpl, keys),
    decreases s.len() - i,
{
    let t = s.push(0x23) + c;
    assert(t.len() == s.len() + 1 + c.len());
    assert(agree(s, t, 0, s.len() as int));
    assert(t[s.len() as int] == 0x23);
    assert(forall|j: int| s.len() < j < t.len() ==> t[j] == c[j - s.len() - 1]);
    if i == s.len() {
        assert forall|j: int| i <= j < t.len() implies (#[trigger] t[j]) != 0x5B
            && !is_version_prefix(t[j]) by {
            if j > s.len() {
                assert(t[j] == c[j - s.len() - 1]);
            }
        }
        lemma_scan_tail(t, i, tmpl, keys);
        assert(t.subrange(i, t.len() as int) =~= seq![0x23u8] + c);
        assert(tmpl + (seq![0x23u8] + c) =~= tmpl.push(0x23) + c);
        lemma_checksum_strip(tmpl, c);
        assert(!has_hash(c)) by {
            if has_hash(c) {
                let w = choose|w: int| 0 <= w < c.len() && c[w] == 0x23;
                assert(c[w] != 0x23);
            }
        }
        assert(strip_checksum(tmpl + t.subrange(i, t.len() as int)) == tmpl);
        assert(strip_checksum(tmpl) == tmpl);
    } else if s[i] == 0x5B {
        assert forall|j: int| s.len() <= j < t.len() implies t[j] != 0x5D by {
            if j > s.len() {
                assert(t[j] == c[j - s.len() - 1]);
            }
        }
        lemma_bracketed_key_ext(s, t, i);
        lemma_bracketed_key_bounds(s, i);
        match bracketed_key(s, i) {
            Err(_) => {},
            Ok((k, m)) => {
                lemma_dedup_idx_props(keys, k);
                let d = dedup_idx(keys, k);
                let idx = if d < keys.len() {
                    d
                } else {
                    keys.len() as int
                };
                lemma_placeholder_no_hash(idx);
                lemma_no_hash_append(tmpl, placeholder(idx));
                if d < keys.len() {
                    lemma_scan_ext(s, c, m, tmpl + placeholder(d), keys);
                } else {
                    lemma_scan_ext(s, c, m, tmpl + placeholder(keys.len() as int), keys.push(k));
                }
            },
        }
    } else {
        lemma_key_body_end_ext(s, t, i);
        lemma_key_body_end_bounds(s, i);
        match key_body_end(s, i) {
            Some(e) => {
                lemma_multipath_end_ext(s, t, e);
                lemma_multipath_end_bounds(s, e);
                let m = multipath_end(s, e);
                assert(t.subrange(i, e) =~= s.subrange(i, e));
                if m > e {
                    assert(t.subrange(e, m) =~= s.subrange(e, m));
                }
                let k = KeyOriginV {
                    origin: None,
                    xpub: s.subrange(i, e),
                    multipath: if m > e {
                        Some(s.subrange(e, m))
                    } else {
                        None
                    },
                };
                lemma_dedup_idx_props(keys, k);
                let d = dedup_idx(keys, k);
                let idx = if d < keys.len() {
                    d
                } else {
                    keys.len() as int
                };
                lemma_placeholder_no_hash(idx);
                lemma_no_hash_append(tmpl, placeholder(idx));
                if d < keys.len() {
                    lemma_scan_ext(s, c, m, tmpl + placeholder(d), keys);
                } else {
                    lemma_scan_ext(s, c, m, tmpl + placeholder(keys.len() as int), keys.push(k));
                }
            },
            None => {
                assert(!has_hash(tmpl.push(s[i]))) by {
                    lemma_no_hash_append(tmpl, seq![s[i]]);
                    assert(tmpl.push(s[i]) =~= tmpl + seq![s[i]]);
                }
                lemma_scan_ext(s, c, i + 1, tmpl.push(s[i]), keys);
            },
        }
    }
}

/// Appending a checksum (`#` followed by checksum characters) to a
/// descriptor without a `#` of its own changes nothing: template, key list
/// and failure are those of the bare descriptor.
pub proof fn lemma_checksum_suffix_irrelevant(s: Seq<u8>, c: Seq<u8>)
    requires
        forall|k: int| 0 <= k < s.len() ==> s[k] != 0x23,
        checksum_chars(c),
    ensures
        parse_descriptor(s.push(0x23) + c) == parse_descriptor(s),
{
    lemma_scan_ext(s, c, 0, Seq::<u8>::empty(), Seq::<KeyOriginV>::empty());
}

/// In a descriptor without a `#`, the template of a successful parse holds
/// every placeholder `@0` through `@(N-1)` of its N keys at least once.
pub proof fn lemma_parse_placeholders_present(s: Seq<u8>)
    requires
        forall|k: int| 0 <= k < s.len() ==> s[k] != 0x23,
    ensures
        parse_descriptor(s) matches Ok((t, ks)) ==> forall|n: int|
            0 <= n < ks.len() ==> occurs(t, placeholder(n)),
{
    lemma_scan_placeholders(s, 0, Seq::<u8>::empty(), Seq::<KeyOriginV>::empty());
}

} // verus!
