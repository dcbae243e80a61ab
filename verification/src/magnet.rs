//! Magnet links: form-urlencoded query parsing with first-wins keys,
//! percent-decoding, and the `urn:btih` info-hash.
use vstd::prelude::*;

use crate::ascii;
use crate::ascii::{all_ascii, ascii_chars_of};
use crate::codec::bytes_eq;
use crate::tracker;
use crate::tracker::spec_track_request;
use vstd::string::StringSliceAdditionalSpecFns;

verus! {

broadcast use vstd::std_specs::vec::group_vec_axioms, vstd::seq::group_seq_axioms;

/// A magnet link that cannot be used: non-ASCII text, a missing `xt`,
/// `dn` or `tr` parameter, a broken percent escape, or an `xt` that is
/// not `urn:btih:` followed by forty hex digits.
#[derive(Debug, Clone, Copy, PartialEq, Eq, Structural)]
pub enum ConfigError {
    NotAscii,
    MissingField,
    BadEscape,
    BadHash,
}

/// A parsed magnet link: the `xt` (exact topic), `dn` (display name) and
/// `tr` (tracker) parameters.
#[derive(Debug, Clone, PartialEq, Eq)]
pub struct MagnetLink {
    pub xt: String,
    pub dn: String,
    pub tr: String,
}

/// Index of the first `sep` in `s`, or the length if there is none.
pub open spec fn first_sep(s: Seq<u8>, sep: u8) -> int
    decreases s.len(),
{
    if s.len() == 0 {
        0
    } else if s[0] == sep {
        0
    } else {
        1 + first_sep(s.drop_first(), sep)
    }
}

/// The raw value of the first `key=value` pair under `key`, scanning
/// `&`-separated segments left to right; a segment without `=` has an
/// empty value.
pub open spec fn spec_query_value(q: Seq<u8>, key: Seq<u8>) -> Option<Seq<u8>>
    decreases q.len(),
    via spec_query_value_decreases
{
    if q.len() == 0 {
        None
    } else {
        let n = first_sep(q, 38);
        let seg = q.take(n);
        let e = first_sep(seg, 61);
        let k = seg.take(e);
        let v = if e < seg.len() {
            seg.skip(e + 1)
        } else {
            Seq::<u8>::empty()
        };
        if k == key {
            Some(v)
        } else if n < q.len() {
            spec_query_value(q.skip(n + 1), key)
        } else {
            None
        }
    }
}

#[via_fn]
proof fn spec_query_value_decreases(q: Seq<u8>, key: Seq<u8>) {
    lemma_first_sep_bounds(q, 38);
}

/// `first_sep` always lies between zero and the length.
proof fn lemma_first_sep_bounds(s: Seq<u8>, sep: u8)
    ensures
        0 <= first_sep(s, sep) <= s.len(),
    decreases s.len(),
{
    if s.len() > 0 && s[0] != sep {
        lemma_first_sep_bounds(s.drop_first(), sep);
    }
}

pub open spec fn is_hex_digit(c: u8) -> bool {
    (48 <= c <= 57) || (97 <= c <= 102) || (65 <= c <= 70)
}

/// Value of a hex digit, lower or upper case.
pub open spec fn spec_hex_val(c: u8) -> u8 {
    if 48 <= c <= 57 {
        (c - 48) as u8
    } else if 97 <= c <= 102 {
        (c - 87) as u8
    } else if 65 <= c <= 70 {
        (c - 55) as u8
    } else {
        0
    }
}

/// Form-urldecoding: `%HH` becomes the escaped byte, `+` a space, and any
/// other byte stands for itself; a `%` not followed by two hex digits is
/// an error.
pub open spec fn percent_decoded(s: Seq<u8>) -> Option<Seq<u8>>
    decreases s.len(),
{
    if s.len() == 0 {
        Some(Seq::<u8>::empty())
    } else if s[0] == 37 {
        if s.len() >= 3 && is_hex_digit(s[1]) && is_hex_digit(s[2]) {
            match percent_decoded(s.skip(3)) {
                Some(r) => Some(seq![(16 * spec_hex_val(s[1]) + spec_hex_val(s[2])) as u8] + r),
                None => None,
            }
        } else {
            None
        }
    } else {
        let b: u8 = if s[0] == 43 {
            32
        } else {
            s[0]
        };
        match percent_decoded(s.skip(1)) {
            Some(r) => Some(seq![b] + r),
            None => None,
        }
    }
}

/// The `magnet:?` scheme prefix.
pub open spec fn magnet_prefix() -> Seq<u8> {
    seq![109u8, 97u8, 103u8, 110u8, 101u8, 116u8, 58u8, 63u8]
}

/// The query of a magnet URI: what follows `magnet:?`, or the whole text
/// when the prefix is absent.
pub open spec fn strip_magnet(b: Seq<u8>) -> Seq<u8> {
    if b.len() >= 8 && b.take(8) == magnet_prefix() {
        b.skip(8)
    } else {
        b
    }
}

pub open spec fn xt_key() -> Seq<u8> {
    seq![120u8, 116u8]
}

pub open spec fn dn_key() -> Seq<u8> {
    seq![100u8, 110u8]
}

pub open spec fn tr_key() -> Seq<u8> {
    seq![116u8, 114u8]
}

/// The `urn:btih:` prefix of an exact topic.
pub open spec fn urn_btih() -> Seq<u8> {
    seq![117u8, 114u8, 110u8, 58u8, 98u8, 116u8, 105u8, 104u8, 58u8]
}

/// A well-formed exact topic: `urn:btih:` then forty hex digits.
pub open spec fn xt_ok(d: Seq<u8>) -> bool {
    &&& d.len() == 49
    &&& d.take(9) == urn_btih()
    &&& forall|i: int| 9 <= i < 49 ==> is_hex_digit(#[trigger] d[i])
}

/// A parsed link carries exactly the first-wins, percent-decoded `xt`,
/// `dn` and `tr` values of the query; the values are ASCII text, and the
/// `xt` is well formed.
pub open spec fn magnet_ok(b: Seq<u8>, m: MagnetLink) -> bool {
    let q = strip_magnet(b);
    &&& spec_query_value(q, xt_key()) matches Some(raw) && percent_decoded(raw) matches Some(d)
        && xt_ok(d) && m.xt@ == ascii_chars_of(d)
    &&& spec_query_value(q, dn_key()) matches Some(raw) && percent_decoded(raw) matches Some(d)
        && all_ascii(d) && m.dn@ == ascii_chars_of(d)
    &&& spec_query_value(q, tr_key()) matches Some(raw) && percent_decoded(raw) matches Some(d)
        && all_ascii(d) && m.tr@ == ascii_chars_of(d)
}

/// A copy of `b[i..j]`.
fn subvec(b: &[u8], i: usize, j: usize) -> (r: Vec<u8>)
    requires
        i <= j <= b@.len(),
    ensures
        r@ == b@.subrange(i as int, j as int),
{
    let mut r: Vec<u8> = Vec::new();
    let mut k: usize = i;
    while k < j
        invariant
            i <= k <= j <= b@.len(),
            r@ == b@.subrange(i as int, k as int),
        decreases j - k,
    {
        r.push(b[k]);
        k += 1;
        assert(r@ =~= b@.subrange(i as int, k as int));
    }
    r
}

/// Index of the first `sep`, or the length.
fn find_sep(b: &[u8], sep: u8) -> (r: usize)
    ensures
        r == first_sep(b@, sep),
        r <= b@.len(),
        r < b@.len() ==> b@[r as int] == sep,
        forall|j: int| 0 <= j < r ==> b@[j] != sep,
{
    let mut k: usize = 0;
    while k < b.len()
        invariant
            k <= b@.len(),
            forall|j: int| 0 <= j < k ==> b@[j] != sep,
        decreases b@.len() - k,
    {
        if b[k] == sep {
            proof {
                lemma_first_sep(b@, sep, k as int);
            }
            return k;
        }
        k += 1;
    }
    proof {
        lemma_first_sep(b@, sep, b@.len() as int);
    }
    b.len()
}

/// `first_sep` is the index before which `sep` does not occur and at
/// which it does, if that is not the end.
proof fn lemma_first_sep(s: Seq<u8>, sep: u8, n: int)
    requires
        0 <= n <= s.len(),
        forall|j: int| 0 <= j < n ==> s[j] != sep,
        n == s.len() || s[n] == sep,
    ensures
        first_sep(s, sep) == n,
    decreases s.len(),
{
    if s.len() == 0 {
    } else if s[0] == sep {
        assert(n == 0);
    } else {
        assert(n >= 1);
        let t = s.drop_first();
        assert(forall|j: int| 0 <= j < n - 1 ==> t[j] != sep);
        lemma_first_sep(t, sep, n - 1);
    }
}

/// Looks `key` up in the query, first match first, returning the raw
/// (still percent-encoded) value bytes.
fn query_value(q: &[u8], key: &Vec<u8>) -> (r: Option<Vec<u8>>)
    ensures
        match r {
            Some(v) => spec_query_value(q@, key@) == Some(v@),
            None => spec_query_value(q@, key@) is None,
        },
    decreases q@.len(),
{
    if q.len() == 0 {
        return None;
    }
    let n = find_sep(q, 38);
    let seg = subvec(q, 0, n);
    proof {
        assert(seg@ =~= q@.take(n as int));
    }
    let e = find_sep(seg.as_slice(), 61);
    let k = subvec(seg.as_slice(), 0, e);
    proof {
        assert(k@ =~= seg@.take(e as int));
    }
    let v: Vec<u8> = if e < seg.len() {
        let v = subvec(seg.as_slice(), e + 1, seg.len());
        proof {
            assert(v@ =~= seg@.skip(e + 1));
        }
        v
    } else {
        Vec::new()
    };
    if bytes_eq(&k, key) {
        return Some(v);
    }
    if n < q.len() {
        let rest = subvec(q, n + 1, q.len());
        proof {
            assert(rest@ =~= q@.skip(n + 1));
        }
        query_value(rest.as_slice(), key)
    } else {
        None
    }
}

fn hex_val(c: u8) -> (r: u8)
    requires
        is_hex_digit(c),
    ensures
        r == spec_hex_val(c),
        r < 16,
{
    if 48 <= c && c <= 57 {
        c - 48
    } else if 97 <= c && c <= 102 {
        c - 87
    } else {
        c - 55
    }
}

/// Form-urldecodes `b`; fails exactly on a broken `%` escape.
fn percent_decode(b: &[u8]) -> (r: Option<Vec<u8>>)
    ensures
        match r {
            Some(v) => percent_decoded(b@) == Some(v@),
            None => percent_decoded(b@) is None,
        },
    decreases b@.len(),
{
    if b.len() == 0 {
        let r: Vec<u8> = Vec::new();
        proof {
            assert(r@ =~= Seq::<u8>::empty());
        }
        return Some(r);
    }
    if b[0] == 37 {
        if b.len() < 3 || !(48 <= b[1] && b[1] <= 57 || 97 <= b[1] && b[1] <= 102 || 65 <= b[1]
            && b[1] <= 70) || !(48 <= b[2] && b[2] <= 57 || 97 <= b[2] && b[2] <= 102 || 65 <= b[2]
            && b[2] <= 70) {
            return None;
        }
        let byte = 16 * hex_val(b[1]) + hex_val(b[2]);
        let rest = subvec(b, 3, b.len());
        proof {
            assert(rest@ =~= b@.skip(3));
        }
        match percent_decode(rest.as_slice()) {
            Some(mut tail) => {
                let mut out: Vec<u8> = Vec::new();
                out.push(byte);
                out.append(&mut tail);
                proof {
                    assert(out@ =~= seq![byte] + percent_decoded(b@.skip(3)).unwrap());
                }
                Some(out)
            },
            None => None,
        }
    } else {
        let byte: u8 = if b[0] == 43 {
            32
        } else {
            b[0]
        };
        let rest = subvec(b, 1, b.len());
        proof {
            assert(rest@ =~= b@.skip(1));
        }
        match percent_decode(rest.as_slice()) {
            Some(mut tail) => {
                let mut out: Vec<u8> = Vec::new();
                out.push(byte);
                out.append(&mut tail);
                proof {
                    assert(out@ =~= seq![byte] + percent_decoded(b@.skip(1)).unwrap());
                }
                Some(out)
            },
            None => None,
        }
    }
}

/// Checks a decoded `xt` value for the `urn:btih:<40 hex>` shape.
fn check_xt(d: &Vec<u8>) -> (r: bool)
    ensures
        r == xt_ok(d@),
{
    if d.len() != 49 {
        return false;
    }
    let prefix: Vec<u8> = vec![117, 114, 110, 58, 98, 116, 105, 104, 58];
    proof {
        assert(prefix@ =~= urn_btih());
    }
    let mut i: usize = 0;
    while i < 9
        invariant
            i <= 9,
            d@.len() == 49,
            prefix@ == urn_btih(),
            forall|j: int| 0 <= j < i ==> d@[j] == urn_btih()[j],
        decreases 9 - i,
    {
        if d[i] != prefix[i] {
            proof {
                assert(d@.take(9)[i as int] != urn_btih()[i as int]);
            }
            return false;
        }
        i += 1;
    }
    proof {
        assert(d@.take(9) =~= urn_btih());
    }
    let mut k: usize = 9;
    while k < 49
        invariant
            9 <= k <= 49,
            d@.len() == 49,
            forall|j: int| 9 <= j < k ==> is_hex_digit(#[trigger] d@[j]),
        decreases 49 - k,
    {
        let c = d[k];
        if !(48 <= c && c <= 57 || 97 <= c && c <= 102 || 65 <= c && c <= 70) {
            return false;
        }
        k += 1;
    }
    true
}

/// Checks that every byte is ASCII.
fn check_ascii(d: &Vec<u8>) -> (r: bool)
    ensures
        r == all_ascii(d@),
{
    let mut i: usize = 0;
    while i < d.len()
        invariant
            i <= d@.len(),
            forall|j: int| 0 <= j < i ==> d@[j] < 128,
        decreases d@.len() - i,
    {
        if d[i] >= 128 {
            return false;
        }
        i += 1;
    }
    true
}

/// Parses a magnet URI. The `magnet:?` prefix is stripped when present;
/// `xt`, `dn` and `tr` are taken first-wins from the form-urlencoded
/// query, and the `xt` must name a `urn:btih` hash.
pub fn decode_magnet_link(link: &str) -> (r: Result<MagnetLink, ConfigError>)
    ensures
        r matches Ok(m) ==> magnet_ok(link.spec_bytes(), m) && m.xt_wf(),
        vstd::utf8::is_ascii_chars(link@) && (exists|m: MagnetLink| #[trigger] magnet_ok(
            link.spec_bytes(),
            m,
        )) ==> r is Ok,
{
    if !link.is_ascii() {
        return Err(ConfigError::NotAscii);
    }
    let b = link.as_bytes();
    proof {
        vstd::string::is_ascii_spec_bytes(link);
    }
    let prefix: Vec<u8> = vec![109, 97, 103, 110, 101, 116, 58, 63];
    proof {
        assert(prefix@ =~= magnet_prefix());
    }
    let stripped: bool = if b.len() >= 8 {
        let head = subvec(b, 0, 8);
        bytes_eq(&head, &prefix)
    } else {
        false
    };
    let q: Vec<u8> = if stripped {
        let q = subvec(b, 8, b.len());
        proof {
            assert(q@ =~= b@.skip(8));
        }
        q
    } else {
        subvec(b, 0, b.len())
    };
    proof {
        assert(b@.subrange(0, b@.len() as int) =~= b@);
        assert(q@ == strip_magnet(b@));
    }
    let k_xt: Vec<u8> = vec![120, 116];
    let k_dn: Vec<u8> = vec![100, 110];
    let k_tr: Vec<u8> = vec![116, 114];
    proof {
        assert(k_xt@ =~= xt_key());
        assert(k_dn@ =~= dn_key());
        assert(k_tr@ =~= tr_key());
    }
    let ghost bb = link.spec_bytes();
    let xt_raw = match query_value(q.as_slice(), &k_xt) {
        Some(v) => v,
        None => {
            proof {
                assert forall|m: MagnetLink| !magnet_ok(bb, m) by {}
            }
            return Err(ConfigError::MissingField);
        },
    };
    let dn_raw = match query_value(q.as_slice(), &k_dn) {
        Some(v) => v,
        None => {
            proof {
                assert forall|m: MagnetLink| !magnet_ok(bb, m) by {}
            }
            return Err(ConfigError::MissingField);
        },
    };
    let tr_raw = match query_value(q.as_slice(), &k_tr) {
        Some(v) => v,
        None => {
            proof {
                assert forall|m: MagnetLink| !magnet_ok(bb, m) by {}
            }
            return Err(ConfigError::MissingField);
        },
    };
    let xt_d = match percent_decode(xt_raw.as_slice()) {
        Some(v) => v,
        None => {
            proof {
                assert forall|m: MagnetLink| !magnet_ok(bb, m) by {}
            }
            return Err(ConfigError::BadEscape);
        },
    };
    let dn_d = match percent_decode(dn_raw.as_slice()) {
        Some(v) => v,
        None => {
            proof {
                assert forall|m: MagnetLink| !magnet_ok(bb, m) by {}
            }
            return Err(ConfigError::BadEscape);
        },
    };
    let tr_d = match percent_decode(tr_raw.as_slice()) {
        Some(v) => v,
        None => {
            proof {
                assert forall|m: MagnetLink| !magnet_ok(bb, m) by {}
            }
            return Err(ConfigError::BadEscape);
        },
    };
    if !check_xt(&xt_d) {
        proof {
            assert forall|m: MagnetLink| !magnet_ok(bb, m) by {}
        }
        return Err(ConfigError::BadHash);
    }
    if !check_ascii(&dn_d) || !check_ascii(&tr_d) {
        proof {
            assert forall|m: MagnetLink| !magnet_ok(bb, m) by {}
        }
        return Err(ConfigError::NotAscii);
    }
    proof {
        assert(all_ascii(xt_d@)) by {
            assert(forall|i: int| 0 <= i < 9 ==> xt_d@.take(9)[i] == #[trigger] xt_d@[i]);
        }
    }
    let ghost xt_bytes = xt_d@;
    let m = MagnetLink {
        xt: ascii::ascii_to_string(xt_d),
        dn: ascii::ascii_to_string(dn_d),
        tr: ascii::ascii_to_string(tr_d),
    };
    proof {
        assert(m.xt@.len() == 49);
        assert(forall|i: int| 0 <= i < 9 ==> m.xt@[i] == xt_bytes.take(9)[i] as char);
        assert(forall|i: int| 9 <= i < 49 ==> is_hex_digit(#[trigger] xt_bytes[i]) && m.xt@[i]
            == xt_bytes[i] as char);
        assert(m.xt_wf());
    }
    Ok(m)
}

/// A character that is a hex digit.
pub open spec fn is_hex_char(c: char) -> bool {
    ('0' <= c <= '9') || ('a' <= c <= 'f') || ('A' <= c <= 'F')
}

/// Value of a hex digit character.
pub open spec fn hex_char_val(c: char) -> u8 {
    spec_hex_val(c as u8)
}

impl MagnetLink {
    /// A well-formed exact topic string: `urn:btih:` then forty hex
    /// digits.
    pub open spec fn xt_wf(self) -> bool {
        &&& self.xt@.len() == 49
        &&& forall|i: int| 0 <= i < 9 ==> self.xt@[i] == ascii_chars_of(urn_btih())[i]
        &&& forall|i: int| 9 <= i < 49 ==> is_hex_char(#[trigger] self.xt@[i])
    }

    /// The twenty info-hash bytes spelled by the forty hex digits of the
    /// exact topic.
    pub open spec fn spec_hash(self) -> Seq<u8> {
        Seq::new(20, |i: int| (16 * hex_char_val(self.xt@[9 + 2 * i]) + hex_char_val(
            self.xt@[9 + 2 * i + 1],
        )) as u8)
    }

    /// The forty hex digits of the info-hash, as text.
    pub fn get_hex_hash(&self) -> (r: String)
        requires
            self.xt_wf(),
        ensures
            r@ == self.xt@.skip(9),
    {
        proof {
            self.lemma_xt_ascii();
        }
        let b = self.xt.as_str().as_bytes();
        let tail = subvec(b, 9, 49);
        proof {
            assert(all_ascii(tail@));
            assert(ascii_chars_of(tail@) =~= self.xt@.skip(9));
        }
        ascii::ascii_to_string(tail)
    }

    /// The exact topic's characters are ASCII, and the string's bytes are
    /// those characters, byte for byte.
    proof fn lemma_xt_ascii(self)
        requires
            self.xt_wf(),
        ensures
            vstd::utf8::is_ascii_chars(self.xt@),
            vstd::utf8::encode_utf8(self.xt@).len() == 49,
            forall|i: int|
                0 <= i < 49 ==> #[trigger] vstd::utf8::encode_utf8(self.xt@)[i] == self.xt@[i] as u8,
            forall|i: int|
                0 <= i < 49 ==> ((#[trigger] self.xt@[i]) as u8) < 128 && (self.xt@[i] as u8) as char
                    == self.xt@[i],
    {
        assert(vstd::utf8::is_ascii_chars(self.xt@)) by {
            assert(forall|i: int|
                0 <= i < self.xt@.len() ==> '\0' <= #[trigger] self.xt@[i] <= '\u{7f}');
        }
        vstd::utf8::is_ascii_chars_encode_utf8(self.xt@);
    }

    /// The twenty info-hash bytes decoded from the exact topic.
    pub fn get_hash(&self) -> (r: Vec<u8>)
        requires
            self.xt_wf(),
        ensures
            r@ == self.spec_hash(),
            r@.len() == 20,
    {
        proof {
            self.lemma_xt_ascii();
        }
        let b = self.xt.as_str().as_bytes();
        let mut out: Vec<u8> = Vec::new();
        let mut i: usize = 0;
        while i < 20
            invariant
                i <= 20,
                self.xt_wf(),
                b@.len() == 49,
                forall|j: int| 0 <= j < 49 ==> #[trigger] b@[j] == self.xt@[j] as u8,
                out@.len() == i,
                forall|j: int| 0 <= j < i ==> out@[j] == self.spec_hash()[j],
            decreases 20 - i,
        {
            let hi = b[9 + 2 * i];
            let lo = b[9 + 2 * i + 1];
            proof {
                assert(is_hex_char(self.xt@[9 + 2 * (i as int)]));
                assert(is_hex_char(self.xt@[9 + 2 * (i as int) + 1]));
            }
            let byte = 16 * hex_val(hi) + hex_val(lo);
            out.push(byte);
            i += 1;
        }
        proof {
            assert(out@ =~= self.spec_hash());
        }
        out
    }

    /// The announce request for this link: the tracker URL from `tr`, the
    /// decoded info-hash, and the caller's peer id and remaining byte
    /// count.
    pub fn track_request_url(&self, peer_id: &[u8], left: u64) -> (r: Vec<u8>)
        requires
            self.xt_wf(),
            vstd::utf8::is_ascii_chars(self.tr@),
        ensures
            r@ == spec_track_request(
                Seq::new(self.tr@.len(), |i: int| self.tr@[i] as u8),
                self.spec_hash(),
                peer_id@,
                left,
            ),
    {
        proof {
            vstd::utf8::is_ascii_chars_encode_utf8(self.tr@);
        }
        let hash = self.get_hash();
        let announce = self.tr.as_str().as_bytes();
        proof {
            assert(announce@ =~= Seq::new(self.tr@.len(), |i: int| self.tr@[i] as u8));
        }
        tracker::track_request_url(announce, hash.as_slice(), peer_id, left)
    }
}

} // verus!
