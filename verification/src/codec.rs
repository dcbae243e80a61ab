//! Bencode codec: the self-describing serialization used by metainfo files,
//! tracker responses and extension messages.
//!
//! `encoding` is the byte-level meaning of a value with dictionary entries
//! in stored order; `canon_encoding` is the canonical form, with every
//! dictionary's keys in ascending bytewise order. The decoder ensures that
//! an accepted input is exactly the encoding of the value it returns, and
//! the encoder emits exactly the canonical encoding, so a decode followed
//! by an encode reproduces the input after dictionary-key canonicalization
//! - byte for byte when the input was already canonical.
use vstd::prelude::*;

verus! {

broadcast use vstd::std_specs::vec::group_vec_axioms, vstd::seq::group_seq_axioms;

/// Structural decode failures (`Malformed`), type mismatches against a
/// target record (`Unexpected`), and input left over after a top-level
/// decode (`TrailingBytes`).
#[derive(Debug, Clone, Copy, PartialEq, Eq, Structural)]
pub enum CodecError {
    Malformed,
    Unexpected,
    TrailingBytes,
}

/// A bencoded value: integer, byte string, list, or dictionary.
/// Dictionary entries keep the order in which they were written; the
/// canonical form has keys in strictly ascending bytewise order.
#[derive(Debug, PartialEq, Eq)]
pub enum Bencode {
    Int(i64),
    Bytes(Vec<u8>),
    List(Vec<Bencode>),
    Dict(Vec<(Vec<u8>, Bencode)>),
}

/// Decimal digits of `n`, most significant first, with no leading zeros.
pub open spec fn spec_dec_digits(n: nat) -> Seq<u8>
    decreases n,
{
    if n < 10 {
        seq![(48 + n) as u8]
    } else {
        spec_dec_digits(n / 10).push((48 + n % 10) as u8)
    }
}

/// Canonical bencode integer digits: an optional minus sign, then the
/// decimal magnitude without leading zeros (so never `-0`).
pub open spec fn spec_int_digits(i: int) -> Seq<u8> {
    if i < 0 {
        seq![45u8] + spec_dec_digits((-i) as nat)
    } else {
        spec_dec_digits(i as nat)
    }
}

/// Encoding of a byte string: `<len>:<bytes>`.
pub open spec fn str_encoding(s: Seq<u8>) -> Seq<u8> {
    spec_dec_digits(s.len()) + seq![58u8] + s
}

/// The bencode encoding of a value, with dictionary entries emitted in
/// stored order.
pub open spec fn encoding(v: Bencode) -> Seq<u8>
    decreases v,
{
    match v {
        Bencode::Int(i) => seq![105u8] + spec_int_digits(i as int) + seq![101u8],
        Bencode::Bytes(s) => str_encoding(s@),
        Bencode::List(items) => seq![108u8] + list_encoding(items@) + seq![101u8],
        Bencode::Dict(entries) => seq![100u8] + dict_encoding(entries@) + seq![101u8],
    }
}

/// Concatenated encodings of the elements of a list body.
pub open spec fn list_encoding(items: Seq<Bencode>) -> Seq<u8>
    decreases items,
{
    if items.len() == 0 {
        Seq::empty()
    } else {
        list_encoding(items.drop_last()) + encoding(items.last())
    }
}

/// Concatenated `<key><value>` encodings of a dictionary body.
pub open spec fn dict_encoding(entries: Seq<(Vec<u8>, Bencode)>) -> Seq<u8>
    decreases entries,
{
    if entries.len() == 0 {
        Seq::empty()
    } else {
        dict_encoding(entries.drop_last()) + str_encoding(entries.last().0@) + encoding(
            entries.last().1,
        )
    }
}

/// No dictionary anywhere in `v` has two entries with the same key.
pub open spec fn keys_unique(v: Bencode) -> bool
    decreases v,
{
    match v {
        Bencode::Int(_) => true,
        Bencode::Bytes(_) => true,
        Bencode::List(items) => forall|i: int|
            0 <= i < items@.len() ==> keys_unique(#[trigger] items@[i]),
        Bencode::Dict(entries) => {
            &&& forall|i: int, j: int|
                0 <= i < j < entries@.len() ==> entries@[i].0@ != entries@[j].0@
            &&& forall|i: int| 0 <= i < entries@.len() ==> keys_unique(#[trigger] entries@[i].1)
        },
    }
}

/// Strict bytewise lexicographic order on keys.
pub open spec fn key_lt(a: Seq<u8>, b: Seq<u8>) -> bool
    decreases a.len(),
{
    if b.len() == 0 {
        false
    } else if a.len() == 0 {
        true
    } else if a[0] < b[0] {
        true
    } else if a[0] > b[0] {
        false
    } else {
        key_lt(a.drop_first(), b.drop_first())
    }
}

/// Two keys are never each below the other.
pub proof fn lemma_key_lt_asym(a: Seq<u8>, b: Seq<u8>)
    requires
        key_lt(a, b),
    ensures
        !key_lt(b, a),
    decreases a.len(),
{
    if a.len() > 0 && b.len() > 0 && a[0] == b[0] {
        lemma_key_lt_asym(a.drop_first(), b.drop_first());
    }
}

/// Keys that agree up to position `k` and differ there are ordered by
/// that position.
pub proof fn lemma_key_lt_at(a: Seq<u8>, b: Seq<u8>, k: int)
    requires
        0 <= k < a.len(),
        k < b.len(),
        forall|j: int| 0 <= j < k ==> a[j] == b[j],
        a[k] < b[k],
    ensures
        key_lt(a, b),
    decreases k,
{
    if k > 0 {
        lemma_key_lt_at(a.drop_first(), b.drop_first(), k - 1);
    }
}

/// Index of the entry with the smallest key, the earliest on equal keys.
pub open spec fn min_key_idx(s: Seq<(Vec<u8>, Bencode)>) -> int
    decreases s.len(),
{
    if s.len() <= 1 {
        0
    } else {
        let j = min_key_idx(s.drop_last());
        if key_lt(s[s.len() - 1].0@, s[j].0@) {
            s.len() - 1
        } else {
            j
        }
    }
}

proof fn lemma_min_key_idx_bounds(s: Seq<(Vec<u8>, Bencode)>)
    requires
        s.len() > 0,
    ensures
        0 <= min_key_idx(s) < s.len(),
    decreases s.len(),
{
    if s.len() > 1 {
        lemma_min_key_idx_bounds(s.drop_last());
    }
}

/// The canonical encoding of a value: as `encoding`, but every
/// dictionary's entries are emitted in ascending bytewise key order.
pub open spec fn canon_encoding(v: Bencode) -> Seq<u8>
    decreases v,
{
    match v {
        Bencode::Int(i) => seq![105u8] + spec_int_digits(i as int) + seq![101u8],
        Bencode::Bytes(s) => str_encoding(s@),
        Bencode::List(items) => seq![108u8] + canon_list(items@) + seq![101u8],
        Bencode::Dict(entries) => seq![100u8] + canon_dict(entries@) + seq![101u8],
    }
}

/// Canonical encodings of the elements of a list body, in list order.
pub open spec fn canon_list(items: Seq<Bencode>) -> Seq<u8>
    decreases items,
{
    if items.len() == 0 {
        Seq::empty()
    } else {
        canon_list(items.drop_last()) + canon_encoding(items.last())
    }
}

/// Canonical `<key><value>` encodings of a dictionary body: the entry
/// with the smallest key first, then the rest, recursively.
pub open spec fn canon_dict(entries: Seq<(Vec<u8>, Bencode)>) -> Seq<u8>
    decreases entries,
    via canon_dict_decreases
{
    if entries.len() == 0 {
        Seq::empty()
    } else {
        let i = min_key_idx(entries);
        str_encoding(entries[i].0@) + canon_encoding(entries[i].1) + canon_dict(entries.remove(i))
    }
}

#[via_fn]
proof fn canon_dict_decreases(entries: Seq<(Vec<u8>, Bencode)>) {
    if entries.len() > 0 {
        lemma_min_key_idx_bounds(entries);
        let i = min_key_idx(entries);
        assert(decreases_to!(entries => entries[i]));
        assert(decreases_to!(entries[i] => entries[i].1));
        let rest = entries.remove(i);
        entries.remove_ensures(i);
        assert forall|k2: int|
            0 <= k2 < rest.len() && #[trigger] vstd::pervasive::trigger(rest[k2]) implies exists|k1: int|
            0 <= k1 < entries.len() && entries[k1] == rest[k2] by {
            if k2 < i {
                assert(entries[k2] == rest[k2]);
            } else {
                assert(entries[k2 + 1] == rest[k2]);
            }
        }
        vstd::seq::axiom_seq_len_decreases(entries, rest);
        assert(decreases_to!(entries => rest));
    }
}

/// Every dictionary in `v` has its keys in strictly ascending bytewise
/// order: the canonical form.
pub open spec fn dicts_sorted(v: Bencode) -> bool
    decreases v,
{
    match v {
        Bencode::Int(_) => true,
        Bencode::Bytes(_) => true,
        Bencode::List(items) => forall|i: int|
            0 <= i < items@.len() ==> dicts_sorted(#[trigger] items@[i]),
        Bencode::Dict(entries) => {
            &&& forall|i: int, j: int|
                0 <= i < j < entries@.len() ==> key_lt(entries@[i].0@, entries@[j].0@)
            &&& forall|i: int| 0 <= i < entries@.len() ==> dicts_sorted(#[trigger] entries@[i].1)
        },
    }
}

/// A dictionary body's stored-order encoding decomposes at the front.
proof fn lemma_dict_encoding_cons(s: Seq<(Vec<u8>, Bencode)>)
    requires
        s.len() > 0,
    ensures
        dict_encoding(s) == str_encoding(s[0].0@) + encoding(s[0].1) + dict_encoding(
            s.drop_first(),
        ),
    decreases s.len(),
{
    if s.len() == 1 {
        assert(s.drop_last() =~= Seq::<(Vec<u8>, Bencode)>::empty());
        assert(s.drop_first() =~= Seq::<(Vec<u8>, Bencode)>::empty());
        assert(dict_encoding(s) =~= str_encoding(s[0].0@) + encoding(s[0].1) + dict_encoding(
            s.drop_first(),
        ));
    } else {
        lemma_dict_encoding_cons(s.drop_last());
        assert(s.drop_last().drop_first() =~= s.drop_first().drop_last());
        assert(s.drop_first().last() == s.last());
        assert(s.drop_last()[0] == s[0]);
        assert(dict_encoding(s) =~= str_encoding(s[0].0@) + encoding(s[0].1) + dict_encoding(
            s.drop_first(),
        ));
    }
}

/// In a strictly sorted dictionary body the first entry has the smallest
/// key.
proof fn lemma_min_of_sorted(s: Seq<(Vec<u8>, Bencode)>)
    requires
        s.len() > 0,
        forall|i: int, j: int| 0 <= i < j < s.len() ==> key_lt(s[i].0@, s[j].0@),
    ensures
        min_key_idx(s) == 0,
    decreases s.len(),
{
    if s.len() > 1 {
        let t = s.drop_last();
        assert(forall|i: int, j: int| 0 <= i < j < t.len() ==> key_lt(t[i].0@, t[j].0@));
        lemma_min_of_sorted(t);
        lemma_key_lt_asym(s[0].0@, s[s.len() - 1].0@);
    }
}

/// On a value whose dictionaries are already sorted, the canonical
/// encoding coincides with the stored-order encoding: the encoder is the
/// identity, byte for byte, on canonical values.
pub proof fn lemma_canon_of_sorted(v: Bencode)
    requires
        dicts_sorted(v),
    ensures
        canon_encoding(v) == encoding(v),
    decreases v,
{
    match v {
        Bencode::Int(_) => {},
        Bencode::Bytes(_) => {},
        Bencode::List(items) => {
            assert(decreases_to!(v => v->List_0));
            lemma_canon_list_of_sorted(items@);
        },
        Bencode::Dict(entries) => {
            assert(decreases_to!(v => v->Dict_0));
            lemma_canon_dict_of_sorted(entries@);
        },
    }
}

proof fn lemma_canon_list_of_sorted(items: Seq<Bencode>)
    requires
        forall|i: int| 0 <= i < items.len() ==> dicts_sorted(#[trigger] items[i]),
    ensures
        canon_list(items) == list_encoding(items),
    decreases items,
{
    if items.len() > 0 {
        let t = items.drop_last();
        assert(forall|i: int| 0 <= i < t.len() ==> dicts_sorted(#[trigger] t[i]));
        lemma_canon_list_of_sorted(t);
        assert(decreases_to!(items => items[items.len() - 1]));
        lemma_canon_of_sorted(items.last());
    }
}

proof fn lemma_canon_dict_of_sorted(entries: Seq<(Vec<u8>, Bencode)>)
    requires
        forall|i: int, j: int| 0 <= i < j < entries.len() ==> key_lt(entries[i].0@, entries[j].0@),
        forall|i: int| 0 <= i < entries.len() ==> dicts_sorted(#[trigger] entries[i].1),
    ensures
        canon_dict(entries) == dict_encoding(entries),
    decreases entries,
{
    if entries.len() > 0 {
        lemma_min_of_sorted(entries);
        let rest = entries.remove(0);
        entries.remove_ensures(0);
        assert(rest =~= entries.drop_first());
        assert(forall|i: int, j: int| 0 <= i < j < rest.len() ==> key_lt(rest[i].0@, rest[j].0@));
        assert(forall|i: int| 0 <= i < rest.len() ==> dicts_sorted(#[trigger] rest[i].1));
        assert(decreases_to!(entries => entries.drop_first()));
        lemma_canon_dict_of_sorted(entries.drop_first());
        assert(decreases_to!(entries => entries[0]));
        lemma_canon_of_sorted(entries[0].1);
        lemma_dict_encoding_cons(entries);
        assert(canon_dict(entries) =~= dict_encoding(entries));
    }
}

/// Appends the decimal digits of `n` to `out`.
pub(crate) fn push_decimal(n: u64, out: &mut Vec<u8>)
    ensures
        final(out)@ == old(out)@ + spec_dec_digits(n as nat),
    decreases n,
{
    if n < 10 {
        out.push(48 + n as u8);
        assert(out@ =~= old(out)@ + spec_dec_digits(n as nat));
    } else {
        push_decimal(n / 10, out);
        out.push(48 + (n % 10) as u8);
        assert(out@ =~= old(out)@ + spec_dec_digits(n as nat));
    }
}

/// Appends the canonical digits of `i` (minus sign included) to `out`.
fn push_int_digits(i: i64, out: &mut Vec<u8>)
    ensures
        final(out)@ == old(out)@ + spec_int_digits(i as int),
{
    if i < 0 {
        out.push(45);
        // |i| computed without overflowing i64 at i64::MIN
        let mag: u64 = ((-1 - i) as u64) + 1;
        assert(mag == -(i as int));
        push_decimal(mag, out);
        assert(out@ =~= old(out)@ + spec_int_digits(i as int));
    } else {
        push_decimal(i as u64, out);
    }
}

/// Appends the bytes of `s` to `out`.
fn push_bytes(s: &Vec<u8>, out: &mut Vec<u8>)
    ensures
        final(out)@ == old(out)@ + s@,
{
    let mut k: usize = 0;
    while k < s.len()
        invariant
            k <= s@.len(),
            out@ == old(out)@ + s@.subrange(0, k as int),
        decreases s@.len() - k,
    {
        out.push(s[k]);
        k += 1;
        assert(out@ =~= old(out)@ + s@.subrange(0, k as int));
    }
    assert(s@.subrange(0, s@.len() as int) =~= s@);
}

/// Appends `<len>:<bytes>` to `out`.
fn push_str_encoding(s: &Vec<u8>, out: &mut Vec<u8>)
    ensures
        final(out)@ == old(out)@ + str_encoding(s@),
{
    push_decimal(s.len() as u64, out);
    out.push(58);
    push_bytes(s, out);
    assert(out@ =~= old(out)@ + str_encoding(s@));
}

/// The largest accumulator the integer digit loop may extend: one more
/// digit cannot overflow 64 bits beyond it.
pub open spec fn int_digit_guard() -> int {
    0x1999_9999_9999_9998
}

/// The largest accumulator the string-length digit loop may extend.
pub open spec fn str_digit_guard() -> int {
    0x07FF_FFFF_FFFF_FFFF
}

pub open spec fn is_digit(b: u8) -> bool {
    48 <= b <= 57
}

/// Value and end of the digit run continuing from `acc` at `pos`, exactly
/// as the executable accumulator loop computes it: it gives up when the
/// accumulator crosses `guard` with another digit still ahead.
pub open spec fn spec_digits_end(s: Seq<u8>, pos: int, acc: int, guard: int) -> Option<(int, int)>
    decreases s.len() - pos,
{
    if pos < s.len() && is_digit(s[pos]) {
        if acc > guard {
            None
        } else {
            spec_digits_end(s, pos + 1, 10 * acc + (s[pos] - 48), guard)
        }
    } else {
        Some((acc, pos))
    }
}

/// End of an `i<digits>e` integer whose `i` stands at `pos`, or `None`
/// where the decoder rejects: mirrors the decoder exactly.
pub open spec fn spec_int_end(s: Seq<u8>, pos: int) -> Option<int> {
    let p1 = pos + 1;
    if p1 >= s.len() {
        None
    } else {
        let neg = s[p1] == 45;
        let p2: int = if neg {
            p1 + 1
        } else {
            p1
        };
        if p2 >= s.len() || !is_digit(s[p2]) {
            None
        } else if s[p2] == 48 {
            if neg {
                None
            } else if p2 + 1 < s.len() && s[p2 + 1] == 101 {
                Some(p2 + 2)
            } else {
                None
            }
        } else {
            match spec_digits_end(s, p2 + 1, (s[p2] - 48) as int, int_digit_guard()) {
                Some(p) => {
                    let mag = p.0;
                    let dend = p.1;
                    if dend >= s.len() || s[dend] != 101 {
                        None
                    } else if neg && mag > 0x8000_0000_0000_0000 {
                        None
                    } else if !neg && mag > 0x7FFF_FFFF_FFFF_FFFF {
                        None
                    } else {
                        Some(dend + 1)
                    }
                },
                None => None,
            }
        }
    }
}

/// Content start and end of a `<len>:<bytes>` string at `pos`, or `None`
/// where the decoder rejects: mirrors the decoder exactly.
pub open spec fn spec_str_end(s: Seq<u8>, pos: int) -> Option<(int, int)> {
    if pos >= s.len() || !is_digit(s[pos]) {
        None
    } else if s[pos] == 48 {
        if pos + 1 < s.len() && s[pos + 1] == 58 {
            Some((pos + 2, pos + 2))
        } else {
            None
        }
    } else {
        match spec_digits_end(s, pos + 1, (s[pos] - 48) as int, str_digit_guard()) {
            Some(p) => {
                let l = p.0;
                let dend = p.1;
                if dend < s.len() && s[dend] == 58 && l <= s.len() - (dend + 1) {
                    Some((dend + 1, dend + 1 + l))
                } else {
                    None
                }
            },
            None => None,
        }
    }
}

/// End of one bencoded value at `pos`, or `None` where the decoder
/// rejects. This is the decoder's acceptance condition, stated as a
/// function of the input bytes.
pub open spec fn spec_value_end(s: Seq<u8>, pos: int) -> Option<int>
    decreases s.len() - pos, 0int,
{
    if pos >= s.len() {
        None
    } else if s[pos] == 105 {
        spec_int_end(s, pos)
    } else if s[pos] == 108 {
        spec_list_end(s, pos + 1)
    } else if s[pos] == 100 {
        spec_entries_end(s, pos + 1, Set::empty())
    } else if is_digit(s[pos]) {
        match spec_str_end(s, pos) {
            Some(p) => Some(p.1),
            None => None,
        }
    } else {
        None
    }
}

/// End of a list body (elements then `e`) starting at `cur`.
pub open spec fn spec_list_end(s: Seq<u8>, cur: int) -> Option<int>
    decreases s.len() - cur, 1int,
{
    if cur >= s.len() {
        None
    } else if s[cur] == 101 {
        Some(cur + 1)
    } else {
        match spec_value_end(s, cur) {
            Some(end) => {
                if cur < end <= s.len() {
                    spec_list_end(s, end)
                } else {
                    None
                }
            },
            None => None,
        }
    }
}

/// End of a dictionary body (key-value pairs then `e`) starting at `cur`,
/// rejecting a key already in `seen`.
pub open spec fn spec_entries_end(s: Seq<u8>, cur: int, seen: Set<Seq<u8>>) -> Option<int>
    decreases s.len() - cur, 1int,
{
    if cur >= s.len() {
        None
    } else if s[cur] == 101 {
        Some(cur + 1)
    } else {
        match spec_str_end(s, cur) {
            Some(p) => {
                let cs = p.0;
                let kend = p.1;
                let key = s.subrange(cs, kend);
                if seen.contains(key) {
                    None
                } else if cur < kend <= s.len() {
                    match spec_value_end(s, kend) {
                        Some(end) => {
                            if kend < end <= s.len() {
                                spec_entries_end(s, end, seen.insert(key))
                            } else {
                                None
                            }
                        },
                        None => None,
                    }
                } else {
                    None
                }
            },
            None => None,
        }
    }
}

/// Decimal digit strings are never empty.
proof fn lemma_dec_digits_len(n: nat)
    ensures
        spec_dec_digits(n).len() >= 1,
    decreases n,
{
    if n >= 10 {
        lemma_dec_digits_len(n / 10);
    }
}

/// Every byte of a decimal digit string is a digit.
proof fn lemma_dec_digits_are_digits(n: nat)
    ensures
        forall|i: int| 0 <= i < spec_dec_digits(n).len() ==> is_digit(#[trigger] spec_dec_digits(n)[i]),
    decreases n,
{
    if n < 10 {
        assert(spec_dec_digits(n)[0] == (48 + n) as u8);
    } else {
        lemma_dec_digits_are_digits(n / 10);
        let t = spec_dec_digits(n / 10);
        assert(n % 10 < 10) by (nonlinear_arith);
        assert forall|i: int| 0 <= i < spec_dec_digits(n).len() implies is_digit(
            #[trigger] spec_dec_digits(n)[i],
        ) by {
            if i < t.len() {
                assert(spec_dec_digits(n)[i] == t[i]);
            } else {
                assert(spec_dec_digits(n)[i] == (48 + n % 10) as u8);
            }
        }
    }
}

/// A positive number's digit string does not start with a zero.
proof fn lemma_dec_digits_no_leading_zero(n: nat)
    requires
        n >= 1,
    ensures
        spec_dec_digits(n)[0] != 48,
    decreases n,
{
    if n >= 10 {
        lemma_dec_digits_no_leading_zero(n / 10);
        assert(spec_dec_digits(n)[0] == spec_dec_digits(n / 10)[0]) by {
            lemma_dec_digits_len(n / 10);
        }
    }
}

/// Digit strings determine their number.
proof fn lemma_dec_digits_inj(a: nat, b: nat)
    requires
        spec_dec_digits(a) == spec_dec_digits(b),
    ensures
        a == b,
    decreases a,
{
    lemma_dec_digits_len(a);
    lemma_dec_digits_len(b);
    if a < 10 && b < 10 {
        assert(spec_dec_digits(a)[0] == (48 + a) as u8);
        assert(spec_dec_digits(b)[0] == (48 + b) as u8);
        assert(spec_dec_digits(a)[0] == spec_dec_digits(b)[0]);
    } else if a >= 10 && b >= 10 {
        assert(spec_dec_digits(a).drop_last() =~= spec_dec_digits(a / 10));
        assert(spec_dec_digits(b).drop_last() =~= spec_dec_digits(b / 10));
        lemma_dec_digits_inj(a / 10, b / 10);
        assert(spec_dec_digits(a).last() == spec_dec_digits(b).last());
        lemma_dec_digits_len(a / 10);
        lemma_dec_digits_len(b / 10);
        assert(spec_dec_digits(a).last() == (48 + a % 10) as u8);
        assert(spec_dec_digits(b).last() == (48 + b % 10) as u8);
        assert((48 + a % 10) as u8 == (48 + b % 10) as u8);
        assert(a % 10 < 10 && b % 10 < 10) by (nonlinear_arith);
        assert(a % 10 == b % 10);
        vstd::arithmetic::div_mod::lemma_fundamental_div_mod(a as int, 10);
        vstd::arithmetic::div_mod::lemma_fundamental_div_mod(b as int, 10);
    } else if a < 10 {
        lemma_dec_digits_len(b / 10);
        assert(spec_dec_digits(b).len() >= 2);
    } else {
        lemma_dec_digits_len(a / 10);
        assert(spec_dec_digits(a).len() >= 2);
    }
}

/// A strictly shorter digit-string prefix names a number at most a tenth
/// of the whole.
proof fn lemma_dec_digits_prefix(a: nat, b: nat, k: int)
    requires
        0 <= k < spec_dec_digits(b).len(),
        spec_dec_digits(a) == spec_dec_digits(b).take(k),
    ensures
        10 * a <= b,
    decreases b,
{
    lemma_dec_digits_len(a);
    if b < 10 {
        assert(spec_dec_digits(b).len() == 1);
        assert(spec_dec_digits(a).len() == 0);
    } else {
        let t = spec_dec_digits(b / 10);
        assert(spec_dec_digits(b).drop_last() =~= t);
        lemma_dec_digits_len(b / 10);
        assert(spec_dec_digits(b).take(k) =~= t.take(k));
        if k == t.len() {
            assert(spec_dec_digits(a) =~= t);
            lemma_dec_digits_inj(a, (b / 10) as nat);
            vstd::arithmetic::div_mod::lemma_fundamental_div_mod(b as int, 10);
        } else {
            lemma_dec_digits_prefix(a, (b / 10) as nat, k);
            vstd::arithmetic::div_mod::lemma_fundamental_div_mod(b as int, 10);
        }
    }
}

/// Inputs the decoder's length guards can never reject: any practical
/// buffer (below 576 petabytes).
pub open spec fn input_in_reach(s: Seq<u8>) -> bool {
    s.len() < 0x0800_0000_0000_0000
}

/// The first byte of an encoding marks its kind and is never a
/// terminator or separator.
proof fn lemma_first_byte(v: Bencode)
    ensures
        encoding(v).len() >= 1,
        encoding(v)[0] == 105 || encoding(v)[0] == 108 || encoding(v)[0] == 100 || is_digit(
            encoding(v)[0],
        ),
        encoding(v)[0] != 101,
        encoding(v)[0] != 58,
        v is Int ==> encoding(v)[0] == 105,
        v is List ==> encoding(v)[0] == 108,
        v is Dict ==> encoding(v)[0] == 100,
        v is Bytes ==> is_digit(encoding(v)[0]),
{
    match v {
        Bencode::Int(_) => {},
        Bencode::Bytes(b) => {
            lemma_dec_digits_len(b@.len());
            lemma_dec_digits_are_digits(b@.len());
            assert(encoding(v)[0] == spec_dec_digits(b@.len())[0]);
        },
        Bencode::List(_) => {},
        Bencode::Dict(_) => {},
    }
}

/// A list body's stored-order encoding decomposes at the front.
proof fn lemma_list_encoding_cons(s: Seq<Bencode>)
    requires
        s.len() > 0,
    ensures
        list_encoding(s) == encoding(s[0]) + list_encoding(s.drop_first()),
    decreases s.len(),
{
    if s.len() == 1 {
        assert(s.drop_last() =~= Seq::<Bencode>::empty());
        assert(s.drop_first() =~= Seq::<Bencode>::empty());
        assert(list_encoding(s) =~= encoding(s[0]) + list_encoding(s.drop_first()));
    } else {
        lemma_list_encoding_cons(s.drop_last());
        assert(s.drop_last().drop_first() =~= s.drop_first().drop_last());
        assert(s.drop_first().last() == s.last());
        assert(s.drop_last()[0] == s[0]);
        assert(list_encoding(s) =~= encoding(s[0]) + list_encoding(s.drop_first()));
    }
}

/// Byte `k` of a region equals the corresponding input byte.
proof fn lemma_region_index(s: Seq<u8>, pos: int, region: Seq<u8>, k: int)
    requires
        0 <= pos,
        0 <= k < region.len(),
        pos + region.len() <= s.len(),
        s.subrange(pos, pos + region.len() as int) == region,
    ensures
        s[pos + k] == region[k],
{
    assert(s.subrange(pos, pos + region.len() as int)[k] == s[pos + k]);
}

/// A sub-span of a region is the corresponding sub-span of the input.
proof fn lemma_region_sub(s: Seq<u8>, pos: int, region: Seq<u8>, a: int, b: int)
    requires
        0 <= pos,
        0 <= a <= b <= region.len(),
        pos + region.len() <= s.len(),
        s.subrange(pos, pos + region.len() as int) == region,
    ensures
        s.subrange(pos + a, pos + b) == region.subrange(a, b),
{
    assert forall|i: int| 0 <= i < b - a implies s.subrange(pos + a, pos + b)[i]
        == region.subrange(a, b)[i] by {
        lemma_region_index(s, pos, region, a + i);
    }
    assert(s.subrange(pos + a, pos + b) =~= region.subrange(a, b));
}

/// Running the digit loop over the digit string of `m`, with a non-digit
/// or the end just after it, yields exactly `m`: no canonical digit
/// string within the guard is ever rejected.
proof fn lemma_digits_complete(
    s: Seq<u8>,
    start0: int,
    pos: int,
    dend: int,
    m: nat,
    acc: nat,
    guard: int,
)
    requires
        0 <= start0 < pos <= dend <= s.len(),
        spec_dec_digits(m) == s.subrange(start0, dend),
        spec_dec_digits(acc) == s.subrange(start0, pos),
        1 <= acc,
        dend == s.len() || !is_digit(s[dend]),
        m <= 10 * guard + 9,
        0 <= guard,
    ensures
        spec_digits_end(s, pos, acc as int, guard) == Some((m as int, dend)),
    decreases dend - pos,
{
    lemma_dec_digits_are_digits(m);
    if pos == dend {
        assert(s.subrange(start0, pos) =~= s.subrange(start0, dend));
        lemma_dec_digits_inj(acc, m);
    } else {
        let k = pos - start0;
        assert(spec_dec_digits(m).take(k) =~= s.subrange(start0, pos));
        lemma_dec_digits_prefix(acc, m, k);
        assert(acc <= guard);
        let d = s[pos];
        assert(spec_dec_digits(m)[k] == s[pos]);
        assert(is_digit(d));
        let acc2: nat = (10 * acc + (d - 48)) as nat;
        assert(acc2 / 10 == acc && acc2 % 10 == d - 48) by (nonlinear_arith)
            requires
                acc2 == 10 * acc + (d - 48),
                0 <= d - 48 < 10,
                0 <= acc,
        ;
        assert(spec_dec_digits(acc2) == spec_dec_digits(acc).push((48 + acc2 % 10) as u8));
        assert((48 + acc2 % 10) as u8 == d);
        assert(spec_dec_digits(acc2) =~= s.subrange(start0, pos + 1));
        lemma_digits_complete(s, start0, pos + 1, dend, m, acc2, guard);
    }
}

/// The decoder accepts the encoding of any byte string.
proof fn lemma_str_complete(s: Seq<u8>, pos: int, content: Seq<u8>)
    requires
        0 <= pos,
        pos + str_encoding(content).len() <= s.len(),
        s.subrange(pos, pos + str_encoding(content).len() as int) == str_encoding(content),
        input_in_reach(s),
    ensures
        spec_str_end(s, pos) == Some(
            (
                pos + str_encoding(content).len() - content.len(),
                pos + str_encoding(content).len(),
            ),
        ),
{
    let region = str_encoding(content);
    let m: nat = content.len();
    let dl = spec_dec_digits(m).len() as int;
    lemma_dec_digits_len(m);
    lemma_dec_digits_are_digits(m);
    let end = pos + region.len();
    lemma_region_sub(s, pos, region, 0, dl);
    assert(region.subrange(0, dl) =~= spec_dec_digits(m));
    lemma_region_index(s, pos, region, dl);
    assert(region[dl] == 58);
    lemma_region_index(s, pos, region, 0);
    assert(region[0] == spec_dec_digits(m)[0]);
    assert(is_digit(s[pos]));
    if m == 0 {
        assert(spec_dec_digits(0 as nat) =~= seq![48u8]);
        assert(s[pos] == 48 && s[pos + 1] == 58);
        assert(end == pos + 2);
    } else {
        lemma_dec_digits_no_leading_zero(m);
        assert(s[pos] != 48);
        let first: nat = (s[pos] - 48) as nat;
        assert(spec_dec_digits(first) =~= s.subrange(pos, pos + 1));
        lemma_digits_complete(s, pos, pos + 1, pos + dl, m, first, str_digit_guard());
        assert(s[pos + dl] == 58 && m <= s.len() - (pos + dl + 1));
    }
}

/// The decoder accepts the encoding of any 64-bit integer.
proof fn lemma_int_complete(s: Seq<u8>, pos: int, n: i64)
    requires
        0 <= pos,
        pos + encoding(Bencode::Int(n)).len() <= s.len(),
        s.subrange(pos, pos + encoding(Bencode::Int(n)).len() as int) == encoding(
            Bencode::Int(n),
        ),
    ensures
        spec_int_end(s, pos) == Some(pos + encoding(Bencode::Int(n)).len()),
{
    let region = encoding(Bencode::Int(n));
    let body = spec_int_digits(n as int);
    lemma_region_index(s, pos, region, 0);
    assert(region[0] == 105);
    lemma_region_index(s, pos, region, 1 + body.len() as int);
    assert(region[1 + body.len() as int] == 101);
    if n >= 0 {
        let m: nat = n as nat;
        let dl = spec_dec_digits(m).len() as int;
        lemma_dec_digits_len(m);
        lemma_dec_digits_are_digits(m);
        lemma_region_sub(s, pos, region, 1, 1 + dl);
        assert(region.subrange(1, 1 + dl) =~= spec_dec_digits(m));
        lemma_region_index(s, pos, region, 1);
        assert(region[1] == spec_dec_digits(m)[0]);
        assert(is_digit(s[pos + 1]) && s[pos + 1] != 45);
        if m == 0 {
            assert(spec_dec_digits(0 as nat) =~= seq![48u8]);
            assert(s[pos + 1] == 48 && s[pos + 2] == 101);
        } else {
            lemma_dec_digits_no_leading_zero(m);
            assert(s[pos + 1] != 48);
            let first: nat = (s[pos + 1] - 48) as nat;
            assert(spec_dec_digits(first) =~= s.subrange(pos + 1, pos + 2));
            lemma_digits_complete(s, pos + 1, pos + 2, pos + 1 + dl, m, first, int_digit_guard());
            assert(s[pos + 1 + dl] == 101);
            assert(m <= 0x7FFF_FFFF_FFFF_FFFF);
        }
    } else {
        let m: nat = (-(n as int)) as nat;
        let dl = spec_dec_digits(m).len() as int;
        lemma_dec_digits_len(m);
        lemma_dec_digits_are_digits(m);
        lemma_region_index(s, pos, region, 1);
        assert(region[1] == 45);
        lemma_region_sub(s, pos, region, 2, 2 + dl);
        assert(region.subrange(2, 2 + dl) =~= spec_dec_digits(m));
        lemma_region_index(s, pos, region, 2);
        assert(region[2] == spec_dec_digits(m)[0]);
        assert(is_digit(s[pos + 2]));
        lemma_dec_digits_no_leading_zero(m);
        assert(s[pos + 2] != 48);
        let first: nat = (s[pos + 2] - 48) as nat;
        assert(spec_dec_digits(first) =~= s.subrange(pos + 2, pos + 3));
        lemma_digits_complete(s, pos + 2, pos + 3, pos + 2 + dl, m, first, int_digit_guard());
        assert(s[pos + 2 + dl] == 101);
        assert(m <= 0x8000_0000_0000_0000);
    }
}

/// Every well-formed encoding is accepted by the decoder's acceptance
/// condition, ending exactly where the encoding ends.
pub proof fn lemma_decode_complete(s: Seq<u8>, pos: int, v: Bencode)
    requires
        0 <= pos,
        pos + encoding(v).len() <= s.len(),
        s.subrange(pos, pos + encoding(v).len() as int) == encoding(v),
        keys_unique(v),
        input_in_reach(s),
    ensures
        spec_value_end(s, pos) == Some(pos + encoding(v).len()),
    decreases v,
{
    lemma_first_byte(v);
    lemma_region_index(s, pos, encoding(v), 0);
    match v {
        Bencode::Int(n) => {
            lemma_int_complete(s, pos, n);
        },
        Bencode::Bytes(b) => {
            lemma_str_complete(s, pos, b@);
        },
        Bencode::List(items) => {
            let lb = list_encoding(items@);
            let lend = pos + 1 + lb.len() as int;
            lemma_region_index(s, pos, encoding(v), 1 + lb.len() as int);
            assert(encoding(v)[1 + lb.len() as int] == 101);
            lemma_region_sub(s, pos, encoding(v), 1, 1 + lb.len() as int);
            assert(encoding(v).subrange(1, 1 + lb.len() as int) =~= lb);
            assert(decreases_to!(v => v->List_0));
            lemma_list_complete(s, pos + 1, items@, lend);
        },
        Bencode::Dict(entries) => {
            let db = dict_encoding(entries@);
            let lend = pos + 1 + db.len() as int;
            lemma_region_index(s, pos, encoding(v), 1 + db.len() as int);
            assert(encoding(v)[1 + db.len() as int] == 101);
            lemma_region_sub(s, pos, encoding(v), 1, 1 + db.len() as int);
            assert(encoding(v).subrange(1, 1 + db.len() as int) =~= db);
            assert(decreases_to!(v => v->Dict_0));
            assert(forall|i: int|
                0 <= i < entries@.len() ==> !Set::<Seq<u8>>::empty().contains(
                    #[trigger] entries@[i].0@,
                ));
            lemma_entries_complete(s, pos + 1, entries@, lend, Set::empty());
        },
    }
}

proof fn lemma_list_complete(s: Seq<u8>, cur: int, items: Seq<Bencode>, lend: int)
    requires
        0 <= cur <= lend < s.len(),
        list_encoding(items) == s.subrange(cur, lend),
        s[lend] == 101,
        forall|i: int| 0 <= i < items.len() ==> keys_unique(#[trigger] items[i]),
        input_in_reach(s),
    ensures
        spec_list_end(s, cur) == Some(lend + 1),
    decreases items,
{
    if items.len() == 0 {
        assert(list_encoding(items).len() == 0);
        assert(s.subrange(cur, lend).len() == lend - cur);
        assert(cur == lend);
    } else {
        lemma_list_encoding_cons(items);
        let region = s.subrange(cur, lend);
        let e0 = encoding(items[0]);
        lemma_first_byte(items[0]);
        lemma_region_sub(s, cur, list_encoding(items), 0, e0.len() as int);
        assert(list_encoding(items).subrange(0, e0.len() as int) =~= e0);
        lemma_region_index(s, cur, list_encoding(items), 0);
        assert(list_encoding(items)[0] == e0[0]);
        assert(decreases_to!(items => items[0]));
        lemma_decode_complete(s, cur, items[0]);
        lemma_region_sub(s, cur, list_encoding(items), e0.len() as int, list_encoding(items).len() as int);
        assert(list_encoding(items).subrange(e0.len() as int, list_encoding(items).len() as int)
            =~= list_encoding(items.drop_first()));
        lemma_list_complete(s, cur + e0.len(), items.drop_first(), lend);
    }
}

proof fn lemma_entries_complete(
    s: Seq<u8>,
    cur: int,
    entries: Seq<(Vec<u8>, Bencode)>,
    lend: int,
    seen: Set<Seq<u8>>,
)
    requires
        0 <= cur <= lend < s.len(),
        dict_encoding(entries) == s.subrange(cur, lend),
        s[lend] == 101,
        forall|i: int, j: int| 0 <= i < j < entries.len() ==> entries[i].0@ != entries[j].0@,
        forall|i: int| 0 <= i < entries.len() ==> keys_unique(#[trigger] entries[i].1),
        forall|i: int| 0 <= i < entries.len() ==> !seen.contains(#[trigger] entries[i].0@),
        input_in_reach(s),
    ensures
        spec_entries_end(s, cur, seen) == Some(lend + 1),
    decreases entries,
{
    if entries.len() == 0 {
        assert(cur == lend);
    } else {
        lemma_dict_encoding_cons(entries);
        let de = dict_encoding(entries);
        let k0 = entries[0].0@;
        let se = str_encoding(k0);
        let e0 = encoding(entries[0].1);
        lemma_dec_digits_len(k0.len());
        lemma_region_sub(s, cur, de, 0, se.len() as int);
        assert(de.subrange(0, se.len() as int) =~= se);
        lemma_str_complete(s, cur, k0);
        let kend = cur + se.len();
        let cs = kend - k0.len();
        lemma_region_sub(s, cur, de, se.len() - k0.len() as int, se.len() as int);
        assert(de.subrange(se.len() - k0.len() as int, se.len() as int) =~= k0);
        assert(s.subrange(cs, kend as int) == k0);
        assert(!seen.contains(k0));
        lemma_region_sub(s, cur, de, se.len() as int, se.len() + e0.len() as int);
        assert(de.subrange(se.len() as int, se.len() + e0.len() as int) =~= e0);
        assert(decreases_to!(entries => entries[0]));
        assert(decreases_to!(entries[0] => entries[0].1));
        lemma_decode_complete(s, kend, entries[0].1);
        let rest = entries.drop_first();
        lemma_region_sub(s, cur, de, se.len() + e0.len() as int, de.len() as int);
        assert(de.subrange(se.len() + e0.len() as int, de.len() as int) =~= dict_encoding(rest));
        assert(forall|i: int|
            0 <= i < rest.len() ==> !seen.insert(k0).contains(#[trigger] rest[i].0@));
        lemma_entries_complete(s, kend + e0.len(), rest, lend, seen.insert(k0));
    }
}

/// The same observable structure: equal integers, equal byte strings,
/// lists alike elementwise, dictionaries alike entry by entry.
pub open spec fn same_shape(a: Bencode, b: Bencode) -> bool
    decreases a,
{
    match (a, b) {
        (Bencode::Int(x), Bencode::Int(y)) => x == y,
        (Bencode::Bytes(x), Bencode::Bytes(y)) => x@ == y@,
        (Bencode::List(x), Bencode::List(y)) => x@.len() == y@.len() && (forall|i: int|
            0 <= i < x@.len() ==> same_shape(#[trigger] x@[i], y@[i])),
        (Bencode::Dict(x), Bencode::Dict(y)) => x@.len() == y@.len() && (forall|i: int|
            0 <= i < x@.len() ==> (#[trigger] x@[i].0@) == y@[i].0@ && same_shape(
                x@[i].1,
                y@[i].1,
            )),
        _ => false,
    }
}

/// Two byte strings encoded at the same position spell the same string:
/// the digit run before the first colon fixes the length.
proof fn lemma_str_region_inj(s: Seq<u8>, pos: int, k1: Seq<u8>, k2: Seq<u8>)
    requires
        0 <= pos,
        pos + str_encoding(k1).len() <= s.len(),
        pos + str_encoding(k2).len() <= s.len(),
        s.subrange(pos, pos + str_encoding(k1).len() as int) == str_encoding(k1),
        s.subrange(pos, pos + str_encoding(k2).len() as int) == str_encoding(k2),
    ensures
        k1 == k2,
{
    let d1 = spec_dec_digits(k1.len());
    let d2 = spec_dec_digits(k2.len());
    lemma_dec_digits_len(k1.len());
    lemma_dec_digits_len(k2.len());
    lemma_dec_digits_are_digits(k1.len());
    lemma_dec_digits_are_digits(k2.len());
    assert(d1.len() == d2.len()) by {
        if d1.len() < d2.len() {
            lemma_region_index(s, pos, str_encoding(k1), d1.len() as int);
            lemma_region_index(s, pos, str_encoding(k2), d1.len() as int);
            assert(str_encoding(k1)[d1.len() as int] == 58);
            assert(str_encoding(k2)[d1.len() as int] == d2[d1.len() as int]);
            assert(is_digit(d2[d1.len() as int]));
        }
        if d2.len() < d1.len() {
            lemma_region_index(s, pos, str_encoding(k2), d2.len() as int);
            lemma_region_index(s, pos, str_encoding(k1), d2.len() as int);
            assert(str_encoding(k2)[d2.len() as int] == 58);
            assert(str_encoding(k1)[d2.len() as int] == d1[d2.len() as int]);
            assert(is_digit(d1[d2.len() as int]));
        }
    }
    lemma_region_sub(s, pos, str_encoding(k1), 0, d1.len() as int);
    lemma_region_sub(s, pos, str_encoding(k2), 0, d2.len() as int);
    assert(str_encoding(k1).subrange(0, d1.len() as int) =~= d1);
    assert(str_encoding(k2).subrange(0, d2.len() as int) =~= d2);
    assert(d1 == d2);
    lemma_dec_digits_inj(k1.len(), k2.len());
    lemma_region_sub(s, pos, str_encoding(k1), d1.len() as int + 1, str_encoding(k1).len() as int);
    lemma_region_sub(s, pos, str_encoding(k2), d2.len() as int + 1, str_encoding(k2).len() as int);
    assert(str_encoding(k1).subrange(d1.len() as int + 1, str_encoding(k1).len() as int) =~= k1);
    assert(str_encoding(k2).subrange(d2.len() as int + 1, str_encoding(k2).len() as int) =~= k2);
}

/// Two well-formed values encoded at the same position have the same
/// length, the same bytes and the same observable structure: the decoder
/// reads back what was written.
pub proof fn lemma_encoding_inj(s: Seq<u8>, pos: int, a: Bencode, b: Bencode)
    requires
        0 <= pos,
        pos + encoding(a).len() <= s.len(),
        pos + encoding(b).len() <= s.len(),
        s.subrange(pos, pos + encoding(a).len() as int) == encoding(a),
        s.subrange(pos, pos + encoding(b).len() as int) == encoding(b),
        keys_unique(a),
        keys_unique(b),
        input_in_reach(s),
    ensures
        encoding(a) == encoding(b),
        same_shape(a, b),
    decreases a,
{
    lemma_decode_complete(s, pos, a);
    lemma_decode_complete(s, pos, b);
    assert(encoding(a).len() == encoding(b).len());
    assert(encoding(a) =~= encoding(b));
    lemma_first_byte(a);
    lemma_first_byte(b);
    lemma_region_index(s, pos, encoding(a), 0);
    lemma_region_index(s, pos, encoding(b), 0);
    match (a, b) {
        (Bencode::Int(x), Bencode::Int(y)) => {
            let dx = spec_int_digits(x as int);
            let dy = spec_int_digits(y as int);
            assert(dx.len() == dy.len());
            assert(dx =~= dy) by {
                assert forall|i: int| 0 <= i < dx.len() implies dx[i] == dy[i] by {
                    assert(encoding(a)[1 + i] == dx[i]);
                    assert(encoding(b)[1 + i] == dy[i]);
                }
            }
            lemma_int_digits_inj(x, y);
        },
        (Bencode::Bytes(x), Bencode::Bytes(y)) => {
            lemma_str_region_inj(s, pos, x@, y@);
        },
        (Bencode::List(x), Bencode::List(y)) => {
            let bx = list_encoding(x@);
            let by = list_encoding(y@);
            assert(bx.len() == by.len());
            lemma_region_sub(s, pos, encoding(a), 1, 1 + bx.len() as int);
            lemma_region_sub(s, pos, encoding(b), 1, 1 + by.len() as int);
            assert(encoding(a).subrange(1, 1 + bx.len() as int) =~= bx);
            assert(encoding(b).subrange(1, 1 + by.len() as int) =~= by);
            assert(decreases_to!(a => a->List_0));
            lemma_list_body_inj(s, pos + 1, x@, y@);
        },
        (Bencode::Dict(x), Bencode::Dict(y)) => {
            let bx = dict_encoding(x@);
            let by = dict_encoding(y@);
            assert(bx.len() == by.len());
            lemma_region_sub(s, pos, encoding(a), 1, 1 + bx.len() as int);
            lemma_region_sub(s, pos, encoding(b), 1, 1 + by.len() as int);
            assert(encoding(a).subrange(1, 1 + bx.len() as int) =~= bx);
            assert(encoding(b).subrange(1, 1 + by.len() as int) =~= by);
            assert(decreases_to!(a => a->Dict_0));
            lemma_dict_body_inj(s, pos + 1, x@, y@);
        },
        _ => {
            // mixed kinds: the first byte of the encoding differs
            assert(false);
        },
    }
}

/// Integer digit strings determine the integer, sign included.
proof fn lemma_int_digits_inj(x: i64, y: i64)
    requires
        spec_int_digits(x as int) == spec_int_digits(y as int),
    ensures
        x == y,
{
    lemma_dec_digits_len((if x >= 0 { x as int } else { -(x as int) }) as nat);
    lemma_dec_digits_len((if y >= 0 { y as int } else { -(y as int) }) as nat);
    if x >= 0 && y >= 0 {
        lemma_dec_digits_inj(x as nat, y as nat);
    } else if x < 0 && y < 0 {
        assert(spec_int_digits(x as int).drop_first() =~= spec_dec_digits((-(x as int)) as nat));
        assert(spec_int_digits(y as int).drop_first() =~= spec_dec_digits((-(y as int)) as nat));
        lemma_dec_digits_inj((-(x as int)) as nat, (-(y as int)) as nat);
    } else if x < 0 {
        lemma_dec_digits_are_digits(y as nat);
        assert(spec_int_digits(x as int)[0] == 45);
        assert(is_digit(spec_int_digits(y as int)[0]));
    } else {
        lemma_dec_digits_are_digits(x as nat);
        assert(spec_int_digits(y as int)[0] == 45);
        assert(is_digit(spec_int_digits(x as int)[0]));
    }
}

proof fn lemma_list_body_inj(s: Seq<u8>, cur: int, x: Seq<Bencode>, y: Seq<Bencode>)
    requires
        0 <= cur,
        list_encoding(x).len() == list_encoding(y).len(),
        cur + list_encoding(x).len() <= s.len(),
        s.subrange(cur, cur + list_encoding(x).len() as int) == list_encoding(x),
        s.subrange(cur, cur + list_encoding(y).len() as int) == list_encoding(y),
        forall|i: int| 0 <= i < x.len() ==> keys_unique(#[trigger] x[i]),
        forall|i: int| 0 <= i < y.len() ==> keys_unique(#[trigger] y[i]),
        input_in_reach(s),
    ensures
        x.len() == y.len(),
        forall|i: int| 0 <= i < x.len() ==> same_shape(#[trigger] x[i], y[i]),
    decreases x,
{
    if x.len() == 0 || y.len() == 0 {
        if x.len() == 0 && y.len() > 0 {
            lemma_list_encoding_cons(y);
            lemma_first_byte(y[0]);
        }
        if y.len() == 0 && x.len() > 0 {
            lemma_list_encoding_cons(x);
            lemma_first_byte(x[0]);
        }
    } else {
        lemma_list_encoding_cons(x);
        lemma_list_encoding_cons(y);
        let ex = encoding(x[0]);
        let ey = encoding(y[0]);
        lemma_region_sub(s, cur, list_encoding(x), 0, ex.len() as int);
        lemma_region_sub(s, cur, list_encoding(y), 0, ey.len() as int);
        assert(list_encoding(x).subrange(0, ex.len() as int) =~= ex);
        assert(list_encoding(y).subrange(0, ey.len() as int) =~= ey);
        assert(decreases_to!(x => x[0]));
        lemma_encoding_inj(s, cur, x[0], y[0]);
        lemma_region_sub(s, cur, list_encoding(x), ex.len() as int, list_encoding(x).len() as int);
        lemma_region_sub(s, cur, list_encoding(y), ey.len() as int, list_encoding(y).len() as int);
        assert(list_encoding(x).subrange(ex.len() as int, list_encoding(x).len() as int)
            =~= list_encoding(x.drop_first()));
        assert(list_encoding(y).subrange(ey.len() as int, list_encoding(y).len() as int)
            =~= list_encoding(y.drop_first()));
        lemma_list_body_inj(s, cur + ex.len(), x.drop_first(), y.drop_first());
        assert forall|i: int| 0 <= i < x.len() implies same_shape(#[trigger] x[i], y[i]) by {
            if i > 0 {
                assert(same_shape(x.drop_first()[i - 1], y.drop_first()[i - 1]));
            }
        }
    }
}

proof fn lemma_dict_body_inj(s: Seq<u8>, cur: int, x: Seq<(Vec<u8>, Bencode)>, y: Seq<(Vec<u8>, Bencode)>)
    requires
        0 <= cur,
        dict_encoding(x).len() == dict_encoding(y).len(),
        cur + dict_encoding(x).len() <= s.len(),
        s.subrange(cur, cur + dict_encoding(x).len() as int) == dict_encoding(x),
        s.subrange(cur, cur + dict_encoding(y).len() as int) == dict_encoding(y),
        forall|i: int| 0 <= i < x.len() ==> keys_unique(#[trigger] x[i].1),
        forall|i: int| 0 <= i < y.len() ==> keys_unique(#[trigger] y[i].1),
        input_in_reach(s),
    ensures
        x.len() == y.len(),
        forall|i: int|
            0 <= i < x.len() ==> (#[trigger] x[i].0@) == y[i].0@ && same_shape(x[i].1, y[i].1),
    decreases x,
{
    if x.len() == 0 || y.len() == 0 {
        if x.len() == 0 && y.len() > 0 {
            lemma_dict_encoding_cons(y);
            lemma_dec_digits_len(y[0].0@.len());
        }
        if y.len() == 0 && x.len() > 0 {
            lemma_dict_encoding_cons(x);
            lemma_dec_digits_len(x[0].0@.len());
        }
    } else {
        lemma_dict_encoding_cons(x);
        lemma_dict_encoding_cons(y);
        let sx = str_encoding(x[0].0@);
        let sy = str_encoding(y[0].0@);
        lemma_region_sub(s, cur, dict_encoding(x), 0, sx.len() as int);
        lemma_region_sub(s, cur, dict_encoding(y), 0, sy.len() as int);
        assert(dict_encoding(x).subrange(0, sx.len() as int) =~= sx);
        assert(dict_encoding(y).subrange(0, sy.len() as int) =~= sy);
        lemma_str_region_inj(s, cur, x[0].0@, y[0].0@);
        let kend = cur + sx.len();
        let ex = encoding(x[0].1);
        let ey = encoding(y[0].1);
        lemma_region_sub(s, cur, dict_encoding(x), sx.len() as int, sx.len() + ex.len() as int);
        lemma_region_sub(s, cur, dict_encoding(y), sy.len() as int, sy.len() + ey.len() as int);
        assert(dict_encoding(x).subrange(sx.len() as int, sx.len() + ex.len() as int) =~= ex);
        assert(dict_encoding(y).subrange(sy.len() as int, sy.len() + ey.len() as int) =~= ey);
        assert(decreases_to!(x => x[0]));
        assert(decreases_to!(x[0] => x[0].1));
        lemma_encoding_inj(s, kend, x[0].1, y[0].1);
        lemma_region_sub(s, cur, dict_encoding(x), sx.len() + ex.len() as int, dict_encoding(x).len() as int);
        lemma_region_sub(s, cur, dict_encoding(y), sy.len() + ey.len() as int, dict_encoding(y).len() as int);
        assert(dict_encoding(x).subrange(sx.len() + ex.len() as int, dict_encoding(x).len() as int)
            =~= dict_encoding(x.drop_first()));
        assert(dict_encoding(y).subrange(sy.len() + ey.len() as int, dict_encoding(y).len() as int)
            =~= dict_encoding(y.drop_first()));
        let xt = x.drop_first();
        let yt = y.drop_first();
        assert forall|i: int| 0 <= i < xt.len() implies keys_unique(#[trigger] xt[i].1) by {
            assert(xt[i] == x[i + 1]);
            assert(keys_unique(x[i + 1].1));
        }
        assert forall|i: int| 0 <= i < yt.len() implies keys_unique(#[trigger] yt[i].1) by {
            assert(yt[i] == y[i + 1]);
            assert(keys_unique(y[i + 1].1));
        }
        lemma_dict_body_inj(s, cur + sx.len() + ex.len(), xt, yt);
        assert forall|i: int| 0 <= i < x.len() implies (#[trigger] x[i].0@) == y[i].0@
            && same_shape(x[i].1, y[i].1) by {
            if i > 0 {
                assert(xt[i - 1] == x[i]);
                assert(yt[i - 1] == y[i]);
                assert(xt[i - 1].0@ =~= yt[i - 1].0@);
                assert(same_shape(xt[i - 1].1, yt[i - 1].1));
            }
        }
    }
}

/// Dictionaries alike entry by entry answer lookups alike.
pub proof fn lemma_dict_get_shape(x: Seq<(Vec<u8>, Bencode)>, y: Seq<(Vec<u8>, Bencode)>, key: Seq<u8>)
    requires
        x.len() == y.len(),
        forall|i: int| 0 <= i < x.len() ==> (#[trigger] x[i].0@) == y[i].0@,
        forall|i: int| 0 <= i < x.len() ==> same_shape(#[trigger] x[i].1, y[i].1),
    ensures
        match (spec_dict_get(x, key), spec_dict_get(y, key)) {
            (Some(a), Some(b)) => same_shape(a, b),
            (None, None) => true,
            _ => false,
        },
    decreases x,
{
    if x.len() > 0 {
        assert(x.first() == x[0] && y.first() == y[0]);
        if x[0].0@ != key {
            let xt = x.drop_first();
            let yt = y.drop_first();
            assert forall|i: int| 0 <= i < xt.len() implies (#[trigger] xt[i].0@)
                == yt[i].0@ by {
                assert(xt[i] == x[i + 1]);
                assert(yt[i] == y[i + 1]);
                assert(x[i + 1].0@ =~= y[i + 1].0@);
            }
            assert forall|i: int| 0 <= i < xt.len() implies same_shape(
                #[trigger] xt[i].1,
                yt[i].1,
            ) by {
                assert(xt[i] == x[i + 1]);
                assert(yt[i] == y[i + 1]);
                assert(same_shape(x[i + 1].1, y[i + 1].1));
            }
            lemma_dict_get_shape(xt, yt, key);
        }
    }
}

/// Bytewise lexicographic strict comparison of two keys.

/// Bytewise lexicographic strict comparison of two keys.
fn bytes_lt(a: &Vec<u8>, b: &Vec<u8>) -> (r: bool)
    ensures
        r == key_lt(a@, b@),
{
    let n = if a.len() < b.len() {
        a.len()
    } else {
        b.len()
    };
    let mut k: usize = 0;
    proof {
        assert(a@.skip(0) =~= a@);
        assert(b@.skip(0) =~= b@);
    }
    while k < n
        invariant
            k <= n,
            n <= a@.len() && n <= b@.len(),
            key_lt(a@, b@) == key_lt(a@.skip(k as int), b@.skip(k as int)),
        decreases n - k,
    {
        if a[k] < b[k] {
            proof {
                assert(key_lt(a@.skip(k as int), b@.skip(k as int)));
            }
            return true;
        }
        if a[k] > b[k] {
            proof {
                assert(!key_lt(a@.skip(k as int), b@.skip(k as int)));
            }
            return false;
        }
        proof {
            assert(a@.skip(k as int).drop_first() =~= a@.skip(k + 1));
            assert(b@.skip(k as int).drop_first() =~= b@.skip(k + 1));
        }
        k += 1;
    }
    proof {
        if a@.len() < b@.len() {
            assert(a@.skip(k as int).len() == 0 && b@.skip(k as int).len() > 0);
        } else {
            assert(b@.skip(k as int).len() == 0);
        }
    }
    a.len() < b.len()
}

/// Appends the canonical encoding of `v` to `out`, emitting each
/// dictionary's entries in ascending bytewise key order.
fn encode_into(v: &Bencode, out: &mut Vec<u8>)
    ensures
        final(out)@ == old(out)@ + canon_encoding(*v),
    decreases *v,
{
    match v {
        Bencode::Int(i) => {
            out.push(105);
            push_int_digits(*i, out);
            out.push(101);
            assert(out@ =~= old(out)@ + canon_encoding(*v));
        },
        Bencode::Bytes(s) => {
            push_str_encoding(s, out);
        },
        Bencode::List(items) => {
            out.push(108);
            let mut j: usize = 0;
            while j < items.len()
                invariant
                    *v == Bencode::List(*items),
                    j <= items@.len(),
                    out@ == old(out)@ + seq![108u8] + canon_list(items@.subrange(0, j as int)),
                decreases items@.len() - j,
            {
                proof {
                    assert(decreases_to!(*v => v->List_0));
                    assert(v->List_0 == *items);
                    assert(decreases_to!(*items => items@));
                    assert(decreases_to!(items@ => items@[j as int]));
                }
                encode_into(&items[j], out);
                proof {
                    assert(items@.subrange(0, j + 1).drop_last() =~= items@.subrange(0, j as int));
                    assert(items@.subrange(0, j + 1).last() == items@[j as int]);
                    assert(out@ =~= old(out)@ + seq![108u8] + canon_list(
                        items@.subrange(0, j + 1),
                    ));
                }
                j += 1;
            }
            out.push(101);
            proof {
                assert(items@.subrange(0, items@.len() as int) =~= items@);
                assert(out@ =~= old(out)@ + canon_encoding(*v));
            }
        },
        Bencode::Dict(entries) => {
            out.push(100);
            // positions of the entries not yet emitted, in stored order
            let mut remaining: Vec<usize> = Vec::new();
            let mut t: usize = 0;
            while t < entries.len()
                invariant
                    remaining@.len() == t <= entries@.len(),
                    forall|k: int| 0 <= k < t ==> remaining@[k] == k,
                decreases entries@.len() - t,
            {
                remaining.push(t);
                t += 1;
            }
            let ghost mut s: Seq<(Vec<u8>, Bencode)> = entries@;
            proof {
                assert(out@ + canon_dict(s) =~= old(out)@ + seq![100u8] + canon_dict(entries@));
            }
            while remaining.len() > 0
                invariant
                    *v == Bencode::Dict(*entries),
                    s.len() == remaining@.len(),
                    forall|k: int|
                        0 <= k < remaining@.len() ==> (#[trigger] remaining@[k]) < entries@.len()
                            && entries@[remaining@[k] as int] == s[k],
                    out@ + canon_dict(s) == old(out)@ + seq![100u8] + canon_dict(entries@),
                decreases remaining@.len(),
            {
                // select the remaining entry with the smallest key
                let mut p: usize = 0;
                let mut t2: usize = 1;
                while t2 < remaining.len()
                    invariant
                        1 <= t2 <= remaining@.len(),
                        p < t2,
                        s.len() == remaining@.len(),
                        forall|k: int|
                            0 <= k < remaining@.len() ==> (#[trigger] remaining@[k])
                                < entries@.len() && entries@[remaining@[k] as int] == s[k],
                        p as int == min_key_idx(s.take(t2 as int)),
                    decreases remaining@.len() - t2,
                {
                    proof {
                        assert(s.take(t2 + 1).drop_last() =~= s.take(t2 as int));
                        assert(s.take(t2 + 1).last() == s[t2 as int]);
                    }
                    if bytes_lt(&entries[remaining[t2]].0, &entries[remaining[p]].0) {
                        p = t2;
                    }
                    t2 += 1;
                }
                proof {
                    assert(s.take(s.len() as int) =~= s);
                    lemma_min_key_idx_bounds(s);
                }
                let idx = remaining[p];
                push_str_encoding(&entries[idx].0, out);
                proof {
                    assert(decreases_to!(*v => v->Dict_0));
                    assert(v->Dict_0 == *entries);
                    assert(decreases_to!(*entries => entries@));
                    assert(decreases_to!(entries@ => entries@[idx as int]));
                    assert(decreases_to!(entries@[idx as int] => entries@[idx as int].1));
                }
                encode_into(&entries[idx].1, out);
                let ghost s_prev = s;
                let ghost rem_prev = remaining@;
                proof {
                    s = s.remove(p as int);
                }
                remaining.remove(p);
                proof {
                    s_prev.remove_ensures(p as int);
                    rem_prev.remove_ensures(p as int);
                    assert forall|k: int|
                        0 <= k < remaining@.len() implies (#[trigger] remaining@[k])
                            < entries@.len() && entries@[remaining@[k] as int] == s[k] by {
                        if k < p {
                            assert(remaining@[k] == rem_prev[k] && s[k] == s_prev[k]);
                        } else {
                            assert(remaining@[k] == rem_prev[k + 1] && s[k] == s_prev[k + 1]);
                        }
                    }
                    assert(canon_dict(s_prev) == str_encoding(s_prev[p as int].0@)
                        + canon_encoding(s_prev[p as int].1) + canon_dict(s));
                    assert(out@ + canon_dict(s) =~= old(out)@ + seq![100u8] + canon_dict(
                        entries@,
                    ));
                }
            }
            out.push(101);
            proof {
                assert(canon_dict(s) =~= Seq::<u8>::empty());
                assert(out@ =~= old(out)@ + canon_encoding(*v));
            }
        },
    }
}

/// Emits the canonical bencoding of `v`: integers as `i<digits>e` with no
/// leading zeros and no `-0`, byte strings length-prefixed and raw, and
/// every dictionary's keys in ascending bytewise order. On a value whose
/// dictionaries are already sorted this is exactly `encoding(v)`.
pub fn encode(v: &Bencode) -> (out: Vec<u8>)
    ensures
        out@ == canon_encoding(*v),
        dicts_sorted(*v) ==> out@ == encoding(*v),
{
    let mut out: Vec<u8> = Vec::new();
    encode_into(v, &mut out);
    proof {
        assert(out@ =~= canon_encoding(*v));
        if dicts_sorted(*v) {
            lemma_canon_of_sorted(*v);
        }
    }
    out
}

/// The value under `key` in a dictionary body, first match first.
pub open spec fn spec_dict_get(entries: Seq<(Vec<u8>, Bencode)>, key: Seq<u8>) -> Option<Bencode>
    decreases entries,
{
    if entries.len() == 0 {
        None
    } else if entries.first().0@ == key {
        Some(entries.first().1)
    } else {
        spec_dict_get(entries.drop_first(), key)
    }
}

/// Looks `key` up in a dictionary body, returning the first match.
pub fn dict_get<'a>(entries: &'a Vec<(Vec<u8>, Bencode)>, key: &Vec<u8>) -> (r: Option<
    &'a Bencode,
>)
    ensures
        match r {
            Some(v) => spec_dict_get(entries@, key@) == Some(*v),
            None => spec_dict_get(entries@, key@) is None,
        },
{
    let mut k: usize = 0;
    proof {
        assert(entries@.skip(0) =~= entries@);
    }
    while k < entries.len()
        invariant
            k <= entries@.len(),
            spec_dict_get(entries@, key@) == spec_dict_get(entries@.skip(k as int), key@),
        decreases entries@.len() - k,
    {
        proof {
            assert(entries@.skip(k as int).first() == entries@[k as int]);
            assert(entries@.skip(k as int).drop_first() =~= entries@.skip(k + 1));
        }
        if bytes_eq(&entries[k].0, key) {
            return Some(&entries[k].1);
        }
        k += 1;
    }
    proof {
        assert(entries@.skip(entries@.len() as int).len() == 0);
    }
    None
}

/// Bytewise equality of two byte vectors.
pub fn bytes_eq(a: &Vec<u8>, b: &Vec<u8>) -> (r: bool)
    ensures
        r == (a@ == b@),
{
    if a.len() != b.len() {
        proof {
            assert(a@.len() != b@.len());
        }
        return false;
    }
    let mut k: usize = 0;
    while k < a.len()
        invariant
            k <= a@.len(),
            a@.len() == b@.len(),
            forall|i: int| 0 <= i < k ==> a@[i] == b@[i],
        decreases a@.len() - k,
    {
        if a[k] != b[k] {
            proof {
                assert(a@[k as int] != b@[k as int]);
            }
            return false;
        }
        k += 1;
    }
    proof {
        assert(a@ =~= b@);
    }
    true
}

/// Whether some entry of `entries` already carries `key`.
fn dict_has_key(entries: &Vec<(Vec<u8>, Bencode)>, key: &Vec<u8>) -> (r: bool)
    ensures
        r == exists|i: int| 0 <= i < entries@.len() && entries@[i].0@ == key@,
{
    let mut k: usize = 0;
    while k < entries.len()
        invariant
            k <= entries@.len(),
            forall|i: int| 0 <= i < k ==> entries@[i].0@ != key@,
        decreases entries@.len() - k,
    {
        if bytes_eq(&entries[k].0, key) {
            return true;
        }
        k += 1;
    }
    false
}

/// Parses `<len>:<bytes>` at `pos`. Lengths are canonical decimal: no
/// leading zeros, so the accepted bytes are exactly the encoding of the
/// returned string.
fn decode_str_at(input: &[u8], pos: usize) -> (r: Result<(Vec<u8>, usize), CodecError>)
    requires
        pos <= input@.len(),
    ensures
        r matches Ok(p) ==> pos < p.1 <= input@.len() && str_encoding(p.0@) == input@.subrange(
            pos as int,
            p.1 as int,
        ),
        r is Ok <==> spec_str_end(input@, pos as int) is Some,
        r matches Ok(p) ==> spec_str_end(input@, pos as int) == Some(
            (p.1 - p.0@.len(), p.1 as int),
        ),
{
    if pos >= input.len() {
        return Err(CodecError::Malformed);
    }
    let first = input[pos];
    if first < 48 || first > 57 {
        return Err(CodecError::Malformed);
    }
    let mut len_val: u64 = (first - 48) as u64;
    let mut cur: usize = pos + 1;
    if first != 48 {
        while cur < input.len() && 48 <= input[cur] && input[cur] <= 57
            invariant
                pos < cur <= input@.len(),
                1 <= len_val,
                48 < input@[pos as int] <= 57,
                spec_dec_digits(len_val as nat) == input@.subrange(pos as int, cur as int),
                spec_digits_end(
                    input@,
                    pos + 1,
                    (input@[pos as int] - 48) as int,
                    str_digit_guard(),
                ) == spec_digits_end(input@, cur as int, len_val as int, str_digit_guard()),
            decreases input@.len() - cur,
        {
            if len_val >= 0x0800_0000_0000_0000 {
                proof {
                    assert(spec_digits_end(input@, cur as int, len_val as int, str_digit_guard())
                        is None);
                }
                return Err(CodecError::Malformed);
            }
            let d: u64 = (input[cur] - 48) as u64;
            let new_val: u64 = len_val * 10 + d;
            proof {
                assert(new_val / 10 == len_val && new_val % 10 == d) by (nonlinear_arith)
                    requires
                        d < 10,
                        new_val == len_val * 10 + d,
                        0 <= len_val,
                ;
                assert(spec_dec_digits(new_val as nat) == spec_dec_digits(len_val as nat).push(
                    (48 + d) as u8,
                ));
                assert(input@.subrange(pos as int, cur + 1) =~= input@.subrange(
                    pos as int,
                    cur as int,
                ).push(input@[cur as int]));
            }
            proof {
                assert(spec_digits_end(input@, cur as int, len_val as int, str_digit_guard())
                    == spec_digits_end(input@, cur + 1, new_val as int, str_digit_guard()));
            }
            len_val = new_val;
            cur += 1;
        }
        proof {
            assert(spec_digits_end(input@, cur as int, len_val as int, str_digit_guard())
                == Some((len_val as int, cur as int)));
        }
    } else {
        proof {
            assert(spec_dec_digits(0) =~= input@.subrange(pos as int, cur as int));
        }
    }
    if cur >= input.len() || input[cur] != 58 {
        proof {
            assert(spec_str_end(input@, pos as int) is None);
        }
        return Err(CodecError::Malformed);
    }
    let data_pos = cur + 1;
    if len_val > (input.len() - data_pos) as u64 {
        proof {
            assert(spec_str_end(input@, pos as int) is None);
        }
        return Err(CodecError::Malformed);
    }
    let n = len_val as usize;
    let end = data_pos + n;
    let mut s: Vec<u8> = Vec::new();
    let mut k: usize = 0;
    while k < n
        invariant
            k <= n,
            end == data_pos + n,
            end <= input@.len(),
            s@ == input@.subrange(data_pos as int, data_pos + k),
        decreases n - k,
    {
        s.push(input[data_pos + k]);
        k += 1;
        assert(s@ =~= input@.subrange(data_pos as int, data_pos + k));
    }
    proof {
        assert(s@.len() == len_val as nat);
        assert(str_encoding(s@) =~= input@.subrange(pos as int, end as int));
        assert(spec_str_end(input@, pos as int) == Some((data_pos as int, end as int)));
    }
    Ok((s, end))
}

/// Parses `i<digits>e` at `pos`. `-0` and leading zeros are malformed, and
/// the value must fit a signed 64-bit integer, so the accepted bytes are
/// exactly the encoding of the returned integer.
fn decode_int_at(input: &[u8], pos: usize) -> (r: Result<(i64, usize), CodecError>)
    requires
        pos < input@.len(),
        input@[pos as int] == 105,
    ensures
        r matches Ok(p) ==> pos < p.1 <= input@.len() && encoding(Bencode::Int(p.0))
            == input@.subrange(pos as int, p.1 as int),
        r is Ok <==> spec_int_end(input@, pos as int) is Some,
        r matches Ok(p) ==> spec_int_end(input@, pos as int) == Some(p.1 as int),
{
    let ilen = input.len();
    let mut cur: usize = pos + 1;
    if cur >= ilen {
        return Err(CodecError::Malformed);
    }
    let neg = input[cur] == 45;
    if neg {
        cur += 1;
        if cur >= input.len() {
            return Err(CodecError::Malformed);
        }
    }
    let first = input[cur];
    if first < 48 || first > 57 {
        return Err(CodecError::Malformed);
    }
    let ghost dstart = cur as int;
    let mut mag: u64 = (first - 48) as u64;
    if first == 48 {
        if neg {
            // `-0` is not canonical
            return Err(CodecError::Malformed);
        }
        cur += 1;
        proof {
            assert(spec_dec_digits(0) =~= input@.subrange(dstart, cur as int));
        }
    } else {
        cur += 1;
        proof {
            assert(spec_dec_digits(mag as nat) =~= input@.subrange(dstart, cur as int));
        }
        while cur < input.len() && 48 <= input[cur] && input[cur] <= 57
            invariant
                pos < dstart < cur <= input@.len(),
                1 <= mag,
                input@[pos as int] == 105,
                neg == (input@[pos + 1] == 45),
                dstart == if neg { pos + 2 } else { pos + 1 },
                48 < input@[dstart] <= 57,
                spec_dec_digits(mag as nat) == input@.subrange(dstart, cur as int),
                spec_digits_end(input@, dstart + 1, (input@[dstart] - 48) as int, int_digit_guard())
                    == spec_digits_end(input@, cur as int, mag as int, int_digit_guard()),
            decreases input@.len() - cur,
        {
            if mag > 0x1999_9999_9999_9998 {
                // one more digit cannot fit a 64-bit magnitude
                proof {
                    assert(spec_digits_end(input@, cur as int, mag as int, int_digit_guard())
                        is None);
                    assert(spec_int_end(input@, pos as int) is None);
                }
                return Err(CodecError::Malformed);
            }
            let d: u64 = (input[cur] - 48) as u64;
            let new_mag: u64 = mag * 10 + d;
            proof {
                assert(new_mag / 10 == mag && new_mag % 10 == d) by (nonlinear_arith)
                    requires
                        d < 10,
                        new_mag == mag * 10 + d,
                        0 <= mag,
                ;
                assert(spec_dec_digits(new_mag as nat) == spec_dec_digits(mag as nat).push(
                    (48 + d) as u8,
                ));
                assert(input@.subrange(dstart, cur + 1) =~= input@.subrange(dstart, cur as int).push(
                    input@[cur as int],
                ));
            }
            proof {
                assert(spec_digits_end(input@, cur as int, mag as int, int_digit_guard())
                    == spec_digits_end(input@, cur + 1, new_mag as int, int_digit_guard()));
            }
            mag = new_mag;
            cur += 1;
        }
        proof {
            assert(spec_digits_end(input@, cur as int, mag as int, int_digit_guard()) == Some(
                (mag as int, cur as int),
            ));
        }
    }
    if cur >= input.len() || input[cur] != 101 {
        proof {
            assert(spec_int_end(input@, pos as int) is None);
        }
        return Err(CodecError::Malformed);
    }
    let value: i64 = if neg {
        if mag > 0x8000_0000_0000_0000 {
            proof {
                assert(spec_int_end(input@, pos as int) is None);
            }
            return Err(CodecError::Malformed);
        }
        if mag == 0x8000_0000_0000_0000 {
            i64::MIN
        } else {
            -(mag as i64)
        }
    } else {
        if mag > 0x7FFF_FFFF_FFFF_FFFF {
            proof {
                assert(spec_int_end(input@, pos as int) is None);
            }
            return Err(CodecError::Malformed);
        }
        mag as i64
    };
    let end = cur + 1;
    proof {
        if neg {
            assert(-(value as int) == mag as int);
            assert(spec_int_digits(value as int) =~= seq![45u8] + spec_dec_digits(mag as nat));
        }
        assert(encoding(Bencode::Int(value)) =~= input@.subrange(pos as int, end as int));
        assert(spec_int_end(input@, pos as int) == Some(end as int));
    }
    Ok((value, end))
}

/// Parses one bencoded value at `pos`. On success the consumed bytes are
/// exactly the encoding of the returned value, and no dictionary in it has
/// duplicate keys; dictionary keys are accepted in any order.
fn decode_at(input: &[u8], pos: usize) -> (r: Result<(Bencode, usize), CodecError>)
    requires
        pos <= input@.len(),
    ensures
        r matches Ok(p) ==> pos < p.1 <= input@.len() && encoding(p.0) == input@.subrange(
            pos as int,
            p.1 as int,
        ) && keys_unique(p.0),
        r is Ok <==> spec_value_end(input@, pos as int) is Some,
        r matches Ok(p) ==> spec_value_end(input@, pos as int) == Some(p.1 as int),
    decreases input@.len() - pos,
{
    if pos >= input.len() {
        return Err(CodecError::Malformed);
    }
    let c = input[pos];
    if c == 105 {
        // i<digits>e
        match decode_int_at(input, pos) {
            Ok((i, end)) => Ok((Bencode::Int(i), end)),
            Err(e) => Err(e),
        }
    } else if c == 108 {
        // l<values>e
        let mut items: Vec<Bencode> = Vec::new();
        let mut cur: usize = pos + 1;
        loop
            invariant
                pos < cur <= input@.len(),
                input@[pos as int] == 108,
                list_encoding(items@) == input@.subrange(pos + 1, cur as int),
                forall|i: int| 0 <= i < items@.len() ==> keys_unique(#[trigger] items@[i]),
                spec_list_end(input@, pos + 1) == spec_list_end(input@, cur as int),
            ensures
                pos < cur < input@.len(),
                input@[cur as int] == 101,
                list_encoding(items@) == input@.subrange(pos + 1, cur as int),
                forall|i: int| 0 <= i < items@.len() ==> keys_unique(#[trigger] items@[i]),
                spec_list_end(input@, pos + 1) == spec_list_end(input@, cur as int),
            decreases input@.len() - cur,
        {
            if cur >= input.len() {
                proof {
                    assert(spec_list_end(input@, cur as int) is None);
                    assert(spec_value_end(input@, pos as int) is None);
                }
                return Err(CodecError::Malformed);
            }
            if input[cur] == 101 {
                break;
            }
            match decode_at(input, cur) {
                Ok((v, end)) => {
                    proof {
                        assert(items@.push(v).drop_last() =~= items@);
                        assert(list_encoding(items@.push(v)) == list_encoding(items@) + encoding(
                            v,
                        ));
                        assert(input@.subrange(pos + 1, cur as int) + input@.subrange(
                            cur as int,
                            end as int,
                        ) =~= input@.subrange(pos + 1, end as int));
                    }
                    proof {
                        assert(spec_list_end(input@, cur as int) == spec_list_end(
                            input@,
                            end as int,
                        ));
                    }
                    items.push(v);
                    cur = end;
                },
                Err(e) => {
                    proof {
                        assert(spec_value_end(input@, cur as int) is None);
                        assert(spec_list_end(input@, cur as int) is None);
                        assert(spec_value_end(input@, pos as int) is None);
                    }
                    return Err(e);
                },
            }
        }
        // input[cur] == 101 closes the list
        let end = cur + 1;
        let v = Bencode::List(items);
        proof {
            assert(encoding(v) =~= input@.subrange(pos as int, end as int));
            assert(spec_list_end(input@, cur as int) == Some(end as int));
            assert(spec_value_end(input@, pos as int) == Some(end as int));
        }
        Ok((v, end))
    } else if c == 100 {
        // d(<key><value>)*e
        let mut entries: Vec<(Vec<u8>, Bencode)> = Vec::new();
        let mut cur: usize = pos + 1;
        let ghost mut seen: Set<Seq<u8>> = Set::empty();
        loop
            invariant
                pos < cur <= input@.len(),
                input@[pos as int] == 100,
                dict_encoding(entries@) == input@.subrange(pos + 1, cur as int),
                forall|i: int, j: int|
                    0 <= i < j < entries@.len() ==> entries@[i].0@ != entries@[j].0@,
                forall|i: int| 0 <= i < entries@.len() ==> keys_unique(#[trigger] entries@[i].1),
                forall|k: Seq<u8>|
                    #[trigger] seen.contains(k) <==> exists|i: int|
                        0 <= i < entries@.len() && entries@[i].0@ == k,
                spec_entries_end(input@, pos + 1, Set::empty()) == spec_entries_end(
                    input@,
                    cur as int,
                    seen,
                ),
            ensures
                pos < cur < input@.len(),
                input@[cur as int] == 101,
                dict_encoding(entries@) == input@.subrange(pos + 1, cur as int),
                forall|i: int, j: int|
                    0 <= i < j < entries@.len() ==> entries@[i].0@ != entries@[j].0@,
                forall|i: int| 0 <= i < entries@.len() ==> keys_unique(#[trigger] entries@[i].1),
                spec_entries_end(input@, pos + 1, Set::empty()) == spec_entries_end(
                    input@,
                    cur as int,
                    seen,
                ),
            decreases input@.len() - cur,
        {
            if cur >= input.len() {
                proof {
                    assert(spec_entries_end(input@, cur as int, seen) is None);
                    assert(spec_value_end(input@, pos as int) is None);
                }
                return Err(CodecError::Malformed);
            }
            if input[cur] == 101 {
                break;
            }
            let (key, kend) = match decode_str_at(input, cur) {
                Ok(p) => p,
                Err(e) => {
                    proof {
                        assert(spec_str_end(input@, cur as int) is None);
                        assert(spec_entries_end(input@, cur as int, seen) is None);
                        assert(spec_value_end(input@, pos as int) is None);
                    }
                    return Err(e);
                },
            };
            proof {
                // the spec parser extracts the same key bytes
                lemma_region_sub(
                    input@,
                    cur as int,
                    str_encoding(key@),
                    str_encoding(key@).len() - key@.len() as int,
                    str_encoding(key@).len() as int,
                );
                assert(str_encoding(key@).subrange(
                    str_encoding(key@).len() - key@.len() as int,
                    str_encoding(key@).len() as int,
                ) =~= key@);
                assert(input@.subrange(kend - key@.len(), kend as int) == key@);
            }
            if dict_has_key(&entries, &key) {
                // duplicate keys are malformed
                proof {
                    assert(seen.contains(key@));
                    assert(spec_entries_end(input@, cur as int, seen) is None);
                    assert(spec_value_end(input@, pos as int) is None);
                }
                return Err(CodecError::Malformed);
            }
            match decode_at(input, kend) {
                Ok((v, end)) => {
                    proof {
                        let e = (key, v);
                        assert(entries@.push(e).drop_last() =~= entries@);
                        assert(dict_encoding(entries@.push(e)) == dict_encoding(entries@)
                            + str_encoding(key@) + encoding(v));
                        assert(input@.subrange(pos + 1, cur as int) + input@.subrange(
                            cur as int,
                            kend as int,
                        ) =~= input@.subrange(pos + 1, kend as int));
                        assert(input@.subrange(pos + 1, kend as int) + input@.subrange(
                            kend as int,
                            end as int,
                        ) =~= input@.subrange(pos + 1, end as int));
                    }
                    proof {
                        assert(spec_entries_end(input@, cur as int, seen) == spec_entries_end(
                            input@,
                            end as int,
                            seen.insert(key@),
                        ));
                        let ghost prev = entries@;
                        assert forall|k: Seq<u8>| #[trigger] seen.insert(key@).contains(k)
                            <==> exists|i: int|
                            0 <= i < prev.push((key, v)).len() && prev.push((key, v))[i].0@
                                == k by {
                            if seen.insert(key@).contains(k) {
                                if k == key@ {
                                    assert(prev.push((key, v))[prev.len() as int].0@ == k);
                                } else {
                                    let i = choose|i: int|
                                        0 <= i < prev.len() && prev[i].0@ == k;
                                    assert(prev.push((key, v))[i].0@ == k);
                                }
                            }
                        }
                    }
                    entries.push((key, v));
                    cur = end;
                    proof {
                        seen = seen.insert(key@);
                    }
                },
                Err(e) => {
                    proof {
                        assert(spec_value_end(input@, kend as int) is None);
                        assert(spec_entries_end(input@, cur as int, seen) is None);
                        assert(spec_value_end(input@, pos as int) is None);
                    }
                    return Err(e);
                },
            }
        }
        // input[cur] == 101 closes the dictionary
        let end = cur + 1;
        let v = Bencode::Dict(entries);
        proof {
            assert(encoding(v) =~= input@.subrange(pos as int, end as int));
            assert(spec_entries_end(input@, cur as int, seen) == Some(end as int));
            assert(spec_value_end(input@, pos as int) == Some(end as int));
        }
        Ok((v, end))
    } else if 48 <= c && c <= 57 {
        // <len>:<bytes>
        match decode_str_at(input, pos) {
            Ok((s, end)) => Ok((Bencode::Bytes(s), end)),
            Err(e) => Err(e),
        }
    } else {
        Err(CodecError::Malformed)
    }
}

/// Decodes one bencoded value at the start of the buffer, returning it
/// with the number of bytes it occupied; bytes after it are left alone.
/// It succeeds on every buffer that starts with the encoding of a
/// duplicate-free value.
pub fn decode_prefix(input: &[u8]) -> (r: Result<(Bencode, usize), CodecError>)
    ensures
        r matches Ok(p) ==> 0 < p.1 <= input@.len() && encoding(p.0) == input@.subrange(
            0,
            p.1 as int,
        ) && keys_unique(p.0),
        r is Ok <==> spec_value_end(input@, 0) is Some,
        input_in_reach(input@) && (exists|v: Bencode, n: int|
            #![trigger encoding(v), input@.subrange(0, n)]
            0 < n <= input@.len() && encoding(v) == input@.subrange(0, n) && keys_unique(v))
            ==> r is Ok,
{
    let r = decode_at(input, 0);
    proof {
        if input_in_reach(input@) && (exists|v: Bencode, n: int|
            #![trigger encoding(v), input@.subrange(0, n)]
            0 < n <= input@.len() && encoding(v) == input@.subrange(0, n) && keys_unique(v)) {
            let (v, n) = choose|v: Bencode, n: int|
                #![trigger encoding(v), input@.subrange(0, n)]
                0 < n <= input@.len() && encoding(v) == input@.subrange(0, n) && keys_unique(v);
            lemma_decode_complete(input@, 0, v);
        }
    }
    r
}

/// Decodes a whole buffer as one bencoded value. On success the input is
/// exactly the encoding of the result; a valid value followed by leftover
/// bytes is reported as `TrailingBytes`. Every buffer that is exactly the
/// encoding of a duplicate-free value is accepted.
pub fn decode(input: &[u8]) -> (r: Result<Bencode, CodecError>)
    ensures
        r matches Ok(v) ==> encoding(v) == input@ && keys_unique(v),
        r is Ok <==> spec_value_end(input@, 0) == Some(input@.len() as int),
        input_in_reach(input@) && (exists|v: Bencode|
            #[trigger] keys_unique(v) && encoding(v) == input@) ==> r is Ok,
        r == Err::<Bencode, CodecError>(CodecError::TrailingBytes) ==> exists|v: Bencode, end: int|
            0 < end < input@.len() && encoding(v) == input@.subrange(0, end) && keys_unique(v),
{
    proof {
        if input_in_reach(input@) && (exists|v: Bencode|
            #[trigger] keys_unique(v) && encoding(v) == input@) {
            let w = choose|v: Bencode| keys_unique(v) && encoding(v) == input@;
            assert(input@.subrange(0, input@.len() as int) =~= input@);
            lemma_decode_complete(input@, 0, w);
        }
    }
    match decode_at(input, 0) {
        Ok((v, end)) => {
            if end == input.len() {
                proof {
                    assert(input@.subrange(0, input@.len() as int) =~= input@);
                }
                Ok(v)
            } else {
                proof {
                    let ghost w = v;
                    assert(0 < end < input@.len() && encoding(w) == input@.subrange(0, end as int)
                        && keys_unique(w));
                }
                Err(CodecError::TrailingBytes)
            }
        },
        Err(e) => {
            if e == CodecError::TrailingBytes {
                // the value parser itself never reports trailing bytes
                Err(CodecError::Malformed)
            } else {
                Err(e)
            }
        },
    }
}


} // verus!

