//! Metainfo model: `TorrentInfo` and `TorrentFile`, their canonical
//! bencoding, the info-hash, and piece geometry.
use vstd::prelude::*;

use crate::codec;
use crate::codec::{
    Bencode, CodecError, encoding, str_encoding, spec_int_digits, spec_dict_get, same_shape,
    keys_unique, input_in_reach,
};
use crate::hashing;
use crate::hashing::sha1_of;

verus! {

broadcast use vstd::std_specs::vec::group_vec_axioms, vstd::seq::group_seq_axioms;

/// A metainfo file or its embedded dictionary does not have the required
/// shape.
#[derive(Debug, Clone, Copy, PartialEq, Eq, Structural)]
pub enum MetaError {
    Codec(CodecError),
    Shape,
    Geometry,
    HashMismatch,
}

/// The `info` dictionary of a single-file torrent.
#[derive(Debug, Clone, PartialEq, Eq)]
pub struct TorrentInfo {
    pub length: u64,
    pub name: Vec<u8>,
    pub piece_length: u32,
    pub pieces: Vec<u8>,
}

/// A metainfo file: tracker URL plus the `info` dictionary.
#[derive(Debug, Clone, PartialEq, Eq)]
pub struct TorrentFile {
    pub announce: Vec<u8>,
    pub info: TorrentInfo,
}

pub open spec fn key_length() -> Seq<u8> {
    seq![108u8, 101u8, 110u8, 103u8, 116u8, 104u8]
}

pub open spec fn key_name() -> Seq<u8> {
    seq![110u8, 97u8, 109u8, 101u8]
}

pub open spec fn key_piece_length() -> Seq<u8> {
    seq![112u8, 105u8, 101u8, 99u8, 101u8, 32u8, 108u8, 101u8, 110u8, 103u8, 116u8, 104u8]
}

pub open spec fn key_pieces() -> Seq<u8> {
    seq![112u8, 105u8, 101u8, 99u8, 101u8, 115u8]
}

pub open spec fn key_announce() -> Seq<u8> {
    seq![97u8, 110u8, 110u8, 111u8, 117u8, 110u8, 99u8, 101u8]
}

pub open spec fn key_info() -> Seq<u8> {
    seq![105u8, 110u8, 102u8, 111u8]
}

/// Number of pieces, `ceil(length / piece_length)`, as recorded by the
/// length of the `pieces` table.
impl TorrentInfo {
    pub open spec fn spec_piece_count(self) -> int {
        self.pieces@.len() as int / 20
    }

    /// Well-formed geometry: a positive piece length, a pieces table of
    /// whole 20-byte digests, one digest per piece, and a total length
    /// that a bencode integer can carry.
    pub open spec fn wf(self) -> bool {
        &&& 0 < self.piece_length
        &&& self.length <= 0x7FFF_FFFF_FFFF_FFFF
        &&& self.pieces@.len() % 20 == 0
        &&& self.spec_piece_count() == (self.length as int + self.piece_length as int - 1)
            / (self.piece_length as int)
    }

    /// Real length of piece `p`: `piece_length` for all but the last
    /// piece, the remainder for the last.
    pub open spec fn spec_piece_len(self, p: int) -> int {
        if p < self.spec_piece_count() - 1 {
            self.piece_length as int
        } else {
            self.length as int - p * (self.piece_length as int)
        }
    }

    /// Sum of the real lengths of pieces `0 .. n`.
    pub open spec fn spec_len_sum(self, n: int) -> int
        decreases n,
    {
        if n <= 0 {
            0
        } else {
            self.spec_len_sum(n - 1) + self.spec_piece_len(n - 1)
        }
    }

    /// The canonical bencoding of the `info` dictionary: keys `length`,
    /// `name`, `piece length`, `pieces`, in sorted order.
    pub open spec fn spec_encoding(self) -> Seq<u8> {
        seq![100u8] + str_encoding(key_length()) + seq![105u8] + spec_int_digits(self.length as int)
            + seq![101u8] + str_encoding(key_name()) + str_encoding(self.name@) + str_encoding(
            key_piece_length(),
        ) + seq![105u8] + spec_int_digits(self.piece_length as int) + seq![101u8] + str_encoding(
            key_pieces(),
        ) + str_encoding(self.pieces@) + seq![101u8]
    }

    pub fn get_piece_num(&self) -> (n: usize)
        ensures
            n == self.spec_piece_count(),
    {
        self.pieces.len() / 20
    }

    /// Real length of piece `piece_index`, as the minimum of the piece
    /// length and what remains of the file.
    pub fn get_piece_length_real(&self, piece_index: u32) -> (r: u32)
        requires
            self.wf(),
            piece_index < self.spec_piece_count(),
        ensures
            r == self.spec_piece_len(piece_index as int),
    {
        proof {
            lemma_ceil_mul_bounds(self.length as int, self.piece_length as int);
            lemma_piece_offset_bounds(*self, piece_index as int);
        }
        let pl = self.piece_length as u64;
        let offset = piece_index as u64 * pl;
        let rest = self.length - offset;
        proof {
            let p = piece_index as int;
            let pli = self.piece_length as int;
            assert((p + 1) * pli == p * pli + pli) by (nonlinear_arith);
        }
        if pl <= rest {
            pl as u32
        } else {
            rest as u32
        }
    }

    /// The info-hash: SHA-1 of the canonical bencoding of this dictionary.
    pub fn get_hash(&self) -> (r: Vec<u8>)
        requires
            self.wf(),
        ensures
            r@ == sha1_of(self.spec_encoding()),
            r@.len() == 20,
    {
        let v = build_info_value(self);
        let bytes = codec::encode(&v);
        hashing::encode_sha1(bytes.as_slice())
    }
}

/// For `pl > 0` and `len >= 0`, `ceil(len / pl) * pl` covers `len`, and one
/// piece fewer does not.
proof fn lemma_ceil_mul_bounds(len: int, pl: int)
    requires
        0 < pl,
        0 <= len,
    ensures
        len <= ((len + pl - 1) / pl) * pl,
        len > 0 ==> (((len + pl - 1) / pl) - 1) * pl < len,
        len == 0 ==> (len + pl - 1) / pl == 0,
{
    let c = (len + pl - 1) / pl;
    assert(len <= c * pl && (len > 0 ==> (c - 1) * pl < len) && (len == 0 ==> c == 0))
        by (nonlinear_arith)
        requires
            0 < pl,
            0 <= len,
            c == (len + pl - 1) / pl,
    ;
}

/// Every piece of a well-formed torrent starts strictly inside the file
/// and has a positive real length of at most `piece_length`.
proof fn lemma_piece_offset_bounds(info: TorrentInfo, p: int)
    requires
        info.wf(),
        0 <= p < info.spec_piece_count(),
    ensures
        p * (info.piece_length as int) < info.length as int,
        0 < info.spec_piece_len(p) <= info.piece_length as int,
        p < info.spec_piece_count() - 1 ==> p * (info.piece_length as int) + (
        info.piece_length as int) <= info.length as int,
        p == info.spec_piece_count() - 1 ==> info.length as int - p * (info.piece_length as int)
            <= info.piece_length as int,
{
    let pl = info.piece_length as int;
    let len = info.length as int;
    let c = info.spec_piece_count();
    lemma_ceil_mul_bounds(len, pl);
    assert(p * pl <= (c - 1) * pl && (p < c - 1 ==> (p + 1) * pl <= (c - 1) * pl))
        by (nonlinear_arith)
        requires
            0 <= p < c,
            0 < pl,
    ;
    assert(len > 0) by {
        if len == 0 {
            assert(c == 0);
        }
    }
    assert((p + 1) * pl == p * pl + pl && c * pl == (c - 1) * pl + pl) by (nonlinear_arith);
}

/// The real piece lengths of a well-formed torrent sum to its length.
pub proof fn lemma_piece_geometry(info: TorrentInfo)
    requires
        info.wf(),
    ensures
        info.spec_len_sum(info.spec_piece_count()) == info.length,
{
    let pl = info.piece_length as int;
    let len = info.length as int;
    let c = info.spec_piece_count();
    lemma_ceil_mul_bounds(len, pl);
    if c == 0 {
        assert(len <= 0) by (nonlinear_arith)
            requires
                0 < pl,
                0 <= len,
                c == (len + pl - 1) / pl,
                c == 0,
        ;
    } else {
        lemma_len_sum_flat(info, c - 1);
        lemma_piece_offset_bounds(info, c - 1);
        assert((c - 1) * pl + info.spec_piece_len(c - 1) == len);
    }
}

/// Pieces before the last all have the full piece length, so their sum is
/// linear.
proof fn lemma_len_sum_flat(info: TorrentInfo, n: int)
    requires
        info.wf(),
        0 <= n <= info.spec_piece_count() - 1,
    ensures
        info.spec_len_sum(n) == n * (info.piece_length as int),
    decreases n,
{
    if n == 0 {
        assert(info.spec_len_sum(0) == 0);
    } else {
        lemma_len_sum_flat(info, n - 1);
        let pl = info.piece_length as int;
        assert(n * pl == (n - 1) * pl + pl) by (nonlinear_arith);
    }
}

/// The `info` dictionary as a bencode value with sorted keys.
#[verifier::rlimit(60)]
fn build_info_value(info: &TorrentInfo) -> (v: Bencode)
    requires
        info.wf(),
    ensures
        encoding(v) == info.spec_encoding(),
        codec::keys_unique(v),
        codec::dicts_sorted(v),
        v matches Bencode::Dict(es) && binds_info(es@, *info),
{
    let mut entries: Vec<(Vec<u8>, Bencode)> = Vec::new();
    let k_length: Vec<u8> = vec![108, 101, 110, 103, 116, 104];
    let k_name: Vec<u8> = vec![110, 97, 109, 101];
    let k_piece_length: Vec<u8> = vec![112, 105, 101, 99, 101, 32, 108, 101, 110, 103, 116, 104];
    let k_pieces: Vec<u8> = vec![112, 105, 101, 99, 101, 115];
    proof {
        assert(k_length@ =~= key_length());
        assert(k_name@ =~= key_name());
        assert(k_piece_length@ =~= key_piece_length());
        assert(k_pieces@ =~= key_pieces());
    }
    entries.push((k_length, Bencode::Int(info.length as i64)));
    entries.push((k_name, Bencode::Bytes(clone_bytes(&info.name))));
    entries.push((k_piece_length, Bencode::Int(info.piece_length as i64)));
    entries.push((k_pieces, Bencode::Bytes(clone_bytes(&info.pieces))));
    let v = Bencode::Dict(entries);
    proof {
        let es = v->Dict_0@;
        assert(es.len() == 4);
        let e0 = es.subrange(0, 0);
        let e1 = es.subrange(0, 1);
        let e2 = es.subrange(0, 2);
        let e3 = es.subrange(0, 3);
        assert(es.drop_last() =~= e3 && es.last() == es[3]);
        assert(e3.drop_last() =~= e2 && e3.last() == es[2]);
        assert(e2.drop_last() =~= e1 && e2.last() == es[1]);
        assert(e1.drop_last() =~= e0 && e1.last() == es[0]);
        assert(codec::dict_encoding(e0) == Seq::<u8>::empty());
        assert(codec::dict_encoding(e1) == codec::dict_encoding(e0) + str_encoding(es[0].0@)
            + encoding(es[0].1));
        assert(codec::dict_encoding(e2) == codec::dict_encoding(e1) + str_encoding(es[1].0@)
            + encoding(es[1].1));
        assert(codec::dict_encoding(e3) == codec::dict_encoding(e2) + str_encoding(es[2].0@)
            + encoding(es[2].1));
        assert(codec::dict_encoding(es) == codec::dict_encoding(e3) + str_encoding(es[3].0@)
            + encoding(es[3].1));
        assert(encoding(v) == seq![100u8] + codec::dict_encoding(es) + seq![101u8]);
        assert(encoding(es[0].1) == seq![105u8] + spec_int_digits(info.length as int)
            + seq![101u8]);
        assert(encoding(es[2].1) == seq![105u8] + spec_int_digits(info.piece_length as int)
            + seq![101u8]);
        assert(encoding(es[1].1) == str_encoding(info.name@));
        assert(encoding(es[3].1) == str_encoding(info.pieces@));
        assert(encoding(v) =~= info.spec_encoding());
        // the four keys are pairwise distinct
        assert(key_length()[0] != key_pieces()[0]);
        assert(key_length()[0] != key_name()[0]);
        assert(key_length()[0] != key_piece_length()[0]);
        assert(key_name()[0] != key_piece_length()[0]);
        assert(key_name()[0] != key_pieces()[0]);
        assert(key_piece_length().len() != key_pieces().len());
        assert(codec::keys_unique(es[0].1) && codec::keys_unique(es[1].1) && codec::keys_unique(
            es[2].1,
        ) && codec::keys_unique(es[3].1));
        assert(codec::keys_unique(v));
        // the four keys are in ascending bytewise order
        codec::lemma_key_lt_at(key_length(), key_name(), 0);
        codec::lemma_key_lt_at(key_length(), key_piece_length(), 0);
        codec::lemma_key_lt_at(key_length(), key_pieces(), 0);
        codec::lemma_key_lt_at(key_name(), key_piece_length(), 0);
        codec::lemma_key_lt_at(key_name(), key_pieces(), 0);
        codec::lemma_key_lt_at(key_piece_length(), key_pieces(), 5);
        assert(codec::dicts_sorted(es[0].1) && codec::dicts_sorted(es[1].1)
            && codec::dicts_sorted(es[2].1) && codec::dicts_sorted(es[3].1));
        assert(codec::dicts_sorted(v));
        // the four lookups find the four entries
        let s1 = es.subrange(1, 4);
        let s2 = es.subrange(2, 4);
        let s3 = es.subrange(3, 4);
        assert(es.drop_first() =~= s1 && s1.drop_first() =~= s2 && s2.drop_first() =~= s3);
        assert(es.first() == es[0] && s1.first() == es[1] && s2.first() == es[2] && s3.first()
            == es[3]);
        assert(spec_dict_get(es, key_length()) == Some(es[0].1));
        assert(spec_dict_get(es, key_name()) == spec_dict_get(s1, key_name()));
        assert(spec_dict_get(s1, key_name()) == Some(es[1].1));
        assert(spec_dict_get(es, key_piece_length()) == spec_dict_get(s1, key_piece_length()));
        assert(spec_dict_get(s1, key_piece_length()) == spec_dict_get(s2, key_piece_length()));
        assert(spec_dict_get(s2, key_piece_length()) == Some(es[2].1));
        assert(spec_dict_get(es, key_pieces()) == spec_dict_get(s1, key_pieces()));
        assert(spec_dict_get(s1, key_pieces()) == spec_dict_get(s2, key_pieces()));
        assert(spec_dict_get(s2, key_pieces()) == spec_dict_get(s3, key_pieces()));
        assert(spec_dict_get(s3, key_pieces()) == Some(es[3].1));
        assert(binds_info(es, *info));
    }
    v
}

/// A copy of a byte vector.
fn clone_bytes(b: &Vec<u8>) -> (r: Vec<u8>)
    ensures
        r@ == b@,
{
    let mut r: Vec<u8> = Vec::new();
    let mut i: usize = 0;
    while i < b.len()
        invariant
            i <= b@.len(),
            r@ == b@.subrange(0, i as int),
        decreases b@.len() - i,
    {
        r.push(b[i]);
        i += 1;
        assert(r@ =~= b@.subrange(0, i as int));
    }
    assert(r@ =~= b@);
    r
}

/// A dictionary body carries exactly the four fields of `info`.
pub open spec fn binds_info(d: Seq<(Vec<u8>, Bencode)>, info: TorrentInfo) -> bool {
    &&& spec_dict_get(d, key_length()) matches Some(Bencode::Int(n)) && n == info.length
    &&& spec_dict_get(d, key_name()) matches Some(Bencode::Bytes(a)) && a@ == info.name@
    &&& spec_dict_get(d, key_piece_length()) matches Some(Bencode::Int(p)) && p
        == info.piece_length
    &&& spec_dict_get(d, key_pieces()) matches Some(Bencode::Bytes(b)) && b@ == info.pieces@
}

/// A decoded value carries exactly the fields of `tf`: the tracker URL
/// under `announce` and the info fields under `info`.
pub open spec fn binds_file(v: Bencode, tf: TorrentFile) -> bool {
    &&& v matches Bencode::Dict(es)
    &&& spec_dict_get(v->Dict_0@, key_announce()) matches Some(Bencode::Bytes(a)) && a@
        == tf.announce@
    &&& spec_dict_get(v->Dict_0@, key_info()) matches Some(Bencode::Dict(di)) && binds_info(
        di@,
        tf.info,
    )
}

/// Parses a metainfo file. On success the whole input is the encoding of a
/// bencoded value whose `announce` and `info` fields are the returned
/// ones, and the returned geometry is well formed.
pub fn parse_metainfo(input: &[u8]) -> (r: Result<TorrentFile, MetaError>)
    ensures
        r matches Ok(tf) ==> tf.info.wf() && file_parse_ok(input@, tf),
        input_in_reach(input@) && (exists|tf: TorrentFile|
            #[trigger] file_parse_ok(input@, tf) && tf.info.wf()) ==> r is Ok,
{
    let ghost owed = input_in_reach(input@) && (exists|tf: TorrentFile|
        #[trigger] file_parse_ok(input@, tf) && tf.info.wf());
    let v = match codec::decode(input) {
        Ok(v) => v,
        Err(e) => {
            proof {
                if owed {
                    let tf0 = choose|tf: TorrentFile|
                        #[trigger] file_parse_ok(input@, tf) && tf.info.wf();
                    let w = choose|w: Bencode|
                        encoding(w) == input@ && keys_unique(w) && #[trigger] binds_file(w, tf0);
                    assert(keys_unique(w) && encoding(w) == input@);
                }
            }
            return Err(MetaError::Codec(e));
        },
    };
    proof {
        if owed {
            let tf0 = choose|tf: TorrentFile|
                #[trigger] file_parse_ok(input@, tf) && tf.info.wf();
            let w = choose|w: Bencode|
                encoding(w) == input@ && keys_unique(w) && #[trigger] binds_file(w, tf0);
            assert(input@.subrange(0, encoding(w).len() as int) =~= encoding(w));
            assert(input@.subrange(0, encoding(v).len() as int) =~= encoding(v));
            codec::lemma_encoding_inj(input@, 0, w, v);
            lemma_binds_file_shape(w, v, tf0);
            assert(binds_file(v, tf0) && tf0.info.wf());
        }
    }
    let es = match &v {
        Bencode::Dict(es) => es,
        _ => {
            return Err(MetaError::Codec(CodecError::Unexpected));
        },
    };
    let k_announce: Vec<u8> = vec![97, 110, 110, 111, 117, 110, 99, 101];
    let k_info: Vec<u8> = vec![105, 110, 102, 111];
    proof {
        assert(k_announce@ =~= key_announce());
        assert(k_info@ =~= key_info());
    }
    let announce = match codec::dict_get(es, &k_announce) {
        Some(Bencode::Bytes(a)) => clone_bytes(a),
        Some(_) => {
            return Err(MetaError::Codec(CodecError::Unexpected));
        },
        None => {
            return Err(MetaError::Shape);
        },
    };
    let di = match codec::dict_get(es, &k_info) {
        Some(Bencode::Dict(di)) => di,
        Some(_) => {
            return Err(MetaError::Codec(CodecError::Unexpected));
        },
        None => {
            return Err(MetaError::Shape);
        },
    };
    let info = match parse_info_dict(di) {
        Ok(info) => info,
        Err(e) => {
            return Err(e);
        },
    };
    let tf = TorrentFile { announce, info };
    proof {
        assert(binds_file(v, tf));
        assert(file_parse_ok(input@, tf));
    }
    Ok(tf)
}

/// Reads the four `info` fields out of a decoded dictionary body and
/// checks the piece geometry.
fn parse_info_dict(di: &Vec<(Vec<u8>, Bencode)>) -> (r: Result<TorrentInfo, MetaError>)
    ensures
        r matches Ok(info) ==> info.wf() && binds_info(di@, info),
        (exists|info: TorrentInfo| #[trigger] binds_info(di@, info) && info.wf()) ==> r is Ok,
{
    let k_length: Vec<u8> = vec![108, 101, 110, 103, 116, 104];
    let k_name: Vec<u8> = vec![110, 97, 109, 101];
    let k_piece_length: Vec<u8> = vec![112, 105, 101, 99, 101, 32, 108, 101, 110, 103, 116, 104];
    let k_pieces: Vec<u8> = vec![112, 105, 101, 99, 101, 115];
    proof {
        assert(k_length@ =~= key_length());
        assert(k_name@ =~= key_name());
        assert(k_piece_length@ =~= key_piece_length());
        assert(k_pieces@ =~= key_pieces());
    }
    let length: u64 = match codec::dict_get(di, &k_length) {
        Some(Bencode::Int(n)) => {
            if *n < 0 {
                return Err(MetaError::Geometry);
            }
            *n as u64
        },
        Some(_) => {
            return Err(MetaError::Codec(CodecError::Unexpected));
        },
        None => {
            return Err(MetaError::Shape);
        },
    };
    let name = match codec::dict_get(di, &k_name) {
        Some(Bencode::Bytes(a)) => clone_bytes(a),
        Some(_) => {
            return Err(MetaError::Codec(CodecError::Unexpected));
        },
        None => {
            return Err(MetaError::Shape);
        },
    };
    let piece_length: u32 = match codec::dict_get(di, &k_piece_length) {
        Some(Bencode::Int(p)) => {
            if *p <= 0 || *p > 0xFFFF_FFFF {
                return Err(MetaError::Geometry);
            }
            *p as u32
        },
        Some(_) => {
            return Err(MetaError::Codec(CodecError::Unexpected));
        },
        None => {
            return Err(MetaError::Shape);
        },
    };
    let pieces = match codec::dict_get(di, &k_pieces) {
        Some(Bencode::Bytes(b)) => clone_bytes(b),
        Some(_) => {
            return Err(MetaError::Codec(CodecError::Unexpected));
        },
        None => {
            return Err(MetaError::Shape);
        },
    };
    if pieces.len() % 20 != 0 {
        return Err(MetaError::Geometry);
    }
    let count = (pieces.len() / 20) as u64;
    let expected = (length + piece_length as u64 - 1) / piece_length as u64;
    if count != expected {
        return Err(MetaError::Geometry);
    }
    let info = TorrentInfo { length, name, piece_length, pieces };
    Ok(info)
}

impl TorrentFile {
    /// The canonical bencoding of a whole metainfo file: `announce`, then
    /// `info`, keys sorted.
    pub open spec fn spec_encoding(self) -> Seq<u8> {
        seq![100u8] + str_encoding(key_announce()) + str_encoding(self.announce@) + str_encoding(
            key_info(),
        ) + self.info.spec_encoding() + seq![101u8]
    }

    /// The info-hash of the file: SHA-1 over the embedded dictionary.
    pub fn get_hash(&self) -> (r: Vec<u8>)
        requires
            self.info.wf(),
        ensures
            r@ == sha1_of(self.info.spec_encoding()),
            r@.len() == 20,
    {
        self.info.get_hash()
    }

    pub fn get_piece_length_real(&self, piece_index: u32) -> (r: u32)
        requires
            self.info.wf(),
            piece_index < self.info.spec_piece_count(),
        ensures
            r == self.info.spec_piece_len(piece_index as int),
    {
        self.info.get_piece_length_real(piece_index)
    }

    pub fn get_piece_num(&self) -> (n: usize)
        ensures
            n == self.info.spec_piece_count(),
    {
        self.info.get_piece_num()
    }

    /// The announce request for this torrent: the tracker URL, the
    /// info-hash, and the caller's peer id and remaining byte count.
    pub fn track_request_url(&self, peer_id: &[u8], left: u64) -> (r: Vec<u8>)
        requires
            self.info.wf(),
        ensures
            r@ == crate::tracker::spec_track_request(
                self.announce@,
                sha1_of(self.info.spec_encoding()),
                peer_id@,
                left,
            ),
    {
        let hash = self.get_hash();
        crate::tracker::track_request_url(self.announce.as_slice(), hash.as_slice(), peer_id, left)
    }
}

/// `v` is a dictionary carrying exactly the fields of `info`.
pub open spec fn info_value_binds(v: Bencode, info: TorrentInfo) -> bool {
    v matches Bencode::Dict(di) && binds_info(di@, info)
}

/// The input is the encoding of a duplicate-free dictionary carrying
/// `info`.
pub open spec fn info_parse_ok(input: Seq<u8>, info: TorrentInfo) -> bool {
    exists|v: Bencode|
        encoding(v) == input && keys_unique(v) && #[trigger] info_value_binds(v, info)
}

/// The input is the encoding of a duplicate-free value carrying `tf`.
pub open spec fn file_parse_ok(input: Seq<u8>, tf: TorrentFile) -> bool {
    exists|v: Bencode| encoding(v) == input && keys_unique(v) && #[trigger] binds_file(v, tf)
}

/// Values alike entry by entry bind the same `info` fields.
proof fn lemma_binds_info_shape(x: Seq<(Vec<u8>, Bencode)>, y: Seq<(Vec<u8>, Bencode)>, info: TorrentInfo)
    requires
        x.len() == y.len(),
        forall|i: int| 0 <= i < x.len() ==> (#[trigger] x[i].0@) == y[i].0@,
        forall|i: int| 0 <= i < x.len() ==> same_shape(#[trigger] x[i].1, y[i].1),
        binds_info(x, info),
    ensures
        binds_info(y, info),
{
    codec::lemma_dict_get_shape(x, y, key_length());
    codec::lemma_dict_get_shape(x, y, key_name());
    codec::lemma_dict_get_shape(x, y, key_piece_length());
    codec::lemma_dict_get_shape(x, y, key_pieces());
}

/// Values with the same observable structure bind the same file fields.
proof fn lemma_binds_file_shape(a: Bencode, b: Bencode, tf: TorrentFile)
    requires
        same_shape(a, b),
        binds_file(a, tf),
    ensures
        binds_file(b, tf),
{
    let x = a->Dict_0@;
    let y = b->Dict_0@;
    assert(b is Dict);
    assert forall|i: int| 0 <= i < x.len() implies (#[trigger] x[i].0@) == y[i].0@ by {}
    assert forall|i: int| 0 <= i < x.len() implies same_shape(#[trigger] x[i].1, y[i].1) by {
        assert(x[i].0@ == y[i].0@);
    }
    codec::lemma_dict_get_shape(x, y, key_announce());
    codec::lemma_dict_get_shape(x, y, key_info());
    match (spec_dict_get(x, key_info()), spec_dict_get(y, key_info())) {
        (Some(di_a), Some(di_b)) => {
            assert(same_shape(di_a, di_b));
            assert(di_b is Dict);
            let dx = di_a->Dict_0@;
            let dy = di_b->Dict_0@;
            assert forall|i: int| 0 <= i < dx.len() implies (#[trigger] dx[i].0@)
                == dy[i].0@ by {}
            assert forall|i: int| 0 <= i < dx.len() implies same_shape(
                #[trigger] dx[i].1,
                dy[i].1,
            ) by {
                assert(dx[i].0@ == dy[i].0@);
            }
            lemma_binds_info_shape(dx, dy, tf.info);
        },
        _ => {
            assert(false);
        },
    }
}

/// Parses a bare `info` dictionary (as carried by the `ut_metadata`
/// extension) into a `TorrentInfo`.
pub fn parse_info_bytes(input: &[u8]) -> (r: Result<TorrentInfo, MetaError>)
    ensures
        r matches Ok(info) ==> info.wf() && info_parse_ok(input@, info),
        input_in_reach(input@) && (exists|info: TorrentInfo|
            #[trigger] info_parse_ok(input@, info) && info.wf()) ==> r is Ok,
{
    let ghost owed = input_in_reach(input@) && (exists|info: TorrentInfo|
        #[trigger] info_parse_ok(input@, info) && info.wf());
    let v = match codec::decode(input) {
        Ok(v) => v,
        Err(e) => {
            proof {
                if owed {
                    let info0 = choose|info: TorrentInfo|
                        #[trigger] info_parse_ok(input@, info) && info.wf();
                    let w = choose|w: Bencode|
                        encoding(w) == input@ && keys_unique(w) && #[trigger] info_value_binds(
                            w,
                            info0,
                        );
                    assert(keys_unique(w) && encoding(w) == input@);
                }
            }
            return Err(MetaError::Codec(e));
        },
    };
    proof {
        if owed {
            let info0 = choose|info: TorrentInfo|
                #[trigger] info_parse_ok(input@, info) && info.wf();
            let w = choose|w: Bencode|
                encoding(w) == input@ && keys_unique(w) && #[trigger] info_value_binds(w, info0);
            assert(input@.subrange(0, encoding(w).len() as int) =~= encoding(w));
            assert(input@.subrange(0, encoding(v).len() as int) =~= encoding(v));
            codec::lemma_encoding_inj(input@, 0, w, v);
            assert(v is Dict);
            lemma_binds_info_shape(w->Dict_0@, v->Dict_0@, info0);
            assert(binds_info(v->Dict_0@, info0) && info0.wf());
        }
    }
    let di = match &v {
        Bencode::Dict(di) => di,
        _ => {
            return Err(MetaError::Codec(CodecError::Unexpected));
        },
    };
    let info = match parse_info_dict(di) {
        Ok(info) => info,
        Err(e) => {
            return Err(e);
        },
    };
    proof {
        assert(info_value_binds(v, info));
        assert(info_parse_ok(input@, info));
    }
    Ok(info)
}

/// Rebuilds a `TorrentInfo` from metadata fetched over the extension
/// protocol, but only after the metadata's SHA-1 equals the expected
/// info-hash; mismatched metadata is rejected untrusted.
pub fn parse_metadata(input: &[u8], expected_hash: &[u8]) -> (r: Result<TorrentInfo, MetaError>)
    requires
        expected_hash@.len() == 20,
    ensures
        r is Ok ==> sha1_of(input@) == expected_hash@,
        r matches Ok(info) ==> info.wf() && info_parse_ok(input@, info),
        input_in_reach(input@) && sha1_of(input@) == expected_hash@ && (exists|info: TorrentInfo|
            #[trigger] info_parse_ok(input@, info) && info.wf()) ==> r is Ok,
{
    let digest = hashing::encode_sha1(input);
    let mut i: usize = 0;
    while i < 20
        invariant
            i <= 20,
            digest@ == sha1_of(input@),
            digest@.len() == 20,
            expected_hash@.len() == 20,
            forall|j: int| 0 <= j < i ==> digest@[j] == expected_hash@[j],
        decreases 20 - i,
    {
        if digest[i] != expected_hash[i] {
            return Err(MetaError::HashMismatch);
        }
        i += 1;
    }
    proof {
        assert(sha1_of(input@) =~= expected_hash@);
    }
    parse_info_bytes(input)
}

/// Inside the canonical encoding of a metainfo file, the bytes of the
/// `info` dictionary are exactly the canonical encoding of its `info`:
/// re-encoding a decoded `info` and hashing it therefore reproduces the
/// info-hash the file advertises.
pub proof fn lemma_info_hash_stable(tf: TorrentFile)
    ensures
        ({
            let b = tf.spec_encoding();
            let pre = 1 + str_encoding(key_announce()).len() + str_encoding(tf.announce@).len()
                + str_encoding(key_info()).len();
            tf.info.spec_encoding() == b.subrange(pre as int, b.len() - 1)
        }),
{
    let b = tf.spec_encoding();
    let pre = 1 + str_encoding(key_announce()).len() + str_encoding(tf.announce@).len()
        + str_encoding(key_info()).len();
    assert(tf.info.spec_encoding() =~= b.subrange(pre as int, b.len() - 1));
}

} // verus!
