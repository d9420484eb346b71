//! Torrent metadata: the info dictionary, its pieces and their hashes.
use sha1::Digest;
use sha1::Sha1;
use vstd::prelude::*;

verus! {

/// A metainfo file: where the tracker is, and the description of the
/// content.
#[derive(Debug, Clone, Default)]
pub struct Torrent {
    pub announce: String,
    pub info: Info,
}

/// The info dictionary of a single-file torrent.
#[derive(Debug, Clone, Default)]
pub struct Info {
    pub name: String,
    /// The SHA-1 hashes of all pieces, twenty bytes each, one after another.
    pub pieces: Vec<u8>,
    pub piece_length: usize,
    pub length: usize,
}

/// The SHA-1 digest of a byte string.
pub uninterp spec fn sha1_digest(data: Seq<u8>) -> Seq<u8>;

/// Calls `Sha1::digest` (through the `Digest` trait) and turns the 20-byte
/// output into an array. Claims only that the result is the SHA-1 digest
/// of the input.
#[verifier::external_body]
fn sha1(data: &[u8]) -> (digest: [u8; 20])
    ensures
        digest@ == sha1_digest(data@),
{
    Sha1::digest(data).into()
}

/// The number of pieces that the hashes describe.
pub open spec fn spec_piece_count(info: &Info) -> int {
    (info.pieces@.len() / 20) as int
}

/// There is one piece for every twenty bytes of hashes: the count is the
/// number of whole twenty-byte hashes, and every piece below it has its
/// hash inside the hash bytes (piece `i < count` ends at `20 * i + 20`,
/// at most `20 * count`).
pub proof fn lemma_one_piece_per_hash(info: &Info)
    ensures
        spec_piece_count(info) >= 0,
        spec_piece_count(info) * 20 <= info.pieces@.len() < spec_piece_count(info) * 20 + 20,
{
    let n = info.pieces@.len() as int;
    let c = spec_piece_count(info);
    assert(c * 20 <= n < c * 20 + 20) by (nonlinear_arith)
        requires
            c == n / 20,
            n >= 0,
    ;
}

/// The length of piece `index`: the piece length, except for the last
/// piece, which holds what is left of the content (a whole piece length
/// when the content fills it exactly).
pub open spec fn spec_length_of_piece(info: &Info, index: int) -> int {
    if index == spec_piece_count(info) - 1 {
        if info.length % info.piece_length == 0 {
            info.piece_length as int
        } else {
            (info.length % info.piece_length) as int
        }
    } else {
        info.piece_length as int
    }
}

impl Info {
    /// The number of pieces: one per twenty bytes of hashes.
    pub fn piece_count(&self) -> (n: usize)
        ensures
            n == spec_piece_count(self),
    {
        self.pieces.len() / 20
    }

    /// The twenty-byte hash of piece `index`.
    pub fn piece_hash(&self, index: usize) -> (hash: &[u8])
        requires
            index * 20 + 20 <= self.pieces@.len(),
        ensures
            hash@ == self.pieces@.subrange(index * 20, index * 20 + 20),
    {
        let n = self.pieces.len();
        assert(index * 20 + 20 <= n);
        vstd::slice::slice_subrange(self.pieces.as_slice(), index * 20, index * 20 + 20)
    }

    /// The info hash of a torrent: the SHA-1 digest of its bencoded info
    /// dictionary.
    pub fn info_hash(encoded_info: &[u8]) -> (hash: [u8; 20])
        ensures
            hash@ == sha1_digest(encoded_info@),
    {
        sha1(encoded_info)
    }

    /// The length of piece `index`.
    pub fn length_of_piece(&self, index: usize) -> (n: usize)
        requires
            spec_piece_count(self) > 0,
            index == spec_piece_count(self) - 1 ==> self.piece_length > 0,
        ensures
            n == spec_length_of_piece(self, index as int),
    {
        if index == self.piece_count() - 1 {
            let remainder = self.length % self.piece_length;
            if remainder == 0 {
                self.piece_length
            } else {
                remainder
            }
        } else {
            self.piece_length
        }
    }
}

/// Why a downloaded piece was refused.
#[derive(Debug, Clone, Copy, PartialEq, Eq)]
pub enum PieceError {
    HashMismatch,
}

/// Checks a downloaded piece against its expected hash.
pub fn verify_piece(piece_data: &[u8], expected_hash: &[u8]) -> (r: Result<(), PieceError>)
    ensures
        r is Ok <==> sha1_digest(piece_data@) == expected_hash@,
        r is Err ==> r == Err::<(), PieceError>(PieceError::HashMismatch),
{
    let actual = sha1(piece_data);
    if expected_hash.len() != 20 {
        return Err(PieceError::HashMismatch);
    }
    let mut i: usize = 0;
    while i < 20
        invariant
            i <= 20,
            expected_hash@.len() == 20,
            actual@ == sha1_digest(piece_data@),
            forall|k: int| 0 <= k < i ==> actual@[k] == expected_hash@[k],
        decreases 20 - i,
    {
        if actual[i] != expected_hash[i] {
            return Err(PieceError::HashMismatch);
        }
        i = i + 1;
    }
    assert(actual@ =~= expected_hash@);
    Ok(())
}


/// The sum of the lengths of the first `k` pieces.
pub open spec fn pieces_total_length(info: &Info, k: nat) -> int
    decreases k,
{
    if k == 0 {
        0
    } else {
        pieces_total_length(info, (k - 1) as nat) + spec_length_of_piece(info, k - 1)
    }
}

proof fn lemma_full_pieces_total(info: &Info, k: nat)
    requires
        k < spec_piece_count(info),
    ensures
        pieces_total_length(info, k) == k * info.piece_length,
    decreases k,
{
    if k > 0 {
        lemma_full_pieces_total(info, (k - 1) as nat);
        assert(spec_length_of_piece(info, k - 1) == info.piece_length);
        let pl = info.piece_length as int;
        let kk = k as int;
        assert(kk * pl == (kk - 1) * pl + pl) by (nonlinear_arith);
    } else {
        assert(k * info.piece_length == 0) by (nonlinear_arith)
            requires
                k == 0,
        ;
    }
}

/// The pieces of a torrent add up to its length, whenever the number of
/// hashes matches the length: all pieces but the last are full, and the
/// last holds the rest.
pub proof fn lemma_pieces_cover_length(info: &Info)
    requires
        info.piece_length > 0,
        spec_piece_count(info) > 0,
        (spec_piece_count(info) - 1) * info.piece_length < info.length,
        info.length <= spec_piece_count(info) * info.piece_length,
    ensures
        pieces_total_length(info, spec_piece_count(info) as nat) == info.length,
{
    let c = spec_piece_count(info);
    let pl = info.piece_length as int;
    let q = c - 1;
    lemma_full_pieces_total(info, q as nat);
    let r = info.length - q * pl;
    assert(c * pl == q * pl + pl) by (nonlinear_arith)
        requires
            q == c - 1,
    ;
    assert(0 < r <= pl);
    if r == pl {
        assert(info.length == (q + 1) * pl) by (nonlinear_arith)
            requires
                info.length == q * pl + pl,
        ;
        vstd::arithmetic::div_mod::lemma_mod_multiples_basic(q + 1, pl);
        assert(info.length % info.piece_length == 0);
    } else {
        vstd::arithmetic::div_mod::lemma_fundamental_div_mod_converse(info.length as int, pl, q, r);
        assert(info.length % info.piece_length == r);
    }
}

} // verus!
