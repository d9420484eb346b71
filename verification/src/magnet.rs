//! Magnet links: the info hash, display name and tracker they carry.
use crate::common::url_decodable;
use crate::common::url_decode;
use crate::common::is_url_decodable;
use crate::common::str_to_chars;
use crate::common::url_decoded;
use crate::common::utf8_lossy;
use crate::common::hex_value;
use crate::common::is_hex_digit_byte;
use crate::common::hex_digit_byte_value;
use vstd::prelude::*;
use vstd::string::StringSliceAdditionalSpecFns;
use vstd::utf8::encode_utf8;

verus! {

/// The parts of a magnet link that a download needs.
#[derive(Debug, Clone)]
pub struct MagnetLink {
    /// The info hash as written in the link (after `urn:btih:`).
    pub info_hash: String,
    /// The display name (`dn`), percent-decoded.
    pub display_name: Option<String>,
    /// The tracker URL (`tr`), percent-decoded.
    pub tracker_url: Option<String>,
}

/// Why a magnet link was refused.
#[derive(Debug, Clone, Copy, PartialEq, Eq)]
pub enum MagnetError {
    /// The link does not start with `magnet:?`.
    NotMagnetLink,
    /// A parameter has no `=`.
    MalformedParameter,
    /// The `xt` parameter is not a BitTorrent info hash (`urn:btih:`).
    UnsupportedXtFormat,
    /// No `xt` parameter.
    MissingInfoHash,
    /// The info hash is not forty hexadecimal digits.
    InvalidInfoHash,
}

/// The parameters read so far, as plain values.
pub struct MagnetFields {
    pub info_hash: Option<Seq<char>>,
    pub display_name: Option<Seq<char>>,
    pub tracker_url: Option<Seq<char>>,
}

/// The characters that open every magnet link.
pub open spec fn magnet_prefix() -> Seq<char> {
    seq!['m', 'a', 'g', 'n', 'e', 't', ':', '?']
}

/// The prefix of an `xt` value that names a BitTorrent info hash.
pub open spec fn btih_prefix() -> Seq<char> {
    seq!['u', 'r', 'n', ':', 'b', 't', 'i', 'h', ':']
}

/// The position of the first `c` in `s`, if any.
pub open spec fn first_index_of(s: Seq<char>, c: char) -> Option<int>
    decreases s.len(),
{
    if s.len() == 0 {
        None
    } else if s[0] == c {
        Some(0)
    } else {
        match first_index_of(s.drop_first(), c) {
            Some(k) => Some(k + 1),
            None => None,
        }
    }
}

/// `first_index_of` finds the first occurrence: the character there is
/// `c` and none before it is; and it finds nothing exactly when `c` does not
/// occur.
pub proof fn lemma_first_index_of_is_first(s: Seq<char>, c: char)
    ensures
        first_index_of(s, c) matches Some(k) ==> 0 <= k < s.len() && s[k] == c && forall|j: int|
            0 <= j < k ==> s[j] != c,
        first_index_of(s, c) is None ==> forall|j: int| 0 <= j < s.len() ==> s[j] != c,
    decreases s.len(),
{
    if s.len() > 0 && s[0] != c {
        lemma_first_index_of_is_first(s.drop_first(), c);
        assert forall|j: int| 0 < j < s.len() implies s[j] == s.drop_first()[j - 1] by {}
    }
}

/// What percent-decoding a parameter value gives.
pub open spec fn decode_component(v: Seq<char>) -> Seq<char> {
    utf8_lossy(url_decoded(encode_utf8(v)))
}

/// Reads one `key=value` parameter into the fields: `xt` sets the info
/// hash, `dn` the display name, `tr` the tracker; other keys are ignored.
pub open spec fn apply_param(f: MagnetFields, piece: Seq<char>) -> Result<MagnetFields, MagnetError> {
    match first_index_of(piece, '=') {
        None => Err(MagnetError::MalformedParameter),
        Some(k) => {
            let key = piece.take(k);
            let value = piece.skip(k + 1);
            if key == seq!['x', 't'] {
                if value.len() >= 9 && value.take(9) == btih_prefix() {
                    Ok(MagnetFields { info_hash: Some(value.skip(9)), ..f })
                } else {
                    Err(MagnetError::UnsupportedXtFormat)
                }
            } else if key == seq!['d', 'n'] {
                Ok(MagnetFields { display_name: Some(decode_component(value)), ..f })
            } else if key == seq!['t', 'r'] {
                Ok(MagnetFields { tracker_url: Some(decode_component(value)), ..f })
            } else {
                Ok(f)
            }
        },
    }
}

/// True when reading this parameter percent-decodes only values that can
/// be decoded.
pub open spec fn param_decodable(piece: Seq<char>) -> bool {
    match first_index_of(piece, '=') {
        None => true,
        Some(k) => {
            let key = piece.take(k);
            (key == seq!['d', 'n'] || key == seq!['t', 'r']) ==> url_decodable(encode_utf8(piece.skip(k + 1)))
        },
    }
}

/// Reads the `&`-separated parameters of `q` in order, stopping at the
/// first that is refused.
pub open spec fn apply_params(f: MagnetFields, q: Seq<char>) -> Result<MagnetFields, MagnetError>
    decreases q.len(),
{
    match first_index_of(q, '&') {
        None => apply_param(f, q),
        Some(k) => {
            if 0 <= k < q.len() {
                match apply_param(f, q.take(k)) {
                    Ok(f2) => apply_params(f2, q.skip(k + 1)),
                    Err(e) => Err(e),
                }
            } else {
                Err(MagnetError::MalformedParameter)
            }
        },
    }
}

/// True when the parameter is accepted: it has an `=`, and an `xt` value
/// names a BitTorrent info hash.
pub open spec fn param_accepted(piece: Seq<char>) -> bool {
    match first_index_of(piece, '=') {
        None => false,
        Some(k) => {
            let value = piece.skip(k + 1);
            piece.take(k) == seq!['x', 't'] ==> value.len() >= 9 && value.take(9) == btih_prefix()
        },
    }
}

/// True when reading the parameters of `q` in order percent-decodes only
/// values that can be decoded.
pub open spec fn params_decodable(q: Seq<char>) -> bool
    decreases q.len(),
{
    match first_index_of(q, '&') {
        None => param_decodable(q),
        Some(k) => {
            if 0 <= k < q.len() {
                param_decodable(q.take(k)) && (param_accepted(q.take(k)) ==> params_decodable(q.skip(k + 1)))
            } else {
                true
            }
        },
    }
}

/// No parameters read yet.
pub open spec fn no_fields() -> MagnetFields {
    MagnetFields { info_hash: None, display_name: None, tracker_url: None }
}

/// What reading a magnet link gives: its parameters, once it has the
/// magnet prefix, an info hash and no refused parameter.
pub open spec fn magnet_parse(link: Seq<char>) -> Result<MagnetFields, MagnetError> {
    if link.len() >= 8 && link.take(8) == magnet_prefix() {
        match apply_params(no_fields(), link.skip(8)) {
            Ok(f) => if f.info_hash is Some {
                Ok(f)
            } else {
                Err(MagnetError::MissingInfoHash)
            },
            Err(e) => Err(e),
        }
    } else {
        Err(MagnetError::NotMagnetLink)
    }
}

/// True when reading the link never has to percent-decode a value that
/// cannot be decoded.
pub open spec fn magnet_decodable(link: Seq<char>) -> bool {
    link.len() >= 8 && link.take(8) == magnet_prefix() ==> params_decodable(link.skip(8))
}

/// The key of a parameter: the text before its first `=`, if it has one.
pub open spec fn param_key(piece: Seq<char>) -> Option<Seq<char>> {
    match first_index_of(piece, '=') {
        Some(k) => Some(piece.take(k)),
        None => None,
    }
}

/// Parameters joined with `&`, as they stand in a magnet link.
pub open spec fn join_params(ps: Seq<Seq<char>>) -> Seq<char>
    decreases ps.len(),
{
    if ps.len() <= 1 {
        if ps.len() == 1 {
            ps[0]
        } else {
            Seq::empty()
        }
    } else {
        ps[0] + seq!['&'] + join_params(ps.drop_first())
    }
}

/// Reads a list of parameters in order, stopping at the first refused.
pub open spec fn apply_param_list(f: MagnetFields, ps: Seq<Seq<char>>) -> Result<MagnetFields, MagnetError>
    decreases ps.len(),
{
    if ps.len() == 0 {
        Ok(f)
    } else {
        match apply_param(f, ps[0]) {
            Ok(g) => apply_param_list(g, ps.drop_first()),
            Err(e) => Err(e),
        }
    }
}

/// Reading a query reads its `&`-separated parameters one after another.
pub proof fn lemma_apply_params_join(f: MagnetFields, ps: Seq<Seq<char>>)
    requires
        ps.len() >= 1,
        forall|i: int, j: int| 0 <= i < ps.len() && 0 <= j < ps[i].len() ==> #[trigger] ps[i][j] != '&',
    ensures
        apply_params(f, join_params(ps)) == apply_param_list(f, ps),
    decreases ps.len(),
{
    let p0 = ps[0];
    if ps.len() == 1 {
        lemma_first_index_of(p0, '&', p0.len() as int);
        assert(ps.drop_first().len() == 0);
        match apply_param(f, p0) {
            Ok(g) => {
                assert(apply_param_list(g, ps.drop_first()) == Ok::<MagnetFields, MagnetError>(g));
            },
            Err(e) => {},
        }
    } else {
        let rest = ps.drop_first();
        let q = p0 + seq!['&'] + join_params(rest);
        assert(q[p0.len() as int] == '&');
        assert forall|j: int| 0 <= j < p0.len() implies q[j] != '&' by {
            assert(q[j] == ps[0][j]);
        }
        lemma_first_index_of(q, '&', p0.len() as int);
        assert(q.take(p0.len() as int) =~= p0);
        assert(q.skip(p0.len() as int + 1) =~= join_params(rest));
        assert forall|i: int, j: int| 0 <= i < rest.len() && 0 <= j < rest[i].len() implies #[trigger] rest[i][j]
            != '&' by {
            assert(rest[i] == ps[i + 1]);
        }
        match apply_param(f, p0) {
            Ok(g) => {
                lemma_apply_params_join(g, rest);
            },
            Err(e) => {},
        }
    }
}

/// Whether a parameter is refused does not depend on what was read before.
proof fn lemma_apply_param_accepted(f: MagnetFields, p: Seq<char>)
    ensures
        apply_param(f, p) is Ok <==> param_accepted(p),
{
}

/// The value of a parameter: the text after its first `=`.
pub open spec fn param_value(piece: Seq<char>) -> Seq<char> {
    match first_index_of(piece, '=') {
        Some(k) => piece.skip(k + 1),
        None => piece,
    }
}

/// True when no two parameters of the list have the same key.
pub open spec fn keys_distinct(ps: Seq<Seq<char>>) -> bool {
    forall|i: int, j: int| 0 <= i < j < ps.len() ==> param_key(#[trigger] ps[i]) != param_key(#[trigger] ps[j])
}

/// What reading one parameter does to each field.
proof fn lemma_apply_param_fields(f: MagnetFields, p: Seq<char>)
    ensures
        apply_param(f, p) matches Ok(g) ==> {
            &&& g.info_hash == if param_key(p) == Some(seq!['x', 't']) {
                Some(param_value(p).skip(9))
            } else {
                f.info_hash
            }
            &&& g.display_name == if param_key(p) == Some(seq!['d', 'n']) {
                Some(decode_component(param_value(p)))
            } else {
                f.display_name
            }
            &&& g.tracker_url == if param_key(p) == Some(seq!['t', 'r']) {
                Some(decode_component(param_value(p)))
            } else {
                f.tracker_url
            }
        },
{
    assert(seq!['x', 't'] != seq!['d', 'n']) by {
        assert(seq!['x', 't'][0] != seq!['d', 'n'][0]);
    }
    assert(seq!['x', 't'] != seq!['t', 'r']) by {
        assert(seq!['x', 't'][0] != seq!['t', 'r'][0]);
    }
    assert(seq!['d', 'n'] != seq!['t', 'r']) by {
        assert(seq!['d', 'n'][0] != seq!['t', 'r'][0]);
    }
}

/// Reading a list of parameters with pairwise different keys: it is
/// refused exactly when one of them is, and otherwise each field comes from
/// the parameter with its key, or stays as it was when there is none.
pub proof fn lemma_param_list_fields(f: MagnetFields, ps: Seq<Seq<char>>)
    requires
        keys_distinct(ps),
    ensures
        apply_param_list(f, ps) is Ok <==> forall|i: int| 0 <= i < ps.len() ==> param_accepted(#[trigger] ps[i]),
        apply_param_list(f, ps) matches Ok(g) ==> {
            &&& forall|i: int|
                0 <= i < ps.len() && param_key(#[trigger] ps[i]) == Some(seq!['x', 't']) ==> g.info_hash == Some(
                    param_value(ps[i]).skip(9),
                )
            &&& (forall|i: int| 0 <= i < ps.len() ==> param_key(#[trigger] ps[i]) != Some(seq!['x', 't']))
                ==> g.info_hash == f.info_hash
            &&& forall|i: int|
                0 <= i < ps.len() && param_key(#[trigger] ps[i]) == Some(seq!['d', 'n']) ==> g.display_name == Some(
                    decode_component(param_value(ps[i])),
                )
            &&& (forall|i: int| 0 <= i < ps.len() ==> param_key(#[trigger] ps[i]) != Some(seq!['d', 'n']))
                ==> g.display_name == f.display_name
            &&& forall|i: int|
                0 <= i < ps.len() && param_key(#[trigger] ps[i]) == Some(seq!['t', 'r']) ==> g.tracker_url == Some(
                    decode_component(param_value(ps[i])),
                )
            &&& (forall|i: int| 0 <= i < ps.len() ==> param_key(#[trigger] ps[i]) != Some(seq!['t', 'r']))
                ==> g.tracker_url == f.tracker_url
        },
    decreases ps.len(),
{
    if ps.len() > 0 {
        let p0 = ps[0];
        let rest = ps.drop_first();
        assert forall|i: int, j: int| 0 <= i < j < rest.len() implies param_key(#[trigger] rest[i]) != param_key(
            #[trigger] rest[j],
        ) by {
            assert(rest[i] == ps[i + 1]);
            assert(rest[j] == ps[j + 1]);
        }
        assert forall|i: int| 0 <= i < rest.len() implies param_key(#[trigger] rest[i]) != param_key(p0) by {
            assert(rest[i] == ps[i + 1]);
        }
        lemma_apply_param_accepted(f, p0);
        lemma_apply_param_fields(f, p0);
        match apply_param(f, p0) {
            Ok(g0) => {
                lemma_param_list_fields(g0, rest);
                assert((forall|i: int| 0 <= i < ps.len() ==> param_accepted(#[trigger] ps[i])) <==> (forall|i: int|
                    0 <= i < rest.len() ==> param_accepted(#[trigger] rest[i]))) by {
                    if forall|i: int| 0 <= i < rest.len() ==> param_accepted(#[trigger] rest[i]) {
                        assert forall|i: int| 0 <= i < ps.len() implies param_accepted(#[trigger] ps[i]) by {
                            if i > 0 {
                                assert(ps[i] == rest[i - 1]);
                            }
                        }
                    }
                    if forall|i: int| 0 <= i < ps.len() ==> param_accepted(#[trigger] ps[i]) {
                        assert forall|i: int| 0 <= i < rest.len() implies param_accepted(#[trigger] rest[i]) by {
                            assert(rest[i] == ps[i + 1]);
                        }
                    }
                }
                if let Ok(g) = apply_param_list(g0, rest) {
                    assert forall|i: int| 0 <= i < ps.len() && param_key(#[trigger] ps[i]) == Some(seq!['x', 't'])
                        implies g.info_hash == Some(param_value(ps[i]).skip(9)) by {
                        if i > 0 {
                            assert(ps[i] == rest[i - 1]);
                        }
                    }
                    assert forall|i: int| 0 <= i < ps.len() && param_key(#[trigger] ps[i]) == Some(seq!['d', 'n'])
                        implies g.display_name == Some(decode_component(param_value(ps[i]))) by {
                        if i > 0 {
                            assert(ps[i] == rest[i - 1]);
                        }
                    }
                    assert forall|i: int| 0 <= i < ps.len() && param_key(#[trigger] ps[i]) == Some(seq!['t', 'r'])
                        implies g.tracker_url == Some(decode_component(param_value(ps[i]))) by {
                        if i > 0 {
                            assert(ps[i] == rest[i - 1]);
                        }
                    }
                    if forall|i: int| 0 <= i < ps.len() ==> param_key(#[trigger] ps[i]) != Some(seq!['x', 't']) {
                        assert forall|i: int| 0 <= i < rest.len() implies param_key(#[trigger] rest[i]) != Some(
                            seq!['x', 't'],
                        ) by {
                            assert(rest[i] == ps[i + 1]);
                        }
                    }
                    if forall|i: int| 0 <= i < ps.len() ==> param_key(#[trigger] ps[i]) != Some(seq!['d', 'n']) {
                        assert forall|i: int| 0 <= i < rest.len() implies param_key(#[trigger] rest[i]) != Some(
                            seq!['d', 'n'],
                        ) by {
                            assert(rest[i] == ps[i + 1]);
                        }
                    }
                    if forall|i: int| 0 <= i < ps.len() ==> param_key(#[trigger] ps[i]) != Some(seq!['t', 'r']) {
                        assert forall|i: int| 0 <= i < rest.len() implies param_key(#[trigger] rest[i]) != Some(
                            seq!['t', 'r'],
                        ) by {
                            assert(rest[i] == ps[i + 1]);
                        }
                    }
                    if exists|i: int| 0 <= i < rest.len() && param_key(#[trigger] rest[i]) == Some(seq!['x', 't']) {
                        let i = choose|i: int| 0 <= i < rest.len() && param_key(#[trigger] rest[i]) == Some(seq!['x', 't']);
                        assert(param_key(p0) != Some(seq!['x', 't']));
                    }
                    if exists|i: int| 0 <= i < rest.len() && param_key(#[trigger] rest[i]) == Some(seq!['d', 'n']) {
                        let i = choose|i: int| 0 <= i < rest.len() && param_key(#[trigger] rest[i]) == Some(seq!['d', 'n']);
                        assert(param_key(p0) != Some(seq!['d', 'n']));
                    }
                    if exists|i: int| 0 <= i < rest.len() && param_key(#[trigger] rest[i]) == Some(seq!['t', 'r']) {
                        let i = choose|i: int| 0 <= i < rest.len() && param_key(#[trigger] rest[i]) == Some(seq!['t', 'r']);
                        assert(param_key(p0) != Some(seq!['t', 'r']));
                    }
                }
            },
            Err(e) => {},
        }
    }
}

/// Reading a magnet link does not depend on the order of its parameters,
/// when no two have the same key and none holds `&`: for any permutation
/// `perm` of the parameter list, both links are refused, or both give the
/// same fields.
pub proof fn lemma_magnet_params_permutation(ps: Seq<Seq<char>>, perm: Seq<int>)
    requires
        keys_distinct(ps),
        forall|a: int, j: int| 0 <= a < ps.len() && 0 <= j < ps[a].len() ==> #[trigger] ps[a][j] != '&',
        perm.len() == ps.len(),
        forall|i: int| 0 <= i < perm.len() ==> 0 <= #[trigger] perm[i] < ps.len(),
        forall|i: int, j: int| 0 <= i < j < perm.len() ==> #[trigger] perm[i] != #[trigger] perm[j],
        forall|k: int| 0 <= k < ps.len() ==> #[trigger] perm.contains(k),
    ensures
        ({
            let qs = Seq::new(ps.len(), |i: int| ps[perm[i]]);
            let l1 = magnet_prefix() + join_params(ps);
            let l2 = magnet_prefix() + join_params(qs);
            magnet_parse(l1) is Err && magnet_parse(l2) is Err || magnet_parse(l1) == magnet_parse(l2)
        }),
{
    let n = ps.len();
    let qs = Seq::new(n, |i: int| ps[perm[i]]);
    if n == 0 {
        assert(qs =~= ps);
    } else {
        assert forall|i: int, j: int| 0 <= i < j < qs.len() implies param_key(#[trigger] qs[i]) != param_key(
            #[trigger] qs[j],
        ) by {
            assert(perm[i] != perm[j]);
            if perm[i] < perm[j] {
                assert(param_key(ps[perm[i]]) != param_key(ps[perm[j]]));
            } else {
                assert(param_key(ps[perm[j]]) != param_key(ps[perm[i]]));
            }
        }
        assert forall|a: int, j: int| 0 <= a < qs.len() && 0 <= j < qs[a].len() implies #[trigger] qs[a][j] != '&' by {
            assert(qs[a] == ps[perm[a]]);
        }
        let f = no_fields();
        lemma_apply_params_join(f, ps);
        lemma_apply_params_join(f, qs);
        lemma_param_list_fields(f, ps);
        lemma_param_list_fields(f, qs);
        let l1 = magnet_prefix() + join_params(ps);
        let l2 = magnet_prefix() + join_params(qs);
        assert(l1.take(8) =~= magnet_prefix());
        assert(l1.skip(8) =~= join_params(ps));
        assert(l2.take(8) =~= magnet_prefix());
        assert(l2.skip(8) =~= join_params(qs));
        let r1 = apply_param_list(f, ps);
        let r2 = apply_param_list(f, qs);
        // acceptance transfers both ways
        if r1 is Ok {
            assert forall|i: int| 0 <= i < qs.len() implies param_accepted(#[trigger] qs[i]) by {
                assert(param_accepted(ps[perm[i]]));
            }
        }
        if r2 is Ok {
            assert forall|k: int| 0 <= k < ps.len() implies param_accepted(#[trigger] ps[k]) by {
                assert(perm.contains(k));
                let i = choose|i: int| 0 <= i < perm.len() && #[trigger] perm[i] == k;
                assert(param_accepted(qs[i]));
            }
        }
        if r1 is Ok && r2 is Ok {
            let g1 = r1->Ok_0;
            let g2 = r2->Ok_0;
            // each field: present in one list iff present in the other, with the same value
            if exists|k: int| 0 <= k < ps.len() && param_key(#[trigger] ps[k]) == Some(seq!['x', 't']) {
                let k = choose|k: int| 0 <= k < ps.len() && param_key(#[trigger] ps[k]) == Some(seq!['x', 't']);
                assert(perm.contains(k));
                let i = choose|i: int| 0 <= i < perm.len() && #[trigger] perm[i] == k;
                assert(qs[i] == ps[k]);
                assert(g1.info_hash == g2.info_hash);
            } else {
                assert forall|i: int| 0 <= i < qs.len() implies param_key(#[trigger] qs[i]) != Some(seq!['x', 't']) by {
                    assert(qs[i] == ps[perm[i]]);
                }
            }
            if exists|k: int| 0 <= k < ps.len() && param_key(#[trigger] ps[k]) == Some(seq!['d', 'n']) {
                let k = choose|k: int| 0 <= k < ps.len() && param_key(#[trigger] ps[k]) == Some(seq!['d', 'n']);
                assert(perm.contains(k));
                let i = choose|i: int| 0 <= i < perm.len() && #[trigger] perm[i] == k;
                assert(qs[i] == ps[k]);
                assert(g1.display_name == g2.display_name);
            } else {
                assert forall|i: int| 0 <= i < qs.len() implies param_key(#[trigger] qs[i]) != Some(seq!['d', 'n']) by {
                    assert(qs[i] == ps[perm[i]]);
                }
            }
            if exists|k: int| 0 <= k < ps.len() && param_key(#[trigger] ps[k]) == Some(seq!['t', 'r']) {
                let k = choose|k: int| 0 <= k < ps.len() && param_key(#[trigger] ps[k]) == Some(seq!['t', 'r']);
                assert(perm.contains(k));
                let i = choose|i: int| 0 <= i < perm.len() && #[trigger] perm[i] == k;
                assert(qs[i] == ps[k]);
                assert(g1.tracker_url == g2.tracker_url);
            } else {
                assert forall|i: int| 0 <= i < qs.len() implies param_key(#[trigger] qs[i]) != Some(seq!['t', 'r']) by {
                    assert(qs[i] == ps[perm[i]]);
                }
            }
            assert(g1 == g2);
        }
    }
}

/// The characters of an optional string.
pub open spec fn opt_chars(o: Option<String>) -> Option<Seq<char>> {
    match o {
        Some(s) => Some(s@),
        None => None,
    }
}

/// Collects characters into a `String` (`FromIterator<&char>`).
#[verifier::external_body]
fn chars_to_string(v: &[char]) -> (s: String)
    ensures
        s@ == v@,
{
    v.iter().collect()
}

/// `first_index_of` holds exactly when `k` is the first position of `c`.
proof fn lemma_first_index_of(s: Seq<char>, c: char, k: int)
    requires
        0 <= k <= s.len(),
        forall|j: int| 0 <= j < k ==> s[j] != c,
    ensures
        k < s.len() && s[k] == c ==> first_index_of(s, c) == Some(k),
        k == s.len() ==> first_index_of(s, c) is None,
    decreases s.len(),
{
    if s.len() > 0 && k > 0 {
        lemma_first_index_of(s.drop_first(), c, k - 1);
    }
}

/// The position of the first `c` in `v` between `from` and `to`, or `to`
/// when there is none.
fn find_char(v: &Vec<char>, from: usize, to: usize, c: char) -> (r: usize)
    requires
        from <= to <= v@.len(),
    ensures
        from <= r <= to,
        r < to ==> first_index_of(v@.subrange(from as int, to as int), c) == Some(r - from),
        r == to ==> first_index_of(v@.subrange(from as int, to as int), c) is None,
{
    let mut i = from;
    while i < to && v[i] != c
        invariant
            from <= i <= to,
            to <= v@.len(),
            forall|j: int| from <= j < i ==> v@[j] != c,
        decreases to - i,
    {
        i = i + 1;
    }
    proof {
        let s = v@.subrange(from as int, to as int);
        assert(forall|j: int| 0 <= j < i - from ==> s[j] == v@[from + j]);
        lemma_first_index_of(s, c, i - from);
    }
    i
}

/// Whether the characters of `v` between `from` and `to` are `lit`.
fn range_is(v: &Vec<char>, from: usize, to: usize, lit: &[char]) -> (b: bool)
    requires
        from <= to <= v@.len(),
    ensures
        b == (v@.subrange(from as int, to as int) == lit@),
{
    if to - from != lit.len() {
        return false;
    }
    let mut i: usize = 0;
    while i < lit.len()
        invariant
            from <= to <= v@.len(),
            to - from == lit@.len(),
            i <= lit@.len(),
            forall|j: int| 0 <= j < i ==> v@[from + j] == lit@[j],
        decreases lit.len() - i,
    {
        if v[from + i] != lit[i] {
            assert(v@.subrange(from as int, to as int)[i as int] != lit@[i as int]);
            return false;
        }
        i = i + 1;
    }
    assert(v@.subrange(from as int, to as int) =~= lit@);
    true
}

/// The characters of `v` between `from` and `to`, as a string.
fn range_string(v: &Vec<char>, from: usize, to: usize) -> (s: String)
    requires
        from <= to <= v@.len(),
    ensures
        s@ == v@.subrange(from as int, to as int),
{
    chars_to_string(vstd::slice::slice_subrange(v.as_slice(), from, to))
}

/// What hexadecimal decoding makes of a byte string: one byte per two
/// digits (either case), or nothing when the length is odd or a byte is
/// not a digit.
pub open spec fn hex_decoded(s: Seq<u8>) -> Option<Seq<u8>> {
    if s.len() % 2 != 0 || exists|k: int| 0 <= k < s.len() && #[trigger] hex_value(s[k]) is None {
        None
    } else {
        Some(Seq::new(s.len() / 2, |j: int| (hex_value(s[2 * j])->0 * 16 + hex_value(s[2 * j + 1])->0) as u8))
    }
}

/// Hexadecimal decoding accepts exactly the strings of even length made
/// of hexadecimal digits in either case, and then byte `j` is the value of
/// digits `2j` and `2j + 1`, high digit first.
pub proof fn lemma_hex_decoded_meaning(s: Seq<u8>)
    ensures
        hex_decoded(s) is Some <==> s.len() % 2 == 0 && forall|k: int| 0 <= k < s.len() ==> is_hex_digit_byte(
            #[trigger] s[k],
        ),
        hex_decoded(s) matches Some(b) ==> b.len() * 2 == s.len() && forall|j: int|
            0 <= j < b.len() ==> #[trigger] b[j] == hex_digit_byte_value(s[2 * j]) * 16 + hex_digit_byte_value(
                s[2 * j + 1],
            ),
{
    let all_digits = forall|k: int| 0 <= k < s.len() ==> is_hex_digit_byte(#[trigger] s[k]);
    let none_bad = !exists|k: int| 0 <= k < s.len() && #[trigger] hex_value(s[k]) is None;
    assert(all_digits <==> none_bad) by {
        if all_digits {
            assert forall|k: int| 0 <= k < s.len() implies !(#[trigger] hex_value(s[k]) is None) by {
                assert(is_hex_digit_byte(s[k]));
            }
        }
        if none_bad {
            assert forall|k: int| 0 <= k < s.len() implies is_hex_digit_byte(#[trigger] s[k]) by {
                assert(!(hex_value(s[k]) is None));
            }
        }
    }
    if let Some(b) = hex_decoded(s) {
        assert forall|j: int| 0 <= j < b.len() implies #[trigger] b[j] == hex_digit_byte_value(s[2 * j]) * 16
            + hex_digit_byte_value(s[2 * j + 1]) by {
            assert(hex_value(s[2 * j]) is Some);
            assert(hex_value(s[2 * j + 1]) is Some);
        }
    }
}

/// Calls `hex::decode`. Claims what its source does: an odd length or a
/// byte that is not a hexadecimal digit is an error, and otherwise each
/// pair of digits gives one byte, high digit first.
#[verifier::external_body]
fn hex_decode(s: &str) -> (r: Option<Vec<u8>>)
    ensures
        r is None <==> hex_decoded(s.spec_bytes()) is None,
        r matches Some(v) ==> hex_decoded(s.spec_bytes()) == Some(v@),
{
    hex::decode(s).ok()
}

impl MagnetLink {
    /// Whether `parse` can read `link` without cutting a character apart
    /// while percent-decoding a `dn` or `tr` value.
    pub fn decodable(link: &str) -> (b: bool)
        ensures
            b == magnet_decodable(link@),
    {
        let chars = str_to_chars(link);
        let ghost l = link@;
        let prefix: [char; 8] = ['m', 'a', 'g', 'n', 'e', 't', ':', '?'];
        assert(prefix@ =~= magnet_prefix());
        if chars.len() < 8 || !range_is(&chars, 0, 8, prefix.as_slice()) {
            assert(chars.len() >= 8 ==> l.take(8) == l.subrange(0, 8));
            return true;
        }
        assert(l.take(8) =~= l.subrange(0, 8));
        assert(l.skip(8) =~= l.subrange(8, l.len() as int));
        let len = chars.len();
        let mut start: usize = 8;
        let xt: [char; 2] = ['x', 't'];
        let dn: [char; 2] = ['d', 'n'];
        let tr: [char; 2] = ['t', 'r'];
        let btih: [char; 9] = ['u', 'r', 'n', ':', 'b', 't', 'i', 'h', ':'];
        assert(xt@ =~= seq!['x', 't']);
        assert(dn@ =~= seq!['d', 'n']);
        assert(tr@ =~= seq!['t', 'r']);
        assert(btih@ =~= btih_prefix());
        loop
            invariant
                l == link@,
                chars@ == l,
                len == l.len(),
                8 <= start <= len,
                xt@ == seq!['x', 't'],
                dn@ == seq!['d', 'n'],
                tr@ == seq!['t', 'r'],
                btih@ == btih_prefix(),
                l.take(8) == magnet_prefix(),
                magnet_decodable(l) == params_decodable(l.subrange(start as int, len as int)),
            decreases len - start,
        {
            let ghost rest = l.subrange(start as int, len as int);
            let end = find_char(&chars, start, len, '&');
            let ghost piece = l.subrange(start as int, end as int);
            proof {
                assert(rest.take(end - start) =~= piece);
                if end < len {
                    assert(rest.skip(end - start + 1) =~= l.subrange(end + 1, len as int));
                } else {
                    assert(piece =~= rest);
                }
            }
            let eq = find_char(&chars, start, end, '=');
            if eq == end {
                return true;
            }
            proof {
                assert(piece.take(eq - start) =~= l.subrange(start as int, eq as int));
                assert(piece.skip(eq - start + 1) =~= l.subrange(eq + 1, end as int));
            }
            let ghost value = l.subrange(eq + 1, end as int);
            if range_is(&chars, start, eq, xt.as_slice()) {
                if !(end - (eq + 1) >= 9 && range_is(&chars, eq + 1, eq + 10, btih.as_slice())) {
                    proof {
                        if value.len() >= 9 {
                            assert(value.take(9) =~= l.subrange(eq + 1, eq + 10));
                        }
                    }
                    return true;
                }
                assert(value.take(9) =~= l.subrange(eq + 1, eq + 10));
            } else if range_is(&chars, start, eq, dn.as_slice()) || range_is(&chars, start, eq, tr.as_slice()) {
                let v = range_string(&chars, eq + 1, end);
                if !is_url_decodable(v.as_str()) {
                    return false;
                }
            }
            if end == len {
                return true;
            }
            start = end + 1;
        }
    }

    /// The info hash as twenty bytes, read from its forty hexadecimal
    /// digits.
    pub fn info_hash_bytes(&self) -> (r: Result<[u8; 20], MagnetError>)
        ensures
            match hex_decoded(encode_utf8(self.info_hash@)) {
                Some(b) => if b.len() == 20 {
                    r matches Ok(a) && a@ == b
                } else {
                    r == Err::<[u8; 20], MagnetError>(MagnetError::InvalidInfoHash)
                },
                None => r == Err::<[u8; 20], MagnetError>(MagnetError::InvalidInfoHash),
            },
    {
        match hex_decode(self.info_hash.as_str()) {
            None => Err(MagnetError::InvalidInfoHash),
            Some(v) => {
                if v.len() != 20 {
                    return Err(MagnetError::InvalidInfoHash);
                }
                let mut a: [u8; 20] = [0; 20];
                let mut i: usize = 0;
                while i < 20
                    invariant
                        v@.len() == 20,
                        i <= 20,
                        forall|k: int| 0 <= k < i ==> a@[k] == v@[k],
                    decreases 20 - i,
                {
                    a[i] = v[i];
                    i = i + 1;
                }
                assert(a@ =~= v@);
                Ok(a)
            },
        }
    }

    /// Reads a magnet link `magnet:?key=value&key=value...`: `xt` must be a
    /// BitTorrent info hash (`urn:btih:` and the hash), `dn` and `tr` are
    /// percent-decoded, other parameters are ignored, and a later parameter
    /// replaces an earlier one with the same key.
    #[verifier::rlimit(40)]
    pub fn parse(link: &str) -> (r: Result<MagnetLink, MagnetError>)
        requires
            magnet_decodable(link@),
        ensures
            match magnet_parse(link@) {
                Ok(f) => (r matches Ok(m) && Some(m.info_hash@) == f.info_hash && opt_chars(m.display_name)
                    == f.display_name && opt_chars(m.tracker_url) == f.tracker_url),
                Err(e) => r == Err::<MagnetLink, MagnetError>(e),
            },
    {
        let chars = str_to_chars(link);
        let ghost l = link@;
        let prefix: [char; 8] = ['m', 'a', 'g', 'n', 'e', 't', ':', '?'];
        assert(prefix@ =~= magnet_prefix());
        if chars.len() < 8 || !range_is(&chars, 0, 8, prefix.as_slice()) {
            assert(chars.len() >= 8 ==> l.take(8) == l.subrange(0, 8));
            return Err(MagnetError::NotMagnetLink);
        }
        assert(l.take(8) =~= l.subrange(0, 8));
        let len = chars.len();
        let mut info_hash: Option<String> = None;
        let mut display_name: Option<String> = None;
        let mut tracker_url: Option<String> = None;
        let mut start: usize = 8;
        let xt: [char; 2] = ['x', 't'];
        let dn: [char; 2] = ['d', 'n'];
        let tr: [char; 2] = ['t', 'r'];
        let btih: [char; 9] = ['u', 'r', 'n', ':', 'b', 't', 'i', 'h', ':'];
        assert(xt@ =~= seq!['x', 't']);
        assert(dn@ =~= seq!['d', 'n']);
        assert(tr@ =~= seq!['t', 'r']);
        assert(btih@ =~= btih_prefix());
        loop
            invariant
                l == link@,
                chars@ == l,
                len == l.len(),
                8 <= start <= len,
                xt@ == seq!['x', 't'],
                dn@ == seq!['d', 'n'],
                tr@ == seq!['t', 'r'],
                btih@ == btih_prefix(),
                l.take(8) == magnet_prefix(),
                apply_params(no_fields(), l.skip(8)) == apply_params(
                    MagnetFields {
                        info_hash: opt_chars(info_hash),
                        display_name: opt_chars(display_name),
                        tracker_url: opt_chars(tracker_url),
                    },
                    l.subrange(start as int, len as int),
                ),
                params_decodable(l.subrange(start as int, len as int)),
            decreases len - start,
        {
            let ghost cur = MagnetFields {
                info_hash: opt_chars(info_hash),
                display_name: opt_chars(display_name),
                tracker_url: opt_chars(tracker_url),
            };
            let ghost rest = l.subrange(start as int, len as int);
            let end = find_char(&chars, start, len, '&');
            let ghost piece = l.subrange(start as int, end as int);
            proof {
                assert(rest.take(end - start) =~= piece);
                if end < len {
                    assert(rest.skip(end - start + 1) =~= l.subrange(end + 1, len as int));
                } else {
                    assert(piece =~= rest);
                }
            }
            let eq = find_char(&chars, start, end, '=');
            if eq == end {
                assert(apply_param(cur, piece) == Err::<MagnetFields, MagnetError>(MagnetError::MalformedParameter));
                assert(apply_params(cur, rest) == Err::<MagnetFields, MagnetError>(MagnetError::MalformedParameter));
                assert(magnet_parse(l) == Err::<MagnetFields, MagnetError>(MagnetError::MalformedParameter));
                return Err(MagnetError::MalformedParameter);
            }
            proof {
                assert(piece.take(eq - start) =~= l.subrange(start as int, eq as int));
                assert(piece.skip(eq - start + 1) =~= l.subrange(eq + 1, end as int));
            }
            let ghost value = l.subrange(eq + 1, end as int);
            if range_is(&chars, start, eq, xt.as_slice()) {
                if end - (eq + 1) >= 9 && range_is(&chars, eq + 1, eq + 10, btih.as_slice()) {
                    assert(value.take(9) =~= l.subrange(eq + 1, eq + 10));
                    let h = range_string(&chars, eq + 10, end);
                    assert(value.skip(9) =~= l.subrange(eq + 10, end as int));
                    info_hash = Some(h);
                } else {
                    proof {
                        if value.len() >= 9 {
                            assert(value.take(9) =~= l.subrange(eq + 1, eq + 10));
                        }
                    }
                    return Err(MagnetError::UnsupportedXtFormat);
                }
            } else if range_is(&chars, start, eq, dn.as_slice()) {
                let v = range_string(&chars, eq + 1, end);
                display_name = Some(url_decode(v.as_str()));
            } else if range_is(&chars, start, eq, tr.as_slice()) {
                let v = range_string(&chars, eq + 1, end);
                tracker_url = Some(url_decode(v.as_str()));
            }
            if end == len {
                let ghost fin = MagnetFields {
                    info_hash: opt_chars(info_hash),
                    display_name: opt_chars(display_name),
                    tracker_url: opt_chars(tracker_url),
                };
                assert(apply_params(cur, rest) == Ok::<MagnetFields, MagnetError>(fin));
                match info_hash {
                    Some(h) => {
                        return Ok(MagnetLink { info_hash: h, display_name, tracker_url });
                    },
                    None => {
                        return Err(MagnetError::MissingInfoHash);
                    },
                }
            }
            start = end + 1;
        }
    }
}

} // verus!
