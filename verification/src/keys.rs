//! Key derivation: a cache key is the lowercase hexadecimal SHA-256 digest of
//! the canonical identity string `"<artist1>, <artist2>, ... - <title>"`,
//! and a blob filename is the key followed by `.txt`.
use vstd::prelude::*;
use crate::bytes::push_bytes;
use sha2::Digest;
use vstd::string::StringExecFns;

verus! {

/// The SHA-256 digest of a byte sequence. The digest is a pure function of
/// the input; nothing further is assumed of its value.
pub uninterp spec fn sha256_of(data: Seq<u8>) -> Seq<u8>;

/// The lowercase hexadecimal digit for a nibble value below 16.
pub open spec fn hex_digit(n: u8) -> u8 {
    if n < 10 {
        (48 + n) as u8
    } else {
        (87 + n) as u8
    }
}

/// Lowercase hexadecimal rendering of a byte sequence: each byte becomes two
/// digits, high nibble first.
pub open spec fn spec_hex_encode(data: Seq<u8>) -> Seq<u8>
    decreases data.len(),
{
    if data.len() == 0 {
        Seq::empty()
    } else {
        seq![hex_digit(data[0] / 16), hex_digit(data[0] % 16)] + spec_hex_encode(data.drop_first())
    }
}

pub proof fn lemma_spec_hex_encode_len(data: Seq<u8>)
    ensures
        spec_hex_encode(data).len() == 2 * data.len(),
    decreases data.len(),
{
    if data.len() > 0 {
        lemma_spec_hex_encode_len(data.drop_first());
    }
}

/// Hexadecimal renderings hold only digit and lowercase-letter bytes.
pub proof fn lemma_spec_hex_encode_range(data: Seq<u8>)
    ensures
        forall|i: int|
            0 <= i < spec_hex_encode(data).len() ==> (48 <= #[trigger] spec_hex_encode(data)[i]
                <= 57 || 97 <= spec_hex_encode(data)[i] <= 102),
    decreases data.len(),
{
    if data.len() > 0 {
        lemma_spec_hex_encode_range(data.drop_first());
        let head = seq![hex_digit(data[0] / 16), hex_digit(data[0] % 16)];
        assert forall|i: int|
            0 <= i < spec_hex_encode(data).len() implies (48 <= #[trigger] spec_hex_encode(
            data,
        )[i] <= 57 || 97 <= spec_hex_encode(data)[i] <= 102) by {
            if i < 2 {
                assert(spec_hex_encode(data)[i] == head[i]);
            } else {
                assert(spec_hex_encode(data)[i] == spec_hex_encode(data.drop_first())[i - 2]);
            }
        }
    }
}

/// Relies on sha2::Sha256 through digest::Digest::digest: the digest is a
/// pure function of the input bytes and is 32 bytes long.
#[verifier::external_body]
fn sha256_digest(data: &[u8]) -> (r: Vec<u8>)
    ensures
        r@ == sha256_of(data@),
        r@.len() == 32,
{
    sha2::Sha256::digest(data).to_vec()
}

/// Relies on hex::encode: each input byte becomes two lowercase hexadecimal
/// digits, high nibble first.
#[verifier::external_body]
fn hex_encode_bytes(data: &[u8]) -> (r: Vec<u8>)
    ensures
        r@ == spec_hex_encode(data@),
{
    hex::encode(data).into_bytes()
}

/// The given byte sequences joined with the separator between consecutive
/// elements.
pub open spec fn spec_join_bytes(parts: Seq<Seq<u8>>, sep: Seq<u8>) -> Seq<u8>
    decreases parts.len(),
{
    if parts.len() == 0 {
        Seq::empty()
    } else if parts.len() == 1 {
        parts[0]
    } else {
        parts[0] + sep + spec_join_bytes(parts.drop_first(), sep)
    }
}

pub proof fn lemma_join_bytes_push(parts: Seq<Seq<u8>>, sep: Seq<u8>, p: Seq<u8>)
    ensures
        spec_join_bytes(parts.push(p), sep) == if parts.len() == 0 {
            p
        } else {
            (spec_join_bytes(parts, sep) + sep + p)
        },
    decreases parts.len(),
{
    if parts.len() == 0 {
        assert(spec_join_bytes(parts.push(p), sep) == parts.push(p)[0]);
    } else if parts.len() == 1 {
        assert(parts.push(p).drop_first() =~= seq![p]);
        assert(spec_join_bytes(seq![p], sep) == p);
    } else {
        lemma_join_bytes_push(parts.drop_first(), sep, p);
        assert(parts.push(p).drop_first() =~= parts.drop_first().push(p));
        assert(spec_join_bytes(parts.push(p), sep) == parts[0] + sep + spec_join_bytes(
            parts.drop_first().push(p),
            sep,
        ));
    }
}

/// The separator written between artist names: `", "`.
pub open spec fn comma_sep() -> Seq<u8> {
    seq![44u8, 32u8]
}

/// The separator written between the artist list and the title: `" - "`.
pub open spec fn dash_sep() -> Seq<u8> {
    seq![32u8, 45u8, 32u8]
}

/// The UTF-8 bytes of the canonical identity string
/// `"<artist1>, <artist2>, ... - <title>"`.
pub open spec fn canonical_of(artists: Seq<Seq<char>>, title: Seq<char>) -> Seq<u8> {
    spec_join_bytes(artists.map_values(|a: Seq<char>| vstd::utf8::encode_utf8(a)), comma_sep())
        + dash_sep() + vstd::utf8::encode_utf8(title)
}

/// The cache key for an (artists, title) identity: the lowercase hexadecimal
/// SHA-256 digest of the canonical identity string.
pub open spec fn key_of(artists: Seq<Seq<char>>, title: Seq<char>) -> Seq<u8> {
    spec_hex_encode(sha256_of(canonical_of(artists, title)))
}

/// The blob filename for a key: the key followed by `".txt"`.
pub open spec fn filename_of(key: Seq<u8>) -> Seq<u8> {
    key + seq![46u8, 116u8, 120u8, 116u8]
}

/// Derives the cache key for the given artists and title: the lowercase
/// hexadecimal SHA-256 digest, 64 bytes long, of the canonical identity
/// string. Identical inputs always yield the identical key.
pub fn generate_key(artists: &Vec<String>, title: &str) -> (r: Vec<u8>)
    ensures
        r@ == key_of(artists.deep_view(), title@),
        r@.len() == 64,
{
    let ghost parts: Seq<Seq<u8>> = artists.deep_view().map_values(
        |a: Seq<char>| vstd::utf8::encode_utf8(a),
    );
    let mut buf: Vec<u8> = Vec::new();
    let mut i: usize = 0;
    while i < artists.len()
        invariant
            i <= artists.len(),
            parts == artists.deep_view().map_values(
                |a: Seq<char>| vstd::utf8::encode_utf8(a),
            ),
            parts.len() == artists.len(),
            buf@ == spec_join_bytes(parts.take(i as int), comma_sep()),
        decreases artists.len() - i,
    {
        if i > 0 {
            buf.push(44);
            buf.push(32);
        }
        push_bytes(&mut buf, artists[i].as_str().as_bytes());
        proof {
            assert(parts[i as int] == vstd::utf8::encode_utf8(artists.deep_view()[i as int]));
            assert(artists.deep_view()[i as int] == artists[i as int]@);
            lemma_join_bytes_push(parts.take(i as int), comma_sep(), parts[i as int]);
            assert(parts.take(i as int).push(parts[i as int]) =~= parts.take(i + 1));
            if i == 0 {
                assert(buf@ =~= spec_join_bytes(parts.take(i + 1), comma_sep()));
            } else {
                assert(buf@ =~= spec_join_bytes(parts.take(i as int), comma_sep()) + comma_sep()
                    + parts[i as int]);
            }
        }
        i = i + 1;
    }
    proof {
        assert(parts.take(i as int) =~= parts);
    }
    buf.push(32);
    buf.push(45);
    buf.push(32);
    push_bytes(&mut buf, title.as_bytes());
    proof {
        assert(buf@ =~= canonical_of(artists.deep_view(), title@));
    }
    let digest = sha256_digest(buf.as_slice());
    let key = hex_encode_bytes(digest.as_slice());
    proof {
        lemma_spec_hex_encode_len(digest@);
    }
    key
}

/// The blob filename for a key: the key followed by `".txt"`.
pub fn generate_filename(key: &Vec<u8>) -> (r: Vec<u8>)
    ensures
        r@ == filename_of(key@),
{
    let mut r: Vec<u8> = Vec::new();
    push_bytes(&mut r, key.as_slice());
    r.push(46);
    r.push(116);
    r.push(120);
    r.push(116);
    proof {
        assert(r@ =~= filename_of(key@));
    }
    r
}

/// The path of the persisted index file inside the given cache directory.
pub fn get_index_path(cache_dir: &str) -> (r: String)
    ensures
        r@ == cache_dir@ + "/index.json"@,
{
    let mut r = cache_dir.to_owned();
    r.append("/index.json");
    r
}

/// Relies on std::time::SystemTime::now: seconds since the Unix epoch, or
/// zero should the clock read earlier than the epoch. No contract is stated,
/// as the clock's value is not a function of the arguments.
#[verifier::external_body]
pub fn get_current_timestamp() -> u64 {
    std::time::SystemTime::now()
        .duration_since(std::time::UNIX_EPOCH)
        .unwrap_or_default()
        .as_secs()
}

} // verus!
