//! Names that are safe to use as one component of a file path.
use sha2::Digest;
use vstd::prelude::*;
use vstd::string::*;

verus! {

/// What `Sha256::digest` of the crate `sha2` returns for a list of bytes.
pub uninterp spec fn sha256_digest(data: Seq<u8>) -> Seq<u8>;

/// Hashes `data` with `sha2::Sha256::digest`. Trusted: the hash depends on the bytes alone and has
/// 32 bytes.
#[verifier::external_body]
fn sha256(data: &[u8]) -> (r: Vec<u8>)
    ensures
        r@ == sha256_digest(data@),
        r@.len() == 32,
{
    sha2::Sha256::digest(data).to_vec()
}

/// The character that stands for a number below sixteen.
pub open spec fn hex_digit(n: int) -> char {
    if n < 10 {
        ('0' as u8 + n) as char
    } else {
        ('a' as u8 + (n - 10)) as char
    }
}

/// Two digits for each byte, the upper half first.
pub open spec fn hex_digits(data: Seq<u8>) -> Seq<char> {
    Seq::new(
        2 * data.len(),
        |i: int|
            if i % 2 == 0 {
                hex_digit(data[i / 2] as int / 16)
            } else {
                hex_digit(data[i / 2] as int % 16)
            },
    )
}

/// Writes `data` in hexadecimal with `hex::encode`. Trusted: each byte becomes its two lower-case
/// hexadecimal digits, the upper half first, in the order of the bytes.
#[verifier::external_body]
fn hex_encode(data: &[u8]) -> (r: String)
    ensures
        r@ == hex_digits(data@),
{
    hex::encode(data)
}

/// The path component for `raw`.
pub open spec fn path_component(raw: Seq<char>) -> Seq<char> {
    seq!['v', '1', '-'] + hex_digits(sha256_digest(vstd::utf8::encode_utf8(raw)))
}

/// A character that occurs in path components.
pub open spec fn component_char(c: char) -> bool {
    c == 'v' || c == '-' || '0' <= c <= '9' || 'a' <= c <= 'f'
}

/// Names a path component after a hash: the version of the naming, then the hash in hexadecimal.
pub fn component_of_digest(digest: &[u8]) -> (r: String)
    ensures
        r@ == seq!['v', '1', '-'] + hex_digits(digest@),
        forall|i: int| 0 <= i < r@.len() ==> component_char(#[trigger] r@[i]),
{
    let hex = hex_encode(digest);
    let mut r = String::from_str("v1-");
    r.append(hex.as_str());
    proof {
        reveal_strlit("v1-");
        assert("v1-"@ =~= seq!['v', '1', '-']);
        assert(r@ =~= seq!['v', '1', '-'] + hex_digits(digest@));
        assert forall|i: int| 0 <= i < r@.len() implies component_char(#[trigger] r@[i]) by {
            if i >= 3 {
                let d = digest@[(i - 3) / 2] as int;
                assert(r@[i] == hex_digits(digest@)[i - 3]);
                assert(r@[i] == hex_digit(d / 16) || r@[i] == hex_digit(d % 16));
            }
        }
    }
    r
}

/// Names a path component after the hash of `raw`, whatever characters `raw` holds. The component
/// has a fixed length and no character that a path gives a meaning to.
pub fn safe_path_component(raw: &str) -> (r: String)
    ensures
        r@ == path_component(raw@),
        r@.len() == 67,
        forall|i: int| 0 <= i < r@.len() ==> component_char(#[trigger] r@[i]),
{
    let digest = sha256(raw.as_bytes());
    component_of_digest(digest.as_slice())
}

/// Hexadecimal notation tells its bytes: two digits for each, and different bytes are written differently.
pub proof fn hexadecimal_notation_tells_its_bytes(a: Seq<u8>, b: Seq<u8>)
    requires
        hex_digits(a) == hex_digits(b),
    ensures
        a == b,
        hex_digits(a).len() == 2 * a.len(),
{
    assert(hex_digits(a).len() == 2 * a.len());
    assert(hex_digits(b).len() == 2 * b.len());
    assert forall|i: int| 0 <= i < a.len() implies a[i] == b[i] by {
        assert(hex_digits(a)[2 * i] == hex_digits(b)[2 * i]);
        assert(hex_digits(a)[2 * i + 1] == hex_digits(b)[2 * i + 1]);
        assert(hex_digits(a)[2 * i] == hex_digit(a[i] as int / 16));
        assert(hex_digits(b)[2 * i] == hex_digit(b[i] as int / 16));
        assert(hex_digits(a)[2 * i + 1] == hex_digit(a[i] as int % 16));
        assert(hex_digits(b)[2 * i + 1] == hex_digit(b[i] as int % 16));
        lemma_hex_digit(a[i] as int / 16, b[i] as int / 16);
        lemma_hex_digit(a[i] as int % 16, b[i] as int % 16);
    }
    assert(a =~= b);
}

proof fn lemma_hex_digit(m: int, n: int)
    requires
        0 <= m < 16,
        0 <= n < 16,
        hex_digit(m) == hex_digit(n),
    ensures
        m == n,
{
    assert(hex_digit(m) as u32 == if m < 10 {
        48 + m
    } else {
        87 + m
    });
    assert(hex_digit(n) as u32 == if n < 10 {
        48 + n
    } else {
        87 + n
    });
}

} // verus!
