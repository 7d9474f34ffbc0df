//! Stable identifiers: document IDs from repo-relative paths and section IDs
//! from section content, both as lowercase-hex prefixes of a SHA-256 digest.

use sha2::{Digest, Sha256};
use vstd::prelude::*;

verus! {

/// The SHA-256 digest of `data`.
pub uninterp spec fn sha256_digest(data: Seq<u8>) -> Seq<u8>;

/// Trusted: `sha2::Sha256` (`new`, `update`, `finalize`) computes the
/// SHA-256 digest of the input; the contract names that digest and states
/// that it is 32 bytes long, as the hash's output size is documented to be.
#[verifier::external_body]
fn sha256(data: &[u8]) -> (res: Vec<u8>)
    ensures
        res@ == sha256_digest(data@),
        res@.len() == 32,
{
    let mut h = Sha256::new();
    h.update(data);
    h.finalize().to_vec()
}

/// Lowercase hex digit for `v < 16`.
pub open spec fn hex_digit(v: nat) -> char {
    if v < 10 {
        (v + 48) as char
    } else {
        (v + 87) as char
    }
}

/// Whether `c` is one of `0-9a-f`.
pub open spec fn is_hex_lower(c: char) -> bool {
    ('0' <= c && c <= '9') || ('a' <= c && c <= 'f')
}

/// `n` lowercase hex digits.
pub open spec fn is_hex_id(s: Seq<char>, n: nat) -> bool {
    s.len() == n && forall|i: int| 0 <= i < s.len() ==> is_hex_lower(#[trigger] s[i])
}

/// Lowercase hex encoding, two characters per byte, high nibble first.
pub open spec fn hex_bytes(b: Seq<u8>) -> Seq<char>
    decreases b.len(),
{
    if b.len() == 0 {
        seq![]
    } else {
        hex_bytes(b.drop_last()) + seq![
            hex_digit((b.last() / 16) as nat),
            hex_digit((b.last() % 16) as nat),
        ]
    }
}

/// The first `n` hex characters of the SHA-256 digest of `data`.
pub open spec fn hex_prefix_spec(data: Seq<u8>, n: nat) -> Seq<char> {
    hex_bytes(sha256_digest(data).take(((n + 1) / 2) as int)).take(n as int)
}

/// The hex encoding has two characters per byte, all of them hex digits.
pub proof fn lemma_hex_bytes(b: Seq<u8>)
    ensures
        hex_bytes(b).len() == 2 * b.len(),
        forall|i: int| 0 <= i < hex_bytes(b).len() ==> is_hex_lower(#[trigger] hex_bytes(b)[i]),
    decreases b.len(),
{
    if b.len() > 0 {
        lemma_hex_bytes(b.drop_last());
        let h = hex_bytes(b);
        let p = hex_bytes(b.drop_last());
        assert forall|i: int| 0 <= i < h.len() implies is_hex_lower(#[trigger] h[i]) by {
            if i < p.len() {
                assert(h[i] == p[i]);
            }
        }
    }
}

/// The hex of a prefix of the bytes is the matching prefix of the hex.
proof fn lemma_hex_bytes_prefix(b: Seq<u8>, x: int)
    requires
        0 <= x <= b.len(),
    ensures
        hex_bytes(b.take(x)) == hex_bytes(b).take(2 * x),
    decreases b.len(),
{
    lemma_hex_bytes(b);
    if x == b.len() {
        assert(b.take(x) =~= b);
        assert(hex_bytes(b).take(2 * x) =~= hex_bytes(b));
    } else {
        let p = b.drop_last();
        lemma_hex_bytes_prefix(p, x);
        lemma_hex_bytes(p);
        assert(p.take(x) =~= b.take(x));
        assert(hex_bytes(b).take(2 * x) =~= hex_bytes(p).take(2 * x));
    }
}

fn hex_digit_exec(v: u8) -> (c: char)
    requires
        v < 16,
    ensures
        c == hex_digit(v as nat),
{
    if v < 10 {
        (v + 48) as char
    } else {
        (v + 87) as char
    }
}

/// The first `hex_chars` hex characters of the SHA-256 digest of `bytes`
/// (at most 64, the digest's length in hex). A shorter prefix is a prefix
/// of a longer one: for every `n <= hex_chars` the first `n` characters are
/// `hex_prefix(bytes, n)`.
pub fn hex_prefix(bytes: &[u8], hex_chars: usize) -> (res: String)
    requires
        hex_chars <= 64,
    ensures
        res@ == hex_prefix_spec(bytes@, hex_chars as nat),
        res@.len() == hex_chars,
        forall|n: nat| n <= hex_chars ==> #[trigger] res@.take(n as int) == hex_prefix_spec(
            bytes@,
            n,
        ),
        forall|i: int| 0 <= i < res@.len() ==> is_hex_lower(#[trigger] res@[i]),
{
    let digest = sha256(bytes);
    let bytes_needed = (hex_chars + 1) / 2;
    let mut out: Vec<char> = Vec::new();
    let mut i: usize = 0;
    while i < bytes_needed
        invariant
            i <= bytes_needed <= 32,
            digest@.len() == 32,
            out@ == hex_bytes(digest@.take(i as int)),
        decreases bytes_needed - i,
    {
        let b = digest[i];
        out.push(hex_digit_exec(b / 16));
        out.push(hex_digit_exec(b % 16));
        i = i + 1;
        assert(digest@.take(i as int).drop_last() =~= digest@.take(i - 1 as int));
    }
    out.truncate(hex_chars);
    proof {
        lemma_hex_bytes(digest@.take(bytes_needed as int));
        assert(out@ =~= hex_bytes(digest@.take(bytes_needed as int)).take(hex_chars as int));
        lemma_hex_bytes(digest@);
        lemma_hex_bytes_prefix(digest@, bytes_needed as int);
        assert forall|n: nat| n <= hex_chars implies #[trigger] out@.take(n as int)
            == hex_prefix_spec(bytes@, n) by {
            let m = (n + 1) / 2;
            lemma_hex_bytes_prefix(digest@, m as int);
            assert(out@.take(n as int) =~= hex_bytes(digest@).take(n as int));
            assert(hex_prefix_spec(bytes@, n) =~= hex_bytes(digest@).take(n as int));
        }
    }
    crate::text::string_from_chars(&out)
}

/// 8-hex-char doc ID derived from the repo-relative path (its UTF-8 bytes).
/// Its first six characters are the section ID of those same bytes.
/// Stable across content changes; changes on rename.
pub fn doc_id(rel_path: &str) -> (res: String)
    ensures
        res@ == hex_prefix_spec(vstd::utf8::encode_utf8(rel_path@), 8),
        res@.len() == 8,
        res@.take(6) == hex_prefix_spec(vstd::utf8::encode_utf8(rel_path@), 6),
        forall|i: int| 0 <= i < res@.len() ==> is_hex_lower(#[trigger] res@[i]),
{
    hex_prefix(rel_path.as_bytes(), 8)
}

/// 6-hex-char section ID derived from the section's raw content bytes
/// (heading line through end of section).
/// Stable across moves; changes on content edit.
pub fn section_id(content: &[u8]) -> (res: String)
    ensures
        res@ == hex_prefix_spec(content@, 6),
        res@.len() == 6,
        forall|i: int| 0 <= i < res@.len() ==> is_hex_lower(#[trigger] res@[i]),
{
    hex_prefix(content, 6)
}

/// The 16-hex-char hash naming a repo's cache directory, computed from the
/// (already canonical) repo root path.
pub fn repo_hash(canonical_root: &str) -> (res: String)
    ensures
        res@ == hex_prefix_spec(vstd::utf8::encode_utf8(canonical_root@), 16),
        res@.len() == 16,
        forall|i: int| 0 <= i < res@.len() ==> is_hex_lower(#[trigger] res@[i]),
{
    hex_prefix(canonical_root.as_bytes(), 16)
}

} // verus!
