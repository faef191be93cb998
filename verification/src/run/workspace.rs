//! The names a run gives to what it touches: the directory of a model's
//! results, the names of the files listed in a workspace, and the excerpt of
//! an error kept in a report.

use vstd::prelude::*;
use sha2::{Digest, Sha256};
use crate::text::{chars_of, push_char, string_of};

verus! {

/// SHA-256 of `data`, as the `sha2` crate computes it.
pub uninterp spec fn sha256(data: Seq<u8>) -> Seq<u8>;

/// The SHA-256 digest of `data`, computed by `sha2::Sha256::digest` (the
/// `Digest` trait's one-shot hash). The contract claims that the result is
/// the digest named `sha256` of `data` alone, and that it has 32 bytes, the
/// output size of `Sha256`; what those bytes are is not stated.
#[verifier::external_body]
fn sha256_digest(data: &[u8]) -> (r: Vec<u8>)
    ensures
        r@ == sha256(data@),
        r@.len() == 32,
{
    Sha256::digest(data).to_vec()
}

/// The lower-case hexadecimal digit for `n`, below 16.
pub open spec fn hex_digit(n: int) -> char {
    if n < 10 {
        (48 + n) as char
    } else {
        (87 + n) as char
    }
}

/// `bytes` written in lower-case hexadecimal, two digits a byte, as the
/// `{:x}` format writes a digest.
pub open spec fn hex_lower(bytes: Seq<u8>) -> Seq<char> {
    Seq::new(
        2 * bytes.len(),
        |i: int|
            if i % 2 == 0 {
                hex_digit(bytes[i / 2] as int / 16)
            } else {
                hex_digit(bytes[i / 2] as int % 16)
            },
    )
}

fn hex_char(n: u8) -> (c: char)
    requires
        n < 16,
    ensures
        c == hex_digit(n as int),
{
    if n < 10 {
        (48 + n) as char
    } else {
        (87 + n) as char
    }
}

/// Whether `c` is an ASCII letter or digit.
pub open spec fn ascii_alphanumeric(c: char) -> bool {
    ('0' <= c <= '9') || ('a' <= c <= 'z') || ('A' <= c <= 'Z')
}

/// A character of a model's name as it stands in a directory name: ASCII
/// letters, digits, `-` and `_` stay, anything else becomes `-`.
pub open spec fn slug_char(c: char) -> char {
    if ascii_alphanumeric(c) || c == '-' || c == '_' {
        c
    } else {
        '-'
    }
}

/// The directory name of a model's results: its name with every character
/// but ASCII letters, digits, `-` and `_` replaced by `-`, a `-`, and the
/// first 12 hexadecimal digits of the SHA-256 of its name's UTF-8 bytes.
pub open spec fn slug_of(model: Seq<char>) -> Seq<char> {
    model.map_values(|c: char| slug_char(c)) + seq!['-'] + hex_lower(
        sha256(vstd::utf8::encode_utf8(model)),
    ).take(12)
}

/// A character that a directory name may hold anywhere: an ASCII letter or
/// digit, `-` or `_`.
pub open spec fn slug_safe(c: char) -> bool {
    ascii_alphanumeric(c) || c == '-' || c == '_'
}

/// A model's directory name holds only ASCII letters, digits, `-` and `_`,
/// so no model's name can lead its results outside the run's directory; it
/// is 13 characters longer than the name. (A SHA-256 digest has 32 bytes,
/// as `sha256_digest` states.)
pub proof fn lemma_slug_is_safe(model: Seq<char>)
    requires
        sha256(vstd::utf8::encode_utf8(model)).len() == 32,
    ensures
        forall|i: int| 0 <= i < slug_of(model).len() ==> slug_safe(#[trigger] slug_of(model)[i]),
        slug_of(model).len() == model.len() + 13,
{
    let digest = sha256(vstd::utf8::encode_utf8(model));
    let hex = hex_lower(digest);
    assert forall|i: int| 0 <= i < hex.len() implies slug_safe(#[trigger] hex[i]) by {
        let n = if i % 2 == 0 { digest[i / 2] as int / 16 } else { digest[i / 2] as int % 16 };
        assert(0 <= n < 16);
        assert(hex[i] == hex_digit(n));
    }
    let safe = model.map_values(|c: char| slug_char(c));
    assert forall|i: int| 0 <= i < slug_of(model).len() implies slug_safe(#[trigger] slug_of(model)[i]) by {
        if i < safe.len() {
            assert(slug_of(model)[i] == slug_char(model[i]));
        } else if i > safe.len() {
            assert(slug_of(model)[i] == hex.take(12)[i - safe.len() - 1]);
            assert(hex.take(12)[i - safe.len() - 1] == hex[i - safe.len() - 1]);
        }
    }
}

/// The directory name of a model's results. It holds only ASCII letters,
/// digits, `-` and `_`, and is 13 characters longer than the model's name.
pub fn model_slug(model: &str) -> (r: String)
    ensures
        r@ == slug_of(model@),
        sha256(vstd::utf8::encode_utf8(model@)).len() == 32,
        forall|i: int| 0 <= i < r@.len() ==> slug_safe(#[trigger] r@[i]),
        r@.len() == model@.len() + 13,
{
    let cs = chars_of(model);
    let mut out = String::new();
    let mut i: usize = 0;
    while i < cs.len()
        invariant
            cs@ == model@,
            i <= cs.len(),
            out@ == cs@.take(i as int).map_values(|c: char| slug_char(c)),
        decreases cs.len() - i,
    {
        let c = cs[i];
        let kept = ('0' <= c && c <= '9') || ('a' <= c && c <= 'z') || ('A' <= c && c <= 'Z') || c
            == '-' || c == '_';
        push_char(
            &mut out,
            if kept {
                c
            } else {
                '-'
            },
        );
        assert(cs@.take(i + 1).map_values(|c: char| slug_char(c)) =~= cs@.take(i as int).map_values(
            |c: char| slug_char(c),
        ).push(slug_char(c)));
        i = i + 1;
    }
    assert(cs@.take(cs.len() as int) =~= cs@);
    push_char(&mut out, '-');
    let digest = sha256_digest(model.as_bytes());
    let ghost hex = hex_lower(digest@);
    let ghost head = out@;
    let mut k: usize = 0;
    while k < 6
        invariant
            digest@.len() == 32,
            hex == hex_lower(digest@),
            k <= 6,
            out@ == head + hex.take(2 * k),
        decreases 6 - k,
    {
        let b = digest[k];
        push_char(&mut out, hex_char(b / 16));
        push_char(&mut out, hex_char(b % 16));
        assert(hex.take(2 * k + 2) =~= hex.take(2 * k as int).push(hex[2 * k as int]).push(
            hex[2 * k + 1],
        ));
        k = k + 1;
    }
    proof {
        lemma_slug_is_safe(model@);
    }
    out
}

/// The first `limit` characters of `value`, all of it if it is shorter.
pub fn truncate(value: &str, limit: usize) -> (r: String)
    ensures
        r@ == value@.take(if limit < value@.len() { limit as int } else { value@.len() as int }),
{
    let cs = chars_of(value);
    let end = if limit < cs.len() {
        limit
    } else {
        cs.len()
    };
    string_of(&cs, 0, end)
}

/// A path as a workspace listing reports it: each `\` written as `/`.
pub open spec fn listed_name(path: Seq<char>) -> Seq<char> {
    path.map_values(|c: char| if c == '\\' { '/' } else { c })
}

/// `path` with each `\` written as `/`.
pub fn listed_path(path: &str) -> (r: String)
    ensures
        r@ == listed_name(path@),
{
    let cs = chars_of(path);
    let mut out = String::new();
    let mut i: usize = 0;
    while i < cs.len()
        invariant
            cs@ == path@,
            i <= cs.len(),
            out@ == cs@.take(i as int).map_values(|c: char| if c == '\\' { '/' } else { c }),
        decreases cs.len() - i,
    {
        let c = cs[i];
        push_char(
            &mut out,
            if c == '\\' {
                '/'
            } else {
                c
            },
        );
        assert(cs@.take(i + 1).map_values(|c: char| if c == '\\' { '/' } else { c }) =~= cs@.take(
            i as int,
        ).map_values(|c: char| if c == '\\' { '/' } else { c }).push(
            if c == '\\' {
                '/'
            } else {
                c
            },
        ));
        i = i + 1;
    }
    assert(cs@.take(cs.len() as int) =~= cs@);
    out
}

/// The name of the directory that jeden keeps in a workspace, which a
/// listing of the workspace leaves out.
pub const BOOKKEEPING_DIR: &'static str = ".jeden";

} // verus!
