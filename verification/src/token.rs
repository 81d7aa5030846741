//! The admin bearer token: minting one, keeping one, and comparing two.
use crate::text::{hex_lower, hex_text, trim, trimmed};
use vstd::prelude::*;
use vstd::utf8::encode_utf8_decode_utf8;

verus! {

/// `rand::random::<[u8; 16]>`: 16 bytes drawn at random. Nothing is stated of them.
#[verifier::external_body]
fn random_bytes() -> (bytes: [u8; 16]) {
    rand::random()
}

/// Whether 16 bytes are a draw of [`random_bytes`].
pub closed spec fn drawn(bytes: [u8; 16]) -> bool {
    call_ensures(random_bytes, (), bytes)
}

/// Whether a text spells 16 bytes that were drawn at random.
pub open spec fn is_minted(s: Seq<char>) -> bool {
    exists|bytes: [u8; 16]| #[trigger] drawn(bytes) && s == hex_lower(bytes@)
}

/// A text that a token can be: the 32 hexadecimal digits of 16 bytes.
pub open spec fn is_token(s: Seq<char>) -> bool {
    exists|bytes: [u8; 16]| s == hex_lower(#[trigger] bytes@)
}

/// The token that 16 bytes spell.
pub fn token_text(bytes: &[u8; 16]) -> (s: String)
    ensures
        s@ == hex_lower(bytes@),
        s@.len() == 32,
{
    hex_text(bytes.as_slice())
}

/// A fresh token: 128 bits of random output, long enough that guessing it is
/// hopeless, short enough to paste into a URL by hand.
pub fn mint_token() -> (s: String)
    ensures
        is_minted(s@),
        is_token(s@),
        s@.len() == 32,
{
    let bytes: [u8; 16] = random_bytes();
    assert(drawn(bytes));
    token_text(&bytes)
}

/// What becomes of the token file.
#[derive(Debug)]
pub enum TokenStep {
    /// The file holds a token; it is kept.
    Keep(String),
    /// There is none; this one is to be written.
    Create(String),
}

/// A present, non-empty token is reused; anything else is minted anew. `file` is
/// what the token file holds, if it can be read at all: an empty or truncated file
/// must not be able to stop the program.
pub fn load_or_create_token(file: Option<&str>) -> (step: TokenStep)
    ensures
        match step {
            TokenStep::Keep(t) => file matches Some(s) && trimmed(s@).len() > 0 && t@ == trimmed(
                s@,
            ),
            TokenStep::Create(t) => (file matches Some(s) ==> trimmed(s@).len() == 0) && is_minted(
                t@,
            ) && is_token(t@),
        },
{
    if let Some(s) = file {
        let kept: String = trim(s);
        if kept.as_str().unicode_len() > 0 {
            return TokenStep::Keep(kept);
        }
    }
    TokenStep::Create(mint_token())
}

/// Compares two tokens in a time that depends on their length alone, so a token
/// cannot be recovered a byte at a time by timing the reject. Length is compared
/// first because it is not a secret.
pub fn token_eq(a: &str, b: &str) -> (r: bool)
    ensures
        r == (a@ == b@),
{
    let x: &[u8] = a.as_bytes();
    let y: &[u8] = b.as_bytes();
    if x.len() != y.len() {
        return false;
    }
    let mut acc: u8 = 0;
    let mut i: usize = 0;
    while i < x.len()
        invariant
            x@.len() == y@.len(),
            i <= x@.len(),
            acc == 0 <==> (forall|j: int| 0 <= j < i ==> x@[j] == y@[j]),
        decreases x@.len() - i,
    {
        let (p, q, old_acc): (u8, u8, u8) = (x[i], y[i], acc);
        acc = acc | (p ^ q);
        assert(acc == 0 <==> old_acc == 0 && p == q) by (bit_vector)
            requires
                acc == old_acc | (p ^ q),
        ;
        i += 1;
    }
    proof {
        if acc == 0 {
            assert(x@ =~= y@);
            encode_utf8_decode_utf8(a@);
            encode_utf8_decode_utf8(b@);
        }
    }
    acc == 0
}

/// A token is 32 hexadecimal digits.
pub proof fn a_token_is_hexadecimal(s: Seq<char>, i: int)
    requires
        is_token(s),
    ensures
        s.len() == 32,
        0 <= i < 32 ==> '0' <= s[i] <= '9' || 'a' <= s[i] <= 'f',
        is_minted(s) ==> is_token(s),
{
    let bytes = choose|bytes: [u8; 16]| s == hex_lower(#[trigger] bytes@);
    if 0 <= i < 32 {
        crate::text::a_byte_is_two_digits_high_one_first(bytes@, i / 2);
    }
}

} // verus!
