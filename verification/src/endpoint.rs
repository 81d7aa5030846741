//! Endpoint identities: the public key that is a machine's permanent address, its
//! text forms, and the keypair behind it.
use crate::error::Error;
use crate::text::{hex_lower, hex_text, trim, trimmed};
use vstd::prelude::*;

verus! {

/// A machine's address: the 32 bytes of its Ed25519 public key.
#[derive(Clone, Copy, Debug)]
pub struct EndpointId {
    pub bytes: [u8; 32],
}

impl PartialEq for EndpointId {
    fn eq(&self, other: &Self) -> (r: bool) {
        let mut i: usize = 0;
        while i < 32
            invariant
                i <= 32,
                forall|j: int| 0 <= j < i ==> self.bytes[j] == other.bytes[j],
            decreases 32 - i,
        {
            if self.bytes[i] != other.bytes[i] {
                return false;
            }
            i += 1;
        }
        assert(self.bytes =~= other.bytes);
        true
    }
}

impl vstd::std_specs::cmp::PartialEqSpecImpl for EndpointId {
    open spec fn obeys_eq_spec() -> bool {
        true
    }

    open spec fn eq_spec(&self, other: &Self) -> bool {
        *self == *other
    }
}

impl Eq for EndpointId {

}

/// The full text of an id: 64 lower-case hexadecimal digits.
pub open spec fn id_text(id: EndpointId) -> Seq<char> {
    hex_lower(id.bytes@)
}

/// The short text of an id: the first five bytes of it.
pub open spec fn id_short(id: EndpointId) -> Seq<char> {
    hex_lower(id.bytes@.take(5))
}

/// The order of two ids is that of their bytes, the first difference deciding.
pub open spec fn id_before(a: EndpointId, b: EndpointId) -> bool {
    exists|k: int| #[trigger] differ_first_at(a.bytes@, b.bytes@, k) && a.bytes[k] < b.bytes[k]
}

pub open spec fn differ_first_at(a: Seq<u8>, b: Seq<u8>, k: int) -> bool {
    &&& 0 <= k < a.len()
    &&& 0 <= k < b.len()
    &&& a[k] != b[k]
    &&& forall|j: int| 0 <= j < k ==> a[j] == b[j]
}

/// How one id stands to another in their order.
#[derive(Clone, Copy, Debug, PartialEq, Eq, Structural)]
pub enum Place {
    Before,
    Same,
    After,
}

impl EndpointId {
    /// The 64-character text that is shown, pasted and persisted.
    pub fn to_text(&self) -> (s: String)
        ensures
            s@ == id_text(*self),
    {
        hex_text(self.bytes.as_slice())
    }

    /// The ten-character text that log lines and messages use.
    pub fn fmt_short(&self) -> (s: String)
        ensures
            s@ == id_short(*self),
    {
        let head: &[u8] = vstd::slice::slice_subrange(self.bytes.as_slice(), 0, 5);
        assert(head@ =~= self.bytes@.take(5));
        hex_text(head)
    }

    /// Where this id stands in the order of ids, seen from `other`.
    pub fn place(&self, other: &EndpointId) -> (r: Place)
        ensures
            match r {
                Place::Before => id_before(*self, *other),
                Place::Same => *self == *other,
                Place::After => id_before(*other, *self),
            },
    {
        let mut i: usize = 0;
        while i < 32
            invariant
                i <= 32,
                forall|j: int| 0 <= j < i ==> self.bytes[j] == other.bytes[j],
            decreases 32 - i,
        {
            if self.bytes[i] < other.bytes[i] {
                assert(differ_first_at(self.bytes@, other.bytes@, i as int));
                return Place::Before;
            }
            if self.bytes[i] > other.bytes[i] {
                assert(differ_first_at(other.bytes@, self.bytes@, i as int));
                return Place::After;
            }
            i += 1;
        }
        assert(self.bytes =~= other.bytes);
        Place::Same
    }
}

/// The order of ids is strict and total: exactly one of before, same and after.
pub proof fn id_order_is_total(a: EndpointId, b: EndpointId)
    ensures
        a == b ==> !id_before(a, b),
        id_before(a, b) ==> !id_before(b, a) && a != b,
        a == b || id_before(a, b) || id_before(b, a),
{
    if id_before(a, b) {
        let k = choose|k: int| #[trigger]
            differ_first_at(a.bytes@, b.bytes@, k) && a.bytes[k] < b.bytes[k];
        if id_before(b, a) {
            let m = choose|m: int| #[trigger]
                differ_first_at(b.bytes@, a.bytes@, m) && b.bytes[m] < a.bytes[m];
            assert(k == m);
        }
    }
    if a != b && !id_before(a, b) {
        lemma_first_difference(a, b, 0);
    }
}

proof fn lemma_first_difference(a: EndpointId, b: EndpointId, i: int)
    requires
        a != b,
        0 <= i <= 32,
        forall|j: int| 0 <= j < i ==> a.bytes[j] == b.bytes[j],
    ensures
        id_before(a, b) || id_before(b, a),
    decreases 32 - i,
{
    if i == 32 {
        assert(a.bytes =~= b.bytes);
    } else if a.bytes[i] == b.bytes[i] {
        lemma_first_difference(a, b, i + 1);
    } else {
        assert(differ_first_at(a.bytes@, b.bytes@, i));
        assert(differ_first_at(b.bytes@, a.bytes@, i));
    }
}

/// The order of ids is transitive.
pub proof fn id_order_is_transitive(a: EndpointId, b: EndpointId, c: EndpointId)
    requires
        id_before(a, b),
        id_before(b, c),
    ensures
        id_before(a, c),
{
    let k = choose|k: int| #[trigger]
        differ_first_at(a.bytes@, b.bytes@, k) && a.bytes[k] < b.bytes[k];
    let m = choose|m: int| #[trigger]
        differ_first_at(b.bytes@, c.bytes@, m) && b.bytes[m] < c.bytes[m];
    let p = if k < m { k } else { m };
    assert(differ_first_at(a.bytes@, c.bytes@, p));
}

/// The short text is how the full text starts, and the full text is 64 characters.
pub proof fn short_text_starts_the_full_text(id: EndpointId)
    ensures
        id_text(id).len() == 64,
        id_short(id).len() == 10,
        id_text(id).take(10) == id_short(id),
{
    assert(id_text(id).take(10) =~= id_short(id));
}

/// Two ids have the same full text only if they are the same id.
pub proof fn full_text_names_one_id(a: EndpointId, b: EndpointId)
    requires
        id_text(a) == id_text(b),
    ensures
        a == b,
{
    crate::text::hex_is_injective(a.bytes@, b.bytes@);
    assert(a.bytes =~= b.bytes);
}

// ---------------------------------------------------------------- outside keys

/// What parsing a text as an endpoint id gives: the key's bytes, or the words of
/// the refusal.
pub uninterp spec fn endpoint_id_parse(s: Seq<char>) -> Result<[u8; 32], Seq<char>>;

/// The public key that belongs to a secret key.
pub uninterp spec fn public_key_of(secret: Seq<u8>) -> [u8; 32];

/// A key parser's answer, its words taken as text.
pub open spec fn key_result(r: Result<[u8; 32], String>) -> Result<[u8; 32], Seq<char>> {
    match r {
        Ok(key) => Ok(key),
        Err(why) => Err(why@),
    }
}

/// The 64-digit text of a key parses, and parses to that key.
pub open spec fn text_reads_back(key: [u8; 32]) -> bool {
    endpoint_id_parse(hex_lower(key@)) == Ok::<[u8; 32], Seq<char>>(key)
}

/// `<iroh::EndpointId as FromStr>::from_str`: what it makes of a text is named by
/// [`endpoint_id_parse`]. A key that was read from one text is read again from its
/// own 64-digit text.
#[verifier::external_body]
pub(crate) fn parse_key(s: &str) -> (r: Result<[u8; 32], String>)
    ensures
        key_result(r) == endpoint_id_parse(s@),
        r matches Ok(key) ==> text_reads_back(key),
{
    match s.parse::<iroh::EndpointId>() {
        Ok(key) => Ok(*key.as_bytes()),
        Err(e) => Err(format!("{e}")),
    }
}

/// `iroh::SecretKey::public` of the key with the given bytes: the public key is
/// named by [`public_key_of`], and its 64-digit text parses back to it.
#[verifier::external_body]
pub(crate) fn public_key(secret: &[u8; 32]) -> (key: [u8; 32])
    ensures
        key == public_key_of(secret@),
        text_reads_back(key),
{
    *iroh::SecretKey::from_bytes(secret).public().as_bytes()
}

/// `iroh::SecretKey::generate`: 32 bytes drawn at random. Nothing is stated of
/// them.
#[verifier::external_body]
fn random_secret() -> (secret: [u8; 32]) {
    iroh::SecretKey::generate().to_bytes()
}

/// Whether 32 bytes are a draw of [`random_secret`].
pub closed spec fn generated(secret: [u8; 32]) -> bool {
    call_ensures(random_secret, (), secret)
}

/// A fresh secret key.
pub(crate) fn fresh_secret() -> (secret: [u8; 32])
    ensures
        generated(secret),
{
    random_secret()
}

/// What a pasted id stands for, once the white space around it is gone.
pub open spec fn id_of_text(s: Seq<char>) -> Result<EndpointId, Seq<char>> {
    match endpoint_id_parse(trimmed(s)) {
        Ok(bytes) => Ok(EndpointId { bytes }),
        Err(why) => Err(why),
    }
}

/// Reads an endpoint id that a person typed or pasted: one that its own text names. A
/// mistyped key produces a message about the key.
pub fn parse_id(s: &str) -> (r: Result<EndpointId, Error>)
    ensures
        match r {
            Ok(id) => id_of_text(s@) == Ok::<EndpointId, Seq<char>>(id) && text_reads_back(id.bytes),
            Err(e) => e matches Error::BadId { text, why } && text@ == trimmed(s@)
                && id_of_text(s@) == Err::<EndpointId, Seq<char>>(why@),
        },
{
    let text: String = trim(s);
    let parsed = parse_key(text.as_str());
    parsed_id(text, parsed)
}

/// The answer to a pasted id, given what the key parser made of the trimmed text.
pub fn parsed_id(text: String, parsed: Result<[u8; 32], String>) -> (r: Result<EndpointId, Error>)
    ensures
        match parsed {
            Ok(bytes) => r == Ok::<EndpointId, Error>(EndpointId { bytes }),
            Err(why) => r == Err::<EndpointId, Error>(Error::BadId { text, why }),
        },
{
    match parsed {
        Ok(bytes) => Ok(EndpointId { bytes }),
        Err(why) => Err(Error::BadId { text, why }),
    }
}

/// The id of the machine that holds the given secret key. What it prints can be
/// pasted into the other machine's allowlist: the text parses back to this id.
pub fn endpoint_id(secret: &[u8; 32]) -> (id: EndpointId)
    ensures
        id.bytes == public_key_of(secret@),
        text_reads_back(id.bytes),
{
    EndpointId { bytes: public_key(secret) }
}

// ---------------------------------------------------------------- pasted ids

/// The white space around a pasted id does not matter; the rest of it is what the key
/// parser is asked about, and its answer is the answer.
pub proof fn a_pasted_id_may_have_white_space_around_it(
    before: Seq<char>,
    s: Seq<char>,
    after: Seq<char>,
)
    requires
        forall|i: int| 0 <= i < before.len() ==> crate::text::is_space_char(#[trigger] before[i]),
        forall|i: int| 0 <= i < after.len() ==> crate::text::is_space_char(#[trigger] after[i]),
        s.len() > 0 ==> !crate::text::is_space_char(s[0]) && !crate::text::is_space_char(s.last()),
    ensures
        match endpoint_id_parse(s) {
            Ok(bytes) => id_of_text(before + s + after) matches Ok(id) && id.bytes == bytes,
            Err(why) => id_of_text(before + s + after) == Err::<EndpointId, Seq<char>>(why),
        },
{
    crate::text::white_space_around_a_text_is_trimmed(before, s, after);
}

/// Of two ids, the one whose bytes are less where they first differ comes first.
pub proof fn ids_are_ordered_by_their_first_difference(a: EndpointId, b: EndpointId, k: int)
    requires
        0 <= k < 32,
        a.bytes[k] != b.bytes[k],
        forall|j: int| 0 <= j < k ==> a.bytes[j] == b.bytes[j],
    ensures
        id_before(a, b) <==> a.bytes[k] < b.bytes[k],
{
    assert(differ_first_at(a.bytes@, b.bytes@, k));
    if id_before(a, b) {
        let x = choose|x: int| #[trigger]
            differ_first_at(a.bytes@, b.bytes@, x) && a.bytes[x] < b.bytes[x];
        assert(!(x < k) && !(k < x)) by {
            if x < k {
                assert(a.bytes@[x] == b.bytes@[x]);
            }
        }
    }
}

} // verus!
