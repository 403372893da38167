//! Digests: the SHA-1 of a byte content, written as 40 lowercase hexadecimal
//! characters. A digest is the sole identity of a stored object.
use sha1::{Digest as _, Sha1};
use vstd::prelude::*;

verus! {

/// The SHA-1 hash of a byte sequence, as its 20 bytes.
pub uninterp spec fn sha1_bytes(data: Seq<u8>) -> Seq<u8>;

/// The longest input that is hashed: its length in bits must fit in 64 bits.
pub const MAX_HASH_INPUT: u64 = 0x1fff_ffff_ffff_ffff;

/// Calls `sha1::Sha1` (`new`, `update`, `finalize`) on the whole input. The
/// result is a function of the input alone, named `sha1_bytes`; its 20-byte
/// length is the hasher's output size.
#[verifier::external_body]
fn sha1_raw(data: &[u8]) -> (out: [u8; 20])
    requires
        data@.len() <= MAX_HASH_INPUT,
    ensures
        out@ == sha1_bytes(data@),
{
    let mut hasher = Sha1::new();
    hasher.update(data);
    hasher.finalize().into()
}

/// The lowercase hexadecimal digit for a value below 16.
pub open spec fn hex_digit(n: int) -> char {
    if n < 10 {
        (48 + n) as char
    } else {
        (87 + n) as char
    }
}

/// Two lowercase hexadecimal digits per byte, high half first.
pub open spec fn hex_encode(bytes: Seq<u8>) -> Seq<char> {
    Seq::new(
        2 * bytes.len(),
        |i: int|
            if i % 2 == 0 {
                hex_digit(bytes[i / 2] as int / 16)
            } else {
                hex_digit(bytes[i / 2] as int % 16)
            },
    )
}

/// A lowercase hexadecimal digit.
pub open spec fn is_hex_char(c: char) -> bool {
    ('0' <= c <= '9') || ('a' <= c <= 'f')
}

/// The form of a SHA-1 digest: 40 lowercase hexadecimal characters.
pub open spec fn is_sha1_hex(s: Seq<char>) -> bool {
    s.len() == 40 && forall|i: int| 0 <= i < s.len() ==> is_hex_char(#[trigger] s[i])
}

/// The digest of a content: the hexadecimal form of its SHA-1.
pub open spec fn digest_of(data: Seq<u8>) -> Seq<char> {
    hex_encode(sha1_bytes(data))
}

/// Hexadecimal text holds only hexadecimal characters.
pub proof fn lemma_hex_encode_chars(bytes: Seq<u8>)
    ensures
        hex_encode(bytes).len() == 2 * bytes.len(),
        forall|i: int| 0 <= i < hex_encode(bytes).len() ==> is_hex_char(#[trigger] hex_encode(bytes)[i]),
{
}

fn hex_char(n: u8) -> (c: char)
    requires
        n < 16,
    ensures
        c == hex_digit(n as int),
{
    if n < 10 {
        (48 + n) as char
    } else {
        (87 + n) as char
    }
}

/// Writes bytes as lowercase hexadecimal text.
pub fn to_hex(bytes: &[u8]) -> (s: String)
    ensures
        s@ == hex_encode(bytes@),
{
    let mut s = String::new();
    let mut i: usize = 0;
    while i < bytes.len()
        invariant
            i <= bytes.len(),
            s@ == hex_encode(bytes@.take(i as int)),
        decreases bytes.len() - i,
    {
        let b = bytes[i];
        let ghost before = s@;
        s.push(hex_char(b / 16));
        s.push(hex_char(b % 16));
        proof {
            assert(bytes@.take(i + 1)[i as int] == b);
            assert(s@ =~= hex_encode(bytes@.take(i + 1)));
        }
        i = i + 1;
    }
    proof {
        assert(bytes@.take(bytes.len() as int) =~= bytes@);
    }
    s
}

/// The identity of a stored object, hex-encoded.
#[derive(Debug, PartialEq, Eq)]
pub struct Digest {
    pub hex: String,
}

impl View for Digest {
    type V = Seq<char>;

    open spec fn view(&self) -> Seq<char> {
        self.hex@
    }
}

impl Clone for Digest {
    fn clone(&self) -> (r: Self)
        ensures
            r == *self,
    {
        Digest { hex: self.hex.clone() }
    }
}

impl Digest {
    pub fn new(hex: String) -> (d: Digest)
        ensures
            d.hex == hex,
    {
        Digest { hex }
    }

    pub fn as_str(&self) -> (s: &str)
        ensures
            s@ == self@,
    {
        self.hex.as_str()
    }

    /// Whether two digests are the same text.
    pub fn same(&self, other: &Digest) -> (r: bool)
        ensures
            r == (self@ == other@),
    {
        self.hex == other.hex
    }

    /// Whether the text has the form of a SHA-1 digest.
    pub fn is_wellformed(&self) -> (r: bool)
        ensures
            r == is_sha1_hex(self@),
    {
        let chars = crate::text::to_chars(self.hex.as_str());
        if chars.len() != 40 {
            return false;
        }
        let mut i: usize = 0;
        while i < chars.len()
            invariant
                i <= chars.len(),
                chars@ == self@,
                forall|j: int| 0 <= j < i ==> is_hex_char(#[trigger] chars@[j]),
            decreases chars.len() - i,
        {
            let c = chars[i];
            if !(('0' <= c && c <= '9') || ('a' <= c && c <= 'f')) {
                return false;
            }
            i = i + 1;
        }
        true
    }
}

/// The digest of a byte content that is short enough to hash.
pub fn generate_sha1(data: &[u8]) -> (d: Digest)
    requires
        data@.len() <= MAX_HASH_INPUT,
    ensures
        d@ == digest_of(data@),
        is_sha1_hex(d@),
{
    let raw = sha1_raw(data);
    proof {
        lemma_hex_encode_chars(raw@);
    }
    Digest { hex: to_hex(raw.as_slice()) }
}

/// The digest of a byte content, or `None` where the content is too long to
/// hash.
pub fn digest_content(data: &[u8]) -> (r: Option<Digest>)
    ensures
        match r {
            Some(d) => data@.len() <= MAX_HASH_INPUT && d@ == digest_of(data@) && is_sha1_hex(d@),
            None => data@.len() > MAX_HASH_INPUT,
        },
{
    if data.len() as u64 > MAX_HASH_INPUT {
        None
    } else {
        Some(generate_sha1(data))
    }
}

} // verus!
