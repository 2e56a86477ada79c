//! Content hashes: the SHA-256 of some bytes, written as lowercase hex.
use crate::text::same_text;
use sha2::Digest;
use vstd::prelude::*;

verus! {

/// The SHA-256 digest of `bytes`.
pub uninterp spec fn sha256_digest(bytes: Seq<u8>) -> [u8; 32];

/// Calls `sha2::Sha256::digest`. Claims that the digest is a function of the
/// bytes alone, named `sha256_digest`.
#[verifier::external_body]
fn sha256(bytes: &[u8]) -> (digest: [u8; 32])
    ensures
        digest == sha256_digest(bytes@),
{
    sha2::Sha256::digest(bytes).into()
}

/// The lowercase hex digit of `n < 16`.
pub open spec fn hex_char(n: nat) -> char {
    if n < 10 {
        (0x30 + n) as char
    } else {
        (0x57 + n) as char
    }
}

/// One of `0`-`9`, `a`-`f`.
pub open spec fn is_hex_char(c: char) -> bool {
    ||| 0x30 <= (c as u32) <= 0x39
    ||| 0x61 <= (c as u32) <= 0x66
}

/// Every character is a lowercase hex digit.
pub open spec fn all_hex(s: Seq<char>) -> bool {
    forall|i: int| 0 <= i < s.len() ==> is_hex_char(#[trigger] s[i])
}

/// Two hex digits for each byte, the high half first.
pub open spec fn hex(bytes: Seq<u8>) -> Seq<char>
    decreases bytes.len(),
{
    if bytes.len() == 0 {
        Seq::empty()
    } else {
        hex(bytes.drop_last()).push(hex_char(bytes.last() as nat / 16)).push(
            hex_char(bytes.last() as nat % 16),
        )
    }
}

/// The storage key of `bytes`: the hex of their SHA-256.
pub open spec fn content_key(bytes: Seq<u8>) -> Seq<char> {
    hex(sha256_digest(bytes)@)
}

/// Every storage key has 64 lowercase hex digits.
pub proof fn law_keys_are_64_hex_digits(bytes: Seq<u8>)
    ensures
        content_key(bytes).len() == 64,
        all_hex(content_key(bytes)),
{
    lemma_hex_shape(sha256_digest(bytes)@);
}

/// Hex has two digits for each byte, and a prefix of the bytes gives a prefix
/// of the digits.
pub proof fn lemma_hex_shape(bytes: Seq<u8>)
    ensures
        hex(bytes).len() == 2 * bytes.len(),
        all_hex(hex(bytes)),
    decreases bytes.len(),
{
    if bytes.len() > 0 {
        lemma_hex_shape(bytes.drop_last());
    }
}

/// The hex of the first bytes is the beginning of the hex of all.
pub proof fn lemma_hex_prefix(bytes: Seq<u8>, n: int)
    requires
        0 <= n <= bytes.len(),
    ensures
        hex(bytes.take(n)) == hex(bytes).take(2 * n),
    decreases bytes.len() - n,
{
    lemma_hex_shape(bytes);
    if n == bytes.len() {
        assert(bytes.take(n) =~= bytes);
        assert(hex(bytes).take(2 * n) =~= hex(bytes));
    } else {
        lemma_hex_prefix(bytes, n + 1);
        let next = bytes.take(n + 1);
        assert(next.drop_last() =~= bytes.take(n));
        lemma_hex_shape(bytes.take(n));
        assert(hex(bytes.take(n)) =~= hex(next).take(2 * n));
        assert(hex(next).take(2 * n) =~= hex(bytes).take(2 * n));
    }
}

fn hex_digit(n: u8) -> (c: char)
    requires
        n < 16,
    ensures
        c == hex_char(n as nat),
{
    if n < 10 {
        (0x30 + n) as char
    } else {
        (0x57 + n) as char
    }
}

/// Appends the hex of the first `take` bytes (of all, if there are fewer).
fn push_hex_prefix(out: &mut String, bytes: &[u8], take: usize)
    ensures
        final(out)@ == old(out)@ + hex(
            bytes@.take(
                if take <= bytes@.len() {
                    take as int
                } else {
                    bytes@.len() as int
                },
            ),
        ),
{
    let ghost start = out@;
    let n: usize = if take <= bytes.len() {
        take
    } else {
        bytes.len()
    };
    let mut i: usize = 0;
    assert(start + hex(bytes@.take(0)) =~= start);
    while i < n
        invariant
            i <= n <= bytes@.len(),
            out@ == start + hex(bytes@.take(i as int)),
        decreases n - i,
    {
        let b = bytes[i];
        let ghost next = bytes@.take(i as int + 1);
        assert(next.drop_last() =~= bytes@.take(i as int));
        assert(next.last() == b);
        out.push(hex_digit(b / 16));
        out.push(hex_digit(b % 16));
        assert(out@ =~= start + hex(next));
        i += 1;
    }
}

pub(crate) fn hex_encode(bytes: &[u8]) -> (out: String)
    ensures
        out@ == hex(bytes@),
{
    let mut out = String::new();
    push_hex_prefix(&mut out, bytes, bytes.len());
    assert(bytes@.take(bytes@.len() as int) =~= bytes@);
    assert(out@ =~= hex(bytes@));
    out
}

/// A content hash: the hex of the SHA-256 of the stored bytes. It always holds
/// 64 lowercase hex digits.
#[derive(Debug, PartialEq, Eq, Hash)]
pub struct ContentHash {
    digits: String,
}

impl View for ContentHash {
    type V = Seq<char>;

    closed spec fn view(&self) -> Seq<char> {
        self.digits@
    }
}

impl Clone for ContentHash {
    fn clone(&self) -> (copy: Self)
        ensures
            copy@ == self@,
    {
        proof {
            use_type_invariant(self);
        }
        ContentHash { digits: self.digits.clone() }
    }
}

impl ContentHash {
    #[verifier::type_invariant]
    closed spec fn valid(self) -> bool {
        self.digits@.len() == 64 && all_hex(self.digits@)
    }

    /// The content hash of `bytes`.
    pub fn of(bytes: &[u8]) -> (hash: Self)
        ensures
            hash@ == content_key(bytes@),
    {
        let digest = sha256(bytes);
        proof {
            lemma_hex_shape(digest@);
        }
        ContentHash { digits: hex_encode(digest.as_slice()) }
    }

    /// The first 12 digits of the content hash of `bytes`.
    pub fn short_of(bytes: &[u8]) -> (digits: String)
        ensures
            digits@ == content_key(bytes@).take(12),
    {
        let mut out = String::new();
        ContentHash::push_short_of(bytes, &mut out);
        assert(out@ =~= content_key(bytes@).take(12));
        out
    }

    /// Appends the first 12 digits of the content hash of `bytes`.
    pub fn push_short_of(bytes: &[u8], out: &mut String)
        ensures
            final(out)@ == old(out)@ + content_key(bytes@).take(12),
    {
        let digest = sha256(bytes);
        proof {
            lemma_hex_prefix(digest@, 6);
        }
        push_hex_prefix(out, digest.as_slice(), 6);
    }

    /// All 64 digits: the storage key.
    pub fn as_str(&self) -> (digits: &str)
        ensures
            digits@ == self@,
            digits@.len() == 64,
            all_hex(digits@),
    {
        proof {
            use_type_invariant(self);
        }
        self.digits.as_str()
    }

    /// The first 12 digits, for display. Not a storage key.
    pub fn short(&self) -> (digits: &str)
        ensures
            digits@ == self@.take(12),
    {
        proof {
            use_type_invariant(self);
        }
        let digits = self.digits.as_str().substring_char(0, 12);
        assert(digits@ =~= self@.take(12));
        digits
    }

    /// Reads 64 lowercase hex digits back; anything else is refused.
    pub fn from_hex(s: &str) -> (hash: Option<Self>)
        ensures
            match hash {
                Some(h) => s@.len() == 64 && all_hex(s@) && h@ == s@,
                None => !(s@.len() == 64 && all_hex(s@)),
            },
    {
        let n: usize = s.unicode_len();
        if n != 64 {
            return None;
        }
        let mut i: usize = 0;
        while i < n
            invariant
                i <= n == s@.len(),
                n == 64,
                forall|k: int| 0 <= k < i ==> is_hex_char(#[trigger] s@[k]),
            decreases n - i,
        {
            let u: u32 = s.get_char(i) as u32;
            if !((0x30 <= u && u <= 0x39) || (0x61 <= u && u <= 0x66)) {
                assert(!is_hex_char(s@[i as int]));
                return None;
            }
            i += 1;
        }
        Some(ContentHash { digits: s.to_owned() })
    }

    /// Whether the two hashes are the same.
    pub fn same(&self, other: &ContentHash) -> (r: bool)
        ensures
            r == (self@ == other@),
    {
        same_text(self.digits.as_str(), other.digits.as_str())
    }
}

/// Bytes are written in two hexadecimal digits each, the higher one first, with
/// small letters.
pub proof fn law_hex(bytes: Seq<u8>, i: int)
    ensures
        hex(bytes).len() == 2 * bytes.len(),
        0 <= i < bytes.len() ==> hex(bytes)[2 * i] == hex_char(bytes[i] as nat / 16) && hex(
            bytes,
        )[2 * i + 1] == hex_char(bytes[i] as nat % 16),
        hex_char(0) == '0' && hex_char(1) == '1' && hex_char(2) == '2' && hex_char(3) == '3',
        hex_char(4) == '4' && hex_char(5) == '5' && hex_char(6) == '6' && hex_char(7) == '7',
        hex_char(8) == '8' && hex_char(9) == '9' && hex_char(10) == 'a' && hex_char(11) == 'b',
        hex_char(12) == 'c' && hex_char(13) == 'd' && hex_char(14) == 'e' && hex_char(15) == 'f',
        content_key(bytes) == hex(sha256_digest(bytes)@),
    decreases bytes.len(),
{
    if bytes.len() > 0 {
        law_hex(bytes.drop_last(), i);
    }
}

} // verus!
