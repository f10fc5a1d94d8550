//! The info-hash and its hexadecimal form.

use sha1::{Digest, Sha1};
use vstd::prelude::*;

verus! {

/// `String::push` appends one character.
pub assume_specification[ String::push ](text: &mut String, c: char)
    ensures
        final(text)@ == old(text)@.push(c),
;

/// The SHA-1 digest of `data`.
pub uninterp spec fn sha1_digest(data: Seq<u8>) -> Seq<u8>;

/// A 20-byte BitTorrent v1 info-hash, the swarm's identity.
#[derive(Debug, Clone, Copy, PartialEq, Eq, Hash, PartialOrd, Ord)]
pub struct InfoHash(pub [u8; 20]);

impl View for InfoHash {
    type V = Seq<u8>;

    open spec fn view(&self) -> Seq<u8> {
        self.0@
    }
}

/// The SHA-1 digest of `data`, by `<sha1::Sha1 as sha1::Digest>::digest`.
///
/// Trusted: the digest is a function of the bytes alone. The hasher counts the bits of its
/// input in a `u64`; longer input is left out.
#[verifier::external_body]
pub(crate) fn sha1_of(data: &[u8]) -> (hash: [u8; 20])
    requires
        data@.len() < 0x2000_0000_0000_0000,
    ensures
        hash@ == sha1_digest(data@),
{
    Sha1::digest(data).into()
}

/// The lower-case hexadecimal digit for a number below 16.
pub open spec fn hex_digit(n: int) -> char {
    if n < 10 {
        (0x30 + n) as char
    } else {
        (0x57 + n) as char
    }
}

/// Two lower-case hexadecimal digits for each byte, the high half first.
pub open spec fn hex(bytes: Seq<u8>) -> Seq<char> {
    Seq::new(
        2 * bytes.len(),
        |i: int|
            hex_digit(
                if i % 2 == 0 {
                    bytes[i / 2] as int / 16
                } else {
                    bytes[i / 2] as int % 16
                },
            ),
    )
}

/// The lower-case hexadecimal digit for `n`.
fn digit_char(n: u8) -> (c: char)
    requires
        n < 16,
    ensures
        c == hex_digit(n as int),
{
    if n < 10 {
        (0x30 + n) as char
    } else {
        (0x57 + n) as char
    }
}

impl InfoHash {
    /// Lower-hex rendering (the announce / magnet form).
    #[must_use]
    pub fn to_hex(&self) -> (text: String)
        ensures
            text@ == hex(self@),
    {
        let mut text = String::new();
        let mut i: usize = 0;
        while i < 20
            invariant
                i <= 20,
                text@ == hex(self@.take(i as int)),
            decreases 20 - i,
        {
            let byte: u8 = self.0[i];
            let ghost done = self@.take(i as int);
            let ghost more = self@.take(i + 1);
            text.push(digit_char(byte / 16));
            text.push(digit_char(byte % 16));
            assert(more =~= done.push(byte));
            assert(text@ =~= hex(more));
            i += 1;
        }
        assert(self@.take(20) =~= self@);
        text
    }
}

/// The hexadecimal form of an info-hash has 40 characters, all of them `0` to `9` or `a` to `f`.
pub proof fn law_hex_is_40_lower_hex_digits(hash: InfoHash)
    ensures
        hex(hash@).len() == 40,
        forall|i: int|
            0 <= i < 40 ==> '0' <= #[trigger] hex(hash@)[i] <= '9' || 'a' <= hex(hash@)[i] <= 'f',
{
}

/// A hexadecimal digit stands for one number.
proof fn lemma_hex_digit_injective(n: int, m: int)
    requires
        0 <= n < 16,
        0 <= m < 16,
        hex_digit(n) == hex_digit(m),
    ensures
        n == m,
{
    assert(hex_digit(n) as int == if n < 10 { 0x30 + n } else { 0x57 + n });
    assert(hex_digit(m) as int == if m < 10 { 0x30 + m } else { 0x57 + m });
}

/// Two info-hashes with the same hexadecimal form are the same.
pub proof fn law_hex_is_injective(a: InfoHash, b: InfoHash)
    requires
        hex(a@) == hex(b@),
    ensures
        a == b,
{
    assert forall|i: int| 0 <= i < 20 implies a@[i] == b@[i] by {
        assert(hex(a@)[2 * i] == hex_digit(a@[i] as int / 16));
        assert(hex(b@)[2 * i] == hex_digit(b@[i] as int / 16));
        assert(hex(a@)[2 * i + 1] == hex_digit(a@[i] as int % 16));
        assert(hex(b@)[2 * i + 1] == hex_digit(b@[i] as int % 16));
        lemma_hex_digit_injective(a@[i] as int / 16, b@[i] as int / 16);
        lemma_hex_digit_injective(a@[i] as int % 16, b@[i] as int % 16);
    }
    assert(a.0 =~= b.0);
}

/// The hexadecimal form of an info-hash, read in base 16, gives back its bytes: characters `2 * i`
/// and `2 * i + 1` are the high and the low digit of byte `i`. There are 40 characters, all of
/// them `0` to `9` or `a` to `f`.
pub proof fn law_hex_reads_back_as_the_bytes(hash: InfoHash, text: Seq<char>)
    requires
        text == hex(hash@),
    ensures
        text.len() == 40,
        forall|i: int|
            0 <= i < 40 ==> '0' <= #[trigger] text[i] <= '9' || 'a' <= text[i] <= 'f',
        forall|i: int|
            0 <= i < 20 ==> #[trigger] hash.0@[i] == 16 * (if text[2 * i] <= '9' {
                text[2 * i] as int - '0' as int
            } else {
                text[2 * i] as int - 'a' as int + 10
            }) + (if text[2 * i + 1] <= '9' {
                text[2 * i + 1] as int - '0' as int
            } else {
                text[2 * i + 1] as int - 'a' as int + 10
            }),
{
    assert forall|i: int| 0 <= i < 20 implies #[trigger] hash.0@[i] == 16 * (if text[2 * i]
        <= '9' {
        text[2 * i] as int - '0' as int
    } else {
        text[2 * i] as int - 'a' as int + 10
    }) + (if text[2 * i + 1] <= '9' {
        text[2 * i + 1] as int - '0' as int
    } else {
        text[2 * i + 1] as int - 'a' as int + 10
    }) by {
        let high = hash.0@[i] as int / 16;
        let low = hash.0@[i] as int % 16;
        assert(text[2 * i] == hex_digit(high));
        assert(text[2 * i + 1] == hex_digit(low));
    }
}

} // verus!
