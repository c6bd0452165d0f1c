//! Account addresses and event signatures.
use crate::order::{
    bytes_before, lemma_bytes_before_irreflexive, lemma_bytes_before_total,
    lemma_bytes_before_transitive, rank_bytes, Key, Rank,
};
use crate::text::{ascii_lower, lower};
use vstd::prelude::*;
use vstd::utf8::is_ascii_chars;

verus! {

/// The address of an account or a contract.
#[derive(Clone, Copy, Debug, PartialEq, Eq, Hash)]
pub struct Address(pub [u8; 20]);

/// A 256-bit word, such as the signature hash of an event.
#[derive(Clone, Copy, Debug, PartialEq, Eq, Hash)]
pub struct B256(pub [u8; 32]);

impl Key for Address {
    type Model = Address;

    open spec fn model(&self) -> Address {
        *self
    }

    open spec fn before(a: Address, b: Address) -> bool {
        bytes_before(a.0@, b.0@)
    }

    proof fn never_before_itself(a: Address) {
        lemma_bytes_before_irreflexive(a.0@);
    }

    proof fn before_chains(a: Address, b: Address, c: Address) {
        lemma_bytes_before_transitive(a.0@, b.0@, c.0@);
    }

    proof fn before_decides(a: Address, b: Address) {
        lemma_bytes_before_total(a.0@, b.0@);
        lemma_same_address(a, b);
    }

    fn rank(&self, other: &Address) -> (rank: Rank) {
        proof {
            lemma_same_address(*self, *other);
        }
        rank_bytes(self.0.as_slice(), other.0.as_slice())
    }
}

impl Key for B256 {
    type Model = B256;

    open spec fn model(&self) -> B256 {
        *self
    }

    open spec fn before(a: B256, b: B256) -> bool {
        bytes_before(a.0@, b.0@)
    }

    proof fn never_before_itself(a: B256) {
        lemma_bytes_before_irreflexive(a.0@);
    }

    proof fn before_chains(a: B256, b: B256, c: B256) {
        lemma_bytes_before_transitive(a.0@, b.0@, c.0@);
    }

    proof fn before_decides(a: B256, b: B256) {
        lemma_bytes_before_total(a.0@, b.0@);
        lemma_same_word(a, b);
    }

    fn rank(&self, other: &B256) -> (rank: Rank) {
        proof {
            lemma_same_word(*self, *other);
        }
        rank_bytes(self.0.as_slice(), other.0.as_slice())
    }
}

proof fn lemma_same_address(a: Address, b: Address)
    ensures
        a.0@ == b.0@ ==> a == b,
{
    if a.0@ == b.0@ {
        assert forall|i: int| 0 <= i < 20 implies a.0[i] == b.0[i] by {
            assert(a.0@[i] == b.0@[i]);
        }
        assert(a.0 =~= b.0);
    }
}

proof fn lemma_same_word(a: B256, b: B256)
    ensures
        a.0@ == b.0@ ==> a == b,
{
    if a.0@ == b.0@ {
        assert forall|i: int| 0 <= i < 32 implies a.0[i] == b.0[i] by {
            assert(a.0@[i] == b.0@[i]);
        }
        assert(a.0 =~= b.0);
    }
}

impl Address {
    /// Whether two addresses are the same.
    pub fn same_as(&self, other: &Address) -> (same: bool)
        ensures
            same == (*self == *other),
    {
        proof {
            Self::never_before_itself(*self);
        }
        match self.rank(other) {
            Rank::Same => true,
            _ => false,
        }
    }
}

impl B256 {
    /// Whether two words are the same.
    pub fn same_as(&self, other: &B256) -> (same: bool)
        ensures
            same == (*self == *other),
    {
        proof {
            Self::never_before_itself(*self);
        }
        match self.rank(other) {
            Rank::Same => true,
            _ => false,
        }
    }
}

/// The `i`-th hexadecimal digit of a byte string, counted from the left.
pub open spec fn hex_digit(bytes: Seq<u8>, i: int) -> char {
    let byte = bytes[i / 2];
    let digit = if i % 2 == 0 {
        byte / 16
    } else {
        byte % 16
    };
    if digit < 10 {
        (48 + digit) as char
    } else {
        (87 + digit) as char
    }
}

/// An address as text: `0x`, then its 40 hexadecimal digits in lower case.
pub open spec fn address_text(address: Address) -> Seq<char> {
    seq!['0', 'x'] + Seq::new(40, |i: int| hex_digit(address.0@, i))
}

/// Formats `alloy::primitives::Address` with its `Debug` implementation.
///
/// Trusted: that implementation writes `0x` and the raw bytes in lower-case hexadecimal,
/// without a checksum.
#[verifier::external_body]
pub(crate) fn debug_text(address: &Address) -> (text: String)
    ensures
        text@ == address_text(*address),
{
    format!("{:?}", alloy::primitives::Address::new(address.0))
}

/// The text of an address is ASCII and already in lower case.
pub proof fn law_address_text_is_lower_case(address: Address)
    ensures
        is_ascii_chars(address_text(address)),
        lower(address_text(address)) == address_text(address),
{
    let text = address_text(address);
    assert forall|i: int| 0 <= i < text.len() implies {
        &&& 0 <= #[trigger] text[i] as nat <= 127
        &&& ascii_lower(text[i]) == text[i]
    } by {
        if i >= 2 {
            let byte = address.0@[(i - 2) / 2];
            assert(text[i] == hex_digit(address.0@, i - 2));
            assert(byte / 16 < 16 && byte % 16 < 16);
        }
    }
    assert(lower(text) =~= text);
}

} // verus!
