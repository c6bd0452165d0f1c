//! Strict total orders on the keys that the library's maps are sorted by.
use vstd::prelude::*;
use vstd::string::*;
use vstd::utf8::*;

verus! {

/// Where a key stands relative to another one.
pub enum Rank {
    Before,
    Same,
    After,
}

/// A key that can be kept in a sorted map.
///
/// `Model` is what two keys have in common exactly when the map takes them for the same key.
pub trait Key: Sized {
    type Model;

    spec fn model(&self) -> Self::Model;

    /// The order of the map: strict, total and transitive, as the three laws below say.
    spec fn before(a: Self::Model, b: Self::Model) -> bool;

    proof fn never_before_itself(a: Self::Model)
        ensures
            !Self::before(a, a),
    ;

    proof fn before_chains(a: Self::Model, b: Self::Model, c: Self::Model)
        requires
            Self::before(a, b),
            Self::before(b, c),
        ensures
            Self::before(a, c),
    ;

    proof fn before_decides(a: Self::Model, b: Self::Model)
        ensures
            a == b || Self::before(a, b) || Self::before(b, a),
    ;

    fn rank(&self, other: &Self) -> (rank: Rank)
        ensures
            match rank {
                Rank::Before => Self::before(self.model(), other.model()),
                Rank::Same => self.model() == other.model(),
                Rank::After => Self::before(other.model(), self.model()),
            },
    ;
}

/// Lexicographic order on byte strings; a proper prefix comes first.
pub open spec fn bytes_before(a: Seq<u8>, b: Seq<u8>) -> bool
    decreases a.len(),
{
    if b.len() == 0 {
        false
    } else if a.len() == 0 {
        true
    } else if a[0] != b[0] {
        a[0] < b[0]
    } else {
        bytes_before(a.drop_first(), b.drop_first())
    }
}

pub proof fn lemma_bytes_before_irreflexive(a: Seq<u8>)
    ensures
        !bytes_before(a, a),
    decreases a.len(),
{
    if a.len() > 0 {
        lemma_bytes_before_irreflexive(a.drop_first());
    }
}

pub proof fn lemma_bytes_before_transitive(a: Seq<u8>, b: Seq<u8>, c: Seq<u8>)
    requires
        bytes_before(a, b),
        bytes_before(b, c),
    ensures
        bytes_before(a, c),
    decreases a.len(),
{
    if a.len() > 0 && a[0] == b[0] && b[0] == c[0] {
        lemma_bytes_before_transitive(a.drop_first(), b.drop_first(), c.drop_first());
    }
}

pub proof fn lemma_bytes_before_total(a: Seq<u8>, b: Seq<u8>)
    ensures
        a == b || bytes_before(a, b) || bytes_before(b, a),
    decreases a.len(),
{
    if a.len() == 0 || b.len() == 0 {
        if a.len() == 0 && b.len() == 0 {
            assert(a =~= b);
        }
    } else if a[0] == b[0] {
        lemma_bytes_before_total(a.drop_first(), b.drop_first());
        if a.drop_first() == b.drop_first() {
            assert(a =~= seq![a[0]] + a.drop_first());
            assert(b =~= seq![b[0]] + b.drop_first());
        }
    }
}

/// Compares two byte strings.
pub fn rank_bytes(a: &[u8], b: &[u8]) -> (rank: Rank)
    ensures
        match rank {
            Rank::Before => bytes_before(a@, b@),
            Rank::Same => a@ == b@,
            Rank::After => bytes_before(b@, a@),
        },
{
    let mut i: usize = 0;
    assert(a@.skip(0) =~= a@);
    assert(b@.skip(0) =~= b@);
    while i < a.len() && i < b.len()
        invariant
            i <= a@.len(),
            i <= b@.len(),
            a@.take(i as int) == b@.take(i as int),
            bytes_before(a@, b@) == bytes_before(a@.skip(i as int), b@.skip(i as int)),
            bytes_before(b@, a@) == bytes_before(b@.skip(i as int), a@.skip(i as int)),
        decreases a@.len() - i,
    {
        let x = a[i];
        let y = b[i];
        assert(a@.skip(i as int)[0] == x && b@.skip(i as int)[0] == y);
        if x < y {
            return Rank::Before;
        }
        if y < x {
            return Rank::After;
        }
        proof {
            assert(a@.skip(i as int).drop_first() =~= a@.skip(i + 1));
            assert(b@.skip(i as int).drop_first() =~= b@.skip(i + 1));
            assert(a@.take(i + 1) =~= a@.take(i as int).push(x));
            assert(b@.take(i + 1) =~= b@.take(i as int).push(y));
        }
        i = i + 1;
    }
    if i < b.len() {
        Rank::Before
    } else if i < a.len() {
        Rank::After
    } else {
        assert(a@ =~= a@.take(i as int));
        assert(b@ =~= b@.take(i as int));
        Rank::Same
    }
}

/// Strings are ordered by their UTF-8 bytes.
pub open spec fn text_before(a: Seq<char>, b: Seq<char>) -> bool {
    bytes_before(encode_utf8(a), encode_utf8(b))
}

proof fn lemma_text_before_total(a: Seq<char>, b: Seq<char>)
    ensures
        a == b || text_before(a, b) || text_before(b, a),
{
    lemma_bytes_before_total(encode_utf8(a), encode_utf8(b));
    if encode_utf8(a) == encode_utf8(b) {
        encode_utf8_decode_utf8(a);
        encode_utf8_decode_utf8(b);
    }
}

/// Compares two strings.
pub fn rank_text(a: &str, b: &str) -> (rank: Rank)
    ensures
        match rank {
            Rank::Before => text_before(a@, b@),
            Rank::Same => a@ == b@,
            Rank::After => text_before(b@, a@),
        },
{
    let rank = rank_bytes(a.as_bytes(), b.as_bytes());
    proof {
        encode_utf8_decode_utf8(a@);
        encode_utf8_decode_utf8(b@);
    }
    rank
}

impl Key for String {
    type Model = Seq<char>;

    open spec fn model(&self) -> Seq<char> {
        self@
    }

    open spec fn before(a: Seq<char>, b: Seq<char>) -> bool {
        text_before(a, b)
    }

    proof fn never_before_itself(a: Seq<char>) {
        lemma_bytes_before_irreflexive(encode_utf8(a));
    }

    proof fn before_chains(a: Seq<char>, b: Seq<char>, c: Seq<char>) {
        lemma_bytes_before_transitive(encode_utf8(a), encode_utf8(b), encode_utf8(c));
    }

    proof fn before_decides(a: Seq<char>, b: Seq<char>) {
        lemma_text_before_total(a, b);
    }

    fn rank(&self, other: &String) -> (rank: Rank) {
        rank_text(self.as_str(), other.as_str())
    }
}

/// A pair of strings is ordered by its first component, then by its second.
impl Key for (String, String) {
    type Model = (Seq<char>, Seq<char>);

    open spec fn model(&self) -> (Seq<char>, Seq<char>) {
        (self.0@, self.1@)
    }

    open spec fn before(a: (Seq<char>, Seq<char>), b: (Seq<char>, Seq<char>)) -> bool {
        text_before(a.0, b.0) || (a.0 == b.0 && text_before(a.1, b.1))
    }

    proof fn never_before_itself(a: (Seq<char>, Seq<char>)) {
        lemma_bytes_before_irreflexive(encode_utf8(a.0));
        lemma_bytes_before_irreflexive(encode_utf8(a.1));
    }

    proof fn before_chains(
        a: (Seq<char>, Seq<char>),
        b: (Seq<char>, Seq<char>),
        c: (Seq<char>, Seq<char>),
    ) {
        if text_before(a.0, b.0) && text_before(b.0, c.0) {
            lemma_bytes_before_transitive(encode_utf8(a.0), encode_utf8(b.0), encode_utf8(c.0));
        }
        if text_before(a.1, b.1) && text_before(b.1, c.1) {
            lemma_bytes_before_transitive(encode_utf8(a.1), encode_utf8(b.1), encode_utf8(c.1));
        }
    }

    proof fn before_decides(a: (Seq<char>, Seq<char>), b: (Seq<char>, Seq<char>)) {
        lemma_text_before_total(a.0, b.0);
        lemma_text_before_total(a.1, b.1);
    }

    fn rank(&self, other: &(String, String)) -> (rank: Rank) {
        match rank_text(self.0.as_str(), other.0.as_str()) {
            Rank::Before => Rank::Before,
            Rank::After => Rank::After,
            Rank::Same => rank_text(self.1.as_str(), other.1.as_str()),
        }
    }
}

} // verus!
