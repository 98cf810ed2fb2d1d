//! The fixed-width identifier type used both as an asset-pair key and as a
//! reference to an order's maker.

use vstd::prelude::*;

verus! {

/// An opaque 32-byte value.  Equality is byte equality and the total order is
/// the lexicographic order of the bytes; the matching core never looks inside
/// one beyond that.
#[derive(Clone, Copy, Debug, Hash)]
pub struct Field {
    bytes: [u8; 32],
}

impl View for Field {
    type V = Seq<u8>;

    closed spec fn view(&self) -> Seq<u8> {
        self.bytes@
    }
}

/// Lexicographic order on byte sequences: the first differing byte decides,
/// and a proper prefix comes first.
pub open spec fn lex_lt(a: Seq<u8>, b: Seq<u8>) -> bool
    decreases a.len(),
{
    if b.len() == 0 {
        false
    } else if a.len() == 0 {
        true
    } else if a[0] != b[0] {
        a[0] < b[0]
    } else {
        lex_lt(a.drop_first(), b.drop_first())
    }
}

impl Field {
    /// Builds an identifier from raw bytes; every 32-byte value is valid.
    pub fn new(bytes: [u8; 32]) -> (r: Field)
        ensures
            r@ == bytes@,
    {
        Field { bytes }
    }

    /// Byte equality, the only notion of equality the core uses.
    pub fn equals(&self, other: &Field) -> (r: bool)
        ensures
            r == (self@ == other@),
    {
        let mut i: usize = 0;
        while i < 32
            invariant
                i <= 32,
                forall|j: int| 0 <= j < i ==> self@[j] == other@[j],
            decreases 32 - i,
        {
            if self.bytes[i] != other.bytes[i] {
                assert(self@[i as int] != other@[i as int]);
                return false;
            }
            i += 1;
        }
        proof {
            assert(self@ =~= other@);
        }
        true
    }

    /// Strict lexicographic comparison of the bytes, the core's total order
    /// on identifiers.
    pub fn lt(&self, other: &Field) -> (r: bool)
        ensures
            r == lex_lt(self@, other@),
    {
        let mut i: usize = 0;
        proof {
            assert(self@.skip(0) =~= self@);
            assert(other@.skip(0) =~= other@);
        }
        while i < 32
            invariant
                i <= 32,
                forall|j: int| 0 <= j < i ==> self@[j] == other@[j],
                lex_lt(self@, other@) == lex_lt(self@.skip(i as int), other@.skip(i as int)),
            decreases 32 - i,
        {
            let a = self.bytes[i];
            let b = other.bytes[i];
            if a != b {
                assert(self@.skip(i as int)[0] == a && other@.skip(i as int)[0] == b);
                return a < b;
            }
            proof {
                assert(self@.skip(i as int).drop_first() =~= self@.skip(i as int + 1));
                assert(other@.skip(i as int).drop_first() =~= other@.skip(i as int + 1));
            }
            i += 1;
        }
        proof {
            assert(self@.skip(32) =~= Seq::<u8>::empty());
            assert(other@.skip(32) =~= Seq::<u8>::empty());
        }
        false
    }
}

impl Default for Field {
    /// The all-zero sentinel value.
    fn default() -> (r: Field)
        ensures
            r@.len() == 32,
            forall|j: int| 0 <= j < 32 ==> r@[j] == 0u8,
    {
        Field { bytes: [0u8; 32] }
    }
}

} // verus!
