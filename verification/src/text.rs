use vstd::prelude::*;
use vstd::utf8::{encode_utf8, encode_utf8_decode_utf8};
use crate::state::{
    lemma_sequence_irreflexive, lemma_sequence_total, lemma_sequence_transitive, place,
    sequence_precedes, views, Placement, State,
};

verus! {

impl State for String {
    /// The lexicographic order of the strings' UTF-8 bytes.
    open spec fn precedes(a: Seq<char>, b: Seq<char>) -> bool {
        sequence_precedes::<u8>(encode_utf8(a), encode_utf8(b), 0)
    }

    proof fn order_laws(a: Seq<char>, b: Seq<char>, c: Seq<char>) {
        let x = encode_utf8(a);
        let y = encode_utf8(b);
        let z = encode_utf8(c);
        lemma_sequence_irreflexive::<u8>(x, 0);
        if sequence_precedes::<u8>(x, y, 0) && sequence_precedes::<u8>(y, z, 0) {
            lemma_sequence_transitive::<u8>(x, y, z, 0);
        }
        lemma_sequence_total::<u8>(x, y, 0);
        encode_utf8_decode_utf8(a);
        encode_utf8_decode_utf8(b);
    }

    fn same(&self, other: &Self) -> (r: bool) {
        *self == *other
    }

    fn before(&self, other: &Self) -> (r: bool) {
        let x = self.as_str().as_bytes();
        let y = other.as_str().as_bytes();
        proof {
            assert(views(x@) =~= encode_utf8(self@));
            assert(views(y@) =~= encode_utf8(other@));
        }
        matches!(place(x, y), Placement::Before)
    }

    fn duplicate(&self) -> (r: Self) {
        self.clone()
    }
}

} // verus!
