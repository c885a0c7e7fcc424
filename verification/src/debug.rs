use crate::object::RTreeObject;
use crate::rtree::RTree;
use crate::selection::{select_from, SelectAllFunc, SelectionIterator};
use vstd::prelude::*;

verus! {

/// `format!` with `{:?}`: the text that the value's `Debug` gives. Nothing is
/// claimed of the text.
#[verifier::external_body]
fn debug_text<T: std::fmt::Debug>(t: &T) -> (r: String) {
    format!("{:?}", t)
}

/// `String::push_str`: appends the given text to the string.
pub assume_specification[ String::push_str ](s: &mut String, other: &str)
    ensures
        final(s)@ == old(s)@ + other@,
;

/// The texts of `texts`, with a comma and a blank between each two of them.
pub open spec fn joined(texts: Seq<Seq<char>>) -> Seq<char>
    decreases texts.len(),
{
    if texts.len() == 0 {
        Seq::empty()
    } else if texts.len() == 1 {
        texts[0]
    } else {
        joined(texts.drop_last()) + ", "@ + texts.last()
    }
}

/// How a tree is written out: its size, then its objects in braces.
pub open spec fn tree_text(size: Seq<char>, objects: Seq<Seq<char>>) -> Seq<char> {
    "RTree { size: "@ + size + ", items: {"@ + joined(objects) + "} }"@
}

impl<T: RTreeObject + std::fmt::Debug> RTree<T> {
    /// Writes the tree out for a developer, as `RTree { size: 2, items: {a, b} }`:
    /// the size and every object as their `Debug` writes them, the objects in
    /// the order of a walk through the tree.
    pub fn fmt(&self) -> (r: String)
        ensures
            exists|size: Seq<char>, objects: Seq<Seq<char>>|
                objects.len() == select_from(self.root, SelectAllFunc).len() && r@ == tree_text(
                    size,
                    objects,
                ),
    {
        let mut out = String::new();
        out.push_str("RTree { size: ");
        let size_text = debug_text(&self.size);
        out.push_str(size_text.as_str());
        out.push_str(", items: {");
        let ghost start = out@;
        let ghost mut texts: Seq<Seq<char>> = Seq::empty();
        let mut first = true;
        let mut walk = SelectionIterator::new(&self.root, SelectAllFunc);
        let ghost all = walk.pending();
        proof {
            assert(start =~= "RTree { size: "@ + size_text@ + ", items: {"@);
            assert(out@ =~= start + joined(texts));
        }
        loop
            invariant
                out@ == start + joined(texts),
                start == "RTree { size: "@ + size_text@ + ", items: {"@,
                all == select_from(self.root, SelectAllFunc),
                first == (texts.len() == 0),
                texts.len() + walk.pending().len() == all.len(),
            decreases walk.pending().len(),
        {
            match walk.next() {
                None => {
                    out.push_str("} }");
                    proof {
                        assert(out@ =~= tree_text(size_text@, texts));
                    }
                    return out;
                },
                Some(x) => {
                    let ghost had = texts;
                    let piece = debug_text(x);
                    if !first {
                        out.push_str(", ");
                    }
                    first = false;
                    out.push_str(piece.as_str());
                    proof {
                        texts = had.push(piece@);
                        assert(texts.drop_last() =~= had);
                        if had.len() == 0 {
                            assert(joined(had) =~= Seq::<char>::empty());
                            assert(out@ =~= start + joined(texts));
                        } else {
                            assert(out@ =~= start + joined(texts));
                        }
                    }
                },
            }
        }
    }
}

} // verus!
