//! The textual rendering of a map: `LinkedMap [(k1, v1), (k2, v2)]`, each
//! key and value written with its `Debug` formatting.
use std::fmt::Debug;
use vstd::prelude::*;
use vstd::string::StringExecFns;

use crate::linked_map::LinkedMap;

verus! {

/// The pieces joined with `", "` between them.
pub open spec fn join_pieces(pieces: Seq<Seq<char>>) -> Seq<char>
    decreases pieces.len(),
{
    if pieces.len() == 0 {
        Seq::empty()
    } else if pieces.len() == 1 {
        pieces[0]
    } else {
        join_pieces(pieces.drop_last()) + ", "@ + pieces.last()
    }
}

/// One pair, written `(key, value)` from the texts of its key and value.
pub open spec fn pair_piece(key_text: Seq<char>, value_text: Seq<char>) -> Seq<char> {
    "("@ + key_text + ", "@ + value_text + ")"@
}

/// The pieces of the pairs whose key and value texts are `key_texts` and
/// `value_texts`, in order.
pub open spec fn pair_pieces(key_texts: Seq<Seq<char>>, value_texts: Seq<Seq<char>>) -> Seq<
    Seq<char>,
> {
    Seq::new(key_texts.len(), |i: int| pair_piece(key_texts[i], value_texts[i]))
}

/// The rendering of a map whose pairs are written as `pieces`.
pub open spec fn render_pieces(pieces: Seq<Seq<char>>) -> Seq<char> {
    "LinkedMap ["@ + join_pieces(pieces) + "]"@
}

/// The `Debug` text of a value, made with `format!("{:?}", ..)`; what that
/// text is depends on the type's `Debug` impl, so nothing is claimed of it.
#[verifier::external_body]
fn debug_text<T: Debug>(x: &T) -> String {
    format!("{:?}", x)
}

impl<K: Copy + Ord + Debug, V: Debug> LinkedMap<K, V> {
    /// `LinkedMap [` followed by the pairs, each written `(key, value)` and
    /// separated by `, `, and `]`.
    pub fn to_string(&self) -> (r: String)
        ensures
            exists|key_texts: Seq<Seq<char>>, value_texts: Seq<Seq<char>>|
                {
                    &&& key_texts.len() == self@.len()
                    &&& value_texts.len() == self@.len()
                    &&& r@ == render_pieces(pair_pieces(key_texts, value_texts))
                },
    {
        let mut r = "LinkedMap [".to_owned();
        let mut it = self.iter();
        let n = it.len();
        let ghost mut key_texts: Seq<Seq<char>> = Seq::empty();
        let ghost mut value_texts: Seq<Seq<char>> = Seq::empty();
        let mut i: usize = 0;
        proof {
            reveal_strlit("LinkedMap [");
            reveal_strlit("(");
            reveal_strlit(", ");
            reveal_strlit(")");
            assert(pair_pieces(key_texts, value_texts) =~= Seq::<Seq<char>>::empty());
        }
        while i < n
            invariant
                n == self@.len(),
                i <= n,
                it.remaining().len() == n - i,
                key_texts.len() == i,
                value_texts.len() == i,
                r@ == "LinkedMap ["@ + join_pieces(pair_pieces(key_texts, value_texts)),
            decreases n - i,
        {
            let (key, value) = match it.next() {
                Some(pair) => pair,
                None => vstd::pervasive::unreached(),
            };
            let key_text = debug_text(key);
            let value_text = debug_text(value);
            let ghost old_r = r@;
            let ghost old_pieces = pair_pieces(key_texts, value_texts);
            if i > 0 {
                r.append(", ");
            }
            r.append("(");
            r.append(key_text.as_str());
            r.append(", ");
            r.append(value_text.as_str());
            r.append(")");
            proof {
                key_texts = key_texts.push(key_text@);
                value_texts = value_texts.push(value_text@);
                let pieces = pair_pieces(key_texts, value_texts);
                let piece = pair_piece(key_text@, value_text@);
                assert(pieces.drop_last() =~= old_pieces);
                assert(pieces.last() == piece);
                if i == 0 {
                    assert(join_pieces(old_pieces) == Seq::<char>::empty());
                    assert(r@ =~= old_r + piece);
                } else {
                    assert(r@ =~= old_r + ", "@ + piece);
                }
                assert(r@ =~= "LinkedMap ["@ + join_pieces(pieces));
            }
            i += 1;
        }
        r.append("]");
        proof {
            assert(r@ =~= render_pieces(pair_pieces(key_texts, value_texts)));
        }
        r
    }
}

} // verus!
