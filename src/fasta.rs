//! Reading a stream of blocks toward an aligned FASTA, which is not written.

use crate::model::MAFItem;
use crate::parser::{
    FailKind, ItemView, LinesRef, MAFParseError, items_from, kind_of, lemma_items_step, prepend,
    read_item,
};
use vstd::prelude::*;

verus! {

/// Reads every item of the input. Nothing is written yet: this only tells
/// whether the input can be read to its end.
pub fn maf_to_fasta(input: &mut LinesRef) -> (r: Result<(), MAFParseError>)
    requires
        old(input).wf(),
    ensures
        match items_from(old(input).text(), old(input).pos as int) {
            Ok(_) => r is Ok,
            Err(k) => r is Err && kind_of(r->Err_0) == k,
        },
{
    let ghost ls = input.text();
    let ghost start = input.pos as int;
    let ghost mut done: Seq<ItemView> = seq![];
    assert(prepend(done, items_from(ls, start)) == items_from(ls, start)) by {
        match items_from(ls, start) {
            Ok(x) => { assert(done + x =~= x); },
            Err(k) => {},
        }
    }
    loop
        invariant
            input.wf(),
            input.text() == ls,
            ls == old(input).text(),
            start == old(input).pos,
            ls.len() == input.lines.len(),
            prepend(done, items_from(ls, input.pos as int)) == items_from(ls, start),
        decreases input.lines.len() - input.pos,
    {
        let ghost i = input.pos as int;
        match read_item(input) {
            Err(e) => {
                if let MAFParseError::EOF = e {
                    assert(items_from(ls, i) == Ok::<Seq<ItemView>, FailKind>(seq![]));
                    return Ok(());
                }
                assert(items_from(ls, i) == Err::<Seq<ItemView>, FailKind>(kind_of(e)));
                return Err(e);
            },
            Ok(MAFItem::Comment(c)) => {
                proof {
                    lemma_items_step(ls, i, done, ItemView::Comment(c@));
                    done = done.push(ItemView::Comment(c@));
                }
            },
            Ok(MAFItem::Block(b)) => {
                proof {
                    lemma_items_step(ls, i, done, ItemView::Block(b@));
                    done = done.push(ItemView::Block(b@));
                }
            },
        }
    }
}

} // verus!
