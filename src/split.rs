//! Splitting a stream of blocks into files by reference chromosome and size.

use crate::model::{BlockView, MAFItem, aligned_of};
use crate::output::block_text;
use crate::parser::{
    FailKind, ItemView, LinesRef, MAFParseError, item_step, items_from, kind_of,
    lemma_items_step, prepend, read_item,
};
use crate::text::{chrom_of, chrom_part, dec_text, push_dec, push_str, string_of};
use crate::ranges::text_equal;
use vstd::prelude::*;

verus! {

/// One output file: its name and its text.
pub struct SplitFile {
    pub name: String,
    pub text: String,
}

/// The files so far, the reference chromosome of the last one and the
/// reference length written to it.
pub struct SplitState {
    pub files: Seq<(Seq<char>, Seq<char>)>,
    pub chrom: Option<Seq<char>>,
    pub length: Option<int>,
}

pub open spec fn maf_suffix() -> Seq<char> {
    seq!['.', 'm', 'a', 'f']
}

/// The header line that opens each file.
pub open spec fn file_header() -> Seq<char> {
    seq!['#', '#', 'm', 'a', 'f', ' ', 'v', 'e', 'r', 's', 'i', 'o', 'n', '=', '1', '\n']
}

/// A file is named after the chromosome and the start of its first block.
pub open spec fn file_name(chrom: Seq<char>, start: u64) -> Seq<char> {
    chrom + seq!['.'] + dec_text(start as nat) + maf_suffix()
}

/// One block: a new file is opened for a new reference chromosome or where
/// the reference length would pass `max_length`; the block goes to the
/// current file. A block without aligned entries goes to the current file,
/// and nowhere before the first file.
pub open spec fn split_step(st: SplitState, b: BlockView, max_length: u64) -> SplitState {
    let al = aligned_of(b.entries);
    let st1 = if al.len() == 0 {
        st
    } else {
        let e = al[0];
        let chr = chrom_of(e.seq);
        let st0 = if st.chrom is None || st.length is None || st.chrom != Some(chr)
            || st.length->0 + e.aligned_length > max_length {
            SplitState {
                files: st.files.push((file_name(chr, e.start), file_header())),
                chrom: Some(chr),
                length: Some(0),
            }
        } else {
            st
        };
        SplitState {
            files: st0.files,
            chrom: st0.chrom,
            length: match st0.length {
                Some(l) => Some(l + e.aligned_length),
                None => None,
            },
        }
    };
    if st1.files.len() == 0 {
        st1
    } else {
        let last = st1.files.last();
        SplitState {
            files: st1.files.update(st1.files.len() - 1, (last.0, last.1 + block_text(b))),
            chrom: st1.chrom,
            length: st1.length,
        }
    }
}

pub open spec fn split_items(items: Seq<ItemView>, max_length: u64) -> SplitState
    decreases items.len(),
{
    if items.len() == 0 {
        SplitState { files: seq![], chrom: None, length: None }
    } else {
        let st = split_items(items.drop_last(), max_length);
        match items.last() {
            ItemView::Comment(_) => st,
            ItemView::Block(b) => split_step(st, b, max_length),
        }
    }
}

pub open spec fn files_view(fs: Seq<(String, Vec<char>)>) -> Seq<(Seq<char>, Seq<char>)> {
    fs.map_values(|f: (String, Vec<char>)| (f.0@, f.1@))
}

pub open spec fn split_files_view(fs: Seq<SplitFile>) -> Seq<(Seq<char>, Seq<char>)> {
    fs.map_values(|f: SplitFile| (f.name@, f.text@))
}

pub open spec fn state_of(files: Seq<(String, Vec<char>)>, cur_chrom: Option<String>, cur_length: Option<u128>) -> SplitState {
    SplitState {
        files: files_view(files),
        chrom: match cur_chrom {
            Some(c) => Some(c@),
            None => None,
        },
        length: match cur_length {
            Some(l) => Some(l as int),
            None => None,
        },
    }
}

/// Writes one block into the files, opening a new one where needed.
fn add_block_to_files(
    files: &mut Vec<(String, Vec<char>)>,
    cur_chrom: &mut Option<String>,
    cur_length: &mut Option<u128>,
    b: &crate::model::MAFBlock,
    max_length: u64,
)
    requires
        *old(cur_length) is Some ==> old(cur_length)->0 <= 0x2_0000_0000_0000_0000,
    ensures
        state_of(final(files)@, *final(cur_chrom), *final(cur_length)) == split_step(
            state_of(old(files)@, *old(cur_chrom), *old(cur_length)),
            b@,
            max_length,
        ),
        *final(cur_length) is Some ==> final(cur_length)->0 <= 0x2_0000_0000_0000_0000,
{
    let ghost st = state_of(files@, *cur_chrom, *cur_length);
    let al = b.aligned_entries();
    if al.len() > 0 {
        let e = &al[0];
        assert(aligned_of(b@.entries)[0] == e@);
        let chr = chrom_part(e.seq.as_str());
        let open_new = match (&*cur_chrom, *cur_length) {
            (Some(c), Some(l)) => !text_equal(chr.as_str(), c.as_str()) || l + e.aligned_length as u128 > max_length as u128,
            _ => true,
        };
        if open_new {
            let mut name: Vec<char> = Vec::new();
            push_str(&mut name, chr.as_str());
            name.push('.');
            push_dec(&mut name, e.start);
            push_str(&mut name, ".maf");
            let mut header: Vec<char> = Vec::new();
            push_str(&mut header, "##maf version=1\n");
            proof {
                reveal_strlit(".maf");
                reveal_strlit("##maf version=1\n");
                assert(".maf"@ =~= maf_suffix());
                assert("##maf version=1\n"@ =~= file_header());
                assert(name@ =~= file_name(chr@, e.start));
            }
            let ghost fv = files_view(files@);
            files.push((string_of(name.as_slice()), header));
            assert(files_view(files@) =~= fv.push((file_name(chr@, e.start), file_header())));
            *cur_chrom = Some(chr);
            *cur_length = Some(0);
        }
        *cur_length = match *cur_length {
            Some(l) => Some(l + e.aligned_length as u128),
            None => None,
        };
    }
    if files.len() > 0 {
        let n = files.len() - 1;
        let t = b.to_maf_string();
        let ghost fv = files_view(files@);
        let (name, mut text) = files.remove(n);
        push_str(&mut text, t.as_str());
        files.push((name, text));
        assert(files_view(files@) =~= fv.update(n as int, (fv[n as int].0, fv[n as int].1 + block_text(b@))));
    }
    proof {
        let st2 = state_of(files@, *cur_chrom, *cur_length);
        assert(st2.files =~= split_step(st, b@, max_length).files);
    }
}

/// Splits the blocks into files, each opened by a header line; comments are
/// dropped. Stops at the first item that cannot be read.
pub fn split_maf(input: &mut LinesRef, max_length: u64) -> (r: Result<Vec<SplitFile>, MAFParseError>)
    requires
        old(input).wf(),
    ensures
        match items_from(old(input).text(), old(input).pos as int) {
            Ok(items) => r is Ok && split_files_view(r->Ok_0@) == split_items(items, max_length).files,
            Err(k) => r is Err && kind_of(r->Err_0) == k,
        },
{
    let ghost ls = input.text();
    let ghost start = input.pos as int;
    let ghost mut done: Seq<ItemView> = seq![];
    let mut files: Vec<(String, Vec<char>)> = Vec::new();
    let mut cur_chrom: Option<String> = None;
    let mut cur_length: Option<u128> = None;
    assert(prepend(done, items_from(ls, start)) == items_from(ls, start)) by {
        match items_from(ls, start) {
            Ok(x) => { assert(done + x =~= x); },
            Err(k) => {},
        }
    }
    assert(files_view(files@) =~= seq![]);
    loop
        invariant
            input.wf(),
            input.text() == ls,
            ls == old(input).text(),
            start == old(input).pos,
            ls.len() == input.lines.len(),
            prepend(done, items_from(ls, input.pos as int)) == items_from(ls, start),
            state_of(files@, cur_chrom, cur_length) == split_items(done, max_length),
            cur_length is Some ==> cur_length->0 <= 0x2_0000_0000_0000_0000,
        decreases input.lines.len() - input.pos,
    {
        let ghost i = input.pos as int;
        let ghost st = item_step(ls, i);
        let item = read_item(input);
        match item {
            Err(e) => {
                if let MAFParseError::EOF = e {
                    proof {
                        assert(items_from(ls, i) == Ok::<Seq<ItemView>, FailKind>(seq![]));
                        assert(done + seq![] =~= done);
                        assert(items_from(ls, start) == Ok::<Seq<ItemView>, FailKind>(done));
                    }
                    let mut out: Vec<SplitFile> = Vec::new();
                    let mut k: usize = 0;
                    while k < files.len()
                        invariant
                            k <= files.len(),
                            split_files_view(out@) == files_view(files@).take(k as int),
                        decreases files.len() - k,
                    {
                        let f = SplitFile { name: files[k].0.clone(), text: string_of(files[k].1.as_slice()) };
                        let ghost before = out@;
                        let ghost fk = files_view(files@)[k as int];
                        assert(fk == (files@[k as int].0@, files@[k as int].1@));
                        out.push(f);
                        assert(split_files_view(out@) =~= split_files_view(before).push(fk));
                        k = k + 1;
                        assert(split_files_view(out@) =~= files_view(files@).take(k as int));
                    }
                    assert(files_view(files@).take(k as int) =~= files_view(files@));
                    return Ok(out);
                }
                proof {
                    assert(items_from(ls, i) == Err::<Seq<ItemView>, FailKind>(kind_of(e)));
                }
                return Err(e);
            },
            Ok(MAFItem::Comment(c)) => {
                proof {
                    lemma_items_step(ls, i, done, ItemView::Comment(c@));
                    let nd = done.push(ItemView::Comment(c@));
                    assert(nd.drop_last() =~= done);
                    done = nd;
                }
            },
            Ok(MAFItem::Block(b)) => {
                proof {
                    lemma_items_step(ls, i, done, ItemView::Block(b@));
                }
                let ghost nd = done.push(ItemView::Block(b@));
                assert(nd.drop_last() =~= done);
                proof {
                    assert(state_of(files@, cur_chrom, cur_length) == split_items(done, max_length));
                }
                add_block_to_files(&mut files, &mut cur_chrom, &mut cur_length, &b, max_length);
                proof {
                    done = nd;
                }
            },
        }
    }
}

} // verus!
