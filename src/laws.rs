//! Properties of the tree walk and the header that hold for every input.

use vstd::prelude::*;
use crate::header::{header_len, parse_header};
use crate::model::{ended, pull, state_wf, tok_len, Pull, TreeState};
use crate::reader::tree_section;

verus! {

/// Bytes after the tree section change neither the header nor the tree
/// section that the reader walks: the walk never reads past `tree_size`
/// bytes of tree.
pub proof fn lemma_trailing_bytes_ignored(d: Seq<u8>, extra: Seq<u8>)
    requires
        parse_header(d).is_ok(),
        d.len() >= header_len(parse_header(d).unwrap()) + parse_header(d).unwrap().tree_size,
    ensures
        parse_header(d + extra) == parse_header(d),
        tree_section(d + extra, parse_header(d).unwrap()) == tree_section(
            d,
            parse_header(d).unwrap(),
        ),
{
    let h = parse_header(d).unwrap();
    let lo = header_len(h) as int;
    let hi = lo + h.tree_size as int;
    assert forall|i: int| 0 <= i < d.len() implies (d + extra)[i] == d[i] by {}
    assert((d + extra).subrange(lo, hi) =~= d.subrange(lo, hi));
}

/// A pull keeps the walk inside the tree section: the bytes consumed never
/// exceed its length.
pub proof fn lemma_pull_within(t: Seq<u8>, s: TreeState)
    requires
        state_wf(t, s),
    ensures
        state_wf(t, pull(t, s).1),
        pull(t, s).1.pos >= s.pos,
        pull(t, s).0 is Entry ==> pull(t, s).1.pos > s.pos,
    decreases t.len() - s.pos,
{
    if !s.done && s.pos < t.len() {
        let n = tok_len(t, s.pos);
        if s.pos + n < t.len() {
            let next = s.pos + n + 1;
            if n == 0 {
                if s.dir.len() > 0 {
                    lemma_pull_within(t, TreeState { pos: next, extn: s.extn, dir: Seq::empty(), done: false });
                } else if s.extn.len() > 0 {
                    lemma_pull_within(t, TreeState { pos: next, extn: Seq::empty(), dir: Seq::empty(), done: false });
                }
            } else if s.extn.len() == 0 {
                lemma_pull_within(t, TreeState { pos: next, extn: t.subrange(s.pos, s.pos + n), dir: s.dir, done: false });
            } else if s.dir.len() == 0 {
                lemma_pull_within(t, TreeState { pos: next, extn: s.extn, dir: t.subrange(s.pos, s.pos + n), done: false });
            }
        }
    }
}

/// Once a pull has returned the end or an error, every later pull returns
/// the end and leaves the state as it is.
pub proof fn lemma_end_is_final(t: Seq<u8>, s: TreeState)
    requires
        !(pull(t, s).0 is Entry),
    ensures
        pull(t, pull(t, s).1) == (Pull::End, pull(t, s).1),
{
    lemma_pull_ends(t, s);
}

proof fn lemma_pull_ends(t: Seq<u8>, s: TreeState)
    requires
        !(pull(t, s).0 is Entry),
    ensures
        pull(t, s).1.done,
    decreases t.len() - s.pos,
{
    if !s.done && s.pos < t.len() {
        let n = tok_len(t, s.pos);
        if s.pos + n < t.len() {
            let next = s.pos + n + 1;
            if n == 0 {
                if s.dir.len() > 0 {
                    lemma_pull_ends(t, TreeState { pos: next, extn: s.extn, dir: Seq::empty(), done: false });
                } else if s.extn.len() > 0 {
                    lemma_pull_ends(t, TreeState { pos: next, extn: Seq::empty(), dir: Seq::empty(), done: false });
                }
            } else if s.extn.len() == 0 {
                lemma_pull_ends(t, TreeState { pos: next, extn: t.subrange(s.pos, s.pos + n), dir: s.dir, done: false });
            } else if s.dir.len() == 0 {
                lemma_pull_ends(t, TreeState { pos: next, extn: s.extn, dir: t.subrange(s.pos, s.pos + n), done: false });
            }
        }
    }
}

/// After the last directory of the last extension, two empty tokens in a
/// row end the walk: the pull returns the end, and so does every pull after.
pub proof fn lemma_double_terminator(t: Seq<u8>, s: TreeState)
    requires
        state_wf(t, s),
        !s.done,
        s.extn.len() > 0,
        s.dir.len() == 0,
        s.pos + 1 < t.len(),
        t[s.pos] == 0,
        t[s.pos + 1] == 0,
    ensures
        pull(t, s).0 == Pull::End,
        pull(t, s).1.done,
        pull(t, s).1.pos == s.pos + 2,
        pull(t, pull(t, s).1) == (Pull::End, pull(t, s).1),
{
    assert(tok_len(t, s.pos) == 0);
    let s1 = TreeState { pos: s.pos + 1, extn: Seq::empty(), dir: Seq::empty(), done: false };
    assert(tok_len(t, s1.pos) == 0);
    assert(pull(t, s) == pull(t, s1));
    lemma_end_is_final(t, s);
}

} // verus!
