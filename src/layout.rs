//! How a directory tree is laid out in bytes, as a model of what the walk
//! reads: extensions, each holding directories, each holding files.

use vstd::prelude::*;
use crate::bytes::{le16, le32, utf8_text};
use crate::laws::lemma_pull_within;
use crate::model::{
    archive_of, initial_state, join_path, lemma_tok_len, pull, state_wf, tok_len, walk, EntryView,
    Pull, TreeState, ENTRY_RECORD_LEN, ENTRY_TERMINATOR,
};

verus! {

/// A file of the tree: its name and the fields of its entry record.
pub struct FileSpec {
    pub name: Seq<u8>,
    pub crc: u32,
    pub archive: u16,
    pub offset: u32,
    pub length: u32,
    pub preload: Seq<u8>,
}

/// A directory and its files.
pub struct DirSpec {
    pub dir: Seq<u8>,
    pub files: Seq<FileSpec>,
}

/// An extension and its directories.
pub struct ExtnSpec {
    pub extn: Seq<u8>,
    pub dirs: Seq<DirSpec>,
}

/// The little-endian bytes of a `u16`.
pub open spec fn u16_bytes(v: u16) -> Seq<u8> {
    seq![(v % 256) as u8, (v / 256) as u8]
}

/// The little-endian bytes of a `u32`.
pub open spec fn u32_bytes(v: u32) -> Seq<u8> {
    seq![(v % 256) as u8, ((v / 256) % 256) as u8, ((v / 65536) % 256) as u8, (v / 16777216) as u8]
}

/// A file's entry record: the fixed fields, then the preload data.
pub open spec fn record_bytes(f: FileSpec) -> Seq<u8> {
    u32_bytes(f.crc) + u16_bytes(f.preload.len() as u16) + u16_bytes(f.archive) + u32_bytes(
        f.offset,
    ) + u32_bytes(f.length) + u16_bytes(ENTRY_TERMINATOR) + f.preload
}

/// A file: its name token, then its entry record.
pub open spec fn file_bytes(f: FileSpec) -> Seq<u8> {
    f.name.push(0) + record_bytes(f)
}

pub open spec fn files_bytes(fs: Seq<FileSpec>) -> Seq<u8>
    decreases fs.len(),
{
    if fs.len() == 0 {
        Seq::empty()
    } else {
        file_bytes(fs[0]) + files_bytes(fs.drop_first())
    }
}

/// A directory: its token, its files, and an empty token.
pub open spec fn dir_bytes(d: DirSpec) -> Seq<u8> {
    d.dir.push(0) + files_bytes(d.files) + seq![0u8]
}

pub open spec fn dirs_bytes(ds: Seq<DirSpec>) -> Seq<u8>
    decreases ds.len(),
{
    if ds.len() == 0 {
        Seq::empty()
    } else {
        dir_bytes(ds[0]) + dirs_bytes(ds.drop_first())
    }
}

/// An extension: its token, its directories, and an empty token.
pub open spec fn extn_bytes(e: ExtnSpec) -> Seq<u8> {
    e.extn.push(0) + dirs_bytes(e.dirs) + seq![0u8]
}

pub open spec fn extns_bytes(es: Seq<ExtnSpec>) -> Seq<u8>
    decreases es.len(),
{
    if es.len() == 0 {
        Seq::empty()
    } else {
        extn_bytes(es[0]) + extns_bytes(es.drop_first())
    }
}

/// A whole tree section: the extensions, then a final empty token.
pub open spec fn tree_bytes(es: Seq<ExtnSpec>) -> Seq<u8> {
    extns_bytes(es) + seq![0u8]
}

/// A token that can be stored: not empty, and without zero bytes.
pub open spec fn token_ok(b: Seq<u8>) -> bool {
    b.len() > 0 && forall|i: int| 0 <= i < b.len() ==> b[i] != 0
}

pub open spec fn files_ok(extn: Seq<u8>, dir: Seq<u8>, fs: Seq<FileSpec>) -> bool {
    forall|i: int|
        0 <= i < fs.len() ==> {
            &&& token_ok(#[trigger] fs[i].name)
            &&& fs[i].preload.len() < 65536
            &&& utf8_text(join_path(extn, dir, fs[i].name)).is_some()
        }
}

pub open spec fn dirs_ok(extn: Seq<u8>, ds: Seq<DirSpec>) -> bool {
    forall|i: int|
        0 <= i < ds.len() ==> token_ok(#[trigger] ds[i].dir) && files_ok(
            extn,
            ds[i].dir,
            ds[i].files,
        )
}

/// Every token of the tree can be stored, every preload block fits its
/// length field, and every path is valid text.
pub open spec fn extns_ok(es: Seq<ExtnSpec>) -> bool {
    forall|i: int|
        0 <= i < es.len() ==> token_ok(#[trigger] es[i].extn) && dirs_ok(es[i].extn, es[i].dirs)
}

/// The record that a walk yields for file `f` under `extn` and `dir`.
pub open spec fn entry_of(extn: Seq<u8>, dir: Seq<u8>, f: FileSpec) -> EntryView {
    EntryView {
        file: utf8_text(join_path(extn, dir, f.name)).unwrap(),
        crc: f.crc,
        preload_data: f.preload,
        archive_index: archive_of(f.archive),
        entry_offset: f.offset,
        entry_length: f.length,
    }
}

pub open spec fn files_entries(extn: Seq<u8>, dir: Seq<u8>, fs: Seq<FileSpec>) -> Seq<EntryView>
    decreases fs.len(),
{
    if fs.len() == 0 {
        Seq::empty()
    } else {
        seq![entry_of(extn, dir, fs[0])] + files_entries(extn, dir, fs.drop_first())
    }
}

pub open spec fn dirs_entries(extn: Seq<u8>, ds: Seq<DirSpec>) -> Seq<EntryView>
    decreases ds.len(),
{
    if ds.len() == 0 {
        Seq::empty()
    } else {
        files_entries(extn, ds[0].dir, ds[0].files) + dirs_entries(extn, ds.drop_first())
    }
}

/// The records of the tree's files, in the order they are stored.
pub open spec fn extns_entries(es: Seq<ExtnSpec>) -> Seq<EntryView>
    decreases es.len(),
{
    if es.len() == 0 {
        Seq::empty()
    } else {
        dirs_entries(es[0].extn, es[0].dirs) + extns_entries(es.drop_first())
    }
}

proof fn lemma_u16_bytes(v: u16)
    ensures
        le16(u16_bytes(v), 0) == v,
{
    let b = u16_bytes(v);
    assert(b[0] as int == v % 256);
    assert(b[1] as int == v / 256);
    assert((v % 256) + 256 * (v / 256) == v) by (nonlinear_arith);
}

proof fn lemma_u32_bytes(v: u32)
    ensures
        le32(u32_bytes(v), 0) == v,
{
    let b = u32_bytes(v);
    let x = v as int;
    assert(b[0] as int == x % 256);
    assert(b[1] as int == (x / 256) % 256);
    assert(b[2] as int == (x / 65536) % 256);
    assert(b[3] as int == x / 16777216);
    assert(x % 256 + 256 * ((x / 256) % 256) + 65536 * ((x / 65536) % 256) + 16777216 * (x
        / 16777216) == x) by (nonlinear_arith)
        requires
            0 <= x < 0x1_0000_0000,
    ;
}

/// Where `a + b` lies in `t` at `p`, `a` lies at `p` and `b` right after it.
proof fn lemma_split(t: Seq<u8>, p: int, a: Seq<u8>, b: Seq<u8>)
    requires
        0 <= p,
        p + a.len() + b.len() <= t.len(),
        t.subrange(p, p + a.len() + b.len()) == a + b,
    ensures
        t.subrange(p, p + a.len()) == a,
        t.subrange(p + a.len(), p + a.len() + b.len()) == b,
{
    let w = t.subrange(p, p + a.len() + b.len());
    assert forall|i: int| 0 <= i < a.len() implies t[p + i] == a[i] by {
        assert(w[i] == t[p + i]);
        assert(w[i] == (a + b)[i]);
    }
    assert forall|i: int| 0 <= i < b.len() implies t[p + a.len() + i] == b[i] by {
        assert(w[a.len() + i] == t[p + a.len() + i]);
        assert(w[a.len() + i] == (a + b)[a.len() + i]);
    }
    assert(t.subrange(p, p + a.len()) =~= a);
    assert(t.subrange(p + a.len(), p + a.len() + b.len()) =~= b);
}

/// A stored token is read back whole.
proof fn lemma_token(t: Seq<u8>, p: int, tok: Seq<u8>)
    requires
        token_ok(tok),
        0 <= p,
        p + tok.len() + 1 <= t.len(),
        t.subrange(p, p + tok.len() + 1) == tok.push(0),
    ensures
        tok_len(t, p) == tok.len(),
        t.subrange(p, p + tok.len()) == tok,
{
    let w = t.subrange(p, p + tok.len() + 1);
    assert forall|k: int| p <= k < p + tok.len() implies t[k] != 0 by {
        assert(w[k - p] == t[k]);
        assert(w[k - p] == tok.push(0)[k - p]);
    }
    assert(w[tok.len() as int] == t[p + tok.len()]);
    assert(w[tok.len() as int] == tok.push(0)[tok.len() as int]);
    lemma_tok_len(t, p, p + tok.len());
    assert(t.subrange(p, p + tok.len()) =~= tok);
}

/// A stored entry record is read back field by field.
proof fn lemma_record(t: Seq<u8>, q: int, f: FileSpec)
    requires
        0 <= q,
        f.preload.len() < 65536,
        q + record_bytes(f).len() <= t.len(),
        t.subrange(q, q + record_bytes(f).len()) == record_bytes(f),
    ensures
        record_bytes(f).len() == ENTRY_RECORD_LEN + f.preload.len(),
        le32(t, q) == f.crc,
        le16(t, q + 4) == f.preload.len(),
        le16(t, q + 6) == f.archive,
        le32(t, q + 8) == f.offset,
        le32(t, q + 12) == f.length,
        le16(t, q + 16) == ENTRY_TERMINATOR,
        t.subrange(q + ENTRY_RECORD_LEN, q + ENTRY_RECORD_LEN + f.preload.len()) == f.preload,
{
    let r = record_bytes(f);
    let w = t.subrange(q, q + r.len());
    assert(r.len() == 18 + f.preload.len());
    assert forall|i: int| 0 <= i < r.len() implies t[q + i] == r[i] by {
        assert(w[i] == t[q + i]);
    }
    let b0 = u32_bytes(f.crc);
    let b1 = u16_bytes(f.preload.len() as u16);
    let b2 = u16_bytes(f.archive);
    let b3 = u32_bytes(f.offset);
    let b4 = u32_bytes(f.length);
    let b5 = u16_bytes(ENTRY_TERMINATOR);
    assert(r[0] == b0[0] && r[1] == b0[1] && r[2] == b0[2] && r[3] == b0[3]);
    assert(r[4] == b1[0] && r[5] == b1[1]);
    assert(r[6] == b2[0] && r[7] == b2[1]);
    assert(r[8] == b3[0] && r[9] == b3[1] && r[10] == b3[2] && r[11] == b3[3]);
    assert(r[12] == b4[0] && r[13] == b4[1] && r[14] == b4[2] && r[15] == b4[3]);
    assert(r[16] == b5[0] && r[17] == b5[1]);
    lemma_u32_bytes(f.crc);
    lemma_u16_bytes(f.preload.len() as u16);
    lemma_u16_bytes(f.archive);
    lemma_u32_bytes(f.offset);
    lemma_u32_bytes(f.length);
    lemma_u16_bytes(ENTRY_TERMINATOR);
    assert forall|i: int| 0 <= i < f.preload.len() implies t[q + 18 + i] == f.preload[i] by {
        assert(r[18 + i] == f.preload[i]);
    }
    assert(t.subrange(q + ENTRY_RECORD_LEN, q + ENTRY_RECORD_LEN + f.preload.len()) =~= f.preload);
}

/// A walk state that has not ended.
pub open spec fn at(pos: int, extn: Seq<u8>, dir: Seq<u8>) -> TreeState {
    TreeState { pos, extn, dir, done: false }
}

/// A pull that goes on to `s2` without returning walks on as from `s2`.
proof fn lemma_skip(t: Seq<u8>, s: TreeState, s2: TreeState)
    requires
        state_wf(t, s),
        state_wf(t, s2),
        s.pos < s2.pos,
        pull(t, s) == pull(t, s2),
    ensures
        walk(t, s) == walk(t, s2),
{
    lemma_pull_within(t, s2);
}

/// A pull that returns a record is followed by the walk from its state.
proof fn lemma_entry_step(t: Seq<u8>, s: TreeState, e: EntryView, s2: TreeState)
    requires
        state_wf(t, s),
        pull(t, s) == (Pull::Entry(e), s2),
    ensures
        walk(t, s) == (seq![e] + walk(t, s2).0, walk(t, s2).1, walk(t, s2).2),
{
    lemma_pull_within(t, s);
}

proof fn lemma_walk_files(t: Seq<u8>, p: int, e: Seq<u8>, d: Seq<u8>, fs: Seq<FileSpec>)
    requires
        token_ok(e),
        token_ok(d),
        files_ok(e, d, fs),
        0 <= p,
        p + files_bytes(fs).len() <= t.len(),
        t.subrange(p, p + files_bytes(fs).len()) == files_bytes(fs),
    ensures
        walk(t, at(p, e, d)) == (
            files_entries(e, d, fs) + walk(t, at(p + files_bytes(fs).len(), e, d)).0,
            walk(t, at(p + files_bytes(fs).len(), e, d)).1,
            walk(t, at(p + files_bytes(fs).len(), e, d)).2,
        ),
    decreases fs.len(),
{
    if fs.len() == 0 {
        assert(files_entries(e, d, fs) + walk(t, at(p, e, d)).0 =~= walk(t, at(p, e, d)).0);
    } else {
        let f = fs[0];
        let rest = fs.drop_first();
        let fb = file_bytes(f);
        assert(token_ok(fs[0].name));
        lemma_split(t, p, fb, files_bytes(rest));
        lemma_split(t, p, f.name.push(0), record_bytes(f));
        lemma_token(t, p, f.name);
        let q = p + f.name.len() + 1;
        lemma_record(t, q, f);
        let s2 = at(p + fb.len(), e, d);
        assert(pull(t, at(p, e, d)) == (Pull::Entry(entry_of(e, d, f)), s2));
        lemma_entry_step(t, at(p, e, d), entry_of(e, d, f), s2);
        assert forall|i: int| 0 <= i < rest.len() implies {
            &&& token_ok(#[trigger] rest[i].name)
            &&& rest[i].preload.len() < 65536
            &&& utf8_text(join_path(e, d, rest[i].name)).is_some()
        } by {
            assert(rest[i] == fs[i + 1]);
        }
        lemma_walk_files(t, p + fb.len(), e, d, rest);
        let tail = walk(t, at(p + files_bytes(fs).len(), e, d));
        assert(seq![entry_of(e, d, f)] + (files_entries(e, d, rest) + tail.0) =~= files_entries(
            e,
            d,
            fs,
        ) + tail.0);
    }
}

proof fn lemma_walk_dirs(t: Seq<u8>, p: int, e: Seq<u8>, ds: Seq<DirSpec>)
    requires
        token_ok(e),
        dirs_ok(e, ds),
        0 <= p,
        p + dirs_bytes(ds).len() <= t.len(),
        t.subrange(p, p + dirs_bytes(ds).len()) == dirs_bytes(ds),
    ensures
        walk(t, at(p, e, Seq::empty())) == (
            dirs_entries(e, ds) + walk(t, at(p + dirs_bytes(ds).len(), e, Seq::empty())).0,
            walk(t, at(p + dirs_bytes(ds).len(), e, Seq::empty())).1,
            walk(t, at(p + dirs_bytes(ds).len(), e, Seq::empty())).2,
        ),
    decreases ds.len(),
{
    let none = Seq::<u8>::empty();
    if ds.len() == 0 {
        assert(dirs_entries(e, ds) + walk(t, at(p, e, none)).0 =~= walk(t, at(p, e, none)).0);
    } else {
        let d = ds[0];
        let rest = ds.drop_first();
        assert(token_ok(ds[0].dir) && files_ok(e, ds[0].dir, ds[0].files));
        let fb = files_bytes(d.files);
        lemma_split(t, p, dir_bytes(d), dirs_bytes(rest));
        lemma_split(t, p, d.dir.push(0) + fb, seq![0u8]);
        lemma_split(t, p, d.dir.push(0), fb);
        lemma_token(t, p, d.dir);
        let q = p + d.dir.len() + 1;
        assert(pull(t, at(p, e, none)) == pull(t, at(q, e, d.dir)));
        lemma_skip(t, at(p, e, none), at(q, e, d.dir));
        lemma_walk_files(t, q, e, d.dir, d.files);
        let r = q + fb.len();
        assert(t.subrange(r, r + 1)[0] == t[r]);
        lemma_tok_len(t, r, r);
        assert(pull(t, at(r, e, d.dir)) == pull(t, at(r + 1, e, none)));
        lemma_skip(t, at(r, e, d.dir), at(r + 1, e, none));
        assert forall|i: int| 0 <= i < rest.len() implies token_ok(#[trigger] rest[i].dir)
            && files_ok(e, rest[i].dir, rest[i].files) by {
            assert(rest[i] == ds[i + 1]);
        }
        lemma_walk_dirs(t, r + 1, e, rest);
        let tail = walk(t, at(p + dirs_bytes(ds).len(), e, none));
        assert(files_entries(e, d.dir, d.files) + (dirs_entries(e, rest) + tail.0)
            =~= dirs_entries(e, ds) + tail.0);
    }
}

proof fn lemma_walk_extns(t: Seq<u8>, p: int, es: Seq<ExtnSpec>)
    requires
        extns_ok(es),
        0 <= p,
        p + extns_bytes(es).len() <= t.len(),
        t.subrange(p, p + extns_bytes(es).len()) == extns_bytes(es),
    ensures
        walk(t, at(p, Seq::empty(), Seq::empty())) == (
            extns_entries(es) + walk(
                t,
                at(p + extns_bytes(es).len(), Seq::empty(), Seq::empty()),
            ).0,
            walk(t, at(p + extns_bytes(es).len(), Seq::empty(), Seq::empty())).1,
            walk(t, at(p + extns_bytes(es).len(), Seq::empty(), Seq::empty())).2,
        ),
    decreases es.len(),
{
    let none = Seq::<u8>::empty();
    if es.len() == 0 {
        assert(extns_entries(es) + walk(t, at(p, none, none)).0 =~= walk(
            t,
            at(p, none, none),
        ).0);
    } else {
        let x = es[0];
        let rest = es.drop_first();
        assert(token_ok(es[0].extn) && dirs_ok(es[0].extn, es[0].dirs));
        let db = dirs_bytes(x.dirs);
        lemma_split(t, p, extn_bytes(x), extns_bytes(rest));
        lemma_split(t, p, x.extn.push(0) + db, seq![0u8]);
        lemma_split(t, p, x.extn.push(0), db);
        lemma_token(t, p, x.extn);
        let q = p + x.extn.len() + 1;
        assert(pull(t, at(p, none, none)) == pull(t, at(q, x.extn, none)));
        lemma_skip(t, at(p, none, none), at(q, x.extn, none));
        lemma_walk_dirs(t, q, x.extn, x.dirs);
        let r = q + db.len();
        assert(t.subrange(r, r + 1)[0] == t[r]);
        lemma_tok_len(t, r, r);
        assert(pull(t, at(r, x.extn, none)) == pull(t, at(r + 1, none, none)));
        lemma_skip(t, at(r, x.extn, none), at(r + 1, none, none));
        assert forall|i: int| 0 <= i < rest.len() implies token_ok(#[trigger] rest[i].extn)
            && dirs_ok(rest[i].extn, rest[i].dirs) by {
            assert(rest[i] == es[i + 1]);
        }
        lemma_walk_extns(t, r + 1, rest);
        let tail = walk(t, at(p + extns_bytes(es).len(), none, none));
        assert(dirs_entries(x.extn, x.dirs) + (extns_entries(rest) + tail.0) =~= extns_entries(es)
            + tail.0);
    }
}

/// Walking a tree section laid out from extensions, directories and files
/// yields one record per file, in the order they are stored, then ends at
/// the final empty token, having consumed exactly the whole section.
pub proof fn lemma_round_trip(es: Seq<ExtnSpec>)
    requires
        extns_ok(es),
    ensures
        walk(tree_bytes(es), initial_state()).0 == extns_entries(es),
        walk(tree_bytes(es), initial_state()).1 == Pull::End,
        walk(tree_bytes(es), initial_state()).2.pos == tree_bytes(es).len(),
        walk(tree_bytes(es), initial_state()).2.done,
{
    let t = tree_bytes(es);
    let none = Seq::<u8>::empty();
    let n = extns_bytes(es).len() as int;
    assert(t.subrange(0, n + 1) =~= t);
    lemma_split(t, 0, extns_bytes(es), seq![0u8]);
    assert(initial_state() == at(0, none, none));
    lemma_walk_extns(t, 0, es);
    assert(t[n] == 0);
    lemma_tok_len(t, n, n);
    let fin = TreeState { pos: n + 1, extn: none, dir: none, done: true };
    assert(pull(t, at(n, none, none)) == (Pull::End, fin));
    assert(walk(t, at(n, none, none)) == (Seq::<EntryView>::empty(), Pull::End, fin));
    assert(extns_entries(es) + Seq::<EntryView>::empty() =~= extns_entries(es));
}

} // verus!
