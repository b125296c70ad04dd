//! The reader: decodes the header, then walks the directory tree one file
//! record per pull.

use vstd::prelude::*;
use vstd::slice::slice_subrange;
use crate::bytes::{decode_utf8, le16, le32, read_le16, read_le32, utf8_text};
use crate::header::{header_len, parse_header, read_header, DirHeader};
use crate::laws::lemma_pull_within;
use crate::model::{
    archive_of, decode_record, ended, initial_state, is_placeholder, join_path, lemma_tok_len,
    pull, read_record, state_wf, walk, DirError, EntryView, Pull, TreeState, ENTRY_RECORD_LEN,
    ENTRY_TERMINATOR, NO_ARCHIVE, VPK_SIGNATURE,
};

verus! {

/// One file of the tree.
#[derive(Debug)]
pub struct DirEntry {
    pub file: String,
    pub crc: u32,
    pub preload_data: Vec<u8>,
    pub archive_index: Option<u16>,
    pub entry_offset: u32,
    pub entry_length: u32,
}

impl View for DirEntry {
    type V = EntryView;

    open spec fn view(&self) -> EntryView {
        EntryView {
            file: self.file@,
            crc: self.crc,
            preload_data: self.preload_data@,
            archive_index: self.archive_index,
            entry_offset: self.entry_offset,
            entry_length: self.entry_length,
        }
    }
}

/// What a pull result stands for in the model.
pub open spec fn pull_of(r: Option<Result<DirEntry, DirError>>) -> Pull {
    match r {
        None => Pull::End,
        Some(Ok(e)) => Pull::Entry(e@),
        Some(Err(x)) => Pull::Fail(x),
    }
}

/// The tree section of `d` under header `h`: the `tree_size` bytes after the
/// header, or as many of them as `d` holds.
pub open spec fn tree_section(d: Seq<u8>, h: DirHeader) -> Seq<u8> {
    let lo = header_len(h) as int;
    let hi = lo + h.tree_size as int;
    d.subrange(lo, if hi <= d.len() { hi } else { d.len() as int })
}

/// Reads the directory tree of a pack file held in memory.
pub struct DirReader {
    data: Vec<u8>,
    header: DirHeader,
    start: usize,
    end: usize,
    extn_start: usize,
    extn_len: usize,
    dir_start: usize,
    dir_len: usize,
    bytes_read: usize,
    done: bool,
}

/// Where the first zero byte at or after `p` lies, or `end` if there is none
/// before it.
fn token_end(data: &Vec<u8>, p: usize, end: usize) -> (i: usize)
    requires
        p <= end <= data@.len(),
    ensures
        p <= i <= end,
        forall|k: int| p <= k < i ==> data@[k] != 0,
        i < end ==> data@[i as int] == 0,
{
    let mut i: usize = p;
    while i < end && data[i] != 0
        invariant
            p <= i <= end <= data@.len(),
            forall|k: int| p <= k < i ==> data@[k] != 0,
        decreases end - i,
    {
        i = i + 1;
    }
    i
}

/// Whether `data[a .. b]` is the placeholder for an empty component.
fn is_space(data: &Vec<u8>, a: usize, b: usize) -> (r: bool)
    requires
        a <= b <= data@.len(),
    ensures
        r == is_placeholder(data@.subrange(a as int, b as int)),
{
    if b - a == 1 && data[a] == 32 {
        assert(data@.subrange(a as int, b as int) =~= seq![32u8]);
        true
    } else {
        assert(b - a != 1 ==> data@.subrange(a as int, b as int).len() != 1);
        assert(b - a == 1 ==> data@.subrange(a as int, b as int)[0] != 32);
        false
    }
}

/// Appends `data[a .. b]` to `v`.
fn append_range(v: &mut Vec<u8>, data: &Vec<u8>, a: usize, b: usize)
    requires
        a <= b <= data@.len(),
    ensures
        final(v)@ == old(v)@ + data@.subrange(a as int, b as int),
{
    let ghost v0 = v@;
    let mut i: usize = a;
    while i < b
        invariant
            a <= i <= b <= data@.len(),
            v@ == v0 + data@.subrange(a as int, i as int),
        decreases b - i,
    {
        v.push(data[i]);
        i = i + 1;
        assert(v@ =~= v0 + data@.subrange(a as int, i as int));
    }
}

/// The bytes of `dir/name.extn`, each component given by where it lies in
/// `data`.
fn build_path(
    data: &Vec<u8>,
    extn_start: usize,
    extn_end: usize,
    dir_start: usize,
    dir_end: usize,
    name_start: usize,
    name_end: usize,
) -> (r: Vec<u8>)
    requires
        extn_start <= extn_end <= data@.len(),
        dir_start <= dir_end <= data@.len(),
        name_start <= name_end <= data@.len(),
    ensures
        r@ == join_path(
            data@.subrange(extn_start as int, extn_end as int),
            data@.subrange(dir_start as int, dir_end as int),
            data@.subrange(name_start as int, name_end as int),
        ),
{
    let ghost extn = data@.subrange(extn_start as int, extn_end as int);
    let ghost dir = data@.subrange(dir_start as int, dir_end as int);
    let ghost name = data@.subrange(name_start as int, name_end as int);
    let mut path: Vec<u8> = Vec::new();
    if !is_space(data, dir_start, dir_end) {
        append_range(&mut path, data, dir_start, dir_end);
        path.push(47u8);
    }
    let ghost p1 = path@;
    assert(p1 =~= (if is_placeholder(dir) { Seq::empty() } else { dir.push(47u8) }));
    if !is_space(data, name_start, name_end) {
        append_range(&mut path, data, name_start, name_end);
    }
    let ghost p2 = path@;
    assert(p2 =~= p1 + (if is_placeholder(name) { Seq::empty() } else { name }));
    if !is_space(data, extn_start, extn_end) {
        path.push(46u8);
        append_range(&mut path, data, extn_start, extn_end);
    }
    assert(path@ =~= p2 + (if is_placeholder(extn) { Seq::empty() } else { seq![46u8] + extn }));
    path
}

/// The archive index that an entry record's field stands for.
pub fn decode_archive_index(v: u16) -> (r: Option<u16>)
    ensures
        r == archive_of(v),
        v == NO_ARCHIVE ==> r.is_none(),
        v != NO_ARCHIVE ==> r == Some(v),
{
    if v == NO_ARCHIVE {
        None
    } else {
        Some(v)
    }
}

/// Decodes an entry record at the start of `record` for the file whose
/// path is `file`: the fixed fields, then the preload data they announce.
pub fn decode_entry(file: String, record: &[u8]) -> (r: Result<DirEntry, DirError>)
    ensures
        match decode_record(record@, 0, file@) {
            Ok(e) => r.is_ok() && r.unwrap()@ == e,
            Err(x) => r == Err::<DirEntry, DirError>(x),
        },
{
    if record.len() < ENTRY_RECORD_LEN {
        return Err(DirError::UnexpectedEnd);
    }
    let terminator = read_le16(record, 16);
    if terminator != ENTRY_TERMINATOR {
        return Err(DirError::BadTerminator(terminator));
    }
    let preload_bytes = read_le16(record, 4);
    if record.len() - ENTRY_RECORD_LEN < preload_bytes as usize {
        return Err(DirError::UnexpectedEnd);
    }
    let crc = read_le32(record, 0);
    let archive_index = decode_archive_index(read_le16(record, 6));
    let entry_offset = read_le32(record, 8);
    let entry_length = read_le32(record, 12);
    let mut preload_data: Vec<u8> = Vec::new();
    let mut i: usize = ENTRY_RECORD_LEN;
    let data_end = ENTRY_RECORD_LEN + preload_bytes as usize;
    while i < data_end
        invariant
            ENTRY_RECORD_LEN <= i <= data_end <= record@.len(),
            preload_data@ == record@.subrange(ENTRY_RECORD_LEN as int, i as int),
        decreases data_end - i,
    {
        preload_data.push(record[i]);
        i = i + 1;
        assert(preload_data@ =~= record@.subrange(ENTRY_RECORD_LEN as int, i as int));
    }
    Ok(DirEntry { file, crc, preload_data, archive_index, entry_offset, entry_length })
}

impl DirReader {
    /// The bytes the reader was made from.
    pub closed spec fn source(&self) -> Seq<u8> {
        self.data@
    }

    /// The decoded header.
    pub closed spec fn header_spec(&self) -> DirHeader {
        self.header
    }

    /// The tree section the walk reads.
    pub closed spec fn tree(&self) -> Seq<u8> {
        self.data@.subrange(self.start as int, self.end as int)
    }

    /// Where the walk stands.
    pub closed spec fn state(&self) -> TreeState {
        TreeState {
            pos: self.bytes_read as int,
            extn: self.data@.subrange(self.extn_start as int, self.extn_start + self.extn_len),
            dir: self.data@.subrange(self.dir_start as int, self.dir_start + self.dir_len),
            done: self.done,
        }
    }

    /// The reader's invariant.
    pub closed spec fn wf(&self) -> bool {
        &&& self.start == header_len(self.header)
        &&& self.start <= self.end <= self.data@.len()
        &&& self.end == if self.start + self.header.tree_size <= self.data@.len() {
            self.start + self.header.tree_size
        } else {
            self.data@.len() as int
        }
        &&& self.bytes_read <= self.end - self.start
        &&& self.start <= self.extn_start
        &&& self.extn_start + self.extn_len <= self.end
        &&& self.start <= self.dir_start
        &&& self.dir_start + self.dir_len <= self.end
        &&& self.dir_len > 0 ==> self.extn_len > 0
    }

    /// Well-formed readers hold the tree section of their bytes and a
    /// well-formed walk state.
    pub proof fn lemma_wf(&self)
        requires
            self.wf(),
        ensures
            self.tree() == tree_section(self.source(), self.header_spec()),
            state_wf(self.tree(), self.state()),
            self.tree().len() <= self.header_spec().tree_size,
    {
    }

    /// Decodes the entry record at `p` (counted from the start of the tree)
    /// of the file whose name lies at `data[name_start .. name_end]`.
    fn read_entry(&self, name_start: usize, name_end: usize, p: usize) -> (r: Result<
        DirEntry,
        DirError,
    >)
        requires
            self.wf(),
            self.start <= name_start <= name_end <= self.end,
            p <= self.end - self.start,
        ensures
            pull_of(Some(r)) == read_record(
                self.tree(),
                self.state(),
                self.data@.subrange(name_start as int, name_end as int),
                p as int,
            ).0,
            r.is_ok() ==> read_record(
                self.tree(),
                self.state(),
                self.data@.subrange(name_start as int, name_end as int),
                p as int,
            ).1.pos == p + ENTRY_RECORD_LEN + r.unwrap().preload_data@.len(),
    {
        let ghost t = self.tree();
        let path = build_path(
            &self.data,
            self.extn_start,
            self.extn_start + self.extn_len,
            self.dir_start,
            self.dir_start + self.dir_len,
            name_start,
            name_end,
        );
        let file = match decode_utf8(path) {
            Some(f) => f,
            None => return Err(DirError::InvalidText),
        };
        let q = self.start + p;
        let record = slice_subrange(self.data.as_slice(), q, self.end);
        assert(record@ =~= t.subrange(p as int, t.len() as int));
        let r = decode_entry(file, record);
        proof {
            let name = self.data@.subrange(name_start as int, name_end as int);
            let text = utf8_text(join_path(self.state().extn, self.state().dir, name));
            if p + ENTRY_RECORD_LEN <= t.len() {
                let pre = le16(t, p + 4);
                if p + ENTRY_RECORD_LEN + pre <= t.len() {
                    assert(record@.subrange(18, 18 + pre) =~= t.subrange(p + 18, p + 18 + pre));
                }
            }
            assert(decode_record(record@, 0, text.unwrap()) == decode_record(
                t,
                p as int,
                text.unwrap(),
            ));
        }
        r
    }

    /// Pulls the next file record of the tree: `None` once the tree has
    /// ended, or after a pull that failed.
    #[verifier::rlimit(40)]
    pub fn next(&mut self) -> (r: Option<Result<DirEntry, DirError>>)
        requires
            old(self).wf(),
        ensures
            final(self).wf(),
            final(self).source() == old(self).source(),
            final(self).header_spec() == old(self).header_spec(),
            final(self).tree() == old(self).tree(),
            pull_of(r) == pull(old(self).tree(), old(self).state()).0,
            final(self).state() == pull(old(self).tree(), old(self).state()).1,
    {
        let ghost t = self.tree();
        let ghost goal = pull(t, self.state());
        if self.done {
            return None;
        }
        loop
            invariant
                self.wf(),
                self.data@ == old(self).data@,
                self.header == old(self).header,
                self.start == old(self).start,
                self.end == old(self).end,
                t == self.tree(),
                !self.done,
                pull(t, self.state()) == goal,
                goal == pull(old(self).tree(), old(self).state()),
            decreases self.end - self.start - self.bytes_read,
        {
            let ghost s = self.state();
            let p = self.start + self.bytes_read;
            if p >= self.end {
                assert(s.pos >= t.len());
                assert(pull(t, s) == (Pull::End, ended(s)));
                self.done = true;
                assert(self.state() == ended(s));
                return None;
            }
            let i = token_end(&self.data, p, self.end);
            proof {
                assert forall|k: int| s.pos <= k < i - self.start implies t[k] != 0 by {
                    assert(t[k] == self.data@[self.start + k]);
                }
                lemma_tok_len(t, s.pos, i - self.start);
            }
            if i == self.end {
                self.done = true;
                return Some(Err(DirError::UnexpectedEnd));
            }
            let n = i - p;
            assert(t.subrange(s.pos, s.pos + n) =~= self.data@.subrange(p as int, i as int));
            self.bytes_read = self.bytes_read + n + 1;
            if n == 0 {
                if self.dir_len > 0 {
                    self.dir_len = 0;
                    assert(self.state().dir =~= Seq::<u8>::empty());
                } else if self.extn_len > 0 {
                    self.extn_len = 0;
                    assert(self.state().dir =~= Seq::<u8>::empty());
                    assert(self.state().extn =~= Seq::<u8>::empty());
                } else {
                    self.done = true;
                    return None;
                }
            } else if self.extn_len == 0 {
                self.extn_start = p;
                self.extn_len = n;
            } else if self.dir_len == 0 {
                self.dir_start = p;
                self.dir_len = n;
            } else {
                let entry_pos = self.bytes_read;
                match self.read_entry(p, i, entry_pos) {
                    Ok(e) => {
                        self.bytes_read = entry_pos + ENTRY_RECORD_LEN + e.preload_data.len();
                        return Some(Ok(e));
                    },
                    Err(x) => {
                        self.done = true;
                        return Some(Err(x));
                    },
                }
            }
        }
    }

    /// Pulls until the tree ends or a pull fails: all records of the rest of
    /// the tree in order, or the error that stopped the walk.
    pub fn read_all(&mut self) -> (r: Result<Vec<DirEntry>, DirError>)
        requires
            old(self).wf(),
        ensures
            final(self).wf(),
            final(self).source() == old(self).source(),
            final(self).header_spec() == old(self).header_spec(),
            final(self).state() == walk(old(self).tree(), old(self).state()).2,
            match walk(old(self).tree(), old(self).state()).1 {
                Pull::Fail(x) => r == Err::<Vec<DirEntry>, DirError>(x),
                _ => r.is_ok() && r.unwrap()@.map_values(|e: DirEntry| e@) == walk(
                    old(self).tree(),
                    old(self).state(),
                ).0,
            },
    {
        let ghost t = self.tree();
        let ghost w = walk(t, self.state());
        let mut out: Vec<DirEntry> = Vec::new();
        assert(out@.map_values(|e: DirEntry| e@) + w.0 =~= w.0);
        loop
            invariant
                self.wf(),
                self.data@ == old(self).data@,
                self.header == old(self).header,
                t == self.tree(),
                t == old(self).tree(),
                w == walk(old(self).tree(), old(self).state()),
                w.0 == out@.map_values(|e: DirEntry| e@) + walk(t, self.state()).0,
                w.1 == walk(t, self.state()).1,
                w.2 == walk(t, self.state()).2,
            decreases self.end - self.start - self.bytes_read,
        {
            let ghost s = self.state();
            let ghost prev = out@.map_values(|e: DirEntry| e@);
            proof {
                self.lemma_wf();
                lemma_pull_within(t, s);
            }
            match self.next() {
                None => {
                    assert(prev + Seq::<EntryView>::empty() =~= prev);
                    return Ok(out);
                },
                Some(Ok(e)) => {
                    out.push(e);
                    assert(out@.map_values(|e: DirEntry| e@) =~= prev.push(e@));
                    assert(prev + (seq![e@] + walk(t, self.state()).0) =~= prev.push(e@) + walk(
                        t,
                        self.state(),
                    ).0);
                },
                Some(Err(x)) => {
                    return Err(x);
                },
            }
        }
    }

    /// Decodes the header at the start of `data` and makes a reader whose
    /// walk starts at the beginning of the tree section.
    pub fn new(data: Vec<u8>) -> (r: Result<DirReader, DirError>)
        ensures
            match parse_header(data@) {
                Ok(h) => r.is_ok() && r.unwrap().wf() && r.unwrap().header_spec() == h
                    && r.unwrap().source() == data@ && r.unwrap().tree() == tree_section(data@, h)
                    && r.unwrap().state() == initial_state(),
                Err(e) => r == Err::<DirReader, DirError>(e),
            },
            data@.len() >= 4 && le32(data@, 0) != VPK_SIGNATURE ==> r == Err::<
                DirReader,
                DirError,
            >(DirError::BadSignature(le32(data@, 0))),
    {
        let header = match read_header(data.as_slice()) {
            Ok(h) => h,
            Err(e) => return Err(e),
        };
        let start: usize = if header.header_v2.is_some() { 28 } else { 12 };
        let end: usize = if data.len() - start >= header.tree_size as usize {
            start + header.tree_size as usize
        } else {
            data.len()
        };
        let r = DirReader {
            data,
            header,
            start,
            end,
            extn_start: start,
            extn_len: 0,
            dir_start: start,
            dir_len: 0,
            bytes_read: 0,
            done: false,
        };
        assert(r.state().extn =~= Seq::<u8>::empty());
        assert(r.state().dir =~= Seq::<u8>::empty());
        Ok(r)
    }

    /// The number of tree bytes the walk has consumed so far.
    pub fn bytes_consumed(&self) -> (r: usize)
        ensures
            r == self.state().pos,
    {
        self.bytes_read
    }

    /// The size, in bytes, of the directory tree.
    pub fn tree_size(&self) -> (r: usize)
        ensures
            r == self.header_spec().tree_size,
    {
        self.header.tree_size as usize
    }

    /// The offset, in bytes, of the file data from the start of the file: the
    /// header's length plus the tree's (`usize::MAX` where that does not fit).
    pub fn data_offset(&self) -> (r: usize)
        ensures
            header_len(self.header_spec()) + self.header_spec().tree_size <= usize::MAX ==> r
                == header_len(self.header_spec()) + self.header_spec().tree_size,
            header_len(self.header_spec()) + self.header_spec().tree_size > usize::MAX ==> r
                == usize::MAX,
    {
        let header_bytes: usize = if self.header.header_v2.is_some() { 28 } else { 12 };
        match header_bytes.checked_add(self.tree_size()) {
            Some(v) => v,
            None => usize::MAX,
        }
    }

    /// The length of the file data in the directory file, which comes after
    /// the tree; recorded by version 2 headers only.
    pub fn data_len(&self) -> (r: Option<usize>)
        ensures
            match self.header_spec().header_v2 {
                Some(h) => r == Some(h.file_data_section_size as usize),
                None => r.is_none(),
            },
    {
        match self.header.header_v2 {
            Some(h) => Some(h.file_data_section_size as usize),
            None => None,
        }
    }
}

} // verus!
