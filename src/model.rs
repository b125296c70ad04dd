//! The mathematical model of the directory tree: what one pull of the
//! iterator returns for a tree section and a walk state.

use vstd::prelude::*;
use crate::bytes::{le16, le32, utf8_text};

verus! {

/// Why a header or a tree entry could not be decoded.
#[derive(Debug, Clone, Copy, PartialEq, Eq)]
pub enum DirError {
    /// The data ended inside a field, a token or an entry record.
    UnexpectedEnd,
    /// The first four bytes are not the pack signature; holds what was found.
    BadSignature(u32),
    /// The format version is neither 1 nor 2; holds what was found.
    UnsupportedVersion(u32),
    /// A path is not valid UTF-8 text.
    InvalidText,
    /// An entry record does not end in `0xffff`; holds what was found.
    BadTerminator(u16),
}

/// The pack file signature.
pub const VPK_SIGNATURE: u32 = 0x55aa1234;

/// The entry-record value of `archive_index` that means "in this file".
pub const NO_ARCHIVE: u16 = 0x7fff;

/// The value every entry record ends with.
pub const ENTRY_TERMINATOR: u16 = 0xffff;

/// Bytes in an entry record before its preload data.
pub const ENTRY_RECORD_LEN: usize = 18;

/// The model of one file record.
pub struct EntryView {
    pub file: Seq<char>,
    pub crc: u32,
    pub preload_data: Seq<u8>,
    pub archive_index: Option<u16>,
    pub entry_offset: u32,
    pub entry_length: u32,
}

/// Where the walk of the tree stands between two pulls: bytes consumed,
/// the captured extension and directory (empty when none is captured), and
/// whether the walk has ended.
pub struct TreeState {
    pub pos: int,
    pub extn: Seq<u8>,
    pub dir: Seq<u8>,
    pub done: bool,
}

/// What one pull gives.
pub enum Pull {
    End,
    Entry(EntryView),
    Fail(DirError),
}

/// The state in which a walk starts.
pub open spec fn initial_state() -> TreeState {
    TreeState { pos: 0, extn: Seq::empty(), dir: Seq::empty(), done: false }
}

/// A well-formed walk state for tree `t`: a directory is captured only
/// under an extension.
pub open spec fn state_wf(t: Seq<u8>, s: TreeState) -> bool {
    &&& 0 <= s.pos <= t.len()
    &&& s.dir.len() > 0 ==> s.extn.len() > 0
}

/// The archive index an entry record's field stands for.
pub open spec fn archive_of(v: u16) -> Option<u16> {
    if v == NO_ARCHIVE {
        None
    } else {
        Some(v)
    }
}

/// The number of bytes from `p` before the next zero byte (or the end).
pub open spec fn tok_len(t: Seq<u8>, p: int) -> nat
    decreases t.len() - p,
{
    if p < 0 || p >= t.len() || t[p] == 0 {
        0
    } else {
        1 + tok_len(t, p + 1)
    }
}

/// The placeholder that stands for an empty path component.
pub open spec fn is_placeholder(c: Seq<u8>) -> bool {
    c == seq![32u8]
}

/// The path of a file: `dir/name.extn`, where a placeholder component is
/// left out together with its separator.
pub open spec fn join_path(extn: Seq<u8>, dir: Seq<u8>, name: Seq<u8>) -> Seq<u8> {
    (if is_placeholder(dir) {
        Seq::empty()
    } else {
        dir.push(47u8)
    }) + (if is_placeholder(name) {
        Seq::empty()
    } else {
        name
    }) + (if is_placeholder(extn) {
        Seq::empty()
    } else {
        seq![46u8] + extn
    })
}

/// The state `s` marked as ended.
pub open spec fn ended(s: TreeState) -> TreeState {
    TreeState { pos: s.pos, extn: s.extn, dir: s.dir, done: true }
}

/// The file record whose entry record starts at `t[p]` and whose path reads
/// `file`, or why the entry record cannot be decoded.
pub open spec fn decode_record(t: Seq<u8>, p: int, file: Seq<char>) -> Result<EntryView, DirError> {
    if p + ENTRY_RECORD_LEN > t.len() {
        Err(DirError::UnexpectedEnd)
    } else if le16(t, p + 16) != ENTRY_TERMINATOR {
        Err(DirError::BadTerminator(le16(t, p + 16)))
    } else {
        let data_start = p + ENTRY_RECORD_LEN;
        let data_end = data_start + le16(t, p + 4);
        if data_end > t.len() {
            Err(DirError::UnexpectedEnd)
        } else {
            Ok(
                EntryView {
                    file,
                    crc: le32(t, p),
                    preload_data: t.subrange(data_start, data_end),
                    archive_index: archive_of(le16(t, p + 6)),
                    entry_offset: le32(t, p + 8),
                    entry_length: le32(t, p + 12),
                },
            )
        }
    }
}

/// The record for file `name` whose entry record starts at `p`, in state `s`.
pub open spec fn read_record(t: Seq<u8>, s: TreeState, name: Seq<u8>, p: int) -> (
    Pull,
    TreeState,
) {
    let at = TreeState { pos: p, extn: s.extn, dir: s.dir, done: false };
    let text = utf8_text(join_path(s.extn, s.dir, name));
    if text.is_none() {
        (Pull::Fail(DirError::InvalidText), ended(at))
    } else {
        match decode_record(t, p, text.unwrap()) {
            Ok(e) => (
                Pull::Entry(e),
                TreeState {
                    pos: p + ENTRY_RECORD_LEN + e.preload_data.len(),
                    extn: s.extn,
                    dir: s.dir,
                    done: false,
                },
            ),
            Err(x) => (Pull::Fail(x), ended(at)),
        }
    }
}

/// One pull on tree section `t` in state `s`: read tokens until a file
/// record is complete, the tree ends, or decoding fails; gives what the pull
/// returns and the state after it.
pub open spec fn pull(t: Seq<u8>, s: TreeState) -> (Pull, TreeState)
    decreases t.len() - s.pos,
{
    if s.done || s.pos >= t.len() {
        (Pull::End, ended(s))
    } else {
        let n = tok_len(t, s.pos);
        if s.pos + n >= t.len() {
            (Pull::Fail(DirError::UnexpectedEnd), ended(s))
        } else {
            let tok = t.subrange(s.pos, s.pos + n);
            let next = s.pos + n + 1;
            if n == 0 {
                if s.dir.len() > 0 {
                    pull(t, TreeState { pos: next, extn: s.extn, dir: Seq::empty(), done: false })
                } else if s.extn.len() > 0 {
                    pull(
                        t,
                        TreeState { pos: next, extn: Seq::empty(), dir: Seq::empty(), done: false },
                    )
                } else {
                    (Pull::End, TreeState { pos: next, extn: s.extn, dir: s.dir, done: true })
                }
            } else if s.extn.len() == 0 {
                pull(t, TreeState { pos: next, extn: tok, dir: s.dir, done: false })
            } else if s.dir.len() == 0 {
                pull(t, TreeState { pos: next, extn: s.extn, dir: tok, done: false })
            } else {
                read_record(t, s, tok, next)
            }
        }
    }
}

/// The records of all pulls from state `s` until one returns the end or an
/// error, with that last result and the state after it.
pub open spec fn walk(t: Seq<u8>, s: TreeState) -> (Seq<EntryView>, Pull, TreeState)
    decreases t.len() - s.pos,
{
    let (r, next) = pull(t, s);
    match r {
        Pull::Entry(e) => if s.pos < next.pos <= t.len() {
            let (rest, last, fin) = walk(t, next);
            (seq![e] + rest, last, fin)
        } else {
            (seq![e], Pull::End, next)
        },
        _ => (Seq::empty(), r, next),
    }
}

/// The length that `tok_len` gives is the distance to the first zero byte.
pub proof fn lemma_tok_len(t: Seq<u8>, p: int, q: int)
    requires
        0 <= p <= q <= t.len(),
        forall|k: int| p <= k < q ==> t[k] != 0,
        q == t.len() || t[q] == 0,
    ensures
        tok_len(t, p) == q - p,
    decreases q - p,
{
    if p < q {
        lemma_tok_len(t, p + 1, q);
    }
}

} // verus!
