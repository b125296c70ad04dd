//! The fixed-size header at the start of a pack file.

use vstd::prelude::*;
use crate::bytes::{le32, read_le32};
use crate::model::{DirError, VPK_SIGNATURE};

verus! {

/// The decoded header.
#[derive(Debug, Clone, Copy, PartialEq, Eq)]
pub struct DirHeader {
    pub tree_size: u32,
    pub header_v2: Option<DirHeader2>,
}

/// The section sizes that a version 2 header adds.
#[derive(Debug, Clone, Copy, PartialEq, Eq)]
pub struct DirHeader2 {
    pub file_data_section_size: u32,
    pub archive_md5_section_size: u32,
    pub other_md5_section_size: u32,
    pub signature_section_size: u32,
}

/// Bytes in the header: 12 for version 1, 28 for version 2.
pub open spec fn header_len(h: DirHeader) -> nat {
    if h.header_v2.is_some() {
        28
    } else {
        12
    }
}

/// The header stored at the start of `d`, or why there is none.
pub open spec fn parse_header(d: Seq<u8>) -> Result<DirHeader, DirError> {
    if d.len() < 4 {
        Err(DirError::UnexpectedEnd)
    } else if le32(d, 0) != VPK_SIGNATURE {
        Err(DirError::BadSignature(le32(d, 0)))
    } else if d.len() < 8 {
        Err(DirError::UnexpectedEnd)
    } else if le32(d, 4) != 1 && le32(d, 4) != 2 {
        Err(DirError::UnsupportedVersion(le32(d, 4)))
    } else if d.len() < 12 {
        Err(DirError::UnexpectedEnd)
    } else if le32(d, 4) == 1 {
        Ok(DirHeader { tree_size: le32(d, 8), header_v2: None })
    } else if d.len() < 28 {
        Err(DirError::UnexpectedEnd)
    } else {
        Ok(
            DirHeader {
                tree_size: le32(d, 8),
                header_v2: Some(
                    DirHeader2 {
                        file_data_section_size: le32(d, 12),
                        archive_md5_section_size: le32(d, 16),
                        other_md5_section_size: le32(d, 20),
                        signature_section_size: le32(d, 24),
                    },
                ),
            },
        )
    }
}

/// Decodes the header at the start of `d`.
pub fn read_header(d: &[u8]) -> (r: Result<DirHeader, DirError>)
    ensures
        r == parse_header(d@),
        d@.len() >= 4 && le32(d@, 0) != VPK_SIGNATURE ==> r == Err::<DirHeader, DirError>(
            DirError::BadSignature(le32(d@, 0)),
        ),
        r.is_ok() ==> header_len(r.unwrap()) <= d@.len(),
{
    if d.len() < 4 {
        return Err(DirError::UnexpectedEnd);
    }
    let sig = read_le32(d, 0);
    if sig != VPK_SIGNATURE {
        return Err(DirError::BadSignature(sig));
    }
    if d.len() < 8 {
        return Err(DirError::UnexpectedEnd);
    }
    let version = read_le32(d, 4);
    if version != 1 && version != 2 {
        return Err(DirError::UnsupportedVersion(version));
    }
    if d.len() < 12 {
        return Err(DirError::UnexpectedEnd);
    }
    let tree_size = read_le32(d, 8);
    if version == 1 {
        return Ok(DirHeader { tree_size, header_v2: None });
    }
    if d.len() < 28 {
        return Err(DirError::UnexpectedEnd);
    }
    let file_data_section_size = read_le32(d, 12);
    let archive_md5_section_size = read_le32(d, 16);
    let other_md5_section_size = read_le32(d, 20);
    let signature_section_size = read_le32(d, 24);
    Ok(
        DirHeader {
            tree_size,
            header_v2: Some(
                DirHeader2 {
                    file_data_section_size,
                    archive_md5_section_size,
                    other_md5_section_size,
                    signature_section_size,
                },
            ),
        },
    )
}

} // verus!
