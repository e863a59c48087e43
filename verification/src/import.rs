//! Extracts production files from UBI/UBIFS and JFFS2 partition images.

use vstd::prelude::*;

use crate::bytes;
use crate::jffs2;
use crate::names::Files;
use crate::paths;
use crate::text;
use crate::ubi;
use crate::ubifs;

verus! {

/// The two bytes that begin a JFFS2 image.
pub open spec fn jffs2_magic() -> Seq<u8> {
    seq![0x85, 0x19]
}

/// The image is one that [`extract`] knows.
pub open spec fn is_stock(d: Seq<u8>) -> bool {
    bytes::begins(d, ubi::ec_magic()) || bytes::begins(d, jffs2_magic())
}

/// The files of a stock image, and whether the import calls for a warning.
pub open spec fn stock_files(d: Seq<u8>) -> Result<(Map<Seq<char>, Seq<u8>>, bool), Seq<char>> {
    if bytes::begins(d, ubi::ec_magic()) {
        ubi::image_files(d)
    } else if bytes::begins(d, jffs2_magic()) {
        jffs2::image_files(d)
    } else {
        Err("Unsupported factory image format"@)
    }
}

/// Whether the image begins as a UBI image.
pub fn is_ubi(d: &[u8]) -> (r: bool)
    ensures
        r == bytes::begins(d@, ubi::ec_magic()),
{
    let magic: [u8; 4] = [0x55, 0x42, 0x49, 0x23];
    assert(magic@ =~= ubi::ec_magic());
    bytes::starts_with(d, &magic)
}

/// Whether the image begins as a JFFS2 image.
pub fn is_jffs2(d: &[u8]) -> (r: bool)
    ensures
        r == bytes::begins(d@, jffs2_magic()),
{
    let magic: [u8; 2] = [0x85, 0x19];
    assert(magic@ =~= jffs2_magic());
    bytes::starts_with(d, &magic)
}

/// Extracts the files of a stock image. The flag calls for a warning: the journal of a UBI
/// image holds later changes, or nodes of a JFFS2 image are damaged.
pub fn extract(d: &[u8]) -> (r: Result<(Files, bool), String>)
    ensures
        text::says(r, stock_files(d@)),
        r matches Ok((files, _)) ==> files.wf(),
{
    if is_ubi(d) {
        ubi::ubi(d)
    } else if is_jffs2(d) {
        jffs2::jffs2(d)
    } else {
        Err("Unsupported factory image format".to_owned())
    }
}

/// No file that is extracted from a stock image is larger than 16 MiB.
pub proof fn extracted_files_are_bounded(d: Seq<u8>)
    ensures
        stock_files(d) matches Ok((files, _)) ==> paths::bounded(files),
{
    if bytes::begins(d, ubi::ec_magic()) {
        if let Some(size) = ubi::block_size(d) {
            if let Ok(m) = ubi::blocks_in(d, size, (d.len() / size as nat) as nat) {
                if let Some(table) = ubi::table_in(m) {
                    if let Ok(id) = ubi::volume_from(table, 0) {
                        let lebs = ubi::volume_blocks(m, id);
                        if let Some(master) = ubifs::master_of(lebs) {
                            if let Ok(ix) = ubifs::index_from(
                                lebs,
                                seq![ubifs::branch_at(master, 48)],
                                Set::empty(),
                                ubifs::empty_index(),
                            ) {
                                ubifs::index_keeps_sizes(ix);
                                paths::files_are_bounded(ix, ix.dents);
                            }
                        }
                    }
                }
            }
        }
    } else if bytes::begins(d, jffs2_magic()) {
        if let Ok(st) = jffs2::scan_from(d, 0, jffs2::empty_scan()) {
            jffs2::scan_keeps_sizes(st);
            paths::files_are_bounded(st, st.dents);
        }
    }
}

} // verus!
