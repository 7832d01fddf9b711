//! Properties that relate several operations of the archives.
use vstd::prelude::*;
use crate::readwrite::ReadWriteArchive;
use crate::emit::inflated;
use crate::emit::deflation;
use crate::text::lower_of;
use crate::emit::{archive_image, saved_records, saveable, data_of, lemma_image_header};
use crate::directory::{parse_directory, magic, PFS_VERSION};
use crate::roundtrip::lemma_image_directory;
use crate::checksum::name_crc;
use crate::names::FILENAMES_CRC_VALUE;
use crate::wire::le32;

verus! {

/// Case insensitivity: after `set(name, x)` succeeds, the file is present
/// under every name with the same lowercase form, and `get` on such a name
/// gives `x` back.
pub proof fn law_set_then_get(before: ReadWriteArchive, after: ReadWriteArchive, name: Seq<char>, query: Seq<char>, x: Seq<u8>)
    requires
        after@ == before@.insert(lower_of(name), deflation(x)),
        inflated(deflation(x)) == Some(x),
        lower_of(query) == lower_of(name),
    ensures
        after@.contains_key(lower_of(query)),
        inflated(after@[lower_of(query)]) == Some(x),
{
}

/// On save, the directory entry of every file carries the CRC of its
/// lowercased name, and the one entry after them carries the filename
/// table's sentinel CRC.
pub proof fn law_saved_crcs(keys: Seq<Seq<char>>, sizes: Seq<usize>, streams: Seq<Seq<u8>>, bytes: Seq<u8>)
    requires
        keys.len() == sizes.len(),
        keys.len() == streams.len(),
        saveable(keys, sizes, streams),
        bytes == archive_image(saved_records(keys, sizes, streams)),
    ensures
        parse_directory(bytes) matches Ok(es) && es.len() == keys.len() + 1
            && (forall|i: int| 0 <= i < keys.len() ==> (#[trigger] es[i]).crc == name_crc(lower_of(keys[i])))
            && es[keys.len() as int].crc == FILENAMES_CRC_VALUE,
{
    lemma_image_directory(saved_records(keys, sizes, streams));
}

/// The first twelve bytes of saved bytes are the directory offset (the data
/// section's length plus twelve), the magic `"PFS "` and the version 131072.
pub proof fn law_saved_header(keys: Seq<Seq<char>>, sizes: Seq<usize>, streams: Seq<Seq<u8>>, bytes: Seq<u8>)
    requires
        bytes == archive_image(saved_records(keys, sizes, streams)),
    ensures
        bytes.subrange(0, 12) == le32((data_of(saved_records(keys, sizes, streams)).len() + 12) as u32) + magic()
            + le32(PFS_VERSION),
{
    lemma_image_header(saved_records(keys, sizes, streams));
}

} // verus!
