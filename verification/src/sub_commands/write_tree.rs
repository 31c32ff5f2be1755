//! Building a tree object from the staged index: one record per entry, in
//! index order, stored like any other object.

use vstd::prelude::*;

use crate::encoding::{be32_val, oct_bytes, render_oct};
use crate::errors::Error;
use crate::fs::FileSystem;
use crate::index::{entries_view, entry_wf, parse_index, EntryView, IndexEntry};
use crate::sub_commands::hash_object;
use crate::sub_commands::hash_object::{abs_cwd, object_name, store_object};
use crate::sub_commands::ls_files::index_path;
use vstd::utf8::encode_utf8;

verus! {

/// One tree record: the mode in octal, a space, the path, a NUL, and the
/// raw twenty-byte hash.
pub open spec fn tree_record(e: EntryView) -> Seq<u8> {
    oct_bytes(be32_val(e.mode)) + seq![32u8] + e.path + seq![0u8] + e.sha1
}

/// The tree object's content: the records of all entries, in index order.
pub open spec fn tree_content(es: Seq<EntryView>) -> Seq<u8>
    decreases es.len(),
{
    if es.len() == 0 {
        Seq::empty()
    } else {
        tree_content(es.drop_last()) + tree_record(es.last())
    }
}

/// The whole contract of tree building: a missing or corrupt index is
/// reported and changes nothing; otherwise the tree of the parsed entries is
/// stored and its name returned, a function of the entries alone.
pub open spec fn write_tree_outcome(
    before: crate::fs::FsView,
    after: crate::fs::FsView,
    r: Result<String, Error>,
) -> bool {
    let ip = index_path(before.cwd);
    if !before.files.contains_key(ip) {
        r matches Err(e) && e.kind == crate::errors::ErrorKind::IoFailure && e.message@
            == crate::fs::msg_cannot_open(ip) && after == before
    } else {
        match parse_index(before.files[ip].contents) {
            Ok(es) => r matches Ok(h) && h@ == object_name(encode_utf8("tree"@), tree_content(es))
                && after == store_object(before, encode_utf8("tree"@), tree_content(es)),
            Err(k) => r matches Err(e) && e.kind == crate::errors::ErrorKind::Corrupt && e.message@
                == crate::index::corrupt_message(k) && after == before,
        }
    }
}

/// Reads and parses the index, renders every entry into a tree record, and
/// stores the concatenation as a tree object, returning its hash. The tree's
/// name is a function of the staged entries alone.
pub fn execute(fs: &mut FileSystem) -> (r: Result<String, Error>)
    requires
        old(fs).wf(),
        abs_cwd(old(fs)@),
    ensures
        final(fs).wf(),
        abs_cwd(final(fs)@),
        write_tree_outcome(old(fs)@, final(fs)@, r),
{
    let mut ip = fs.current_directory();
    ip.append("/.papyrus/index");
    proof {
        assert(ip@ == index_path(old(fs)@.cwd));
    }
    let index_content = match fs.get_file_contents_as_bytes(ip.as_str()) {
        Ok(v) => v,
        Err(e) => {
            return Err(e);
        },
    };
    let entries = match IndexEntry::parse_from_file(index_content.as_slice()) {
        Ok(es) => es,
        Err(e) => {
            return Err(e);
        },
    };
    let ghost evs = entries_view(entries@);
    let mut content: Vec<u8> = Vec::new();
    let n = entries.len();
    proof {
        assert(evs.take(0) =~= Seq::<EntryView>::empty());
    }
    for i in 0..n
        invariant
            n == entries@.len(),
            evs == entries_view(entries@),
            forall|k: int| 0 <= k < entries@.len() ==> entry_wf(#[trigger] evs[k]),
            content@ == tree_content(evs.take(i as int)),
    {
        let ghost before = content@;
        let e = &entries[i];
        proof {
            assert(evs[i as int] == entries@[i as int]@);
        }
        let mode = crate::encoding::be32_decode(e.mode.as_slice(), 0);
        proof {
            assert(e.mode@.subrange(0, 4) =~= e.mode@);
        }
        let mut mode_text = render_oct(mode as u64);
        content.append(&mut mode_text);
        content.push(32);
        content.extend_from_slice(e.path.as_slice());
        content.push(0);
        content.extend_from_slice(e.sha1.as_slice());
        proof {
            assert(content@ =~= before + tree_record(evs[i as int]));
            assert(evs.take(i + 1).drop_last() =~= evs.take(i as int));
            assert(evs.take(i + 1).last() == evs[i as int]);
        }
    }
    proof {
        assert(evs.take(n as int) =~= evs);
    }
    match hash_object::execute(fs, content.as_slice(), "tree".to_owned(), true) {
        Ok(h) => Ok(h),
        Err(_) => {
            proof {
                assert(false);
            }
            Err(Error::new(crate::errors::ErrorKind::IoFailure, String::new()))
        },
    }
}

} // verus!
