//! Listing the staged paths: the index file is read and validated, and each
//! entry is printed, optionally with mode, hash, and stage number.

use vstd::prelude::*;

use crate::errors::{Error, ErrorKind};
use crate::fs::FileSystem;
use crate::index::{
    entries_view, format_lines, parse_index, CorruptKind, EntryView, IndexEntry,
};
use crate::sub_commands::hash_object::abs_cwd;
use crate::text::utf8_to_string;
use vstd::utf8::valid_utf8;

verus! {

/// Where the index file lives.
pub open spec fn index_path(cwd: Seq<char>) -> Seq<char> {
    cwd + "/.papyrus/index"@
}

pub open spec fn msg_index_path_not_text() -> Seq<char> {
    "error: invalid path in index\nfatal: index file corrupt"@
}

/// Every entry's path is valid UTF-8.
pub open spec fn all_paths_text(es: Seq<EntryView>) -> bool {
    forall|k: int| 0 <= k < es.len() ==> valid_utf8(#[trigger] es[k].path)
}

/// The whole contract of the listing: an absent index lists nothing, an
/// unreadable or corrupt one is reported, and otherwise every parsed entry is
/// rendered in order.
pub open spec fn ls_files_outcome(fs: FileSystem, stage: bool, r: Result<String, Error>) -> bool {
    let ip = index_path(fs@.cwd);
    if !(fs@.dirs.contains(ip) || fs@.files.contains_key(ip)) {
        r matches Ok(s) && s@ == Seq::<char>::empty()
    } else if !fs@.files.contains_key(ip) {
        r matches Err(e) && e.kind == ErrorKind::IoFailure && e.message@ == crate::fs::msg_cannot_open(
            ip,
        )
    } else {
        match parse_index(fs@.files[ip].contents) {
            Ok(es) => {
                if all_paths_text(es) {
                    r matches Ok(s) && s@ == format_lines(es, stage)
                } else {
                    r matches Err(e) && e.kind == ErrorKind::Corrupt && e.message@
                        == msg_index_path_not_text()
                }
            },
            Err(k) => r matches Err(e) && e.kind == ErrorKind::Corrupt && e.message@
                == crate::index::corrupt_message(k),
        }
    }
}

/// Renders the staged entries, one per line; an absent index renders as the
/// empty listing, and a corrupt one is reported.
pub fn execute(fs: &FileSystem, stage: bool) -> (r: Result<String, Error>)
    requires
        fs.wf(),
        abs_cwd(fs@),
    ensures
        ls_files_outcome(*fs, stage, r),
{
    let mut ip = fs.current_directory();
    ip.append("/.papyrus/index");
    proof {
        assert(ip@ == index_path(fs@.cwd));
        assert(ip@[0] == fs@.cwd[0]);
        assert(crate::fs::resolve_path(fs@.cwd, ip@) == ip@);
    }
    if !fs.path_exists(ip.as_str()) {
        return Ok(String::new());
    }
    let index_content = match fs.get_file_contents_as_bytes(ip.as_str()) {
        Ok(v) => v,
        Err(e) => {
            return Err(e);
        },
    };
    let entries = match IndexEntry::parse_from_file(index_content.as_slice()) {
        Ok(es) => es,
        Err(e) => {
            return Err(e);
        },
    };
    let n = entries.len();
    for i in 0..n
        invariant
            n == entries@.len(),
            fs.wf(),
            fs@.files.contains_key(index_path(fs@.cwd)),
            parse_index(fs@.files[index_path(fs@.cwd)].contents) == Ok::<
                Seq<EntryView>,
                CorruptKind,
            >(entries_view(entries@)),
            forall|k: int|
                0 <= k < entries@.len() ==> crate::index::entry_wf(
                    #[trigger] entries_view(entries@)[k],
                ),
            forall|k: int| 0 <= k < i ==> valid_utf8(#[trigger] entries_view(entries@)[k].path),
    {
        proof {
            assert(entries_view(entries@)[i as int] == entries@[i as int]@);
        }
        if utf8_to_string(entries[i].path.as_slice()).is_none() {
            proof {
                assert(!valid_utf8(entries_view(entries@)[i as int].path));
                assert(!all_paths_text(entries_view(entries@)));
            }
            return Err(
                Error::new(
                    ErrorKind::Corrupt,
                    "error: invalid path in index\nfatal: index file corrupt".to_owned(),
                ),
            );
        }
    }
    Ok(IndexEntry::format_index_entries(entries, stage))
}

} // verus!
