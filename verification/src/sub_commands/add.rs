//! Staging files: every input path replaces any entry with the same path,
//! each file's content is stored as a blob, a fresh entry is built from its
//! metadata, and the index is rewritten sorted by path. A missing input path
//! aborts before the index is rewritten.

use vstd::prelude::*;

use crate::encoding::{
    be16, be16_encode, be32, be32_encode, decode_hex, lemma_hex_chars_are_hex,
    lemma_hex_chars_injective, lemma_hex_chars_len,
};
use crate::errors::{Error, ErrorKind};
use crate::fs::{
    resolve_path, sample_metadata, strings_view, FileSystem, FileView, FsView,
};
use crate::hashing::sha1_of;
use crate::index::{
    entries_view, index_file_bytes, sort_entries, EntryView, IndexEntry,
};
use crate::sub_commands::hash_object;
use crate::sub_commands::hash_object::{
    abs_cwd, canonical_bytes, object_file_at, object_name, store_object,
};
use crate::sub_commands::ls_files::index_path;
use crate::text::bytes_eq;
use vstd::string::StrSliceExecFns;
use vstd::utf8::encode_utf8;

verus! {

/// The byte tag of a blob object.
pub open spec fn blob_tag() -> Seq<u8> {
    encode_utf8("blob"@)
}

pub open spec fn msg_pathspec(p: Seq<char>) -> Seq<char> {
    "fatal: pathspec '"@ + p + "' did not match any files"@
}

/// The flags word of a fresh entry: the path length, capped at 0xFFF, with
/// the stage bits zero.
pub open spec fn flags_word(path_len: nat) -> u16 {
    if path_len <= 0xFFF {
        path_len as u16
    } else {
        0xFFF
    }
}

/// The entry staged for path `p` in state `v`: timestamps, device, inode,
/// mode, owner and size from the file's metadata with the nanosecond fields
/// zero, the blob's hash, and flags built from the path length.
pub open spec fn staged_entry(v: FsView, p: Seq<char>) -> EntryView {
    let fv = v.files[p];
    EntryView {
        ctime_s: be32(fv.meta.ctime),
        ctime_n: be32(0),
        mtime_s: be32(fv.meta.mtime),
        mtime_n: be32(0),
        dev: be32(fv.meta.dev),
        ino: be32(fv.meta.ino),
        mode: be32(fv.meta.mode),
        uid: be32(fv.meta.uid),
        gid: be32(fv.meta.gid),
        size: be32(fv.meta.size),
        sha1: sha1_of(canonical_bytes(blob_tag(), fv.contents)),
        flags: be16(flags_word(encode_utf8(p).len())),
        path: encode_utf8(p),
    }
}

/// What staging a list of paths produces: the reached state, the new
/// entries in input order, and, if an input path did not exist or could not
/// be read, which one.
#[verifier::ext_equal]
pub ghost struct StageResult {
    pub v: FsView,
    pub entries: Seq<EntryView>,
    pub failed: Option<Seq<char>>,
    pub unreadable: bool,
}

/// Stages the paths in order: each must exist; its content is stored as a
/// blob and an entry is built from the state before the store. The first
/// failure stops the run, keeping the blobs already written.
#[verifier::opaque]
pub open spec fn stage_files(v: FsView, files: Seq<Seq<char>>) -> StageResult
    decreases files.len(),
{
    if files.len() == 0 {
        StageResult { v, entries: Seq::empty(), failed: None, unreadable: false }
    } else {
        let p = files.first();
        let q = resolve_path(v.cwd, p);
        if !(v.dirs.contains(q) || v.files.contains_key(q)) {
            StageResult { v, entries: Seq::empty(), failed: Some(p), unreadable: false }
        } else if !v.files.contains_key(p) {
            StageResult { v, entries: Seq::empty(), failed: Some(p), unreadable: true }
        } else {
            let v2 = store_object(v, blob_tag(), v.files[p].contents);
            let e = staged_entry(v, p);
            let rest = stage_files(v2, files.drop_first());
            if rest.failed is Some {
                rest
            } else {
                StageResult {
                    v: rest.v,
                    entries: seq![e] + rest.entries,
                    failed: None,
                    unreadable: false,
                }
            }
        }
    }
}

/// An entry survives the replace-on-add step when its path matches none of
/// the input paths.
pub open spec fn keeps_entry(e: EntryView, files: Seq<Seq<char>>) -> bool {
    forall|j: int| 0 <= j < files.len() ==> e.path != encode_utf8(#[trigger] files[j])
}

/// The previous entries whose paths match no input path, in order.
pub open spec fn kept_entries(es: Seq<EntryView>, files: Seq<Seq<char>>) -> Seq<EntryView>
    decreases es.len(),
{
    if es.len() == 0 {
        Seq::empty()
    } else if keeps_entry(es.last(), files) {
        kept_entries(es.drop_last(), files).push(es.last())
    } else {
        kept_entries(es.drop_last(), files)
    }
}

/// The parse of the index file stored at `ip` in state `v`.
pub open spec fn parse_index_of(v: FsView, ip: Seq<char>) -> Result<
    Seq<EntryView>,
    crate::index::CorruptKind,
> {
    crate::index::parse_index(v.files[ip].contents)
}

/// The corruption kind a failing parse reports.
pub open spec fn parse_err_kind(v: FsView, ip: Seq<char>) -> crate::index::CorruptKind {
    match parse_index_of(v, ip) {
        Ok(_) => crate::index::CorruptKind::Signature,
        Err(k) => k,
    }
}

/// Storing an object never touches the index file's path.
proof fn lemma_store_object_preserves_key(v: FsView, tb: Seq<u8>, c: Seq<u8>, key: Seq<char>)
    requires
        key == index_path(v.cwd),
    ensures
        store_object(v, tb, c).files.contains_key(key) == v.files.contains_key(key),
        v.files.contains_key(key) ==> store_object(v, tb, c).files[key] == v.files[key],
        store_object(v, tb, c).cwd == v.cwd,
{
    let h = object_name(tb, c);
    let fp = object_file_at(v.cwd, h);
    reveal_strlit("/.papyrus/objects/");
    reveal_strlit("/.papyrus/index");
    reveal_strlit("/");
    assert(fp[v.cwd.len() + 10 as int] == 'o') by {
        let dir = hash_object::object_dir(v.cwd, h);
        assert(dir[v.cwd.len() + 10 as int] == "/.papyrus/objects/"@[10]);
        assert(fp[v.cwd.len() + 10 as int] == dir[v.cwd.len() + 10 as int]);
    }
    assert(key[v.cwd.len() + 10 as int] == "/.papyrus/index"@[10]);
    assert(fp != key);
}

/// A run of staging never touches the index file's path.
proof fn lemma_stage_preserves_index(v: FsView, files: Seq<Seq<char>>)
    ensures
        stage_files(v, files).v.cwd == v.cwd,
        stage_files(v, files).v.files.contains_key(index_path(v.cwd)) == v.files.contains_key(
            index_path(v.cwd),
        ),
        v.files.contains_key(index_path(v.cwd)) ==> stage_files(v, files).v.files[index_path(
            v.cwd,
        )] == v.files[index_path(v.cwd)],
    decreases files.len(),
{
    reveal(stage_files);
    if files.len() > 0 {
        let p = files.first();
        let q = resolve_path(v.cwd, p);
        if v.dirs.contains(q) || v.files.contains_key(q) {
            if v.files.contains_key(p) {
                let v2 = store_object(v, blob_tag(), v.files[p].contents);
                lemma_store_object_preserves_key(
                    v,
                    blob_tag(),
                    v.files[p].contents,
                    index_path(v.cwd),
                );
                lemma_stage_preserves_index(v2, files.drop_first());
            }
        }
    }
}

/// Unfolds one successful staging step.
proof fn lemma_stage_files_step(v: FsView, files: Seq<Seq<char>>)
    requires
        files.len() > 0,
        ({
            let q = resolve_path(v.cwd, files.first());
            v.dirs.contains(q) || v.files.contains_key(q)
        }),
        v.files.contains_key(files.first()),
    ensures
        ({
            let rest = stage_files(
                store_object(v, blob_tag(), v.files[files.first()].contents),
                files.drop_first(),
            );
            stage_files(v, files) == (if rest.failed is Some {
                rest
            } else {
                StageResult {
                    v: rest.v,
                    entries: seq![staged_entry(v, files.first())] + rest.entries,
                    failed: None,
                    unreadable: false,
                }
            })
        }),
{
    reveal(stage_files);
}

/// Unfolds one failing staging step.
proof fn lemma_stage_files_fail(v: FsView, files: Seq<Seq<char>>)
    requires
        files.len() > 0,
        ({
            let q = resolve_path(v.cwd, files.first());
            !(v.dirs.contains(q) || v.files.contains_key(q)) || !v.files.contains_key(
                files.first(),
            )
        }),
    ensures
        ({
            let q = resolve_path(v.cwd, files.first());
            stage_files(v, files) == (StageResult {
                v,
                entries: Seq::<EntryView>::empty(),
                failed: Some(files.first()),
                unreadable: v.dirs.contains(q) || v.files.contains_key(q),
            })
        }),
{
    reveal(stage_files);
}

/// Stages one path: checks it exists, reads its content, stores the blob,
/// and builds the fresh entry from the metadata read afterward.
#[verifier::rlimit(100)]
fn stage_one(fs: &mut FileSystem, file: &String) -> (r: Result<IndexEntry, Error>)
    requires
        old(fs).wf(),
        abs_cwd(old(fs)@),
    ensures
        final(fs).wf(),
        abs_cwd(final(fs)@),
        final(fs)@.cwd == old(fs)@.cwd,
        ({
            let p = file@;
            let q = resolve_path(old(fs)@.cwd, p);
            if !(old(fs)@.dirs.contains(q) || old(fs)@.files.contains_key(q)) {
                (r matches Err(e) && e.kind == ErrorKind::NotFound && e.message@ == msg_pathspec(p)
                    && final(fs)@ == old(fs)@)
            } else if !old(fs)@.files.contains_key(p) {
                (r matches Err(e) && e.kind == ErrorKind::IoFailure && e.message@
                    == crate::fs::msg_cannot_open(p) && final(fs)@ == old(fs)@)
            } else {
                (r matches Ok(en) && en@ == staged_entry(old(fs)@, p) && final(fs)@
                    == store_object(old(fs)@, blob_tag(), old(fs)@.files[p].contents))
            }
        }),
{
    let ghost p = file@;
    if !fs.path_exists(file.as_str()) {
        let mut m: String = "fatal: pathspec '".to_owned();
        m.append(file.as_str());
        m.append("' did not match any files");
        return Err(Error::new(ErrorKind::NotFound, m));
    }
    let content = match fs.get_file_contents_as_bytes(file.as_str()) {
        Ok(v) => v,
        Err(e) => {
            return Err(e);
        },
    };
    let hash = match hash_object::execute(fs, content.as_slice(), "blob".to_owned(), true) {
        Ok(h) => h,
        Err(_) => {
            proof {
                assert(false);
            }
            return Err(Error::new(ErrorKind::IoFailure, String::new()));
        },
    };
    proof {
        assert(fs@ == store_object(old(fs)@, blob_tag(), old(fs)@.files[p].contents));
        lemma_store_object_preserves_key(
            old(fs)@,
            blob_tag(),
            old(fs)@.files[p].contents,
            index_path(old(fs)@.cwd),
        );
        assert(fs@.files.contains_key(p) && fs@.files[p] == old(fs)@.files[p]);
    }
    let meta = match fs.metadata(file.as_str()) {
        Ok(m) => m,
        Err(_) => {
            proof {
                assert(false);
            }
            return Err(Error::new(ErrorKind::IoFailure, String::new()));
        },
    };
    let path_bytes = file.as_str().as_bytes_vec();
    let plen = path_bytes.len();
    let flags_value: u16 = if plen <= 0xFFF {
        plen as u16
    } else {
        0xFFF
    };
    proof {
        let canonical = canonical_bytes(blob_tag(), old(fs)@.files[p].contents);
        lemma_hex_chars_are_hex(sha1_of(canonical));
        lemma_hex_chars_len(sha1_of(canonical));
    }
    let sha_bytes = decode_hex(hash.as_str());
    proof {
        let canonical = canonical_bytes(blob_tag(), old(fs)@.files[p].contents);
        lemma_hex_chars_injective(sha_bytes@, sha1_of(canonical));
    }
    let entry = IndexEntry {
        ctime_s: be32_encode(meta.ctime),
        ctime_n: be32_encode(0),
        mtime_s: be32_encode(meta.mtime),
        mtime_n: be32_encode(0),
        dev: be32_encode(meta.dev),
        ino: be32_encode(meta.ino),
        mode: be32_encode(meta.mode),
        uid: be32_encode(meta.uid),
        gid: be32_encode(meta.gid),
        size: be32_encode(meta.size),
        sha1: sha_bytes,
        flags: be16_encode(flags_value),
        path: path_bytes,
    };
    proof {
        assert(entry@ == staged_entry(old(fs)@, p));
    }
    Ok(entry)
}

/// Stages every input path in order, stopping at the first failure with the
/// blobs already written kept in place.
fn stage_all(fs: &mut FileSystem, files: &Vec<String>) -> (r: Result<Vec<IndexEntry>, Error>)
    requires
        old(fs).wf(),
        abs_cwd(old(fs)@),
    ensures
        final(fs).wf(),
        abs_cwd(final(fs)@),
        final(fs)@.cwd == old(fs)@.cwd,
        ({
            let st = stage_files(old(fs)@, strings_view(files@));
            match st.failed {
                Some(p) => {
                    &&& final(fs)@ == st.v
                    &&& st.unreadable ==> (r matches Err(e) && e.kind == ErrorKind::IoFailure
                        && e.message@ == crate::fs::msg_cannot_open(p))
                    &&& !st.unreadable ==> (r matches Err(e) && e.kind == ErrorKind::NotFound
                        && e.message@ == msg_pathspec(p))
                },
                None => {
                    &&& r matches Ok(es) && entries_view(es@) == st.entries
                    &&& final(fs)@ == st.v
                },
            }
        }),
{
    let ghost fviews = strings_view(files@);
    let ghost st_total = stage_files(old(fs)@, fviews);
    let mut staged: Vec<IndexEntry> = Vec::new();
    let fcount = files.len();
    let mut k: usize = 0;
    proof {
        assert(fviews.skip(0) =~= fviews);
        assert(entries_view(staged@) =~= Seq::<EntryView>::empty());
        assert(Seq::<EntryView>::empty() + stage_files(fs@, fviews).entries =~= stage_files(
            fs@,
            fviews,
        ).entries);
    }
    while k < fcount
        invariant
            fcount == files@.len(),
            k <= fcount,
            fviews == strings_view(files@),
            st_total == stage_files(old(fs)@, fviews),
            fs.wf(),
            abs_cwd(fs@),
            fs@.cwd == old(fs)@.cwd,
            ({
                let st_rest = stage_files(fs@, fviews.skip(k as int));
                if st_rest.failed is Some {
                    st_total == st_rest
                } else {
                    st_total.failed is None && st_total.v == st_rest.v && st_total.entries
                        == entries_view(staged@) + st_rest.entries
                }
            }),
        decreases fcount - k,
    {
        let ghost fs_before = fs@;
        let ghost st_rest = stage_files(fs@, fviews.skip(k as int));
        proof {
            assert(fviews.skip(k as int).first() == fviews[k as int]);
            assert(fviews[k as int] == files@[k as int]@);
            assert(fviews.skip(k as int).drop_first() =~= fviews.skip(k + 1));
        }
        let entry = match stage_one(fs, &files[k]) {
            Ok(en) => en,
            Err(e) => {
                proof {
                    lemma_stage_files_fail(fs_before, fviews.skip(k as int));
                }
                return Err(e);
            },
        };
        let ghost staged_before = staged@;
        staged.push(entry);
        proof {
            assert(entry@ == staged_entry(fs_before, files@[k as int]@));
            assert(entries_view(staged@) =~= entries_view(staged_before).push(entry@));
            lemma_stage_files_step(fs_before, fviews.skip(k as int));
            let st_next = stage_files(fs@, fviews.skip(k + 1));
            if st_next.failed is None {
                assert(entries_view(staged_before) + (seq![entry@] + st_next.entries)
                    =~= entries_view(staged@) + st_next.entries);
            }
        }
        k = k + 1;
    }
    proof {
        reveal(stage_files);
        assert(fviews.skip(fcount as int) =~= Seq::<Seq<char>>::empty());
        assert(stage_files(fs@, fviews.skip(fcount as int)) == (StageResult {
            v: fs@,
            entries: Seq::<EntryView>::empty(),
            failed: None::<Seq<char>>,
            unreadable: false,
        }));
        assert(entries_view(staged@) + Seq::<EntryView>::empty() =~= entries_view(staged@));
    }
    Ok(staged)
}

/// The whole contract of staging: an unreadable or corrupt index aborts
/// unchanged; a failing input path aborts with only its predecessors' blobs
/// written and the index file untouched; otherwise the blobs are written and
/// the index is rewritten with the kept and fresh entries sorted by path.
pub open spec fn add_outcome(
    before: FsView,
    fviews: Seq<Seq<char>>,
    after: FsView,
    r: Result<String, Error>,
) -> bool {
    let ip = index_path(before.cwd);
    let has_index = before.dirs.contains(ip) || before.files.contains_key(ip);
    if has_index && !before.files.contains_key(ip) {
        r matches Err(e) && e.kind == ErrorKind::IoFailure && e.message@
            == crate::fs::msg_cannot_open(ip) && after == before
    } else if has_index && parse_index_of(before, ip) is Err {
        (r matches Err(e) && e.kind == ErrorKind::Corrupt && e.message@
            == crate::index::corrupt_message(parse_err_kind(before, ip)) && after == before)
    } else {
        let old_entries = if has_index {
            parse_index_of(before, ip).unwrap()
        } else {
            Seq::empty()
        };
        let kept = kept_entries(old_entries, fviews);
        let st = stage_files(before, fviews);
        match st.failed {
            Some(p) => {
                &&& after == st.v
                &&& st.unreadable ==> (r matches Err(e) && e.kind == ErrorKind::IoFailure
                    && e.message@ == crate::fs::msg_cannot_open(p))
                &&& !st.unreadable ==> (r matches Err(e) && e.kind == ErrorKind::NotFound
                    && e.message@ == msg_pathspec(p))
                &&& after.files.contains_key(ip) == before.files.contains_key(ip)
                &&& before.files.contains_key(ip) ==> after.files[ip] == before.files[ip]
            },
            None => {
                &&& r matches Ok(m) && m@ == Seq::<char>::empty()
                &&& after == (FsView {
                    files: st.v.files.insert(
                        ip,
                        (FileView {
                            contents: index_file_bytes(sort_entries(kept + st.entries)),
                            meta: sample_metadata(),
                        }),
                    ),
                    dirs: st.v.dirs,
                    cwd: before.cwd,
                })
            },
        }
    }
}

/// Stages every input path and rewrites the index: entries for the input
/// paths replace any previous ones, each file is stored as a blob, and the
/// sorted entry list is serialized over the old index. A path that does not
/// exist aborts the run with the index file untouched.
#[verifier::rlimit(100)]
pub fn execute(fs: &mut FileSystem, files: Vec<String>) -> (r: Result<String, Error>)
    requires
        old(fs).wf(),
        abs_cwd(old(fs)@),
    ensures
        final(fs).wf(),
        abs_cwd(final(fs)@),
        final(fs)@.cwd == old(fs)@.cwd,
        add_outcome(old(fs)@, strings_view(files@), final(fs)@, r),
{
    let ghost fviews = strings_view(files@);
    let mut ip = fs.current_directory();
    ip.append("/.papyrus/index");
    proof {
        assert(ip@ == index_path(old(fs)@.cwd));
        assert(ip@[0] == old(fs)@.cwd[0]);
        assert(resolve_path(old(fs)@.cwd, ip@) == ip@);
    }
    let index_exists = fs.path_exists(ip.as_str());
    let mut entries: Vec<IndexEntry> = Vec::new();
    if index_exists {
        let index_content = match fs.get_file_contents_as_bytes(ip.as_str()) {
            Ok(v) => v,
            Err(e) => {
                return Err(e);
            },
        };
        let parsed = match IndexEntry::parse_from_file(index_content.as_slice()) {
            Ok(es) => es,
            Err(e) => {
                return Err(e);
            },
        };
        let ghost parsed_views = entries_view(parsed@);
        let mut remaining = parsed;
        let total = remaining.len();
        let mut k: usize = 0;
        proof {
            assert(entries_view(entries@) =~= Seq::<EntryView>::empty());
            assert(kept_entries(parsed_views.take(0), fviews) =~= Seq::<EntryView>::empty());
        }
        while remaining.len() > 0
            invariant
                total == parsed_views.len(),
                k <= total,
                entries_view(remaining@) =~= parsed_views.skip(k as int),
                remaining@.len() == total - k,
                entries_view(entries@) == kept_entries(parsed_views.take(k as int), fviews),
                fviews == strings_view(files@),
            decreases remaining@.len(),
        {
            let ghost remaining_before = remaining@;
            let e = remaining.remove(0);
            proof {
                assert(entries_view(remaining_before)[0] == parsed_views.skip(k as int)[0]);
                assert(e@ == parsed_views[k as int]);
                assert(remaining@ =~= remaining_before.skip(1));
                assert(entries_view(remaining@) =~= parsed_views.skip(k + 1)) by {
                    assert forall|x: int|
                        0 <= x < remaining@.len() implies entries_view(remaining@)[x]
                        == parsed_views.skip(k + 1)[x] by {
                        assert(entries_view(remaining@)[x] == remaining@[x]@);
                        assert(remaining@[x] == remaining_before[x + 1]);
                        assert(entries_view(remaining_before)[x + 1] == remaining_before[x + 1]@);
                        assert(entries_view(remaining_before)[x + 1] == parsed_views.skip(
                            k as int,
                        )[x + 1]);
                        assert(parsed_views.skip(k as int)[x + 1] == parsed_views[k + 1 + x]);
                        assert(parsed_views.skip(k + 1)[x] == parsed_views[k + 1 + x]);
                    }
                }
            }
            let mut matched = false;
            let fcount = files.len();
            let mut j: usize = 0;
            while j < fcount
                invariant
                    fcount == files@.len(),
                    j <= fcount,
                    fviews == strings_view(files@),
                    !matched ==> forall|x: int|
                        0 <= x < j ==> e@.path != encode_utf8(#[trigger] fviews[x]),
                    matched ==> exists|x: int|
                        0 <= x < files@.len() && e@.path == encode_utf8(#[trigger] fviews[x]),
                ensures
                    matched == !keeps_entry(e@, fviews),
                decreases fcount - j,
            {
                if bytes_eq(e.path.as_slice(), files[j].as_str().as_bytes()) {
                    proof {
                        assert(fviews[j as int] == files@[j as int]@);
                        assert(e@.path == encode_utf8(fviews[j as int]));
                    }
                    matched = true;
                    break;
                }
                j = j + 1;
            }
            let ghost entries_before = entries@;
            if !matched {
                entries.push(e);
                proof {
                    assert(entries_view(entries@) =~= entries_view(entries_before).push(e@));
                }
            }
            proof {
                assert(parsed_views.take(k + 1).drop_last() =~= parsed_views.take(k as int));
                assert(parsed_views.take(k + 1).last() == parsed_views[k as int]);
            }
            k = k + 1;
        }
        proof {
            assert(parsed_views.take(total as int) =~= parsed_views);
        }
    }
    let ghost kept_views = entries_view(entries@);
    let ghost st_total = stage_files(old(fs)@, fviews);
    let ghost fs_mid = fs@;
    let staged = match stage_all(fs, &files) {
        Ok(v) => v,
        Err(e) => {
            proof {
                lemma_stage_preserves_index(fs_mid, fviews);
                assert(stage_files(fs_mid, fviews) == st_total);
            }
            return Err(e);
        },
    };
    proof {
        assert(st_total.failed is None && st_total.v == fs@ && entries_view(staged@)
            == st_total.entries);
    }
    let mut combined = entries;
    let mut staged_vec = staged;
    combined.append(&mut staged_vec);
    proof {
        assert(entries_view(combined@) =~= kept_views + st_total.entries);
    }
    let sorted = IndexEntry::sort_by_path(combined);
    let new_index = IndexEntry::parse_into_file(sorted);
    fs.write_file(ip.as_str(), new_index.as_slice());
    Ok(String::new())
}

} // verus!
