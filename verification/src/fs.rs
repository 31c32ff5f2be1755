//! The filesystem collaborator, modeled as an explicit in-memory value: a
//! list of file records, a list of directories, and a current directory. The
//! core's operations are verified against this model; a surrounding program
//! loads real state into it and applies the changes back.

use vstd::prelude::*;

use crate::errors::{Error, ErrorKind};
use crate::text::starts_with_chars;
use crate::text::str_starts_with;

verus! {

/// The platform metadata of one file, as the staging index records it:
/// already reduced to the 32-bit values the index stores.
#[derive(Clone, Copy, Debug, PartialEq, Eq, Structural)]
pub struct FileMetadata {
    pub dev: u32,
    pub ino: u32,
    pub mode: u32,
    pub uid: u32,
    pub gid: u32,
    pub size: u32,
    pub mtime: u32,
    pub ctime: u32,
}

/// The fixed metadata record the in-memory filesystem stamps on every file it
/// creates, standing in for platform metadata.
pub open spec fn sample_metadata() -> FileMetadata {
    FileMetadata {
        dev: 16777220,
        ino: 21517258,
        mode: 33188,
        uid: 501,
        gid: 20,
        size: 279,
        mtime: 1591510158,
        ctime: 1591510158,
    }
}

impl FileMetadata {
    pub fn sample() -> (r: FileMetadata)
        ensures
            r == sample_metadata(),
    {
        FileMetadata {
            dev: 16777220,
            ino: 21517258,
            mode: 33188,
            uid: 501,
            gid: 20,
            size: 279,
            mtime: 1591510158,
            ctime: 1591510158,
        }
    }
}

/// One stored file: its path, its raw contents, and its metadata.
pub struct FileRecord {
    pub path: String,
    pub contents: Vec<u8>,
    pub meta: FileMetadata,
}

/// The mathematical content of one file record.
#[verifier::ext_equal]
pub ghost struct FileView {
    pub contents: Seq<u8>,
    pub meta: FileMetadata,
}

/// The mathematical content of the whole filesystem.
#[verifier::ext_equal]
pub ghost struct FsView {
    pub files: Map<Seq<char>, FileView>,
    pub dirs: Set<Seq<char>>,
    pub cwd: Seq<char>,
}

pub open spec fn record_view(r: FileRecord) -> FileView {
    FileView { contents: r.contents@, meta: r.meta }
}

/// The file map described by a list of records; a later record with the same
/// path shadows an earlier one, though well-formed filesystems have no
/// duplicate paths at all.
pub open spec fn files_map(s: Seq<FileRecord>) -> Map<Seq<char>, FileView>
    decreases s.len(),
{
    if s.len() == 0 {
        Map::empty()
    } else {
        files_map(s.drop_last()).insert(s.last().path@, record_view(s.last()))
    }
}

/// The set of directory paths in a list.
pub open spec fn dirs_set(s: Seq<String>) -> Set<Seq<char>> {
    Set::new(|d: Seq<char>| exists|i: int| 0 <= i < s.len() && s[i]@ == d)
}

/// Appending a directory entry inserts its path into the directory set.
pub proof fn lemma_dirs_set_push(s: Seq<String>, x: String)
    ensures
        dirs_set(s.push(x)) =~= dirs_set(s).insert(x@),
{
    let t = s.push(x);
    assert forall|d: Seq<char>| #[trigger] dirs_set(t).contains(d) implies dirs_set(s).insert(
        x@,
    ).contains(d) by {
        let i = choose|i: int| 0 <= i < t.len() && t[i]@ == d;
        if i < s.len() {
            assert(s[i]@ == d);
            assert(dirs_set(s).contains(d));
        } else {
            assert(d == x@);
        }
    }
    assert forall|d: Seq<char>| dirs_set(s).insert(x@).contains(d) implies #[trigger] dirs_set(
        t,
    ).contains(d) by {
        if d == x@ {
            assert(t[s.len() as int]@ == d);
        } else {
            let i = choose|i: int| 0 <= i < s.len() && s[i]@ == d;
            assert(t[i]@ == d);
        }
    }
}


/// The path of a directory with exactly one trailing slash.
pub open spec fn dir_prefix_slash(p: Seq<char>) -> Seq<char> {
    if p.len() > 0 && p.last() == '/' {
        p
    } else {
        p + seq!['/']
    }
}

/// Whether `q` is the directory `p` itself or lies underneath it.
pub open spec fn under_dir(q: Seq<char>, p: Seq<char>) -> bool {
    q == p || starts_with_chars(q, dir_prefix_slash(p))
}

/// The records of `s` that do not lie under the directory `p`, in order.
pub open spec fn surviving_records(s: Seq<FileRecord>, p: Seq<char>) -> Seq<FileRecord>
    decreases s.len(),
{
    if s.len() == 0 {
        Seq::empty()
    } else if !under_dir(s.last().path@, p) {
        surviving_records(s.drop_last(), p).push(s.last())
    } else {
        surviving_records(s.drop_last(), p)
    }
}

/// The directory entries of `s` that do not lie under the directory `p`.
pub open spec fn surviving_dirs(s: Seq<String>, p: Seq<char>) -> Seq<String>
    decreases s.len(),
{
    if s.len() == 0 {
        Seq::empty()
    } else if !under_dir(s.last()@, p) {
        surviving_dirs(s.drop_last(), p).push(s.last())
    } else {
        surviving_dirs(s.drop_last(), p)
    }
}

/// Dropping the records under a directory removes exactly their keys from the
/// file map and keeps every other binding.
pub proof fn lemma_files_map_surviving(s: Seq<FileRecord>, p: Seq<char>)
    requires
        paths_distinct(s),
    ensures
        paths_distinct(surviving_records(s, p)),
        forall|q: Seq<char>|
            #[trigger] files_map(surviving_records(s, p)).contains_key(q) <==> files_map(
                s,
            ).contains_key(q) && !under_dir(q, p),
        forall|q: Seq<char>|
            #[trigger] files_map(surviving_records(s, p)).contains_key(q) ==> files_map(
                surviving_records(s, p),
            )[q] == files_map(s)[q],
    decreases s.len(),
{
    lemma_files_map_dom(s);
    lemma_files_map_dom(surviving_records(s, p));
    if s.len() > 0 {
        let dl = s.drop_last();
        assert(paths_distinct(dl)) by {
            assert(forall|x: int| 0 <= x < dl.len() ==> dl[x] == s[x]);
        }
        lemma_files_map_surviving(dl, p);
        lemma_files_map_dom(dl);
        lemma_files_map_dom(surviving_records(dl, p));
        assert(forall|x: int| 0 <= x < dl.len() ==> dl[x] == s[x]);
        assert(!files_map(dl).contains_key(s.last().path@)) by {
            if files_map(dl).contains_key(s.last().path@) {
                let i = choose|i: int| 0 <= i < dl.len() && dl[i].path@ == s.last().path@;
                assert(s[i].path@ == s[s.len() - 1].path@);
            }
        }
        let lp = s.last().path@;
        let lv = record_view(s.last());
        if !under_dir(lp, p) {
            let t = surviving_records(dl, p).push(s.last());
            assert(t.drop_last() =~= surviving_records(dl, p));
            assert(surviving_records(s, p) == t);
            assert(files_map(t) == files_map(surviving_records(dl, p)).insert(lp, lv));
            assert(paths_distinct(t)) by {
                assert forall|x: int, y: int| 0 <= x < y < t.len() implies t[x].path@
                    != t[y].path@ by {
                    if y < t.len() - 1 {
                        assert(t[x] == surviving_records(dl, p)[x]);
                        assert(t[y] == surviving_records(dl, p)[y]);
                    } else {
                        assert(t[x] == surviving_records(dl, p)[x]);
                        assert(files_map(surviving_records(dl, p)).contains_key(t[x].path@));
                    }
                }
            }
            assert forall|q: Seq<char>| #[trigger]
                files_map(surviving_records(s, p)).contains_key(q) implies files_map(
                s,
            ).contains_key(q) && !under_dir(q, p) && files_map(surviving_records(s, p))[q]
                == files_map(s)[q] by {
                if q != lp {
                    assert(files_map(surviving_records(dl, p)).contains_key(q));
                }
            }
            assert forall|q: Seq<char>|
                files_map(s).contains_key(q) && !under_dir(q, p) implies #[trigger] files_map(
                surviving_records(s, p),
            ).contains_key(q) by {
                if q != lp {
                    assert(files_map(dl).contains_key(q));
                }
            }
        } else {
            assert(surviving_records(s, p) == surviving_records(dl, p));
            assert forall|q: Seq<char>| #[trigger]
                files_map(surviving_records(s, p)).contains_key(q) implies files_map(
                s,
            ).contains_key(q) && !under_dir(q, p) && files_map(surviving_records(s, p))[q]
                == files_map(s)[q] by {
                assert(files_map(dl).contains_key(q));
                assert(q != lp);
            }
            assert forall|q: Seq<char>|
                files_map(s).contains_key(q) && !under_dir(q, p) implies #[trigger] files_map(
                surviving_records(s, p),
            ).contains_key(q) by {
                assert(q != lp);
                assert(files_map(dl).contains_key(q));
            }
        }
    }
}

/// Dropping the directory entries under a directory removes exactly them from
/// the directory set.
pub proof fn lemma_dirs_set_surviving(s: Seq<String>, p: Seq<char>)
    ensures
        forall|q: Seq<char>|
            #[trigger] dirs_set(surviving_dirs(s, p)).contains(q) <==> dirs_set(s).contains(q)
                && !under_dir(q, p),
    decreases s.len(),
{
    if s.len() > 0 {
        let dl = s.drop_last();
        lemma_dirs_set_surviving(dl, p);
        assert(forall|x: int| 0 <= x < dl.len() ==> dl[x] == s[x]);
        assert forall|q: Seq<char>| #[trigger]
            dirs_set(surviving_dirs(s, p)).contains(q) implies dirs_set(s).contains(q)
            && !under_dir(q, p) by {
            let t = surviving_dirs(s, p);
            let i = choose|i: int| 0 <= i < t.len() && t[i]@ == q;
            if !under_dir(s.last()@, p) && i == t.len() - 1 {
                assert(s[s.len() - 1]@ == q);
            } else {
                assert(t[i] == surviving_dirs(dl, p)[i]);
                assert(dirs_set(surviving_dirs(dl, p)).contains(q));
                let j = choose|j: int| 0 <= j < dl.len() && dl[j]@ == q;
                assert(s[j]@ == q);
            }
        }
        assert forall|q: Seq<char>|
            dirs_set(s).contains(q) && !under_dir(q, p) implies #[trigger] dirs_set(
            surviving_dirs(s, p),
        ).contains(q) by {
            let i = choose|i: int| 0 <= i < s.len() && s[i]@ == q;
            if i < s.len() - 1 {
                assert(dl[i]@ == q);
                assert(dirs_set(dl).contains(q));
                assert(dirs_set(surviving_dirs(dl, p)).contains(q));
                let j = choose|j: int|
                    0 <= j < surviving_dirs(dl, p).len() && surviving_dirs(dl, p)[j]@ == q;
                if !under_dir(s.last()@, p) {
                    assert(surviving_dirs(s, p)[j]@ == q);
                } else {
                    assert(surviving_dirs(s, p)[j]@ == q);
                }
            } else {
                assert(!under_dir(s.last()@, p));
                let t = surviving_dirs(s, p);
                assert(t[t.len() - 1]@ == q);
            }
        }
    }
}

/// The paths of `s` whose characters begin with `pre`, in order.
pub open spec fn matching_paths(s: Seq<FileRecord>, pre: Seq<char>) -> Seq<Seq<char>>
    decreases s.len(),
{
    if s.len() == 0 {
        Seq::empty()
    } else if starts_with_chars(s.last().path@, pre) {
        matching_paths(s.drop_last(), pre).push(s.last().path@)
    } else {
        matching_paths(s.drop_last(), pre)
    }
}

/// Every matching path is the path of some record, and begins with `pre`.
pub proof fn lemma_matching_paths_member(s: Seq<FileRecord>, pre: Seq<char>)
    ensures
        forall|k: int|
            0 <= k < matching_paths(s, pre).len() ==> starts_with_chars(
                #[trigger] matching_paths(s, pre)[k],
                pre,
            ) && exists|i: int| 0 <= i < s.len() && s[i].path@ == matching_paths(s, pre)[k],
    decreases s.len(),
{
    if s.len() > 0 {
        let dl = s.drop_last();
        lemma_matching_paths_member(dl, pre);
        assert(forall|x: int| 0 <= x < dl.len() ==> dl[x] == s[x]);
        assert forall|k: int| 0 <= k < matching_paths(s, pre).len() implies starts_with_chars(
            #[trigger] matching_paths(s, pre)[k],
            pre,
        ) && exists|i: int| 0 <= i < s.len() && s[i].path@ == matching_paths(s, pre)[k] by {
            let m = matching_paths(s, pre);
            if starts_with_chars(s.last().path@, pre) && k == m.len() - 1 {
                assert(s[s.len() - 1].path@ == m[k]);
            } else {
                assert(m[k] == matching_paths(dl, pre)[k]);
                let i = choose|i: int| 0 <= i < dl.len() && dl[i].path@ == m[k];
                assert(s[i].path@ == m[k]);
            }
        }
    }
}

/// The views of a list of strings.
pub open spec fn strings_view(v: Seq<String>) -> Seq<Seq<char>> {
    v.map_values(|x: String| x@)
}

/// No two records share a path.
pub open spec fn paths_distinct(s: Seq<FileRecord>) -> bool {
    forall|i: int, j: int| 0 <= i < j < s.len() ==> s[i].path@ != s[j].path@
}

/// An absolute path stands alone; a relative one is joined to the current
/// directory.
pub open spec fn resolve_path(cwd: Seq<char>, p: Seq<char>) -> Seq<char> {
    if p.len() > 0 && p[0] == '/' {
        p
    } else {
        cwd + seq!['/'] + p
    }
}

/// The in-memory filesystem.
pub struct FileSystem {
    pub files: Vec<FileRecord>,
    pub directories: Vec<String>,
    pub current_directory: String,
}

impl View for FileSystem {
    type V = FsView;

    open spec fn view(&self) -> FsView {
        FsView {
            files: files_map(self.files@),
            dirs: dirs_set(self.directories@),
            cwd: self.current_directory@,
        }
    }
}

/// Every path of a record list is a key of its file map, and nothing else is.
pub proof fn lemma_files_map_dom(s: Seq<FileRecord>)
    ensures
        forall|p: Seq<char>|
            #[trigger] files_map(s).contains_key(p) <==> exists|i: int|
                0 <= i < s.len() && s[i].path@ == p,
    decreases s.len(),
{
    if s.len() > 0 {
        lemma_files_map_dom(s.drop_last());
        assert forall|p: Seq<char>| #[trigger]
            files_map(s).contains_key(p) implies exists|i: int|
            0 <= i < s.len() && s[i].path@ == p by {
            if p == s.last().path@ {
                assert(s[s.len() - 1].path@ == p);
            } else {
                assert(files_map(s.drop_last()).contains_key(p));
                let i = choose|i: int| 0 <= i < s.drop_last().len() && s.drop_last()[i].path@ == p;
                assert(s.drop_last()[i] == s[i]);
                assert(s[i].path@ == p);
            }
        }
        assert forall|p: Seq<char>|
            (exists|i: int| 0 <= i < s.len() && s[i].path@ == p) implies #[trigger] files_map(
            s,
        ).contains_key(p) by {
            let i = choose|i: int| 0 <= i < s.len() && s[i].path@ == p;
            if i < s.len() - 1 {
                assert(s.drop_last()[i].path@ == p);
                assert(files_map(s.drop_last()).contains_key(p));
            }
        }
    }
}

/// In a duplicate-free record list, the file map sends each record's path to
/// that record's content.
pub proof fn lemma_files_map_index(s: Seq<FileRecord>, i: int)
    requires
        paths_distinct(s),
        0 <= i < s.len(),
    ensures
        files_map(s).contains_key(s[i].path@),
        files_map(s)[s[i].path@] == record_view(s[i]),
    decreases s.len(),
{
    lemma_files_map_dom(s);
    if i == s.len() - 1 {
        assert(files_map(s)[s.last().path@] == record_view(s.last()));
    } else {
        assert(s[i].path@ != s.last().path@);
        assert(s.drop_last()[i] == s[i]);
        assert(paths_distinct(s.drop_last())) by {
            assert(forall|x: int, y: int|
                0 <= x < y < s.drop_last().len() ==> s.drop_last()[x] == s[x]
                    && s.drop_last()[y] == s[y]);
        }
        lemma_files_map_index(s.drop_last(), i);
    }
}

/// Replacing the record at a path leaves the file map inserted at that path.
pub proof fn lemma_files_map_update(s: Seq<FileRecord>, i: int, r: FileRecord)
    requires
        paths_distinct(s),
        0 <= i < s.len(),
        s[i].path@ == r.path@,
    ensures
        files_map(s.update(i, r)) =~= files_map(s).insert(r.path@, record_view(r)),
    decreases s.len(),
{
    let t = s.update(i, r);
    if i == s.len() - 1 {
        assert(t.drop_last() =~= s.drop_last());
        assert(t.last() == r);
    } else {
        assert(t.drop_last() =~= s.drop_last().update(i, r));
        assert(t.last() == s.last());
        assert(s.drop_last()[i] == s[i]);
        assert(paths_distinct(s.drop_last())) by {
            assert(forall|x: int, y: int|
                0 <= x < y < s.drop_last().len() ==> s.drop_last()[x] == s[x]
                    && s.drop_last()[y] == s[y]);
        }
        lemma_files_map_update(s.drop_last(), i, r);
        assert(s[i].path@ != s.last().path@);
    }
}

impl FileSystem {
    /// The filesystem is well formed: no two records share a path.
    pub open spec fn wf(&self) -> bool {
        paths_distinct(self.files@)
    }

    /// An empty filesystem whose current directory is a fixed sample project
    /// root, which exists as a directory.
    pub fn access() -> (r: FileSystem)
        ensures
            r.wf(),
            r@.files == Map::<Seq<char>, FileView>::empty(),
            r@.dirs == Set::<Seq<char>>::empty().insert("/Users/jack/cool_project"@),
            r@.cwd == "/Users/jack/cool_project"@,
    {
        let cwd: String = "/Users/jack/cool_project".to_owned();
        let mut directories: Vec<String> = Vec::new();
        directories.push(cwd.clone());
        let r = FileSystem { files: Vec::new(), directories, current_directory: cwd };
        proof {
            assert(r@.files =~= Map::<Seq<char>, FileView>::empty());
            let target = Set::<Seq<char>>::empty().insert("/Users/jack/cool_project"@);
            assert(r.directories@[0]@ == "/Users/jack/cool_project"@);
            assert forall|d: Seq<char>| #[trigger] r@.dirs.contains(d) implies target.contains(
                d,
            ) by {
                let i = choose|i: int|
                    0 <= i < r.directories@.len() && r.directories@[i]@ == d;
                assert(i == 0);
            }
            assert(r@.dirs =~= target);
        }
        r
    }

    pub fn current_directory(&self) -> (r: String)
        ensures
            r@ == self@.cwd,
    {
        self.current_directory.clone()
    }

    /// The number of stored files.
    pub fn file_count(&self) -> (r: usize)
        ensures
            r == self.files@.len(),
    {
        self.files.len()
    }

    /// The index of the record at `path`, if one exists.
    fn find_file(&self, path: &str) -> (r: Option<usize>)
        ensures
            match r {
                Some(i) => i < self.files@.len() && self.files@[i as int].path@ == path@,
                None => !self@.files.contains_key(path@),
            },
    {
        let target = path.to_owned();
        let n = self.files.len();
        let mut i: usize = 0;
        while i < n
            invariant
                n == self.files@.len(),
                i <= n,
                target@ == path@,
                forall|j: int| 0 <= j < i ==> self.files@[j].path@ != path@,
            decreases n - i,
        {
            if self.files[i].path == target {
                return Some(i);
            }
            i = i + 1;
        }
        proof {
            lemma_files_map_dom(self.files@);
        }
        None
    }

    /// Whether any directory entry is exactly `path`.
    fn find_directory(&self, path: &str) -> (r: bool)
        ensures
            r == self@.dirs.contains(path@),
    {
        let target = path.to_owned();
        let n = self.directories.len();
        let mut i: usize = 0;
        while i < n
            invariant
                n == self.directories@.len(),
                i <= n,
                target@ == path@,
                forall|j: int| 0 <= j < i ==> self.directories@[j]@ != path@,
            decreases n - i,
        {
            if self.directories[i] == target {
                proof {
                    assert(self.directories@[i as int]@ == path@);
                    assert(self@.dirs.contains(path@));
                }
                return true;
            }
            i = i + 1;
        }
        false
    }

    /// `path`, made absolute against the current directory if it is relative.
    fn resolve(&self, path: &str) -> (r: String)
        ensures
            r@ == resolve_path(self@.cwd, path@),
    {
        let n = path.unicode_len();
        if n > 0 && path.get_char(0) == '/' {
            path.to_owned()
        } else {
            let mut r = self.current_directory.clone();
            r.append("/");
            r.append(path);
            proof {
                reveal_strlit("/");
                assert(r@ =~= self@.cwd + seq!['/'] + path@);
            }
            r
        }
    }

    /// Whether `path`, resolved against the current directory, names a stored
    /// directory or file.
    pub fn path_exists(&self, path: &str) -> (r: bool)
        ensures
            r == ({
                let q = resolve_path(self@.cwd, path@);
                self@.dirs.contains(q) || self@.files.contains_key(q)
            }),
    {
        let q = self.resolve(path);
        if self.find_directory(q.as_str()) {
            return true;
        }
        match self.find_file(q.as_str()) {
            Some(i) => {
                proof {
                    lemma_files_map_dom(self.files@);
                }
                true
            },
            None => false,
        }
    }

    /// Inserts or replaces the record at `path` (an exact key, not resolved),
    /// giving it the sample metadata.
    pub fn write_file(&mut self, path: &str, contents: &[u8])
        requires
            old(self).wf(),
        ensures
            final(self).wf(),
            final(self)@.files == old(self)@.files.insert(
                path@,
                (FileView { contents: contents@, meta: sample_metadata() }),
            ),
            final(self)@.dirs == old(self)@.dirs,
            final(self)@.cwd == old(self)@.cwd,
    {
        let record = FileRecord {
            path: path.to_owned(),
            contents: vstd::slice::slice_to_vec(contents),
            meta: FileMetadata::sample(),
        };
        match self.find_file(path) {
            Some(i) => {
                proof {
                    lemma_files_map_update(self.files@, i as int, record);
                }
                self.files[i] = record;
                assert(paths_distinct(self.files@));
            },
            None => {
                proof {
                    lemma_files_map_dom(self.files@);
                    assert(self.files@.push(record).drop_last() =~= self.files@);
                }
                self.files.push(record);
                assert(paths_distinct(self.files@)) by {
                    let s = self.files@;
                    assert(forall|x: int| 0 <= x < s.len() - 1 ==> s[x] == old(self).files@[x]);
                }
            },
        }
        assert(self@.files =~= old(self)@.files.insert(
            path@,
            (FileView { contents: contents@, meta: sample_metadata() }),
        ));
        assert(self@.dirs =~= old(self)@.dirs);
    }

    /// Creates an empty file at `path` (an exact key, not resolved),
    /// replacing any record already there.
    pub fn create_file(&mut self, path: &str)
        requires
            old(self).wf(),
        ensures
            final(self).wf(),
            final(self)@.files == old(self)@.files.insert(
                path@,
                (FileView { contents: Seq::empty(), meta: sample_metadata() }),
            ),
            final(self)@.dirs == old(self)@.dirs,
            final(self)@.cwd == old(self)@.cwd,
    {
        let empty: Vec<u8> = Vec::new();
        self.write_file(path, empty.as_slice());
    }

    /// The raw contents of the file at `path` (an exact key, not resolved).
    pub fn get_file_contents_as_bytes(&self, path: &str) -> (r: Result<Vec<u8>, Error>)
        requires
            self.wf(),
        ensures
            match r {
                Ok(v) => self@.files.contains_key(path@) && v@ == self@.files[path@].contents,
                Err(e) => !self@.files.contains_key(path@) && e.kind == ErrorKind::IoFailure
                    && e.message@ == msg_cannot_open(path@),
            },
    {
        match self.find_file(path) {
            Some(i) => {
                proof {
                    lemma_files_map_index(self.files@, i as int);
                }
                Ok(self.files[i].contents.clone())
            },
            None => Err(Error::new(ErrorKind::IoFailure, cannot_open_message(path))),
        }
    }

    /// The metadata of the file at `path` (an exact key, not resolved).
    pub fn metadata(&self, path: &str) -> (r: Result<FileMetadata, Error>)
        requires
            self.wf(),
        ensures
            match r {
                Ok(m) => self@.files.contains_key(path@) && m == self@.files[path@].meta,
                Err(e) => !self@.files.contains_key(path@) && e.kind == ErrorKind::IoFailure
                    && e.message@ == msg_cannot_open(path@),
            },
    {
        match self.find_file(path) {
            Some(i) => {
                proof {
                    lemma_files_map_index(self.files@, i as int);
                }
                Ok(self.files[i].meta)
            },
            None => Err(Error::new(ErrorKind::IoFailure, cannot_open_message(path))),
        }
    }

    /// Records `path` as a directory if it is not one already.
    pub fn create_directory(&mut self, path: &str)
        requires
            old(self).wf(),
        ensures
            final(self).wf(),
            final(self)@.dirs == old(self)@.dirs.insert(path@),
            final(self)@.files == old(self)@.files,
            final(self)@.cwd == old(self)@.cwd,
    {
        if !self.find_directory(path) {
            let entry = path.to_owned();
            let ghost entry_snapshot = entry;
            self.directories.push(entry);
            proof {
                lemma_dirs_set_push(old(self).directories@, entry_snapshot);
                assert(self@.dirs =~= old(self)@.dirs.insert(path@));
            }
        } else {
            proof {
                assert(old(self)@.dirs.contains(path@));
                assert forall|d: Seq<char>| old(self)@.dirs.insert(path@).contains(
                    d,
                ) implies #[trigger] self@.dirs.contains(d) by {
                    if d == path@ {
                        assert(self@.dirs.contains(path@));
                    }
                }
                assert(self@.dirs =~= old(self)@.dirs.insert(path@));
            }
        }
    }
}

/// The message for a file the collaborator cannot read.
pub open spec fn msg_cannot_open(p: Seq<char>) -> Seq<char> {
    "fatal: Cannot open '"@ + p + "': No such file or directory (os error 2)"@
}

fn cannot_open_message(path: &str) -> (r: String)
    ensures
        r@ == msg_cannot_open(path@),
{
    let mut r: String = "fatal: Cannot open '".to_owned();
    r.append(path);
    r.append("': No such file or directory (os error 2)");
    r
}

} // verus!

verus! {

impl FileSystem {
    /// Removes the directory entry at `path` together with every directory
    /// and file underneath it.
    pub fn remove_directory(&mut self, path: &str)
        requires
            old(self).wf(),
        ensures
            final(self).wf(),
            forall|q: Seq<char>|
                #[trigger] final(self)@.dirs.contains(q) <==> old(self)@.dirs.contains(q)
                    && !under_dir(q, path@),
            forall|q: Seq<char>|
                #[trigger] final(self)@.files.contains_key(q) <==> old(self)@.files.contains_key(q)
                    && !under_dir(q, path@),
            forall|q: Seq<char>|
                #[trigger] final(self)@.files.contains_key(q) ==> final(self)@.files[q] == old(
                    self,
                )@.files[q],
            final(self)@.cwd == old(self)@.cwd,
    {
        let target = path.to_owned();
        let mut pre = path.to_owned();
        let n = pre.as_str().unicode_len();
        if !(n > 0 && pre.as_str().get_char(n - 1) == '/') {
            pre.append("/");
            proof {
                reveal_strlit("/");
                assert(pre@ =~= path@ + seq!['/']);
            }
        }
        assert(pre@ == dir_prefix_slash(path@));
        let ghost old_files = self.files@;
        let total_files = self.files.len();
        let mut kept: Vec<FileRecord> = Vec::new();
        let mut k: usize = 0;
        while self.files.len() > 0
            invariant
                old_files.len() == total_files,
                k <= old_files.len(),
                self.files@ =~= old_files.skip(k as int),
                kept@ == surviving_records(old_files.take(k as int), path@),
                target@ == path@,
                pre@ == dir_prefix_slash(path@),
                self.directories@ == old(self).directories@,
                self.current_directory@ == old(self).current_directory@,
            decreases self.files@.len(),
        {
            let record = self.files.remove(0);
            proof {
                assert(record == old_files[k as int]);
                assert(old_files.skip(k as int).remove(0) =~= old_files.skip(k + 1));
                assert(old_files.take(k + 1).drop_last() =~= old_files.take(k as int));
                assert(old_files.take(k + 1).last() == record);
            }
            let is_under = record.path == target || str_starts_with(
                record.path.as_str(),
                pre.as_str(),
            );
            proof {
                assert(is_under == under_dir(record.path@, path@));
            }
            if !is_under {
                kept.push(record);
            }
            k = k + 1;
        }
        proof {
            assert(old_files.take(k as int) =~= old_files);
        }
        self.files = kept;
        let ghost old_dirs = self.directories@;
        let total_dirs = self.directories.len();
        let mut kept_dirs: Vec<String> = Vec::new();
        let mut j: usize = 0;
        while self.directories.len() > 0
            invariant
                old_dirs.len() == total_dirs,
                j <= old_dirs.len(),
                self.directories@ =~= old_dirs.skip(j as int),
                kept_dirs@ == surviving_dirs(old_dirs.take(j as int), path@),
                target@ == path@,
                pre@ == dir_prefix_slash(path@),
                self.files@ == surviving_records(old_files, path@),
                self.current_directory@ == old(self).current_directory@,
                old_dirs == old(self).directories@,
            decreases self.directories@.len(),
        {
            let entry = self.directories.remove(0);
            proof {
                assert(entry == old_dirs[j as int]);
                assert(old_dirs.skip(j as int).remove(0) =~= old_dirs.skip(j + 1));
                assert(old_dirs.take(j + 1).drop_last() =~= old_dirs.take(j as int));
                assert(old_dirs.take(j + 1).last() == entry);
            }
            let is_under = entry == target || str_starts_with(entry.as_str(), pre.as_str());
            proof {
                assert(is_under == under_dir(entry@, path@));
            }
            if !is_under {
                kept_dirs.push(entry);
            }
            j = j + 1;
        }
        proof {
            assert(old_dirs.take(j as int) =~= old_dirs);
        }
        self.directories = kept_dirs;
        proof {
            lemma_files_map_surviving(old(self).files@, path@);
            lemma_dirs_set_surviving(old(self).directories@, path@);
        }
    }

    /// The stored file paths that begin with the contents of the directory
    /// `directory` followed by a slash and `file_name` shorn of its first two
    /// characters, in storage order.
    pub fn get_directory_files_starting_with(&self, directory: &str, file_name: &str) -> (r: Vec<
        String,
    >)
        requires
            file_name@.len() >= 2,
        ensures
            strings_view(r@) == matching_paths(
                self.files@,
                directory@ + seq!['/'] + file_name@.skip(2),
            ),
            forall|x: int|
                0 <= x < r@.len() ==> self@.files.contains_key(#[trigger] r@[x]@)
                    && starts_with_chars(r@[x]@, directory@ + seq!['/'] + file_name@.skip(2)),
    {
        let mut pre = directory.to_owned();
        pre.append("/");
        let m = file_name.unicode_len();
        pre.append(file_name.substring_char(2, m));
        proof {
            reveal_strlit("/");
            assert(pre@ =~= directory@ + seq!['/'] + file_name@.skip(2));
        }
        let mut r: Vec<String> = Vec::new();
        let n = self.files.len();
        proof {
            assert(self.files@.take(0) =~= Seq::<FileRecord>::empty());
            assert(strings_view(r@) =~= Seq::<Seq<char>>::empty());
        }
        for i in 0..n
            invariant
                n == self.files@.len(),
                pre@ == directory@ + seq!['/'] + file_name@.skip(2),
                strings_view(r@) == matching_paths(self.files@.take(i as int), pre@),
        {
            proof {
                assert(self.files@.take(i + 1).drop_last() =~= self.files@.take(i as int));
                assert(self.files@.take(i + 1).last() == self.files@[i as int]);
            }
            if str_starts_with(self.files[i].path.as_str(), pre.as_str()) {
                let ghost before = r@;
                r.push(self.files[i].path.clone());
                proof {
                    assert(strings_view(r@) =~= strings_view(before).push(
                        self.files@[i as int].path@,
                    ));
                }
            }
        }
        proof {
            assert(self.files@.take(n as int) =~= self.files@);
            lemma_matching_paths_member(self.files@, pre@);
            lemma_files_map_dom(self.files@);
            assert forall|x: int| 0 <= x < r@.len() implies self@.files.contains_key(
                #[trigger] r@[x]@,
            ) && starts_with_chars(r@[x]@, directory@ + seq!['/'] + file_name@.skip(2)) by {
                assert(strings_view(r@)[x] == r@[x]@);
                assert(matching_paths(self.files@, pre@)[x] == r@[x]@);
            }
        }
        r
    }
}

} // verus!
