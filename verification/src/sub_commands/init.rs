//! Creating the repository layout: the metadata directory and the objects
//! directory under it, or a fresh metadata directory when one already exists.

use vstd::prelude::*;

use crate::errors::Error;
use crate::fs::{resolve_path, under_dir, FileSystem};
use crate::sub_commands::hash_object::abs_cwd;

verus! {

/// The repository metadata directory, with its trailing slash.
pub open spec fn repo_dir(cwd: Seq<char>) -> Seq<char> {
    cwd + "/.papyrus/"@
}

pub open spec fn msg_initialized(p: Seq<char>) -> Seq<char> {
    "Initialized empty Papyrus repository in "@ + p
}

pub open spec fn msg_reinitialized(p: Seq<char>) -> Seq<char> {
    "Reinitialized existing Papyrus repository in "@ + p
}

/// Creates the metadata directory and its objects directory; if the metadata
/// directory already exists, removes it with everything under it and creates
/// it afresh.
pub fn execute(fs: &mut FileSystem) -> (r: Result<String, Error>)
    requires
        old(fs).wf(),
        abs_cwd(old(fs)@),
    ensures
        final(fs).wf(),
        abs_cwd(final(fs)@),
        final(fs)@.cwd == old(fs)@.cwd,
        ({
            let pp = repo_dir(old(fs)@.cwd);
            if !(old(fs)@.dirs.contains(pp) || old(fs)@.files.contains_key(pp)) {
                &&& r matches Ok(m) && m@ == msg_initialized(pp)
                &&& final(fs)@.dirs == old(fs)@.dirs.insert(pp).insert(pp + "objects"@)
                &&& final(fs)@.files == old(fs)@.files
            } else {
                &&& r matches Ok(m) && m@ == msg_reinitialized(pp)
                &&& forall|q: Seq<char>|
                    #[trigger] final(fs)@.dirs.contains(q) <==> (old(fs)@.dirs.contains(q)
                        && !under_dir(q, pp)) || q == pp
                &&& forall|q: Seq<char>|
                    #[trigger] final(fs)@.files.contains_key(q) <==> old(
                        fs,
                    )@.files.contains_key(q) && !under_dir(q, pp)
                &&& forall|q: Seq<char>|
                    #[trigger] final(fs)@.files.contains_key(q) ==> final(fs)@.files[q] == old(
                        fs,
                    )@.files[q]
            }
        }),
{
    let mut papyrus_path = fs.current_directory();
    papyrus_path.append("/.papyrus/");
    proof {
        assert(papyrus_path@ == repo_dir(old(fs)@.cwd));
        assert(papyrus_path@[0] == old(fs)@.cwd[0]);
        assert(resolve_path(old(fs)@.cwd, papyrus_path@) == papyrus_path@);
    }
    let message: String;
    if !fs.path_exists(papyrus_path.as_str()) {
        fs.create_directory(papyrus_path.as_str());
        let mut objects_path = papyrus_path.clone();
        objects_path.append("objects");
        fs.create_directory(objects_path.as_str());
        let mut m: String = "Initialized empty Papyrus repository in ".to_owned();
        m.append(papyrus_path.as_str());
        message = m;
    } else {
        fs.remove_directory(papyrus_path.as_str());
        fs.create_directory(papyrus_path.as_str());
        let mut m: String = "Reinitialized existing Papyrus repository in ".to_owned();
        m.append(papyrus_path.as_str());
        message = m;
    }
    Ok(message)
}

} // verus!
