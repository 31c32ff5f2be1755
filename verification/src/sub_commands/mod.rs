//! The command layer over the core: each subcommand is a function from the
//! filesystem state and its inputs to a result and a new state.

use vstd::prelude::*;

pub mod add;
pub mod cat_file;
pub mod hash_object;
pub mod init;
pub mod ls_files;
pub mod write_tree;

use crate::errors::{Error, ErrorKind};
use crate::fs::FileSystem;
use crate::sub_commands::hash_object::abs_cwd;
use vstd::utf8::encode_utf8;

verus! {

/// A cat-file request: content of a blob, content of a tree, or the type of
/// either.
pub enum CatFile {
    Blob { file_name: String },
    Tree { file_name: String },
    Type { file_name: String },
}

/// One invocation of the tool.
pub enum SubCommand {
    Init,
    HashObject { file_name: String, write: bool, object_type: String },
    CatFile(CatFile),
    LsFiles { stage: bool },
    Add { files: Vec<String> },
    WriteTree,
}

impl CatFile {
    /// The name or prefix the request carries.
    pub open spec fn name(&self) -> Seq<char> {
        match self {
            CatFile::Blob { file_name } => file_name@,
            CatFile::Tree { file_name } => file_name@,
            CatFile::Type { file_name } => file_name@,
        }
    }

    /// The first-parameter token the request stands for.
    pub open spec fn token(&self) -> Seq<char> {
        match self {
            CatFile::Blob { .. } => "blob"@,
            CatFile::Tree { .. } => "tree"@,
            CatFile::Type { .. } => "-t"@,
        }
    }
}

impl SubCommand {
    /// Runs the subcommand against the given filesystem state.
    pub fn execute(self, fs: &mut FileSystem) -> (r: Result<String, Error>)
        requires
            old(fs).wf(),
            abs_cwd(old(fs)@),
            self matches SubCommand::CatFile(c) ==> c.name().len() >= 2,
        ensures
            final(fs).wf(),
            abs_cwd(final(fs)@),
            match self {
                SubCommand::Init => init_outcome(old(fs)@, final(fs)@, r),
                SubCommand::HashObject { file_name, write, object_type } => {
                    if !old(fs)@.files.contains_key(file_name@) {
                        (r matches Err(e) && e.kind == ErrorKind::IoFailure && e.message@
                            == crate::fs::msg_cannot_open(file_name@) && final(fs)@ == old(fs)@)
                    } else {
                        let content = old(fs)@.files[file_name@].contents;
                        &&& (r matches Ok(h) && h@ == hash_object::object_name(
                            encode_utf8(object_type@),
                            content,
                        ))
                        &&& !write ==> final(fs)@ == old(fs)@
                        &&& write ==> final(fs)@ == hash_object::store_object(
                            old(fs)@,
                            encode_utf8(object_type@),
                            content,
                        )
                    }
                },
                SubCommand::CatFile(c) => final(fs)@ == old(fs)@ && cat_file::cat_file_outcome(
                    *old(fs),
                    c.token(),
                    c.name(),
                    r,
                ),
                SubCommand::LsFiles { stage } => final(fs)@ == old(fs)@
                    && ls_files::ls_files_outcome(*old(fs), stage, r),
                SubCommand::Add { files } => add::add_outcome(
                    old(fs)@,
                    crate::fs::strings_view(files@),
                    final(fs)@,
                    r,
                ),
                SubCommand::WriteTree => write_tree::write_tree_outcome(old(fs)@, final(fs)@, r),
            },
    {
        match self {
            SubCommand::Init => init::execute(fs),
            SubCommand::HashObject { file_name, object_type, write } => {
                let contents = match fs.get_file_contents_as_bytes(file_name.as_str()) {
                    Ok(v) => v,
                    Err(e) => {
                        return Err(e);
                    },
                };
                hash_object::execute(fs, contents.as_slice(), object_type, write)
            },
            SubCommand::CatFile(CatFile::Blob { file_name }) => cat_file::execute(
                fs,
                "blob".to_owned(),
                file_name,
            ),
            SubCommand::CatFile(CatFile::Tree { file_name }) => cat_file::execute(
                fs,
                "tree".to_owned(),
                file_name,
            ),
            SubCommand::CatFile(CatFile::Type { file_name }) => cat_file::execute(
                fs,
                "-t".to_owned(),
                file_name,
            ),
            SubCommand::LsFiles { stage } => ls_files::execute(fs, stage),
            SubCommand::Add { files } => add::execute(fs, files),
            SubCommand::WriteTree => write_tree::execute(fs),
        }
    }
}

/// What `init` leaves behind, as its own contract states it.
pub open spec fn init_outcome(
    before: crate::fs::FsView,
    after: crate::fs::FsView,
    r: Result<String, Error>,
) -> bool {
    let pp = init::repo_dir(before.cwd);
    &&& after.cwd == before.cwd
    &&& if !(before.dirs.contains(pp) || before.files.contains_key(pp)) {
        &&& r matches Ok(m) && m@ == init::msg_initialized(pp)
        &&& after.dirs == before.dirs.insert(pp).insert(pp + "objects"@)
        &&& after.files == before.files
    } else {
        &&& r matches Ok(m) && m@ == init::msg_reinitialized(pp)
        &&& forall|q: Seq<char>|
            #[trigger] after.dirs.contains(q) <==> (before.dirs.contains(q) && !crate::fs::under_dir(
                q,
                pp,
            )) || q == pp
        &&& forall|q: Seq<char>|
            #[trigger] after.files.contains_key(q) <==> before.files.contains_key(q)
                && !crate::fs::under_dir(q, pp)
        &&& forall|q: Seq<char>|
            #[trigger] after.files.contains_key(q) ==> after.files[q] == before.files[q]
    }
}

} // verus!
