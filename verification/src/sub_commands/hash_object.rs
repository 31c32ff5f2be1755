//! Hashing an object and, on request, storing it: the canonical tagged byte
//! form is hashed, and the compressed form is written once under the path
//! its hash names.

use vstd::prelude::*;

use crate::encoding::{dec_bytes, hex_chars, render_dec};
use crate::errors::Error;
use crate::fs::{resolve_path, sample_metadata, FileSystem, FileView, FsView};
use crate::hashing::{create_sha1, sha1_of};
use crate::zlib::{deflate, zlib_compress};
use vstd::string::StrSliceExecFns;
use vstd::utf8::encode_utf8;

verus! {

/// The current directory is an absolute path.
pub open spec fn abs_cwd(v: FsView) -> bool {
    v.cwd.len() > 0 && v.cwd[0] == '/'
}

/// The canonical byte form of an object: its type token, a space, the
/// decimal length of the content, a NUL, then the content itself.
pub open spec fn canonical_bytes(type_bytes: Seq<u8>, content: Seq<u8>) -> Seq<u8> {
    type_bytes + seq![32u8] + dec_bytes(content.len()) + seq![0u8] + content
}

/// The forty-character lowercase hex name of an object.
pub open spec fn object_name(type_bytes: Seq<u8>, content: Seq<u8>) -> Seq<char> {
    hex_chars(sha1_of(canonical_bytes(type_bytes, content)))
}

/// The directory an object named `h` is stored in: the first two characters
/// of the name under the objects tree.
pub open spec fn object_dir(cwd: Seq<char>, h: Seq<char>) -> Seq<char> {
    cwd + "/.papyrus/objects/"@ + h.take(2)
}

/// The file an object named `h` is stored at: the remaining characters of
/// the name inside its directory.
pub open spec fn object_file_at(cwd: Seq<char>, h: Seq<char>) -> Seq<char> {
    object_dir(cwd, h) + "/"@ + h.skip(2)
}

/// The filesystem after an idempotent object write: the object's directory
/// is created if nothing exists under its path, and the compressed canonical
/// bytes are written only if nothing exists at the object's path.
pub open spec fn store_object(v: FsView, type_bytes: Seq<u8>, content: Seq<u8>) -> FsView {
    let h = object_name(type_bytes, content);
    let dir = object_dir(v.cwd, h);
    let fp = object_file_at(v.cwd, h);
    let dirs = if v.dirs.contains(dir) || v.files.contains_key(dir) {
        v.dirs
    } else {
        v.dirs.insert(dir)
    };
    let files = if dirs.contains(fp) || v.files.contains_key(fp) {
        v.files
    } else {
        v.files.insert(
            fp,
            (FileView {
                contents: deflate(canonical_bytes(type_bytes, content)),
                meta: sample_metadata(),
            }),
        )
    };
    FsView { files, dirs, cwd: v.cwd }
}

/// Hashes `contents` tagged with `object_type`, and with `write` set also
/// stores the compressed canonical bytes under the hash's two-level path,
/// leaving the store unchanged if the object already exists.
pub fn execute(fs: &mut FileSystem, contents: &[u8], object_type: String, write: bool) -> (r:
    Result<String, Error>)
    requires
        old(fs).wf(),
        abs_cwd(old(fs)@),
    ensures
        final(fs).wf(),
        abs_cwd(final(fs)@),
        r matches Ok(h) && h@ == object_name(encode_utf8(object_type@), contents@),
        !write ==> final(fs)@ == old(fs)@,
        write ==> final(fs)@ == store_object(
            old(fs)@,
            encode_utf8(object_type@),
            contents@,
        ),
{
    let ghost type_bytes = encode_utf8(object_type@);
    let mut canonical: Vec<u8> = Vec::new();
    canonical.extend_from_slice(object_type.as_str().as_bytes());
    canonical.push(32);
    let mut length_bytes = render_dec(contents.len() as u64);
    canonical.append(&mut length_bytes);
    canonical.push(0);
    canonical.extend_from_slice(contents);
    proof {
        assert(canonical@ =~= canonical_bytes(type_bytes, contents@));
    }
    let hash = create_sha1(canonical.as_slice());
    if write {
        let mut dir = fs.current_directory();
        dir.append("/.papyrus/objects/");
        dir.append(hash.as_str().substring_char(0, 2));
        proof {
            assert(dir@ =~= object_dir(old(fs)@.cwd, hash@));
            assert(dir@[0] == old(fs)@.cwd[0]);
            assert(resolve_path(old(fs)@.cwd, dir@) == dir@);
        }
        if !fs.path_exists(dir.as_str()) {
            fs.create_directory(dir.as_str());
        }
        let mut file_path = dir.clone();
        file_path.append("/");
        let hash_len = hash.as_str().unicode_len();
        file_path.append(hash.as_str().substring_char(2, hash_len));
        proof {
            assert(file_path@ =~= object_file_at(old(fs)@.cwd, hash@));
            assert(file_path@[0] == old(fs)@.cwd[0]);
            assert(resolve_path(old(fs)@.cwd, file_path@) == file_path@);
        }
        if !fs.path_exists(file_path.as_str()) {
            fs.create_file(file_path.as_str());
            let compressed = zlib_compress(canonical.as_slice());
            fs.write_file(file_path.as_str(), compressed.as_slice());
            proof {
                assert(fs@.files =~= old(fs)@.files.insert(
                    file_path@,
                    (FileView {
                        contents: deflate(canonical_bytes(type_bytes, contents@)),
                        meta: sample_metadata(),
                    }),
                ));
            }
        }
        proof {
            assert(fs@ =~= store_object(old(fs)@, type_bytes, contents@));
        }
    }
    Ok(hash)
}

} // verus!
