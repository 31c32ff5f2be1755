//! Reading an object back by a name or prefix: the prefix picks the storage
//! directory, the stored bytes are decompressed, and either the content after
//! the canonical header or the leading type token is returned.

use vstd::prelude::*;

use crate::errors::{Error, ErrorKind};
use crate::fs::{matching_paths, FileSystem};
use crate::sub_commands::hash_object::{abs_cwd, object_dir, object_file_at};
use crate::text::{char_pos, find_char, has_char, trim_end, trim_end_chars, utf8_to_string};
use crate::zlib::{deflate, zlib_decompress};
use vstd::string::StrSliceExecFns;
use vstd::utf8::{decode_utf8, valid_utf8};

verus! {

/// The accepted first parameters: a type query or one of the object types.
pub open spec fn valid_token(t: Seq<char>) -> bool {
    t == "-t"@ || t == "blob"@ || t == "tree"@
}

pub open spec fn msg_invalid_parameter() -> Seq<char> {
    "fatal: papyrus cat-file first parameter can only receive one of (-t, blob, tree)"@
}

pub open spec fn msg_not_valid_object(name: Seq<char>) -> Seq<char> {
    "fatal: Not a valid object name "@ + name
}

pub open spec fn msg_ambiguous(name: Seq<char>) -> Seq<char> {
    "fatal: ambigious argument '"@ + name + "', there are more than one object with same name"@
}

pub open spec fn msg_object_not_text() -> Seq<char> {
    "fatal: object content is not valid text"@
}

pub open spec fn msg_object_header_malformed() -> Seq<char> {
    "fatal: object header is malformed"@
}

/// The object's content: everything after the first NUL, with trailing
/// whitespace removed.
pub open spec fn object_data_chars(s: Seq<char>) -> Seq<char> {
    trim_end_chars(s.skip(char_pos(s, '\0') + 1))
}

/// The object's type token: everything before the first space.
pub open spec fn file_type_chars(s: Seq<char>) -> Seq<char> {
    s.take(char_pos(s, ' '))
}

/// What the command returns once a single object's canonical bytes `c` have
/// been recovered: its content or its type, or a corruption error when the
/// bytes are not text or lack the canonical header.
pub open spec fn cat_outcome(t: Seq<char>, c: Seq<u8>, r: Result<String, Error>) -> bool {
    if !valid_utf8(c) {
        r matches Err(e) && e.kind == ErrorKind::Corrupt && e.message@ == msg_object_not_text()
    } else {
        let s = decode_utf8(c);
        if t == "-t"@ {
            if has_char(s, ' ') {
                r matches Ok(o) && o@ == file_type_chars(s)
            } else {
                r matches Err(e) && e.kind == ErrorKind::Corrupt && e.message@
                    == msg_object_header_malformed()
            }
        } else {
            if has_char(s, '\0') {
                r matches Ok(o) && o@ == object_data_chars(s)
            } else {
                r matches Err(e) && e.kind == ErrorKind::Corrupt && e.message@
                    == msg_object_header_malformed()
            }
        }
    }
}

/// The content after the canonical header, trailing whitespace trimmed.
pub fn get_object_data(object_contents: &str) -> (r: String)
    requires
        has_char(object_contents@, '\0'),
    ensures
        r@ == object_data_chars(object_contents@),
{
    let pos = find_char(object_contents, '\0');
    let i = match pos {
        Some(i) => i,
        None => {
            proof {
                assert(false);
            }
            0
        },
    };
    let n = object_contents.unicode_len();
    let tail = object_contents.substring_char(i + 1, n);
    proof {
        assert(tail@ =~= object_contents@.skip(i + 1));
    }
    trim_end(tail)
}

/// The type token before the first space of the canonical header.
pub fn get_file_type(object_contents: &str) -> (r: String)
    requires
        has_char(object_contents@, ' '),
    ensures
        r@ == file_type_chars(object_contents@),
{
    let pos = find_char(object_contents, ' ');
    let i = match pos {
        Some(i) => i,
        None => {
            proof {
                assert(false);
            }
            0
        },
    };
    let head = object_contents.substring_char(0, i);
    proof {
        assert(head@ =~= object_contents@.take(i as int));
    }
    head.to_owned()
}

/// The whole contract of the lookup: how the token and the number of stored
/// objects matching the prefix decide the result.
pub open spec fn cat_file_outcome(
    fs: FileSystem,
    t: Seq<char>,
    file_name: Seq<char>,
    r: Result<String, Error>,
) -> bool {
    let found = matching_paths(fs.files@, object_file_at(fs@.cwd, file_name));
    &&& !valid_token(t) ==> (r matches Err(e) && e.kind == ErrorKind::InvalidArgument
        && e.message@ == msg_invalid_parameter())
    &&& valid_token(t) && found.len() == 0 ==> (r matches Err(e) && e.kind == ErrorKind::NotFound
        && e.message@ == msg_not_valid_object(file_name))
    &&& valid_token(t) && found.len() > 1 ==> (r matches Err(e) && e.kind == ErrorKind::Ambiguous
        && e.message@ == msg_ambiguous(file_name))
    &&& valid_token(t) && found.len() == 1 ==> (forall|c: Seq<u8>|
        fs@.files[found[0]].contents == #[trigger] deflate(c) ==> cat_outcome(t, c, r))
}

/// Looks `file_name` up as a hash prefix: with no match or more than one the
/// lookup fails, and with exactly one the stored object is decompressed and
/// its content, or with the type-query token its type, is returned.
pub fn execute(fs: &FileSystem, file_type_or_type_flag: String, file_name: String) -> (r: Result<
    String,
    Error,
>)
    requires
        fs.wf(),
        abs_cwd(fs@),
        file_name@.len() >= 2,
    ensures
        cat_file_outcome(*fs, file_type_or_type_flag@, file_name@, r),
{
    let is_type_query = crate::text::str_eq(file_type_or_type_flag.as_str(), "-t");
    let is_blob = crate::text::str_eq(file_type_or_type_flag.as_str(), "blob");
    let is_tree = crate::text::str_eq(file_type_or_type_flag.as_str(), "tree");
    if !(is_type_query || is_blob || is_tree) {
        return Err(
            Error::new(
                ErrorKind::InvalidArgument,
                "fatal: papyrus cat-file first parameter can only receive one of (-t, blob, tree)".to_owned(),
            ),
        );
    }
    let mut dir = fs.current_directory();
    dir.append("/.papyrus/objects/");
    dir.append(file_name.as_str().substring_char(0, 2));
    proof {
        reveal_strlit("/");
        assert(dir@ =~= object_dir(fs@.cwd, file_name@));
        assert(dir@ + seq!['/'] + file_name@.skip(2) =~= object_file_at(fs@.cwd, file_name@));
    }
    let found = fs.get_directory_files_starting_with(dir.as_str(), file_name.as_str());
    let ghost found_spec = matching_paths(fs.files@, object_file_at(fs@.cwd, file_name@));
    if found.len() == 0 {
        let mut m: String = "fatal: Not a valid object name ".to_owned();
        m.append(file_name.as_str());
        return Err(Error::new(ErrorKind::NotFound, m));
    }
    if found.len() > 1 {
        let mut m: String = "fatal: ambigious argument '".to_owned();
        m.append(file_name.as_str());
        m.append("', there are more than one object with same name");
        return Err(Error::new(ErrorKind::Ambiguous, m));
    }
    proof {
        assert(crate::fs::strings_view(found@)[0] == found@[0]@);
        assert(found@[0]@ == found_spec[0]);
    }
    let stored = match fs.get_file_contents_as_bytes(found[0].as_str()) {
        Ok(v) => v,
        Err(_) => {
            proof {
                assert(false);
            }
            Vec::new()
        },
    };
    let decompressed = match zlib_decompress(stored.as_slice()) {
        Some(v) => v,
        None => {
            proof {
                assert forall|c: Seq<u8>|
                    fs@.files[found_spec[0]].contents != #[trigger] deflate(c) by {
                    if fs@.files[found_spec[0]].contents == deflate(c) {
                        assert(stored@ == deflate(c));
                    }
                }
            }
            return Err(Error::new(ErrorKind::Corrupt, "fatal: object file is corrupt".to_owned()));
        },
    };
    let text = match utf8_to_string(decompressed.as_slice()) {
        Some(s) => s,
        None => {
            return Err(
                Error::new(ErrorKind::Corrupt, "fatal: object content is not valid text".to_owned()),
            );
        },
    };
    if is_type_query {
        match find_char(text.as_str(), ' ') {
            Some(_) => Ok(get_file_type(text.as_str())),
            None => Err(
                Error::new(ErrorKind::Corrupt, "fatal: object header is malformed".to_owned()),
            ),
        }
    } else {
        match find_char(text.as_str(), '\0') {
            Some(_) => Ok(get_object_data(text.as_str())),
            None => Err(
                Error::new(ErrorKind::Corrupt, "fatal: object header is malformed".to_owned()),
            ),
        }
    }
}

} // verus!
