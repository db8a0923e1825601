//! Helpers on strings and their UTF-8 bytes.

use crate::format::{CURRENT_DIR_STR, PATH_SEPARATOR};
use crate::model::name_encodable;
use vstd::prelude::*;
use vstd::string::*;
use vstd::utf8::*;

verus! {

/// `FromUtf8Error` of the standard library, carried through as it is.
#[verifier::external_type_specification]
#[verifier::external_body]
pub struct ExFromUtf8Error(std::string::FromUtf8Error);

/// `String::from_utf8` of the standard library: it succeeds exactly on
/// well-formed UTF-8, and the string it returns is made of the characters
/// that the bytes encode.
pub assume_specification[ String::from_utf8 ](bytes: Vec<u8>) -> (r: core::result::Result<
    String,
    std::string::FromUtf8Error,
>)
    ensures
        r is Ok <==> valid_utf8(bytes@),
        r matches Ok(s) ==> s@ == decode_utf8(bytes@),
;

/// Two strings with the same UTF-8 bytes are the same string.
pub proof fn lemma_utf8_bytes_injective(a: Seq<char>, b: Seq<char>)
    requires
        encode_utf8(a) == encode_utf8(b),
    ensures
        a == b,
{
    encode_utf8_decode_utf8(a);
    encode_utf8_decode_utf8(b);
}

/// Compares two string slices byte by byte.
pub fn str_eq(a: &str, b: &str) -> (same: bool)
    ensures
        same == (a@ == b@),
{
    let x = a.as_bytes();
    let y = b.as_bytes();
    if x.len() != y.len() {
        return false;
    }
    let mut i: usize = 0;
    while i < x.len()
        invariant
            i <= x.len(),
            x@.len() == y@.len(),
            x@ == encode_utf8(a@),
            y@ == encode_utf8(b@),
            forall|k: int| 0 <= k < i ==> x@[k] == y@[k],
        decreases x.len() - i,
    {
        if x[i] != y[i] {
            return false;
        }
        i += 1;
    }
    proof {
        assert(x@ =~= y@);
        lemma_utf8_bytes_injective(a@, b@);
    }
    true
}

/// Tells whether a name holds no zero byte.
pub fn is_encodable_name(name: &str) -> (r: bool)
    ensures
        r == name_encodable(name@),
{
    let bytes = name.as_bytes();
    let mut i: usize = 0;
    while i < bytes.len()
        invariant
            i <= bytes@.len(),
            bytes@ == encode_utf8(name@),
            forall|k: int| 0 <= k < i ==> bytes@[k] != 0u8,
        decreases bytes@.len() - i,
    {
        if bytes[i] == 0u8 {
            return false;
        }
        i += 1;
    }
    true
}

/// Whether a directory string stands for the current directory: it is the
/// reserved string `.` or it is empty.
pub open spec fn is_current_dir(dir: Seq<char>) -> bool {
    dir == CURRENT_DIR_STR@ || dir.len() == 0
}

/// The path of `name` in directory `dir`: the two joined by the separator,
/// or `name` alone where the directory is the current one.
pub open spec fn join_path(dir: Seq<char>, name: Seq<char>) -> Seq<char> {
    if is_current_dir(dir) {
        name
    } else {
        dir + PATH_SEPARATOR@ + name
    }
}

/// Tells whether a directory string stands for the current directory.
pub fn names_current_dir(dir: &str) -> (r: bool)
    ensures
        r == is_current_dir(dir@),
{
    dir.is_empty() || str_eq(dir, CURRENT_DIR_STR)
}

/// Builds the path of `name` in directory `dir`.
pub fn make_path(dir: &str, name: &str) -> (path: String)
    ensures
        path@ == join_path(dir@, name@),
{
    if names_current_dir(dir) {
        name.to_owned()
    } else {
        let mut path = dir.to_owned();
        path.append(PATH_SEPARATOR);
        path.append(name);
        path
    }
}

/// The filename of a file with path `path` in directory `directory`: what
/// is left of the path behind the directory and the separator; the whole
/// path where the directory is the current one. `None` where the path does
/// not lie in the directory or nothing is left of it.
pub open spec fn file_name_of(path: Seq<char>, directory: Seq<char>) -> Option<Seq<char>> {
    if is_current_dir(directory) {
        if path.len() > 0 {
            Some(path)
        } else {
            None
        }
    } else {
        let prefix = directory + PATH_SEPARATOR@;
        if path.len() > prefix.len() && path.subrange(0, prefix.len() as int) == prefix {
            Some(path.subrange(prefix.len() as int, path.len() as int))
        } else {
            None
        }
    }
}

/// A filename that was taken off a path gives the path back when it is
/// joined to the directory.
pub proof fn lemma_file_name_joins(path: Seq<char>, directory: Seq<char>)
    requires
        file_name_of(path, directory) is Some,
    ensures
        join_path(directory, file_name_of(path, directory)->0) == path,
        file_name_of(path, directory)->0.len() > 0,
{
    if !is_current_dir(directory) {
        let prefix = directory + PATH_SEPARATOR@;
        let name = path.subrange(prefix.len() as int, path.len() as int);
        assert(prefix + name =~= path);
    }
}

/// Takes the filename off a path.
pub fn resolve_file_name(path: &str, directory: &str) -> (r: Option<String>)
    ensures
        match r {
            Some(name) => file_name_of(path@, directory@) == Some(name@),
            None => file_name_of(path@, directory@) is None,
        },
{
    if names_current_dir(directory) {
        if path.is_empty() {
            None
        } else {
            Some(path.to_owned())
        }
    } else {
        proof {
            reveal_strlit("/");
            assert(PATH_SEPARATOR@.len() == 1);
        }
        let dir_len = directory.unicode_len();
        let path_len = path.unicode_len();
        if path_len <= dir_len || path_len - dir_len < 2 {
            return None;
        }
        let head = path.substring_char(0, dir_len);
        let sep = path.substring_char(dir_len, dir_len + 1);
        let ghost prefix = directory@ + PATH_SEPARATOR@;
        if str_eq(head, directory) && str_eq(sep, PATH_SEPARATOR) {
            proof {
                assert(path@.subrange(0, prefix.len() as int) =~= prefix);
            }
            Some(path.substring_char(dir_len + 1, path_len).to_owned())
        } else {
            proof {
                if path@.subrange(0, prefix.len() as int) == prefix {
                    let front = path@.subrange(0, prefix.len() as int);
                    assert forall|k: int| 0 <= k < dir_len implies head@[k] == directory@[k] by {
                        assert(front[k] == prefix[k]);
                    }
                    assert(head@ =~= directory@);
                    assert(sep@[0] == PATH_SEPARATOR@[0]) by {
                        assert(front[dir_len as int] == prefix[dir_len as int]);
                    }
                    assert(sep@ =~= PATH_SEPARATOR@);
                }
            }
            None
        }
    }
}

} // verus!
