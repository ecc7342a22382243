//! The naming convention of archive members: `<key>.<suffix>`, split at the
//! first `.` of the stored path.

use vstd::prelude::*;
use vstd::std_specs::iter::IteratorSpec;
use vstd::string::StrSliceExecFns;
use vstd::utf8::{decode_utf8, valid_utf8};

use crate::error::IoKind;

verus! {

/// The position of the first `.` in `path`, or the length of `path` where it
/// holds none.
pub open spec fn first_dot(path: Seq<char>) -> int
    decreases path.len(),
{
    if path.len() == 0 || path[0] == '.' {
        0
    } else {
        1 + first_dot(path.drop_first())
    }
}

/// A path is well formed when a `.` follows a non-empty key.
pub open spec fn well_formed(path: Seq<char>) -> bool {
    0 < first_dot(path) < path.len()
}

/// Everything before the first `.`.
pub open spec fn key_of(path: Seq<char>) -> Seq<char> {
    path.take(first_dot(path))
}

/// Everything after the first `.`.
pub open spec fn suffix_of(path: Seq<char>) -> Seq<char> {
    path.skip(first_dot(path) + 1)
}

/// What a member contributes to its sample, by its suffix.
#[derive(Clone, Copy, Debug, PartialEq, Eq, Structural)]
pub enum Role {
    /// The suffix begins with `frame`.
    Frame,
    /// The suffix begins with `target`.
    Target,
    /// Any other suffix: the member is passed over.
    Other,
}

/// The characters of `frame`.
pub open spec fn frame_tag() -> Seq<char> {
    seq!['f', 'r', 'a', 'm', 'e']
}

/// The characters of `target`.
pub open spec fn target_tag() -> Seq<char> {
    seq!['t', 'a', 'r', 'g', 'e', 't']
}

/// The role that a suffix gives its member.
pub open spec fn role_of(suffix: Seq<char>) -> Role {
    if frame_tag().is_prefix_of(suffix) {
        Role::Frame
    } else if target_tag().is_prefix_of(suffix) {
        Role::Target
    } else {
        Role::Other
    }
}

/// `first_dot` is the least index that holds a `.`, and the length where
/// there is none.
pub proof fn lemma_first_dot(path: Seq<char>)
    ensures
        0 <= first_dot(path) <= path.len(),
        first_dot(path) < path.len() ==> path[first_dot(path)] == '.',
        forall|j: int| 0 <= j < first_dot(path) ==> path[j] != '.',
    decreases path.len(),
{
    if path.len() == 0 || path[0] == '.' {
    } else {
        let rest = path.drop_first();
        lemma_first_dot(rest);
        assert forall|j: int| 0 <= j < first_dot(path) implies path[j] != '.' by {
            if j > 0 {
                assert(path[j] == rest[j - 1]);
            }
        }
    }
}

/// An index that holds the first `.` is `first_dot`.
pub proof fn lemma_first_dot_is(path: Seq<char>, i: int)
    requires
        0 <= i <= path.len(),
        i < path.len() ==> path[i] == '.',
        forall|j: int| 0 <= j < i ==> path[j] != '.',
    ensures
        first_dot(path) == i,
{
    lemma_first_dot(path);
}

/// A well-formed path is its key, a `.`, and its suffix; the key is not empty
/// and holds no `.`.
pub proof fn lemma_split_joins(path: Seq<char>)
    requires
        well_formed(path),
    ensures
        key_of(path) + seq!['.'] + suffix_of(path) == path,
        key_of(path).len() > 0,
        !key_of(path).contains('.'),
{
    lemma_first_dot(path);
    assert(key_of(path) + seq!['.'] + suffix_of(path) =~= path);
}

/// Tells whether `text` begins with `prefix`.
pub fn has_prefix(text: &str, prefix: &str) -> (r: bool)
    ensures
        r == prefix@.is_prefix_of(text@),
{
    let n: usize = prefix.unicode_len();
    let m: usize = text.unicode_len();
    if m < n {
        return false;
    }
    let mut i: usize = 0;
    while i < n
        invariant
            i <= n <= m,
            n == prefix@.len(),
            m == text@.len(),
            forall|j: int| 0 <= j < i ==> text@[j] == prefix@[j],
        decreases n - i,
    {
        if text.get_char(i) != prefix.get_char(i) {
            return false;
        }
        i = i + 1;
    }
    assert(prefix@ =~= text@.subrange(0, n as int));
    true
}

/// The role of a member by its suffix.
pub fn role(suffix: &str) -> (r: Role)
    ensures
        r == role_of(suffix@),
{
    proof {
        reveal_strlit("frame");
        reveal_strlit("target");
        assert("frame"@ =~= frame_tag());
        assert("target"@ =~= target_tag());
    }
    if has_prefix(suffix, "frame") {
        Role::Frame
    } else if has_prefix(suffix, "target") {
        Role::Target
    } else {
        Role::Other
    }
}

/// Finds the first `.` of a path: the result holds `first_dot` of the path
/// and the number of its characters.
pub fn locate_dot(path: &str) -> (r: (usize, usize))
    ensures
        r.0 == first_dot(path@),
        r.1 == path@.len(),
{
    let len: usize = path.unicode_len();
    let mut chars = path.chars();
    let mut at: usize = 0;
    loop
        invariant_except_break
            chars.decrease() is Some,
            chars.remaining() == path@.skip(at as int),
        invariant
            at <= len,
            len == path@.len(),
            forall|j: int| 0 <= j < at ==> path@[j] != '.',
        ensures
            at < len ==> path@[at as int] == '.',
        decreases chars.decrease()->0,
    {
        match chars.next() {
            None => {
                break ;
            },
            Some(c) => {
                assert(c == path@[at as int]);
                if c == '.' {
                    break ;
                }
                assert(path@.skip(at as int).drop_first() =~= path@.skip(at + 1));
                at = at + 1;
            },
        }
    }
    proof {
        lemma_first_dot_is(path@, at as int);
    }
    (at, len)
}

/// Tells whether a path is well formed.
pub fn is_well_formed(path: &str) -> (r: bool)
    ensures
        r == well_formed(path@),
{
    let (at, len) = locate_dot(path);
    0 < at && at < len
}

/// Splits a path at its first `.` into key and suffix; `None` where the path
/// is not well formed.
pub fn split(path: &str) -> (r: Option<(String, String)>)
    ensures
        r is Some <==> well_formed(path@),
        r matches Some((key, suffix)) ==> key@ == key_of(path@) && suffix@ == suffix_of(path@),
{
    let (at, len) = locate_dot(path);
    if at == 0 || at >= len {
        return None;
    }
    let key = path.substring_char(0, at).to_owned();
    let suffix = path.substring_char(at + 1, len).to_owned();
    Some((key, suffix))
}

/// `String::from_utf8` of std: the bytes become a string exactly when they
/// are valid UTF-8, and the string then holds the characters that they encode.
#[verifier::external_body]
fn string_from_utf8(bytes: Vec<u8>) -> (r: Option<String>)
    ensures
        r is Some <==> valid_utf8(bytes@),
        r matches Some(text) ==> text@ == decode_utf8(bytes@),
{
    String::from_utf8(bytes).ok()
}

/// Turns the stored bytes of a member's path into a path that can be split:
/// bytes that are not UTF-8 and paths that are not well formed are refused,
/// in that order.
pub fn decode_path(raw: Vec<u8>) -> (r: Result<String, IoKind>)
    ensures
        r is Ok <==> valid_utf8(raw@) && well_formed(decode_utf8(raw@)),
        r matches Ok(path) ==> path@ == decode_utf8(raw@),
        r matches Err(kind) ==> kind == if valid_utf8(raw@) {
            IoKind::MalformedPath
        } else {
            IoKind::NonUtf8Path
        },
{
    match string_from_utf8(raw) {
        None => Err(IoKind::NonUtf8Path),
        Some(path) => {
            if is_well_formed(path.as_str()) {
                Ok(path)
            } else {
                Err(IoKind::MalformedPath)
            }
        },
    }
}

} // verus!
