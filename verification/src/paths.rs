//! Paths. Those of files are made of bytes, as not every path is text.
use crate::text::{
    after_last, after_last_char, bytes_text, chars_of, law_last_character_is_found,
    law_trimming_takes_the_back_off, string_of, text_of_bytes, trim_back, trim_chars_back, Trim,
};
use vstd::prelude::*;
use vstd::slice::{slice_subrange, slice_to_vec};
use vstd::utf8::{encode_utf8, encode_utf8_decode_utf8, encode_utf8_valid_utf8};

verus! {

/// The byte that separates the segments of a path, a slash.
pub const SEPARATOR: u8 = 0x2F;

/// The directory with the slash that separates it from what is in it; nothing for the current one.
pub open spec fn as_base(dir: Seq<u8>) -> Seq<u8> {
    if dir.len() == 0 || dir.last() == SEPARATOR {
        dir
    } else {
        dir.push(SEPARATOR)
    }
}

/// The path of `name` in the directory.
pub open spec fn joined(dir: Seq<u8>, name: Seq<char>) -> Seq<u8> {
    as_base(dir) + encode_utf8(name)
}

/// The directory with the slash that separates it from what is in it.
fn base_of(dir: &[u8]) -> (r: Vec<u8>)
    ensures
        r@ == as_base(dir@),
{
    let mut base: Vec<u8> = slice_to_vec(dir);
    if dir.len() > 0 && dir[dir.len() - 1] != SEPARATOR {
        base.push(SEPARATOR);
    }
    base
}

/// The path of `name` in the directory.
pub fn join(dir: &[u8], name: &str) -> (r: Vec<u8>)
    ensures
        r@ == joined(dir@, name@),
{
    let mut path = base_of(dir);
    path.extend_from_slice(name.as_bytes());
    assert(path@ =~= joined(dir@, name@));
    path
}

/// Whether the bytes start with the prefix.
fn starts_with(bytes: &[u8], prefix: &[u8]) -> (r: bool)
    ensures
        r == prefix@.is_prefix_of(bytes@),
        r ==> prefix.len() <= bytes.len(),
{
    if prefix.len() > bytes.len() {
        return false;
    }
    let mut i: usize = 0;
    while i < prefix.len()
        invariant
            i <= prefix@.len(),
            prefix.len() <= bytes.len(),
            forall|k: int| 0 <= k < i ==> bytes@[k] == prefix@[k],
        decreases prefix@.len() - i,
    {
        if bytes[i] != prefix[i] {
            assert(bytes@.subrange(0, prefix@.len() as int)[i as int] != prefix@[i as int]);
            return false;
        }
        i += 1;
    }
    assert(bytes@.subrange(0, prefix@.len() as int) =~= prefix@);
    true
}

/// Whether the two paths are the same.
pub fn same_path(a: &[u8], b: &[u8]) -> (r: bool)
    ensures
        r == (a@ == b@),
{
    let r = a.len() == b.len() && starts_with(a, b);
    assert(a@.subrange(0, a@.len() as int) =~= a@);
    r
}

/// The path as text, with a tilde in place of the home directory.
pub open spec fn abbreviated(path: Seq<u8>, home: Seq<u8>) -> Seq<char> {
    if home.len() > 0 && as_base(home).is_prefix_of(path) {
        "~/"@ + bytes_text(path.skip(as_base(home).len() as int))
    } else {
        bytes_text(path)
    }
}

/// The path as text, with a tilde in place of the home directory.
pub fn abbrev_path(path: &[u8], home: &[u8]) -> (r: String)
    ensures
        r@ == abbreviated(path@, home@),
{
    let base = base_of(home);
    if home.len() > 0 && starts_with(path, base.as_slice()) {
        assert(path@.subrange(base@.len() as int, path@.len() as int) =~= path@.skip(
            base@.len() as int,
        ));
        let rest = text_of_bytes(slice_subrange(path, base.len(), path.len()));
        let mut short = "~/".to_owned();
        short.append(rest.as_str());
        short
    } else {
        text_of_bytes(path)
    }
}

/// The last segment of a path, slashes at its end aside; `None` where it has no segment.
pub open spec fn last_segment(path: Seq<char>) -> Option<Seq<char>> {
    let segment = after_last(trim_back(path, Trim::Slash), '/');
    if segment.len() > 0 {
        Some(segment)
    } else {
        None
    }
}

/// The last segment of a path.
pub fn last_path_segment(path: &str) -> (r: Option<String>)
    ensures
        match r {
            Some(segment) => last_segment(path@) == Some(segment@),
            None => last_segment(path@) is None,
        },
{
    let cs = chars_of(path);
    let segment = after_last_char(trim_chars_back(cs.as_slice(), Trim::Slash), '/');
    if segment.len() > 0 {
        Some(string_of(segment))
    } else {
        None
    }
}

/// A path in the home directory is abbreviated to a tilde and the rest.
pub proof fn law_home_is_abbreviated(home: Seq<u8>, name: Seq<char>)
    requires
        home.len() > 0,
    ensures
        abbreviated(joined(home, name), home) == "~/"@ + name,
{
    let path = joined(home, name);
    assert(path.subrange(0, as_base(home).len() as int) =~= as_base(home));
    assert(path.skip(as_base(home).len() as int) =~= encode_utf8(name));
    encode_utf8_valid_utf8(name);
    encode_utf8_decode_utf8(name);
}

/// A name is put behind a directory with one slash between them; behind the current directory, it
/// stands alone.
pub proof fn law_one_slash_joins(dir: Seq<u8>, name: Seq<char>)
    ensures
        dir.len() > 0 && dir.last() != 0x2F ==> joined(dir, name) == dir.push(0x2F) + encode_utf8(
            name,
        ),
        dir.len() > 0 && dir.last() == 0x2F ==> joined(dir, name) == dir + encode_utf8(name),
        joined(Seq::<u8>::empty(), name) == encode_utf8(name),
{
    assert(Seq::<u8>::empty() + encode_utf8(name) =~= encode_utf8(name));
}

/// A path that does not lie in the home directory is shown as it is.
pub proof fn law_other_paths_are_not_abbreviated(path: Seq<u8>, home: Seq<u8>)
    requires
        home.len() > 0,
        !home.is_prefix_of(path) || path.len() <= home.len() || home.last() != 0x2F
            && path[home.len() as int] != 0x2F,
    ensures
        path != home ==> abbreviated(path, home) == bytes_text(path),
        abbreviated(path, Seq::<u8>::empty()) == bytes_text(path),
{
    let base = as_base(home);
    if base.is_prefix_of(path) {
        assert(path.subrange(0, home.len() as int) =~= base.subrange(0, home.len() as int));
        assert(base.subrange(0, home.len() as int) =~= home);
        if home.last() != 0x2F {
            assert(path.subrange(0, base.len() as int)[home.len() as int] == path[home.len() as int]);
        } else {
            assert(path.len() == home.len());
            assert(path =~= home);
        }
    }
}

/// The last segment is what stands behind the last slash, slashes at the end aside; the root and
/// the empty path have none.
pub proof fn law_last_segment_ends_the_path(dir: Seq<char>, name: Seq<char>, slashes: Seq<char>)
    requires
        name.len() > 0,
        !name.contains('/'),
        forall|i: int| 0 <= i < slashes.len() ==> #[trigger] slashes[i] == '/',
    ensures
        last_segment(dir + seq!['/'] + name + slashes) == Some(name),
        last_segment(name + slashes) == Some(name),
        last_segment(slashes) is None,
{
    let none = Seq::<char>::empty();
    let path = dir + seq!['/'] + name;
    assert(name.contains(name.last()));
    assert(path.last() == name.last());
    law_trimming_takes_the_back_off(path, slashes, Trim::Slash);
    law_trimming_takes_the_back_off(name, slashes, Trim::Slash);
    law_trimming_takes_the_back_off(none, slashes, Trim::Slash);
    assert(none + slashes =~= slashes);
    law_last_character_is_found(dir, '/', name);
    assert(path =~= dir.push('/') + name);
    law_last_character_is_found(dir, '/', none);
}

} // verus!
