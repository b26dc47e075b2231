//! Paths: what a path consists of, and how it is shown.

use crate::text;
use std::path::Prefix::{DeviceNS, Disk, Verbatim, VerbatimDisk, VerbatimUNC, UNC};
use std::path::{Component, PathBuf};
use std::slice::from_ref;
use vstd::prelude::*;
use vstd::utf8;

verus! {

#[verifier::external_type_specification]
#[verifier::external_body]
pub struct ExPathBuf(std::path::PathBuf);

/// The bytes that a path holds, as `OsStr::as_encoded_bytes` gives them.
pub uninterp spec fn path_bytes(path: PathBuf) -> Seq<u8>;

/// The prefix that a path starts with, if any, as its form and its two texts; see `PathPrefix`.
pub uninterp spec fn path_prefix(path: PathBuf) -> Option<(u8, Seq<u8>, Seq<u8>)>;

/// The components that a path holds, each as its rank and its text; see `Part`. Of a prefix this only
/// says that there is one.
pub uninterp spec fn path_steps(path: PathBuf) -> Seq<(u8, Seq<u8>)>;

/// The text that `Path::to_string_lossy` makes of a path.
pub uninterp spec fn path_text(path: PathBuf) -> Seq<char>;

/// The text that `OsStr::to_string_lossy` makes of the name that a path ends in.
pub uninterp spec fn name_text(path: PathBuf) -> Seq<char>;

/// The prefix that a path starts with on a system that has drives and shares. Its form is a number:
/// in ascending order a verbatim prefix, a verbatim share, a verbatim drive, a device, a share, and a
/// drive. A share has two texts, those of its server and of the share, and a drive has its letter as
/// the path is parsed, not as it is spelled. Where a form has only one text, the second is empty.
pub struct PathPrefix {
    pub form: u8,
    pub first: Vec<u8>,
    pub second: Vec<u8>,
}

impl View for PathPrefix {
    type V = (u8, Seq<u8>, Seq<u8>);

    open spec fn view(&self) -> (u8, Seq<u8>, Seq<u8>) {
        (self.form, self.first@, self.second@)
    }
}

/// A part of a path. Parts of different kinds are ordered by their rank, and two of the same kind by
/// their text. A prefix comes as three parts, whose ranks are lower than all others: two for its
/// texts, each with the form of the prefix as its rank, and one without a text. Then come, in
/// ascending order, the root, `.`, `..`, and last an ordinary name, which alone of these has a text.
pub struct Part {
    pub rank: u8,
    pub text: Vec<u8>,
}

impl View for Part {
    type V = (u8, Seq<u8>);

    open spec fn view(&self) -> (u8, Seq<u8>) {
        (self.rank, self.text@)
    }
}

/// The rank of an ordinary name.
pub const NAME: u8 = 10;

/// The parts in which the texts of a prefix come.
pub open spec fn prefix_parts(prefix: Option<(u8, Seq<u8>, Seq<u8>)>) -> Seq<(u8, Seq<u8>)> {
    match prefix {
        Some((form, first, second)) => seq![(form, first), (form, second)],
        None => Seq::empty(),
    }
}

/// All parts of a path: those in which the texts of its prefix come, and its components.
#[verifier::opaque]
pub open spec fn path_parts(path: PathBuf) -> Seq<(u8, Seq<u8>)> {
    prefix_parts(path_prefix(path)) + path_steps(path)
}

/// Calls `Path::components` for the first component and, where that is a prefix, hands over what
/// `PrefixComponent::kind` makes of it. Claimed of it: there is a prefix if the path starts with one,
/// and form and texts are ones that the path alone decides.
#[verifier::external_body]
fn prefix(path: &PathBuf) -> (prefix: Option<PathPrefix>)
    ensures
        prefix is Some <==> path_prefix(*path) is Some,
        prefix matches Some(found) ==> path_prefix(*path) == Some(found@),
{
    let Some(Component::Prefix(prefix)) = path.components().next() else { return None };
    let kind = prefix.kind();
    let none: &[u8] = &[];
    let (form, first, second) = match &kind {
        Verbatim(name) => (0, name.as_encoded_bytes(), none),
        VerbatimUNC(server, share) => (1, server.as_encoded_bytes(), share.as_encoded_bytes()),
        VerbatimDisk(letter) => (2, from_ref(letter), none),
        DeviceNS(name) => (3, name.as_encoded_bytes(), none),
        UNC(server, share) => (4, server.as_encoded_bytes(), share.as_encoded_bytes()),
        Disk(letter) => (5, from_ref(letter), none),
    };
    Some(PathPrefix { form, first: first.to_vec(), second: second.to_vec() })
}

/// Calls `Path::components` and takes each component over as a `Part`. Claimed of it: these are the
/// components that the path holds, in order, and only an ordinary name has a text.
#[verifier::external_body]
fn steps(path: &PathBuf) -> (steps: Vec<Part>)
    ensures
        steps@.map_values(|part: Part| part@) == path_steps(*path),
{
    path.components()
        .map(|component| match component {
            Component::Prefix(_) => Part { rank: 6, text: Vec::new() },
            Component::RootDir => Part { rank: 7, text: Vec::new() },
            Component::CurDir => Part { rank: 8, text: Vec::new() },
            Component::ParentDir => Part { rank: 9, text: Vec::new() },
            Component::Normal(name) => Part { rank: NAME, text: name.as_encoded_bytes().to_vec() },
        })
        .collect()
}

/// Puts the texts of a prefix before the components of a path.
pub fn with_prefix(prefix: Option<PathPrefix>, steps: Vec<Part>) -> (parts: Vec<Part>)
    ensures
        parts@.map_values(|part: Part| part@) == (match prefix {
            Some(found) => prefix_parts(Some(found@)),
            None => prefix_parts(None),
        }) + steps@.map_values(|part: Part| part@),
{
    let mut steps = steps;
    let ghost views = steps@.map_values(|part: Part| part@);
    let mut parts: Vec<Part> = Vec::new();
    if let Some(found) = prefix {
        parts.push(Part { rank: found.form, text: found.first });
        parts.push(Part { rank: found.form, text: found.second });
    }
    let ghost before = parts@.map_values(|part: Part| part@);
    parts.append(&mut steps);
    assert(parts@.map_values(|part: Part| part@) =~= before + views);
    parts
}

/// The parts of a path.
pub(crate) fn components(path: &PathBuf) -> (parts: Vec<Part>)
    ensures
        parts@.map_values(|part: Part| part@) == path_parts(*path),
{
    reveal(path_parts);
    with_prefix(prefix(path), steps(path))
}

/// Calls `Path::to_string_lossy`. Claimed of it: the text is one that the path alone decides, and for
/// bytes that are valid UTF-8 it is the text that they encode.
#[verifier::external_body]
fn shown_path(path: &PathBuf) -> (shown: String)
    ensures
        shown@ == path_text(*path),
        utf8::valid_utf8(path_bytes(*path)) ==> shown@ == utf8::decode_utf8(path_bytes(*path)),
{
    path.to_string_lossy().into_owned()
}

/// Calls `Path::file_name` and hands the name over as text with `OsStr::to_string_lossy`. Claimed of
/// it: there is a name if the last component is an ordinary one, the text is one that the path alone
/// decides, and for a name whose bytes are valid UTF-8 it is the text that they encode.
#[verifier::external_body]
fn shown_name(path: &PathBuf) -> (shown: Option<String>)
    ensures
        shown is Some <==> path_view(*path).file_name() is Some,
        shown matches Some(text) ==> {
            let name = path_view(*path).file_name()->0;
            &&& text@ == name_text(*path)
            &&& utf8::valid_utf8(name) ==> text@ == utf8::decode_utf8(name)
        },
{
    path.file_name().map(|name| name.to_string_lossy().into_owned())
}

/// `PathBuf::clone`. Claimed of it: the copy holds the same bytes and has the same parts, and the
/// same text is made of it and of its name.
pub assume_specification[ <std::path::PathBuf as Clone>::clone ](path: &std::path::PathBuf) -> (copy: std::path::PathBuf)
    ensures
        path_bytes(copy) == path_bytes(*path),
        path_parts(copy) == path_parts(*path),
        path_text(copy) == path_text(*path),
        name_text(copy) == name_text(*path),
;

/// All that the library knows of a path.
pub struct PathView {
    pub bytes: Seq<u8>,
    pub parts: Seq<(u8, Seq<u8>)>,
    /// The text that is made of it.
    pub text: Seq<char>,
    /// The text that is made of its name, where it ends in one.
    pub name_text: Seq<char>,
}

pub open spec fn path_view(path: PathBuf) -> PathView {
    PathView {
        bytes: path_bytes(path),
        parts: path_parts(path),
        text: path_text(path),
        name_text: name_text(path),
    }
}

pub open spec fn path_views(paths: Seq<PathBuf>) -> Seq<PathView> {
    Seq::new(paths.len(), |i: int| path_view(paths[i]))
}

impl PathView {
    /// The name that the path ends in, unless it ends in `..` or at a root.
    pub open spec fn file_name(self) -> Option<Seq<u8>> {
        if self.parts.len() > 0 && self.parts.last().0 == NAME {
            Some(self.parts.last().1)
        } else {
            None
        }
    }

    /// Whether the path ends in a name that is readable text and starts with a dot.
    pub open spec fn is_hidden(self) -> bool {
        match self.file_name() {
            Some(name) => utf8::valid_utf8(name) && name.len() > 0 && name[0] == 0x2e,
            None => false,
        }
    }

    /// The whole path as text: what its bytes encode, and if they are not valid UTF-8 what is made of
    /// them.
    pub open spec fn full_text(self) -> Seq<char> {
        if utf8::valid_utf8(self.bytes) {
            utf8::decode_utf8(self.bytes)
        } else {
            self.text
        }
    }

    /// The whole path as text when `full_path` is set or the path has no name, else its name.
    pub open spec fn display_name(self, full_path: bool) -> Seq<char> {
        match self.file_name() {
            Some(name) if !full_path => if utf8::valid_utf8(name) {
                utf8::decode_utf8(name)
            } else {
                self.name_text
            },
            _ => self.full_text(),
        }
    }
}

/// What a path is called and how it is shown. It ends in a name where its last part is an ordinary
/// name, it is hidden where that name is readable and starts with a dot, and it is shown under its
/// name unless the whole path is asked for or it has none. Readable text is shown as it is.
pub proof fn paths_are_named_by_their_last_part(path: PathView, full_path: bool)
    ensures
        path.file_name() is Some <==> path.parts.len() > 0 && path.parts[path.parts.len() - 1].0
            == 10,
        path.file_name() is Some ==> path.file_name() == Some(path.parts[path.parts.len() - 1].1),
        path.is_hidden() <==> (path.file_name() matches Some(name) && utf8::valid_utf8(name)
            && name.len() > 0 && name[0] == 0x2e),
        utf8::valid_utf8(path.bytes) ==> path.full_text() == utf8::decode_utf8(path.bytes),
        !utf8::valid_utf8(path.bytes) ==> path.full_text() == path.text,
        full_path || path.file_name() is None ==> path.display_name(full_path) == path.full_text(),
        !full_path && (path.file_name() matches Some(name) && utf8::valid_utf8(name))
            ==> path.display_name(full_path) == utf8::decode_utf8(path.file_name()->0),
        !full_path && (path.file_name() matches Some(name) && !utf8::valid_utf8(name))
            ==> path.display_name(full_path) == path.name_text,
{
}

/// The name that a path ends in, if it ends in one.
pub fn file_name(path: &PathBuf) -> (name: Option<Vec<u8>>)
    ensures
        name is Some <==> path_view(*path).file_name() is Some,
        name matches Some(n) ==> path_view(*path).file_name() == Some(n@),
{
    let mut parts: Vec<Part> = components(path);
    let ghost views = parts@.map_values(|part: Part| part@);
    match parts.pop() {
        Some(part) => {
            assert(views.last() == part@);
            if part.rank == NAME {
                Some(part.text)
            } else {
                None
            }
        },
        None => None,
    }
}

/// Whether the path ends in a name that starts with a dot. A name that is not valid UTF-8 does not
/// count as hidden.
pub fn is_hidden(path: &PathBuf) -> (hidden: bool)
    ensures
        hidden == path_view(*path).is_hidden(),
{
    match file_name(path) {
        Some(name) => name.len() > 0 && name[0] == 0x2e && text::decode(name).is_some(),
        None => false,
    }
}

/// The whole path as text.
pub fn full_text(path: &PathBuf) -> (shown: String)
    ensures
        shown@ == path_view(*path).full_text(),
{
    shown_path(path)
}

/// The text under which a path is shown.
pub fn display_name(path: &PathBuf, full_path: bool) -> (shown: String)
    ensures
        shown@ == path_view(*path).display_name(full_path),
{
    if full_path {
        return full_text(path);
    }
    match shown_name(path) {
        Some(name) => name,
        None => full_text(path),
    }
}

} // verus!
