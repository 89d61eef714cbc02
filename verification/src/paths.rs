//! Paths as text: their parts, and what stands below them.

use std::path::{Component, Path};
use vstd::prelude::*;

use crate::text::{joined, views};

verus! {

/// One part of a path.
#[derive(Debug, PartialEq, Eq)]
pub enum PathPart {
    Prefix,
    RootDir,
    CurDir,
    ParentDir,
    Normal(String),
}

/// One part of a path, as text.
pub enum PartModel {
    Prefix,
    RootDir,
    CurDir,
    ParentDir,
    Normal(Seq<char>),
}

impl View for PathPart {
    type V = PartModel;

    open spec fn view(&self) -> PartModel {
        match self {
            PathPart::Prefix => PartModel::Prefix,
            PathPart::RootDir => PartModel::RootDir,
            PathPart::CurDir => PartModel::CurDir,
            PathPart::ParentDir => PartModel::ParentDir,
            PathPart::Normal(name) => PartModel::Normal(name@),
        }
    }
}

/// The parts of a path, as text.
pub open spec fn part_views(parts: Seq<PathPart>) -> Seq<PartModel> {
    parts.map_values(|part: PathPart| part@)
}

/// The names among the parts of a path, outermost first.
pub open spec fn normal_texts(parts: Seq<PartModel>) -> Seq<Seq<char>>
    decreases parts.len(),
{
    if parts.len() == 0 {
        Seq::empty()
    } else {
        match parts.last() {
            PartModel::Normal(name) => normal_texts(parts.drop_last()).push(name),
            _ => normal_texts(parts.drop_last()),
        }
    }
}

/// A name that means the same on every platform: not empty, no separator, and
/// neither `.` nor `..`.
pub open spec fn is_plain_name(name: Seq<char>) -> bool {
    &&& name.len() > 0
    &&& !name.contains('/')
    &&& !name.contains('\\')
    &&& name != seq!['.']
    &&& name != seq!['.', '.']
}

/// Whether every name of a list is plain.
pub open spec fn all_plain(names: Seq<Seq<char>>) -> bool {
    forall|i: int| 0 <= i < names.len() ==> is_plain_name(#[trigger] names[i])
}

/// The absolute path through these names.
pub open spec fn rooted(names: Seq<Seq<char>>) -> Seq<char> {
    seq!['/'] + joined(names, seq!['/'])
}

/// The parts of the absolute path through these names.
pub open spec fn rooted_parts(names: Seq<Seq<char>>) -> Seq<PartModel> {
    seq![PartModel::RootDir] + names.map_values(|name: Seq<char>| PartModel::Normal(name))
}

/// What is known of the parts of a path: those of an absolute path through
/// plain names are the root and those names.
pub open spec fn parts_of_path(path: Seq<char>, parts: Seq<PartModel>) -> bool {
    forall|names: Seq<Seq<char>>|
        all_plain(names) && path == #[trigger] rooted(names) ==> parts == rooted_parts(names)
}

/// The parts of a path: `Path::components`, each part as text.
///
/// Claimed: an absolute path through plain names has the root and those names
/// as its parts. How other paths are read depends on the platform and is left
/// open.
#[verifier::external_body]
pub(crate) fn path_parts(path: &str) -> (parts: Vec<PathPart>)
    ensures
        parts_of_path(path@, part_views(parts@)),
{
    Path::new(path).components().map(|part| match part {
        Component::Prefix(_) => PathPart::Prefix,
        Component::RootDir => PathPart::RootDir,
        Component::CurDir => PathPart::CurDir,
        Component::ParentDir => PathPart::ParentDir,
        Component::Normal(name) => PathPart::Normal(name.to_string_lossy().into_owned()),
    }).collect()
}

/// The names among the parts of a path.
pub(crate) fn normals(parts: &Vec<PathPart>) -> (names: Vec<String>)
    ensures
        views(names@) == normal_texts(part_views(parts@)),
{
    let mut names: Vec<String> = Vec::new();
    let mut i: usize = 0;
    assert(views(names@) =~= normal_texts(part_views(parts@.take(0))));
    while i < parts.len()
        invariant
            i <= parts@.len(),
            views(names@) == normal_texts(part_views(parts@.take(i as int))),
        decreases parts@.len() - i,
    {
        let ghost before = part_views(parts@.take(i as int));
        let ghost after = part_views(parts@.take(i + 1));
        assert(after.drop_last() =~= before);
        assert(after.last() == parts@[i as int]@);
        if let PathPart::Normal(name) = &parts[i] {
            let ghost names_before = names@;
            names.push(name.clone());
            assert(views(names@) =~= views(names_before).push(name@));
        }
        i += 1;
    }
    assert(parts@.take(i as int) =~= parts@);
    names
}

/// The names of an absolute path through plain names.
pub proof fn lemma_names_of_rooted(names: Seq<Seq<char>>)
    ensures
        normal_texts(rooted_parts(names)) == names,
    decreases names.len(),
{
    let parts = rooted_parts(names);
    if names.len() == 0 {
        reveal_with_fuel(normal_texts, 2);
        assert(parts.drop_last() =~= Seq::<PartModel>::empty());
        assert(normal_texts(parts) =~= names);
    } else {
        lemma_names_of_rooted(names.drop_last());
        assert(parts.drop_last() =~= rooted_parts(names.drop_last()));
        assert(parts.last() == PartModel::Normal(names.last()));
        assert(names.drop_last().push(names.last()) =~= names);
    }
}

/// `name` below `base`, with this separator between.
pub open spec fn below(base: Seq<char>, separator: char, name: Seq<char>) -> Seq<char> {
    base + seq![separator] + name
}

/// Whether a name may begin with a drive.
pub open spec fn may_name_a_drive(name: Seq<char>) -> bool {
    name.len() > 1 && name[1] == ':'
}

/// Whether how `name` is added to `base` is left open: where the name is empty
/// or begins with a separator, and where the base begins with two backslashes,
/// unless it is spelled without a doubled or last separator or a name that
/// begins with a dot, and the name is plain.
pub open spec fn is_left_open(base: Seq<char>, name: Seq<char>) -> bool {
    ||| name.len() == 0
    ||| name[0] == '/'
    ||| name[0] == '\\'
    ||| base.len() > 1 && base[0] == '\\' && base[1] == '\\' && {
        ||| base.last() == '/'
        ||| !is_plain_name(name)
        ||| exists|i: int|
            1 <= i < base.len() && #[trigger] base[i] == '\\' && (i == base.len() - 1 || base[i + 1]
                == '\\' || base[i + 1] == '.')
    }
}

/// Whether a path is `name` right under `base`: behind one separator, where
/// `base` does not end in one.
pub open spec fn is_under(base: Seq<char>, name: Seq<char>, path: Seq<char>) -> bool {
    if base.len() == 0 || base.last() == '/' {
        path == base + name
    } else if base.last() == '\\' {
        path == base + name || path == below(base, '/', name)
    } else if base.last() == ':' {
        path == base + name || path == below(base, '/', name) || path == below(base, '\\', name)
    } else {
        path == below(base, '/', name) || path == below(base, '\\', name)
    }
}

/// Whether a path is what adding `name` to `base` gives: it is right under it, or
/// stands for itself where it begins with a drive.
pub open spec fn is_below(base: Seq<char>, name: Seq<char>, path: Seq<char>) -> bool {
    ||| is_left_open(base, name)
    ||| is_under(base, name, path)
    ||| may_name_a_drive(name) && path == name
}

/// `Path::join` on text.
///
/// Claimed: a name that does not begin with a separator is added to the base as
/// it stands, behind one separator where the base does not end in one; a name
/// that begins with a drive may take the place of the base. Which separator it
/// is, whether `\` is one, and whether there are drives depends on the platform.
/// A base that begins with two backslashes may be respelled where it holds
/// doubled separators or dots: that is left open, and so is what a name that is
/// empty or begins with a separator gives.
#[verifier::external_body]
pub(crate) fn path_join(base: &str, name: &str) -> (path: String)
    ensures
        is_below(base@, name@, path@),
{
    Path::new(base).join(name).to_string_lossy().into_owned()
}

/// A text cut at every slash.
pub open spec fn pieces(path: Seq<char>) -> Seq<Seq<char>>
    decreases path.len(),
{
    if path.len() == 0 {
        seq![Seq::empty()]
    } else {
        let before = pieces(path.drop_last());
        if path.last() == '/' {
            before.push(Seq::empty())
        } else {
            before.drop_last().push(before.last().push(path.last()))
        }
    }
}

/// The names between the slashes of a path. An empty one and a single dot are
/// none.
pub open spec fn names_between(path: Seq<char>) -> Seq<Seq<char>> {
    pieces(path).filter(|piece: Seq<char>| piece.len() > 0 && piece != seq!['.'])
}

/// Whether a path begins with a slash and with no other separator after it.
pub open spec fn begins_with_one_slash(path: Seq<char>) -> bool {
    path.len() > 0 && path[0] == '/' && (path.len() == 1 || path[1] != '/' && path[1] != '\\')
}

/// A character without the case of an ASCII letter.
pub open spec fn without_case(c: char) -> char {
    if 'A' <= c <= 'Z' {
        (c as u32 + 32) as char
    } else {
        c
    }
}

/// A path without separators, dots and the case of ASCII letters: what is left
/// of it is the same however it is spelled.
pub open spec fn skeleton(path: Seq<char>) -> Seq<char> {
    path.filter(|c: char| c != '/' && c != '\\' && c != '.').map_values(|c: char| without_case(c))
}

/// Whether two texts are read as the same path, as far as that means the same
/// everywhere.
///
/// The same text is, and so are paths that begin with one slash and have the
/// same names between slashes. Absolute paths through plain names that differ
/// are not, nor are paths that differ in more than separators, dots and case.
pub open spec fn may_be_same_path(a: Seq<char>, b: Seq<char>, same: bool) -> bool {
    &&& a == b ==> same
    &&& begins_with_one_slash(a) && begins_with_one_slash(b) && names_between(a) == names_between(
        b,
    ) ==> same
    &&& forall|x: Seq<Seq<char>>, y: Seq<Seq<char>>|
        all_plain(x) && all_plain(y) && a == #[trigger] rooted(x) && b == #[trigger] rooted(y)
            && a != b ==> !same
    &&& skeleton(a) != skeleton(b) ==> !same
}

/// `==` on two `Path`s, which compares their components.
///
/// Claimed: the same text is the same path, and so are two that begin with one
/// slash and differ only in doubled or last slashes and in single dots. Two
/// absolute paths through plain names are the same only where their texts are,
/// and no two are whose texts differ in more than separators, dots and the case
/// of letters. What else is the same depends on the platform and is left open.
#[verifier::external_body]
pub(crate) fn same_path(a: &str, b: &str) -> (same: bool)
    ensures
        may_be_same_path(a@, b@, same),
{
    Path::new(a) == Path::new(b)
}

/// What is known of whether a path is absolute: the empty path and one that
/// begins with a plain character are not.
pub open spec fn may_be_absolute(path: Seq<char>, absolute: bool) -> bool {
    absolute ==> path.len() > 0 && (path[0] == '/' || path[0] == '\\' || (path.len() > 1 && path[1]
        == ':'))
}

/// `Path::is_absolute`.
///
/// Claimed: an absolute path begins with a separator or with a drive. Which of
/// those make a path absolute depends on the platform and is left open.
#[verifier::external_body]
pub(crate) fn is_absolute(path: &str) -> (absolute: bool)
    ensures
        may_be_absolute(path@, absolute),
{
    Path::new(path).is_absolute()
}

/// Whether a path is where a project at `root` writes its logs, where that
/// means the same everywhere.
pub open spec fn is_logs_dir(root: Seq<char>, dir: Seq<char>) -> bool {
    exists|storage: Seq<char>|
        #[trigger] is_below(root, "storage"@, storage) && is_below(storage, "logs"@, dir)
}

/// Where a project writes its logs.
pub fn logs_dir(project_path: &str) -> (dir: String)
    ensures
        is_logs_dir(project_path@, dir@),
{
    let storage = path_join(project_path, "storage");
    let dir = path_join(storage.as_str(), "logs");
    assert(is_below(project_path@, "storage"@, storage@));
    dir
}

/// The logs of a project at a path that begins with a slash are in `storage` and
/// there in `logs`, each behind one separator.
pub proof fn logs_are_in_storage(root: Seq<char>, dir: Seq<char>)
    requires
        is_logs_dir(root, dir),
        root.len() > 0,
        root[0] == '/',
    ensures
        dir.len() > 0 && dir[0] == '/',
        root.last() != '/' && root.last() != '\\' && root.last() != ':' ==> exists|
            first: char,
            second: char,
        |
            (first == '/' || first == '\\') && (second == '/' || second == '\\') && dir
                == #[trigger] below(below(root, first, "storage"@), second, "logs"@),
{
    reveal_strlit("storage");
    reveal_strlit("logs");
    let storage = choose|storage: Seq<char>|
        #[trigger] is_below(root, "storage"@, storage) && is_below(storage, "logs"@, dir);
    assert(storage[0] == '/');
    assert(storage.last() == 'e');
    assert(dir[0] == '/');
    if root.last() != '/' && root.last() != '\\' && root.last() != ':' {
        let first = if storage == below(root, '/', "storage"@) {
            '/'
        } else {
            '\\'
        };
        let second = if dir == below(storage, '/', "logs"@) {
            '/'
        } else {
            '\\'
        };
        assert(dir == below(below(root, first, "storage"@), second, "logs"@));
    }
}

} // verus!
