//! What becomes of a file that the walk has found: it is renamed, in its
//! directory and with its extension, to a freshly generated name.

use crate::confirm::{confirm_rename, confirms};
use crate::name::{generate_new_name, is_canonical, is_generated_name};
use crate::path::{
    extension, has_no_dot, is_name, is_settled, join, lemma_extension_is_plain, lemma_join_name,
    lemma_last_dot_is, lemma_parent_is_settled, parent, spec_extension, spec_file_stem, spec_join,
    spec_parent, spec_with_extension, with_extension,
};
use vstd::prelude::*;
use vstd::string::*;

verus! {

/// The directory that holds the file at `path`: empty where the path has
/// no parent.
pub open spec fn parent_or_empty(path: Seq<char>) -> Seq<char> {
    match spec_parent(path) {
        Some(dir) => dir,
        None => Seq::empty(),
    }
}

/// The extension of the file at `path`: empty where it has none.
pub open spec fn extension_or_empty(path: Seq<char>) -> Seq<char> {
    match spec_extension(path) {
        Some(extension) => extension,
        None => Seq::empty(),
    }
}

/// Where the file at `path` goes under the new name `name`: into its own
/// directory, with `name` for its stem and with its own extension.
pub open spec fn spec_destination(path: Seq<char>, name: Seq<char>) -> Seq<char> {
    spec_with_extension(spec_join(parent_or_empty(path), name), extension_or_empty(path))
}

/// A canonical name is a file name without a dot.
pub proof fn lemma_canonical_is_name(name: Seq<char>)
    requires
        is_canonical(name),
    ensures
        is_name(name),
        has_no_dot(name),
{
    assert forall|i: int| 0 <= i < name.len() implies name[i] != '/' && name[i] != '.' by {
        assert(name[i] == '-' || crate::name::is_hex_digit(name[i]));
    }
    assert(name[0] != '.');
}

/// A renamed file stays in its directory and keeps its extension, and the
/// stem of its new name is the name it was given: for every path and every
/// canonical name, the destination has the parent of the path for its
/// parent, the extension of the path for its extension, and the name for
/// its stem.
pub proof fn lemma_destination_keeps_place(path: Seq<char>, name: Seq<char>)
    requires
        is_canonical(name),
    ensures
        spec_parent(spec_destination(path, name)) == Some(parent_or_empty(path)),
        extension_or_empty(spec_destination(path, name)) == extension_or_empty(path),
        spec_file_stem(spec_destination(path, name)) == Some(name),
{
    let dir = parent_or_empty(path);
    let ext = extension_or_empty(path);
    let joined = spec_join(dir, name);
    let to = spec_destination(path, name);
    lemma_canonical_is_name(name);
    lemma_parent_is_settled(path);
    lemma_extension_is_plain(path);
    assert(is_settled(dir));
    lemma_join_name(dir, name);
    let start = joined.len() - name.len();
    lemma_last_dot_is(name, -1, name.len() as int);
    assert(joined.take(joined.len() as int) == joined);
    assert(spec_extension(joined) is None);
    if ext.len() == 0 {
        assert(to == joined);
        assert(name.take(name.len() as int) == name);
    } else {
        let full = name + seq!['.'] + ext;
        assert(to == joined + seq!['.'] + ext);
        assert(to == spec_join(dir, full));
        assert(is_name(full)) by {
            assert(full[0] == name[0]);
            assert forall|i: int| 0 <= i < full.len() implies full[i] != '/' by {
                if i < name.len() {
                    assert(full[i] == name[i]);
                } else if i > name.len() {
                    assert(full[i] == ext[i - name.len() - 1]);
                }
            }
        }
        lemma_join_name(dir, full);
        assert forall|i: int| name.len() < i < full.len() implies full[i] != '.' by {
            assert(full[i] == ext[i - name.len() - 1]);
        }
        lemma_last_dot_is(full, name.len() as int, full.len() as int);
        assert(full.take(name.len() as int) == name);
        assert(full.skip(name.len() as int + 1) == ext);
    }
}

/// Different names lead to different places: under two canonical names
/// that differ, a file goes to two paths that differ.
pub proof fn lemma_different_names_different_destinations(
    path: Seq<char>,
    first: Seq<char>,
    second: Seq<char>,
)
    requires
        is_canonical(first),
        is_canonical(second),
        first != second,
    ensures
        spec_destination(path, first) != spec_destination(path, second),
{
    lemma_destination_keeps_place(path, first);
    lemma_destination_keeps_place(path, second);
}

/// Where the file at `path` goes under the new name `name`.
pub fn destination(path: &str, name: &str) -> (to: String)
    ensures
        to@ == spec_destination(path@, name@),
{
    proof {
        reveal_strlit("");
        lemma_extension_is_plain(path@);
    }
    let dir = match parent(path) {
        Some(dir) => dir,
        None => "",
    };
    let ext = match extension(path) {
        Some(ext) => ext,
        None => "",
    };
    assert(dir@ == parent_or_empty(path@));
    assert(ext@ == extension_or_empty(path@));
    let joined = join(dir, name);
    with_extension(joined.as_str(), ext)
}

/// A rename that has been planned and not yet carried out.
#[derive(Debug)]
pub struct Rename {
    /// The path of the file as it was found.
    pub from: String,
    /// The path that the file is to have.
    pub to: String,
}

/// Plans the rename of the file found at `path`: to a freshly generated
/// name, in the directory of the file and with its extension.
///
/// The name is drawn anew at each call, so that two plans for one file are
/// never to be taken as equal. The call panics where the operating system
/// gives no random bytes.
pub fn on_file_found(path: &str) -> (plan: Rename)
    ensures
        plan.from@ == path@,
        spec_file_stem(plan.to@) matches Some(stem) && is_generated_name(stem) && plan.to@
            == spec_destination(path@, stem),
        spec_parent(plan.to@) == Some(parent_or_empty(path@)),
        extension_or_empty(plan.to@) == extension_or_empty(path@),
{
    let name = generate_new_name();
    proof {
        lemma_destination_keeps_place(path@, name@);
    }
    Rename { from: String::from_str(path), to: destination(path, name.as_str()) }
}

/// Whether a planned rename goes ahead: always where no confirmation is
/// asked for, and otherwise only where the answer confirms.
pub open spec fn goes_ahead(confirm: bool, answer: Seq<char>) -> bool {
    !confirm || confirms(answer)
}

/// Decides on a planned rename. Where `confirm` is set, `answer` is what the
/// user said when asked. The plan comes back unchanged where the rename is
/// to be carried out; where the user declined, nothing comes back and the
/// file stays as it is.
pub fn settle(plan: Rename, confirm: bool, answer: &str) -> (go: Option<Rename>)
    ensures
        go is Some <==> goes_ahead(confirm, answer@),
        go matches Some(rename) ==> rename == plan,
{
    if !confirm || confirm_rename(answer) {
        Some(plan)
    } else {
        None
    }
}

} // verus!
