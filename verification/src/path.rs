//! Unix path text, taken apart and put together by components.
//!
//! A path is a sequence of characters in which `/` separates components.
//! A leading `/` is the root, a leading `.` component is kept, and empty
//! components and later `.` components do not count. These are the rules by
//! which `std::path` reads a path on Unix, and the functions here give what
//! its functions of the same names give.

use crate::text::chars_of;
use vstd::prelude::*;
use vstd::string::*;

verus! {

/// Whether the path starts at the root.
pub open spec fn has_root(path: Seq<char>) -> bool {
    path.len() > 0 && path[0] == '/'
}

/// Whether the path starts with a `.` component.
pub open spec fn has_current_dir(path: Seq<char>) -> bool {
    path.len() > 0 && path[0] == '.' && (path.len() == 1 || path[1] == '/')
}

/// How many characters stand before the body of the path: one for the root
/// or for a leading `.` component, else none.
pub open spec fn head_len(path: Seq<char>) -> int {
    if has_root(path) || has_current_dir(path) {
        1
    } else {
        0
    }
}

/// Where the last component that counts ends among the first `n`
/// characters: separators and `.` components at the end are passed over,
/// down to the head of the path.
pub open spec fn body_end(path: Seq<char>, n: int) -> int
    decreases n,
{
    if n <= head_len(path) {
        n
    } else if path[n - 1] == '/' {
        body_end(path, n - 1)
    } else if path[n - 1] == '.' && (n - 1 == head_len(path) || path[n - 2] == '/') {
        body_end(path, n - 1)
    } else {
        n
    }
}

/// Where the component that ends at `n` starts: behind the nearest
/// separator before `n`, or at the head of the path.
pub open spec fn component_start(path: Seq<char>, n: int) -> int
    decreases n,
{
    if n <= head_len(path) {
        n
    } else if path[n - 1] == '/' {
        n
    } else {
        component_start(path, n - 1)
    }
}

/// Where the final component of the path starts and ends, if the path ends
/// in a component that is a name (not the root, `.` or `..`).
pub open spec fn name_span(path: Seq<char>) -> Option<(int, int)> {
    let end = body_end(path, path.len() as int);
    let start = component_start(path, end);
    if end > head_len(path) && !(end - start == 2 && path[start] == '.' && path[start + 1] == '.') {
        Some((start, end))
    } else {
        None
    }
}

/// The final component of the path, if it is a name.
pub open spec fn spec_file_name(path: Seq<char>) -> Option<Seq<char>> {
    match name_span(path) {
        Some((start, end)) => Some(path.subrange(start, end)),
        None => None,
    }
}

/// The path without its final component, if it has one: `None` for the
/// empty path and for the root.
pub open spec fn spec_parent(path: Seq<char>) -> Option<Seq<char>> {
    let head = head_len(path);
    let end = body_end(path, path.len() as int);
    let start = component_start(path, end);
    if end > head {
        let cut = if start > head {
            start - 1
        } else {
            start
        };
        Some(path.take(body_end(path, cut)))
    } else if has_current_dir(path) {
        Some(Seq::empty())
    } else {
        None
    }
}

/// The index of the last `.` among the first `n` characters of `name`, or
/// -1 where there is none.
pub open spec fn last_dot(name: Seq<char>, n: int) -> int
    decreases n,
{
    if n <= 0 {
        -1
    } else if name[n - 1] == '.' {
        n - 1
    } else {
        last_dot(name, n - 1)
    }
}

/// The length of the stem of a file name: what stands before its last `.`,
/// or the whole name where it has no `.` or only one at its start.
pub open spec fn stem_len(name: Seq<char>) -> int {
    let dot = last_dot(name, name.len() as int);
    if dot > 0 {
        dot
    } else {
        name.len() as int
    }
}

/// The file name without its extension.
pub open spec fn spec_file_stem(path: Seq<char>) -> Option<Seq<char>> {
    match spec_file_name(path) {
        Some(name) => Some(name.take(stem_len(name))),
        None => None,
    }
}

/// The extension of the file name: what follows its last `.`, unless the
/// name has no `.` or only one at its start.
pub open spec fn spec_extension(path: Seq<char>) -> Option<Seq<char>> {
    match spec_file_name(path) {
        Some(name) => if stem_len(name) < name.len() {
            Some(name.skip(stem_len(name) + 1))
        } else {
            None
        },
        None => None,
    }
}

/// `path` adjoined to `base`: a rooted `path` replaces `base`, otherwise a
/// separator is put between the two unless `base` is empty or ends in one.
pub open spec fn spec_join(base: Seq<char>, path: Seq<char>) -> Seq<char> {
    if has_root(path) {
        path
    } else if base.len() > 0 && base.last() != '/' {
        base + seq!['/'] + path
    } else {
        base + path
    }
}

/// The path with `extension` put behind the stem of its file name: cut
/// behind the stem, then `.` and the extension unless that is empty. A path
/// without a file name stays as it is.
pub open spec fn spec_set_extension(path: Seq<char>, extension: Seq<char>) -> Seq<char> {
    match name_span(path) {
        Some((start, end)) => {
            let stem_end = start + stem_len(path.subrange(start, end));
            if extension.len() > 0 {
                path.take(stem_end) + seq!['.'] + extension
            } else {
                path.take(stem_end)
            }
        },
        None => path,
    }
}

/// The path with the extension of its file name replaced. The path first
/// loses as many characters at its end as its extension has; `extension`
/// is then put behind the stem of the file name of what is left.
pub open spec fn spec_with_extension(path: Seq<char>, extension: Seq<char>) -> Seq<char> {
    match spec_extension(path) {
        Some(old) => spec_set_extension(path.take(path.len() - old.len()), extension),
        None => spec_set_extension(path, extension),
    }
}

/// Whether `text` holds no separator.
pub open spec fn has_no_separator(text: Seq<char>) -> bool {
    forall|i: int| 0 <= i < text.len() ==> text[i] != '/'
}

/// The text of an optional string.
pub open spec fn text_of(s: Option<&str>) -> Option<Seq<char>> {
    match s {
        Some(s) => Some(s@),
        None => None,
    }
}

fn head_of(chars: &Vec<char>) -> (head: usize)
    ensures
        head == head_len(chars@),
{
    if chars.len() == 0 {
        0
    } else if chars[0] == '/' {
        1
    } else if chars[0] == '.' && (chars.len() == 1 || chars[1] == '/') {
        1
    } else {
        0
    }
}

fn end_of_body(chars: &Vec<char>, head: usize, from: usize) -> (end: usize)
    requires
        head == head_len(chars@),
        from <= chars.len(),
    ensures
        end == body_end(chars@, from as int),
        end <= from,
{
    let mut n = from;
    while n > head
        invariant
            n <= from <= chars.len(),
            head == head_len(chars@),
            body_end(chars@, n as int) == body_end(chars@, from as int),
        decreases n,
    {
        let c = chars[n - 1];
        if c == '/' || (c == '.' && (n - 1 == head || chars[n - 2] == '/')) {
            n = n - 1;
        } else {
            return n;
        }
    }
    n
}

fn start_of_component(chars: &Vec<char>, head: usize, end: usize) -> (start: usize)
    requires
        head == head_len(chars@),
        end <= chars.len(),
    ensures
        start == component_start(chars@, end as int),
        start <= end,
{
    let mut n = end;
    while n > head
        invariant
            n <= end <= chars.len(),
            head == head_len(chars@),
            component_start(chars@, n as int) == component_start(chars@, end as int),
        decreases n,
    {
        if chars[n - 1] == '/' {
            return n;
        }
        n = n - 1;
    }
    n
}

/// Where the file name starts and ends, in characters.
fn span_of_name(chars: &Vec<char>) -> (span: Option<(usize, usize)>)
    ensures
        match span {
            Some((start, end)) => name_span(chars@) == Some((start as int, end as int)) && start
                <= end <= chars.len(),
            None => name_span(chars@) is None,
        },
{
    let head = head_of(chars);
    let end = end_of_body(chars, head, chars.len());
    let start = start_of_component(chars, head, end);
    if end > head && !(end - start == 2 && chars[start] == '.' && chars[start + 1] == '.') {
        Some((start, end))
    } else {
        None
    }
}

/// The final component of `path`, if it is a name.
pub fn file_name(path: &str) -> (name: Option<&str>)
    ensures
        text_of(name) == spec_file_name(path@),
{
    let chars = chars_of(path);
    match span_of_name(&chars) {
        Some((start, end)) => Some(path.substring_char(start, end)),
        None => None,
    }
}

/// `path` without its final component, if it has one.
pub fn parent(path: &str) -> (dir: Option<&str>)
    ensures
        text_of(dir) == spec_parent(path@),
{
    let chars = chars_of(path);
    let head = head_of(&chars);
    let end = end_of_body(&chars, head, chars.len());
    if end > head {
        let start = start_of_component(&chars, head, end);
        let cut = if start > head {
            start - 1
        } else {
            start
        };
        let stop = end_of_body(&chars, head, cut);
        Some(path.substring_char(0, stop))
    } else if head == 1 && chars[0] == '.' {
        Some(path.substring_char(0, 0))
    } else {
        None
    }
}

/// The length of the stem of the name that `chars` holds from `start` to
/// `end`.
fn stem_len_of(chars: &Vec<char>, start: usize, end: usize) -> (len: usize)
    requires
        start <= end <= chars.len(),
    ensures
        len == stem_len(chars@.subrange(start as int, end as int)),
        len <= end - start,
{
    let ghost name = chars@.subrange(start as int, end as int);
    let mut n = end - start;
    while n > 0
        invariant
            n <= end - start,
            start <= end <= chars.len(),
            name == chars@.subrange(start as int, end as int),
            last_dot(name, n as int) == last_dot(name, name.len() as int),
        decreases n,
    {
        if chars[start + n - 1] == '.' {
            return if n - 1 > 0 {
                n - 1
            } else {
                end - start
            };
        }
        n = n - 1;
    }
    end - start
}

/// The file name of `path` without its extension.
pub fn file_stem(path: &str) -> (stem: Option<&str>)
    ensures
        text_of(stem) == spec_file_stem(path@),
{
    let chars = chars_of(path);
    match span_of_name(&chars) {
        Some((start, end)) => {
            let len = stem_len_of(&chars, start, end);
            assert(path@.subrange(start as int, end as int).take(len as int) == path@.subrange(
                start as int,
                start + len,
            ));
            Some(path.substring_char(start, start + len))
        },
        None => None,
    }
}

/// The extension of the file name of `path`, without its dot.
pub fn extension(path: &str) -> (ext: Option<&str>)
    ensures
        text_of(ext) == spec_extension(path@),
{
    let chars = chars_of(path);
    match span_of_name(&chars) {
        Some((start, end)) => {
            let len = stem_len_of(&chars, start, end);
            if len < end - start {
                assert(path@.subrange(start as int, end as int).skip(len + 1) == path@.subrange(
                    start + len + 1,
                    end as int,
                ));
                Some(path.substring_char(start + len + 1, end))
            } else {
                None
            }
        },
        None => None,
    }
}

/// `path` adjoined to `base`.
pub fn join(base: &str, path: &str) -> (joined: String)
    ensures
        joined@ == spec_join(base@, path@),
{
    proof {
        reveal_strlit("/");
    }
    let base_len = base.unicode_len();
    let path_len = path.unicode_len();
    if path_len > 0 && path.get_char(0) == '/' {
        String::from_str(path)
    } else if base_len > 0 && base.get_char(base_len - 1) != '/' {
        let mut joined = String::from_str(base);
        joined.append("/");
        joined.append(path);
        assert("/"@ == seq!['/']);
        joined
    } else {
        let mut joined = String::from_str(base);
        joined.append(path);
        joined
    }
}

/// `path` with the extension of its file name replaced by `extension`, or
/// taken away where `extension` is empty.
///
/// `extension` is to hold no separator: on an extension with a separator
/// the function of `std::path` panics, and this one leaves such extensions
/// out.
pub fn with_extension(path: &str, extension: &str) -> (changed: String)
    requires
        has_no_separator(extension@),
    ensures
        changed@ == spec_with_extension(path@, extension@),
{
    proof {
        lemma_extension_is_plain(path@);
    }
    match self::extension(path) {
        Some(old) => {
            let kept = path.unicode_len() - old.unicode_len();
            set_extension(path.substring_char(0, kept), extension)
        },
        None => set_extension(path, extension),
    }
}

/// `path` with `extension` put behind the stem of its file name.
fn set_extension(path: &str, extension: &str) -> (changed: String)
    ensures
        changed@ == spec_set_extension(path@, extension@),
{
    proof {
        reveal_strlit(".");
    }
    let chars = chars_of(path);
    match span_of_name(&chars) {
        Some((start, end)) => {
            let len = stem_len_of(&chars, start, end);
            let mut changed = String::from_str(path.substring_char(0, start + len));
            if extension.unicode_len() > 0 {
                changed.append(".");
                changed.append(extension);
                assert("."@ == seq!['.']);
            }
            changed
        },
        None => String::from_str(path),
    }
}

/// Whether `name` can be a file name: not empty, without a separator, and
/// neither `.` nor `..`.
pub open spec fn is_name(name: Seq<char>) -> bool {
    &&& name.len() > 0
    &&& has_no_separator(name)
    &&& !(name.len() == 1 && name[0] == '.')
    &&& !(name.len() == 2 && name[0] == '.' && name[1] == '.')
}

/// Whether `text` holds no dot.
pub open spec fn has_no_dot(text: Seq<char>) -> bool {
    forall|i: int| 0 <= i < text.len() ==> text[i] != '.'
}

/// Whether nothing at the end of `dir` would be passed over: it does not
/// end in a separator or a `.` component, unless it is the root or `.`.
pub open spec fn is_settled(dir: Seq<char>) -> bool {
    body_end(dir, dir.len() as int) == dir.len()
}

/// `body_end` stops within the first `n` characters, not before the head,
/// and at a character that ends a component.
pub proof fn lemma_body_end_stops(path: Seq<char>, n: int)
    requires
        0 <= n <= path.len(),
    ensures
        body_end(path, n) <= n,
        n >= head_len(path) ==> body_end(path, n) >= head_len(path),
        n <= head_len(path) ==> body_end(path, n) == n,
        body_end(path, n) > head_len(path) ==> {
            let m = body_end(path, n);
            &&& path[m - 1] != '/'
            &&& !(path[m - 1] == '.' && (m - 1 == head_len(path) || path[m - 2] == '/'))
        },
    decreases n,
{
    if n > head_len(path) {
        lemma_body_end_stops(path, n - 1);
    }
}

/// `body_end` looks only at the head of the path and at its first `n`
/// characters.
pub proof fn lemma_body_end_of_prefix(path: Seq<char>, other: Seq<char>, n: int)
    requires
        0 <= n <= path.len(),
        n <= other.len(),
        head_len(path) == head_len(other),
        forall|i: int| 0 <= i < n ==> path[i] == other[i],
    ensures
        body_end(path, n) == body_end(other, n),
    decreases n,
{
    if n > head_len(path) {
        lemma_body_end_of_prefix(path, other, n - 1);
    }
}

/// A component starts behind a separator or at the head, and holds no
/// separator.
pub proof fn lemma_component_start(path: Seq<char>, n: int)
    requires
        head_len(path) <= n <= path.len(),
    ensures
        head_len(path) <= component_start(path, n) <= n,
        component_start(path, n) > head_len(path) ==> path[component_start(path, n) - 1] == '/',
        forall|i: int| component_start(path, n) <= i < n ==> path[i] != '/',
    decreases n,
{
    if n > head_len(path) && path[n - 1] != '/' {
        lemma_component_start(path, n - 1);
    }
}

/// A stretch without a separator that follows a separator, or the head, is
/// one component.
pub proof fn lemma_component_start_is(path: Seq<char>, start: int, n: int)
    requires
        head_len(path) <= start <= n <= path.len(),
        start > head_len(path) ==> path[start - 1] == '/',
        forall|i: int| start <= i < n ==> path[i] != '/',
    ensures
        component_start(path, n) == start,
    decreases n,
{
    if n > start {
        lemma_component_start_is(path, start, n - 1);
    }
}

/// `last_dot` finds a dot, and no dot follows it.
pub proof fn lemma_last_dot(name: Seq<char>, n: int)
    requires
        0 <= n <= name.len(),
    ensures
        -1 <= last_dot(name, n) < n,
        last_dot(name, n) >= 0 ==> name[last_dot(name, n)] == '.',
        forall|i: int| last_dot(name, n) < i < n ==> name[i] != '.',
    decreases n,
{
    if n > 0 && name[n - 1] != '.' {
        lemma_last_dot(name, n - 1);
    }
}

/// A dot that no dot follows is the last one.
pub proof fn lemma_last_dot_is(name: Seq<char>, dot: int, n: int)
    requires
        -1 <= dot < n <= name.len(),
        dot >= 0 ==> name[dot] == '.',
        forall|i: int| dot < i < n ==> name[i] != '.',
    ensures
        last_dot(name, n) == dot,
    decreases n,
{
    if n > dot + 1 {
        lemma_last_dot_is(name, dot, n - 1);
    }
}

/// A file name is a name.
pub proof fn lemma_file_name_is_name(path: Seq<char>)
    ensures
        spec_file_name(path) matches Some(name) ==> is_name(name),
{
    let end = body_end(path, path.len() as int);
    lemma_body_end_stops(path, path.len() as int);
    if end > head_len(path) {
        lemma_component_start(path, end);
    }
}

/// An extension holds neither a separator nor a dot, and is shorter than
/// the path.
pub proof fn lemma_extension_is_plain(path: Seq<char>)
    ensures
        spec_extension(path) matches Some(extension) ==> has_no_separator(extension) && has_no_dot(
            extension,
        ) && extension.len() < path.len(),
{
    lemma_file_name_is_name(path);
    lemma_body_end_stops(path, path.len() as int);
    if body_end(path, path.len() as int) > head_len(path) {
        lemma_component_start(path, body_end(path, path.len() as int));
    }
    if let Some(name) = spec_file_name(path) {
        lemma_last_dot(name, name.len() as int);
    }
}

/// A parent is settled.
pub proof fn lemma_parent_is_settled(path: Seq<char>)
    ensures
        spec_parent(path) matches Some(dir) ==> is_settled(dir),
{
    let head = head_len(path);
    let end = body_end(path, path.len() as int);
    lemma_body_end_stops(path, path.len() as int);
    if end > head {
        lemma_component_start(path, end);
        let start = component_start(path, end);
        let cut = if start > head {
            start - 1
        } else {
            start
        };
        lemma_body_end_stops(path, cut);
        let stop = body_end(path, cut);
        let dir = path.take(stop);
        if stop > head {
            assert(head_len(dir) == head);
            lemma_body_end_of_prefix(dir, path, stop);
            lemma_body_end_stops(dir, stop);
        } else {
            assert(head_len(dir) >= stop);
        }
    } else if has_current_dir(path) {
        assert(is_settled(Seq::<char>::empty()));
    }
}

/// A name adjoined to a settled directory is the file name of the result,
/// and the directory is its parent.
pub proof fn lemma_join_name(dir: Seq<char>, name: Seq<char>)
    requires
        is_settled(dir),
        is_name(name),
    ensures
        name_span(spec_join(dir, name)) == Some(
            (spec_join(dir, name).len() - name.len(), spec_join(dir, name).len() as int),
        ),
        spec_file_name(spec_join(dir, name)) == Some(name),
        spec_parent(spec_join(dir, name)) == Some(dir),
{
    let joined = spec_join(dir, name);
    let n = joined.len() as int;
    let start = n - name.len();
    let head = head_len(joined);
    assert(!has_root(name));
    lemma_body_end_stops(dir, dir.len() as int);
    assert(forall|i: int| start <= i < n ==> joined[i] == name[i - start]);
    assert(head == head_len(dir)) by {
        if dir.len() > 0 {
            assert(joined[0] == dir[0]);
            if dir.len() > 1 {
                assert(joined[1] == dir[1]);
            }
        }
    }
    assert(head <= start);
    assert(start > head ==> joined[start - 1] == '/');
    assert(body_end(joined, n) == n);
    lemma_component_start_is(joined, start, n);
    assert(joined.subrange(start, n) == name);
    let cut = if start > head {
        start - 1
    } else {
        start
    };
    assert(cut == dir.len() || (cut == head && dir.len() <= head));
    assert(body_end(joined, cut) == dir.len()) by {
        if cut == dir.len() {
            lemma_body_end_of_prefix(joined, dir, cut);
        }
    }
    assert(joined.take(dir.len() as int) == dir);
}

} // verus!
