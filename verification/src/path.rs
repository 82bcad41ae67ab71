//! Where an ephemeral file is put: in the directory of its timeline, under its name.

use vstd::prelude::*;
use vstd::string::StringExecFns;
use crate::name;
use crate::name::{chars_of, ephemeral_file_name};

verus! {

/// The name of a file: a single component of a path, without separators and without a drive, that
/// is not one of the two names for a directory itself and the one above it.
pub open spec fn is_component(name: Seq<char>) -> bool {
    &&& name.len() > 0
    &&& name != seq!['.']
    &&& name != seq!['.', '.']
    &&& forall|i: int|
        0 <= i < name.len() ==> #[trigger] name[i] != '/' && name[i] != '\\' && name[i] != ':'
}

/// Whether `dir` begins with `\\?\`. Windows takes such a path apart and puts it together anew.
pub open spec fn is_verbatim(dir: Seq<char>) -> bool {
    seq!['\\', '\\', '?', '\\'].is_prefix_of(dir)
}

pub open spec fn ends_with(path: Seq<char>, name: Seq<char>) -> bool {
    name.len() <= path.len() && path.skip(path.len() - name.len()) == name
}

/// `path` is `dir` and `name` with at most one separator between them. There is none only where
/// `dir` is empty or ends in a separator or a drive; a platform may use `/` or `\` for it.
pub open spec fn is_joined(dir: Seq<char>, name: Seq<char>, path: Seq<char>) -> bool {
    ||| path == dir + name && (dir.len() == 0 || dir.last() == '/' || dir.last() == '\\'
        || dir.last() == ':')
    ||| path == dir.push('/') + name && dir.len() > 0
    ||| path == dir.push('\\') + name && dir.len() > 0
}

/// Calls `camino::Utf8Path::join`, and takes and gives paths as text.
///
/// Trusted of it: adjoining a single relative component gives a path that ends in it, and that
/// extends the directory by it, the two told apart by a separator. The latter is not claimed of
/// directories that begin with `\\?\`. Whether a second separator is put behind one that the
/// directory ends in, and which one the platform uses, is left open.
#[verifier::external_body]
fn join(dir: &str, name: &str) -> (path: String)
    requires
        is_component(name@),
    ensures
        ends_with(path@, name@),
        !is_verbatim(dir@) ==> is_joined(dir@, name@, path@),
{
    camino::Utf8Path::new(dir).join(name).into_string()
}

/// Whether `dir` is the letter of a drive and a colon. On Windows a name right behind it is looked
/// up in the directory that the drive is at, so that a separator there would change what is meant.
pub open spec fn is_drive(dir: Seq<char>) -> bool {
    dir.len() == 2 && ('a' <= dir[0] <= 'z' || 'A' <= dir[0] <= 'Z') && dir[1] == ':'
}

/// `dir` and `name` with one `/` between them, that which `dir` ends in if it does. Where there is
/// no directory there is no separator either.
pub open spec fn slash_joined(dir: Seq<char>, name: Seq<char>) -> Seq<char> {
    if dir.len() == 0 || dir.last() == '/' {
        dir + name
    } else {
        dir.push('/') + name
    }
}

/// Whether `path` is what the platform itself makes of `dir` and the name of file `n`.
pub closed spec fn is_platform_path(dir: &str, n: u64, path: String) -> bool {
    exists|name: &str|
        name@ == name::numbered_name(n) && #[trigger] call_ensures(join, (dir, name), path)
}

/// Whether `path` is the path of file `n` in directory `dir`, where that is no drive by itself and
/// does not begin with `\\?\`.
pub open spec fn is_file_path(dir: Seq<char>, n: u64, path: Seq<char>) -> bool {
    is_verbatim(dir) || is_drive(dir) || path == slash_joined(dir, name::numbered_name(n))
}

/// Whether the characters of a directory are those of a drive, or begin with `\\?\`.
fn is_special(dir: &Vec<char>) -> (special: bool)
    ensures
        special == (is_verbatim(dir@) || is_drive(dir@)),
{
    let drive: bool = dir.len() == 2 && ('a' <= dir[0] && dir[0] <= 'z' || 'A' <= dir[0] && dir[0]
        <= 'Z') && dir[1] == ':';
    let verbatim: bool = dir.len() >= 4 && dir[0] == '\\' && dir[1] == '\\' && dir[2] == '?'
        && dir[3] == '\\';
    drive || verbatim
}

/// Writes the separator that the platform has put between `dir` and `name` as `/`, which every
/// platform takes for one.
fn with_slash(dir: &str, name: &str, joined: String) -> (path: String)
    requires
        is_component(name@),
        !is_verbatim(dir@) ==> is_joined(dir@, name@, joined@),
    ensures
        if is_verbatim(dir@) || is_drive(dir@) {
            path == joined
        } else {
            path@ == slash_joined(dir@, name@)
        },
{
    let chars: Vec<char> = chars_of(dir);
    if is_special(&chars) {
        return joined;
    }
    let len: usize = chars.len();
    let after: char = chars_of(joined.as_str())[len];
    let has_slash: bool = len == 0 || chars[len - 1] == '/';
    if has_slash {
        if after != '/' && after != '\\' {
            return joined;
        }
    } else if after == '/' {
        return joined;
    }
    let mut path: String = String::from_str(dir);
    if !has_slash {
        path.append("/");
        proof {
            reveal_strlit("/");
            assert(path@ =~= dir@.push('/'));
        }
    }
    path.append(name);
    path
}

/// The path of a new ephemeral file of the timeline whose directory is `timeline_path`.
pub fn ephemeral_file_path(timeline_path: &str, disambiguator: u64) -> (path: String)
    ensures
        ends_with(path@, name::numbered_name(disambiguator)),
        !is_verbatim(timeline_path@) ==> is_joined(
            timeline_path@,
            name::numbered_name(disambiguator),
            path@,
        ),
        is_file_path(timeline_path@, disambiguator, path@),
        is_verbatim(timeline_path@) || is_drive(timeline_path@) ==> is_platform_path(
            timeline_path,
            disambiguator,
            path,
        ),
{
    let name: String = ephemeral_file_name(disambiguator);
    proof {
        lemma_name_is_component(disambiguator);
    }
    let joined: String = join(timeline_path, name.as_str());
    let path: String = with_slash(timeline_path, name.as_str(), joined);
    proof {
        let dir = timeline_path@;
        assert((dir + name@).skip(dir.len() as int) =~= name@);
        assert((dir.push('/') + name@).skip(dir.len() as int + 1) =~= name@);
    }
    path
}

/// The file is in its directory, under a name of its own: behind the directory comes a `/`, then
/// `ephemeral-` and the file's number, with no further separator. A drive by itself, and what
/// begins with `\\?\`, are left to the platform.
pub proof fn law_path_is_in_directory(dir: Seq<char>, n: u64, path: Seq<char>)
    requires
        is_file_path(dir, n, path),
        dir.len() > 0,
        dir.last() != '/',
        dir.len() < 4 || dir[0] != '\\' || dir[1] != '\\' || dir[2] != '?' || dir[3] != '\\',
        !(dir.len() == 2 && ('a' <= dir[0] <= 'z' || 'A' <= dir[0] <= 'Z') && dir[1] == ':'),
    ensures
        path.len() > dir.len() + 11,
        path.take(dir.len() as int) == dir,
        path[dir.len() as int] == '/',
        path.skip(dir.len() + 1int) == name::numbered_name(n),
        path.subrange(dir.len() + 1int, dir.len() + 11int) == seq![
            'e', 'p', 'h', 'e', 'm', 'e', 'r', 'a', 'l', '-',
        ],
        name::decimal_value(path.skip(dir.len() + 11int)) == n,
        forall|i: int|
            dir.len() < i < path.len() ==> #[trigger] path[i] != '/' && path[i] != '\\',
{
    lemma_path_is_name(dir, n, path, dir.len() as int + 1);
}

/// Where the directory ends in `/`, or there is none, the name comes right behind it.
pub proof fn law_path_has_no_second_separator(dir: Seq<char>, n: u64, path: Seq<char>)
    requires
        is_file_path(dir, n, path),
        dir.len() == 0 || dir.last() == '/',
        dir.len() < 4 || dir[0] != '\\' || dir[1] != '\\' || dir[2] != '?' || dir[3] != '\\',
        !(dir.len() == 2 && ('a' <= dir[0] <= 'z' || 'A' <= dir[0] <= 'Z') && dir[1] == ':'),
    ensures
        path.len() > dir.len() + 10,
        path.take(dir.len() as int) == dir,
        path.skip(dir.len() as int) == name::numbered_name(n),
        path.subrange(dir.len() as int, dir.len() + 10int) == seq![
            'e', 'p', 'h', 'e', 'm', 'e', 'r', 'a', 'l', '-',
        ],
        name::decimal_value(path.skip(dir.len() + 10int)) == n,
        forall|i: int|
            dir.len() <= i < path.len() ==> #[trigger] path[i] != '/' && path[i] != '\\',
{
    lemma_path_is_name(dir, n, path, dir.len() as int);
}

proof fn lemma_path_is_name(dir: Seq<char>, n: u64, path: Seq<char>, from: int)
    requires
        path == slash_joined(dir, name::numbered_name(n)),
        from == if dir.len() == 0 || dir.last() == '/' {
            dir.len() as int
        } else {
            dir.len() as int + 1
        },
    ensures
        path.len() > from + 10,
        path.take(dir.len() as int) == dir,
        path.skip(from) == name::numbered_name(n),
        path.subrange(from, from + 10) == seq![
            'e', 'p', 'h', 'e', 'm', 'e', 'r', 'a', 'l', '-',
        ],
        name::decimal_value(path.skip(from + 10)) == n,
        forall|i: int|
            from <= i < path.len() ==> #[trigger] path[i] != '/' && path[i] != '\\',
{
    let name = name::numbered_name(n);
    name::law_name_holds_its_number(n);
    lemma_name_is_component(n);
    assert(path.skip(from) =~= name);
    assert(path.take(dir.len() as int) =~= dir);
    assert(path.subrange(from, from + 10) =~= name.take(10));
    assert(path.skip(from + 10) =~= name.skip(10));
    assert forall|i: int| from <= i < path.len() implies #[trigger] path[i] != '/' && path[i]
        != '\\' by {
        assert(path.skip(from)[i - from] == name[i - from]);
    }
}

/// Files in different directories have different paths, be their numbers the same or not, as long
/// as the directories are written without a `/` at their end.
pub proof fn law_directories_keep_files_apart(
    d: Seq<char>,
    m: u64,
    p: Seq<char>,
    e: Seq<char>,
    n: u64,
    q: Seq<char>,
)
    requires
        is_file_path(d, m, p),
        is_file_path(e, n, q),
        d.len() > 0 && d.last() != '/' && !is_verbatim(d) && !is_drive(d),
        e.len() > 0 && e.last() != '/' && !is_verbatim(e) && !is_drive(e),
        d != e,
    ensures
        p != q,
{
    law_path_is_in_directory(d, m, p);
    law_path_is_in_directory(e, n, q);
    if p == q {
        if d.len() < e.len() {
            assert(p[e.len() as int] == '/');
        } else if e.len() < d.len() {
            assert(q[d.len() as int] == '/');
        }
    }
}

proof fn lemma_name_is_component(n: u64)
    ensures
        is_component(name::numbered_name(n)),
{
    name::lemma_decimal(n as nat);
    reveal_strlit("ephemeral-");
    assert(name::numbered_name(n).len() > 10);
    assert forall|i: int| 0 <= i < name::numbered_name(n).len() implies {
        let c = #[trigger] name::numbered_name(n)[i];
        c != '/' && c != '\\' && c != ':'
    } by {
        if i >= 10 {
            assert(name::is_digit(name::decimal(n as nat)[i - 10]));
        }
    }
}

/// Files with different numbers have different paths, in whatever directories they are.
pub proof fn law_paths_are_distinct(p: Seq<char>, m: u64, q: Seq<char>, n: u64)
    requires
        ends_with(p, name::numbered_name(m)),
        ends_with(q, name::numbered_name(n)),
        m != n,
    ensures
        p != q,
{
    name::law_names_are_distinct(m, n);
    if p == q {
        if name::numbered_name(m).len() <= name::numbered_name(n).len() {
            lemma_no_name_ends_another(p, m, n);
        } else {
            lemma_no_name_ends_another(p, n, m);
        }
    }
}

/// No two files get the same path, in whatever directories they are, as long as numbers last.
pub proof fn law_paths_are_never_reused(
    numbers: Seq<u64>,
    i: int,
    j: int,
    p: Seq<char>,
    q: Seq<char>,
)
    requires
        name::are_given_out(numbers),
        0 <= i < j < numbers.len(),
        j < u64::MAX,
        ends_with(p, name::numbered_name(numbers[i])),
        ends_with(q, name::numbered_name(numbers[j])),
    ensures
        p != q,
{
    name::law_numbers_count_up(numbers, i);
    name::law_numbers_count_up(numbers, j);
    law_paths_are_distinct(p, numbers[i], q, numbers[j]);
}

proof fn lemma_no_name_ends_another(p: Seq<char>, m: u64, n: u64)
    requires
        ends_with(p, name::numbered_name(m)),
        ends_with(p, name::numbered_name(n)),
        name::numbered_name(m).len() <= name::numbered_name(n).len(),
    ensures
        name::numbered_name(m) == name::numbered_name(n),
{
    let a = name::numbered_name(m);
    let b = name::numbered_name(n);
    let k = b.len() - a.len();
    if k > 0 {
        name::lemma_decimal(m as nat);
        name::lemma_decimal(n as nat);
        reveal_strlit("ephemeral-");
        assert(a[1] == 'p');
        assert(p.skip(p.len() - a.len())[1] == p.skip(p.len() - b.len())[k + 1]);
        if k + 1 >= 10 {
            assert(name::is_digit(name::decimal(n as nat)[k + 1 - 10]));
        }
        assert(b[k + 1] != 'p');
    }
}

} // verus!
