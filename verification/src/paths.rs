//! Paths as text.
use crate::text;
use crate::text::{cat2, cat3, ends_with};
use vstd::prelude::*;

verus! {

/// A name under a directory. The separator is `/`, and stands between them
/// only where the directory is named and does not end with one.
pub open spec fn under(dir: Seq<char>, name: Seq<char>) -> Seq<char> {
    if dir.len() == 0 || text::has_suffix(dir, "/"@) {
        dir + name
    } else {
        dir + "/"@ + name
    }
}

/// A name under a directory.
pub fn join(dir: &str, name: &str) -> (path: String)
    ensures
        path@ == under(dir@, name@),
{
    if dir.is_empty() || ends_with(dir, "/") {
        cat2(dir, name)
    } else {
        cat3(dir, "/", name)
    }
}

/// Whether every machine splits a path in the same places: at its slashes,
/// and nowhere else. Some also split at a backslash, or take a drive or a
/// server off the front.
pub open spec fn is_plain_path(path: Seq<char>) -> bool {
    !path.contains('\\') && !path.contains(':') && !text::has_prefix(path, "//"@)
}

/// What stands behind the last slash of a path.
pub open spec fn last_part(path: Seq<char>) -> Seq<char>
    decreases path.len(),
{
    if path.len() == 0 || path.last() == '/' {
        Seq::empty()
    } else {
        last_part(path.drop_last()).push(path.last())
    }
}

/// The file name of a path that is split at its slashes: its last part,
/// slashes and single dots at its end left out. A path of nothing else has
/// none, and neither has one that ends in two dots.
pub open spec fn final_name(path: Seq<char>) -> Option<Seq<char>>
    decreases path.len(),
{
    if path.len() == 0 {
        None
    } else if path.last() == '/' || last_part(path) == "."@ {
        final_name(path.drop_last())
    } else if last_part(path) == ".."@ {
        None
    } else {
        Some(last_part(path))
    }
}

/// Where the last dot of a name is, below zero where it has none.
pub open spec fn last_dot(name: Seq<char>) -> int
    decreases name.len(),
{
    if name.len() == 0 {
        -1
    } else if name.last() == '.' {
        name.len() - 1
    } else {
        last_dot(name.drop_last())
    }
}

/// A file name without its extension. A dot in front starts no extension.
pub open spec fn stem_of(name: Seq<char>) -> Seq<char> {
    if last_dot(name) > 0 {
        name.take(last_dot(name))
    } else {
        name
    }
}

/// The extension of a file name. A dot in front starts none.
pub open spec fn extension_of(name: Seq<char>) -> Option<Seq<char>> {
    if last_dot(name) > 0 {
        Some(name.skip(last_dot(name) + 1))
    } else {
        None
    }
}

/// A name in a directory is behind the directory's path and a `/`, of which
/// there is one whether the path ends in one or not.
pub proof fn a_name_stands_behind_one_slash(dir: Seq<char>, name: Seq<char>)
    ensures
        dir.len() > 0 && dir.last() != '/' ==> under(dir, name) == dir + seq!['/'] + name,
        dir.len() > 0 && dir.last() != '/' ==> under(dir + seq!['/'], name) == under(dir, name),
        under(Seq::empty(), name) == name,
{
    reveal_strlit("/");
    assert("/"@ =~= seq!['/']);
    assert(Seq::<char>::empty() + name =~= name);
    if dir.len() > 0 && dir.last() != '/' {
        assert(dir.skip(dir.len() - 1)[0] == dir.last());
        let t = dir + seq!['/'];
        assert(t.skip(t.len() - 1) =~= "/"@);
    }
}

/// The last part of a path is what stands behind its last `/`.
pub proof fn the_last_part_stands_behind_the_last_slash(dir: Seq<char>, name: Seq<char>)
    requires
        forall|i: int| 0 <= i < name.len() ==> name[i] != '/',
        dir.len() > 0 ==> dir.last() == '/',
    ensures
        last_part(dir + name) == name,
    decreases name.len(),
{
    let t = dir + name;
    if name.len() == 0 {
        assert(t =~= dir);
        assert(last_part(t) =~= name);
    } else {
        assert(t.last() == name.last());
        assert(name[name.len() - 1] != '/');
        assert(t.drop_last() =~= dir + name.drop_last());
        the_last_part_stands_behind_the_last_slash(dir, name.drop_last());
        assert(name.drop_last().push(name.last()) =~= name);
    }
}

/// The file name of a path is its last part, slashes and single dots behind
/// it aside; a path that ends in two dots has none.
pub proof fn a_path_ends_in_its_file_name(dir: Seq<char>, name: Seq<char>)
    requires
        forall|i: int| 0 <= i < name.len() ==> name[i] != '/',
        name.len() > 0,
        dir.len() > 0 ==> dir.last() == '/',
    ensures
        name != seq!['.'] && name != seq!['.', '.'] ==> final_name(dir + name) == Some(name),
        name == seq!['.', '.'] ==> final_name(dir + name) is None,
        final_name(dir + name + seq!['/']) == final_name(dir + name),
        final_name(dir + name + seq!['/', '.']) == final_name(dir + name),
{
    reveal_strlit(".");
    reveal_strlit("..");
    assert("."@ =~= seq!['.']);
    assert(".."@ =~= seq!['.', '.']);
    the_last_part_stands_behind_the_last_slash(dir, name);
    let t = dir + name;
    assert(t.last() == name.last());
    assert(name[name.len() - 1] != '/');
    let slash = t + seq!['/'];
    assert(slash.last() == '/');
    assert(slash.drop_last() =~= t);
    assert(final_name(slash) == final_name(t));
    let dot = t + seq!['/', '.'];
    the_last_part_stands_behind_the_last_slash(slash, seq!['.']);
    assert(dot =~= slash + seq!['.']);
    assert(dot.drop_last() =~= slash);
    assert(dot.last() == '.');
    assert(final_name(dot) == final_name(slash));
    if name == seq!['.', '.'] {
        assert(last_part(t) == ".."@);
        assert("."@.len() != ".."@.len());
    }
}

/// A name of a stem, a dot and an extension without one is told apart there;
/// a name without a dot, or with one at its start alone, is all stem.
pub proof fn a_name_is_its_stem_and_its_extension(stem: Seq<char>, extension: Seq<char>)
    requires
        forall|i: int| 0 <= i < extension.len() ==> extension[i] != '.',
    ensures
        stem.len() > 0 ==> stem_of(stem + seq!['.'] + extension) == stem && extension_of(
            stem + seq!['.'] + extension,
        ) == Some(extension),
        stem_of(extension) == extension && extension_of(extension) is None,
        stem_of(seq!['.'] + extension) == seq!['.'] + extension && extension_of(
            seq!['.'] + extension,
        ) is None,
{
    lemma_last_dot(stem, extension);
    lemma_last_dot(Seq::empty(), extension);
    lemma_no_dot(extension);
    let t = stem + seq!['.'] + extension;
    assert(t.take(stem.len() as int) =~= stem);
    assert(t.skip(stem.len() as int + 1) =~= extension);
    assert(Seq::<char>::empty() + seq!['.'] + extension =~= seq!['.'] + extension);
}

proof fn lemma_no_dot(s: Seq<char>)
    requires
        forall|i: int| 0 <= i < s.len() ==> s[i] != '.',
    ensures
        last_dot(s) == -1,
    decreases s.len(),
{
    if s.len() > 0 {
        assert(s[s.len() - 1] != '.');
        assert forall|i: int| 0 <= i < s.drop_last().len() implies s.drop_last()[i] != '.' by {
            assert(s[i] != '.');
        }
        lemma_no_dot(s.drop_last());
    }
}

proof fn lemma_last_dot(a: Seq<char>, b: Seq<char>)
    requires
        forall|i: int| 0 <= i < b.len() ==> b[i] != '.',
    ensures
        last_dot(a + seq!['.'] + b) == a.len(),
    decreases b.len(),
{
    let t = a + seq!['.'] + b;
    if b.len() == 0 {
        assert(t.last() == '.');
    } else {
        assert(t.last() == b.last());
        assert(b[b.len() - 1] != '.');
        assert(t.drop_last() =~= a + seq!['.'] + b.drop_last());
        lemma_last_dot(a, b.drop_last());
    }
}

} // verus!
