//! Resolution of relative paths.

use crate::text::chars_of;
use vstd::prelude::*;
use vstd::string::*;

verus! {

/// The parts of `s` between slashes, in order; one more than there are slashes.
pub open spec fn split_slash(s: Seq<char>) -> Seq<Seq<char>>
    decreases s.len(),
{
    if s.len() == 0 {
        seq![Seq::empty()]
    } else if s.last() == '/' {
        split_slash(s.drop_last()).push(Seq::empty())
    } else {
        let before = split_slash(s.drop_last());
        before.drop_last().push(before.last().push(s.last()))
    }
}

/// Those of `parts` that are not empty.
pub open spec fn nonempty(parts: Seq<Seq<char>>) -> Seq<Seq<char>>
    decreases parts.len(),
{
    if parts.len() == 0 {
        Seq::empty()
    } else if parts.last().len() == 0 {
        nonempty(parts.drop_last())
    } else {
        nonempty(parts.drop_last()).push(parts.last())
    }
}

/// The directory `dir`, given by its parts, after one step along `part`: "." and
/// nothing stay, ".." goes up, anything else goes down.
pub open spec fn walk(dir: Seq<Seq<char>>, part: Seq<char>) -> Seq<Seq<char>> {
    if part.len() == 0 || part == "."@ {
        dir
    } else if part == ".."@ {
        if dir.len() == 0 {
            dir
        } else {
            dir.drop_last()
        }
    } else {
        dir.push(part)
    }
}

/// The directory `dir` after the steps `parts`.
pub open spec fn walk_all(dir: Seq<Seq<char>>, parts: Seq<Seq<char>>) -> Seq<Seq<char>>
    decreases parts.len(),
{
    if parts.len() == 0 {
        dir
    } else {
        walk(walk_all(dir, parts.drop_last()), parts.last())
    }
}

/// Each of `parts` behind a slash.
pub open spec fn slashed(parts: Seq<Seq<char>>) -> Seq<char>
    decreases parts.len(),
{
    if parts.len() == 0 {
        Seq::empty()
    } else {
        slashed(parts.drop_last()).push('/') + parts.last()
    }
}

/// The path with the given parts.
pub open spec fn path_of(parts: Seq<Seq<char>>) -> Seq<char> {
    if parts.len() == 0 {
        seq!['/']
    } else {
        slashed(parts)
    }
}

/// The parts of the absolute path that the relative `path` leads to from `cwd`.
pub open spec fn resolved_parts(cwd: Seq<char>, path: Seq<char>) -> Seq<Seq<char>> {
    walk_all(nonempty(split_slash(cwd)), split_slash(path))
}

/// The path begins at the root.
pub open spec fn is_absolute(path: Seq<char>) -> bool {
    path.len() > 0 && path[0] == '/'
}

/// The absolute path that `path` leads to from `cwd`.
pub open spec fn resolved(cwd: Seq<char>, path: Seq<char>) -> Seq<char> {
    if is_absolute(path) {
        path
    } else {
        path_of(resolved_parts(cwd, path))
    }
}

/// The characters of each part.
spec fn views(parts: Seq<Vec<char>>) -> Seq<Seq<char>> {
    parts.map_values(|p: Vec<char>| p@)
}

fn split(s: &Vec<char>) -> (parts: Vec<Vec<char>>)
    ensures
        views(parts@) == split_slash(s@),
{
    let mut parts: Vec<Vec<char>> = Vec::new();
    let mut part: Vec<char> = Vec::new();
    let mut i: usize = 0;
    assert(s@.take(0) =~= Seq::<char>::empty());
    assert(views(parts@).push(part@) =~= split_slash(s@.take(0)));
    while i < s.len()
        invariant
            i <= s@.len(),
            views(parts@).push(part@) =~= split_slash(s@.take(i as int)),
        decreases s.len() - i,
    {
        let ghost before = views(parts@).push(part@);
        let ghost done = views(parts@);
        let ghost current = part@;
        assert(s@.take(i + 1).drop_last() =~= s@.take(i as int));
        if s[i] == '/' {
            parts.push(part);
            part = Vec::new();
            assert(views(parts@) =~= done.push(current));
            assert(views(parts@).push(part@) =~= before.push(Seq::<char>::empty()));
        } else {
            part.push(s[i]);
            assert(before.drop_last() =~= done);
            assert(views(parts@).push(part@) =~= before.drop_last().push(
                before.last().push(s@[i as int]),
            ));
        }
        i = i + 1;
    }
    let ghost done = views(parts@);
    let ghost current = part@;
    parts.push(part);
    assert(views(parts@) =~= done.push(current));
    assert(s@.take(i as int) =~= s@);
    parts
}

fn copy_chars(s: &Vec<char>) -> (copy: Vec<char>)
    ensures
        copy@ == s@,
{
    vstd::slice::slice_to_vec(s.as_slice())
}

fn is_dot(part: &Vec<char>) -> (yes: bool)
    ensures
        yes == (part@ == "."@),
{
    proof {
        reveal_strlit(".");
        if part@.len() == 1 && part@[0] == '.' {
            assert(part@ =~= "."@);
        }
    }
    part.len() == 1 && part[0] == '.'
}

fn is_dot_dot(part: &Vec<char>) -> (yes: bool)
    ensures
        yes == (part@ == ".."@),
{
    proof {
        reveal_strlit("..");
        if part@.len() == 2 && part@[0] == '.' && part@[1] == '.' {
            assert(part@ =~= ".."@);
        }
    }
    part.len() == 2 && part[0] == '.' && part[1] == '.'
}

/// The absolute path that `path` leads to from the directory `cwd`.
pub fn resolve_path(cwd: &str, path: &str) -> (absolute: String)
    ensures
        absolute@ == resolved(cwd@, path@),
{
    let path_chars: Vec<char> = chars_of(path);
    if path_chars.len() > 0 && path_chars[0] == '/' {
        return String::from_str(path);
    }
    let cwd_chars: Vec<char> = chars_of(cwd);
    let cwd_parts: Vec<Vec<char>> = split(&cwd_chars);
    let mut dir: Vec<Vec<char>> = Vec::new();
    let mut i: usize = 0;
    assert(views(dir@) =~= nonempty(views(cwd_parts@).take(0)));
    while i < cwd_parts.len()
        invariant
            i <= cwd_parts@.len(),
            views(dir@) == nonempty(views(cwd_parts@).take(i as int)),
        decreases cwd_parts.len() - i,
    {
        let ghost before = views(dir@);
        assert(views(cwd_parts@).take(i + 1).drop_last() =~= views(cwd_parts@).take(i as int));
        if cwd_parts[i].len() != 0 {
            dir.push(copy_chars(&cwd_parts[i]));
            assert(views(dir@) =~= before.push(cwd_parts@[i as int]@));
        }
        i = i + 1;
    }
    assert(views(cwd_parts@).take(i as int) =~= views(cwd_parts@));
    let path_parts: Vec<Vec<char>> = split(&path_chars);
    let ghost start = views(dir@);
    let ghost steps = views(path_parts@);
    let mut j: usize = 0;
    assert(steps.take(0) =~= Seq::<Seq<char>>::empty());
    while j < path_parts.len()
        invariant
            j <= path_parts@.len(),
            steps == views(path_parts@),
            views(dir@) == walk_all(start, steps.take(j as int)),
        decreases path_parts.len() - j,
    {
        let ghost before = views(dir@);
        assert(steps.take(j + 1).drop_last() =~= steps.take(j as int));
        assert(steps.take(j + 1).last() == path_parts@[j as int]@);
        let part = &path_parts[j];
        if part.len() == 0 || is_dot(part) {
        } else if is_dot_dot(part) {
            let _ = dir.pop();
            assert(before.len() > 0 ==> views(dir@) =~= before.drop_last());
            assert(before.len() == 0 ==> views(dir@) =~= before);
        } else {
            dir.push(copy_chars(part));
            assert(views(dir@) =~= before.push(part@));
        }
        j = j + 1;
    }
    assert(steps.take(j as int) =~= steps);
    if dir.len() == 0 {
        let mut root = String::new();
        root.push('/');
        assert(root@ =~= seq!['/']);
        return root;
    }
    let ghost parts = views(dir@);
    let mut absolute = String::new();
    let mut k: usize = 0;
    while k < dir.len()
        invariant
            k <= dir@.len(),
            parts == views(dir@),
            absolute@ =~= slashed(parts.take(k as int)),
        decreases dir.len() - k,
    {
        let ghost before = absolute@;
        assert(parts.take(k + 1).drop_last() =~= parts.take(k as int));
        absolute.push('/');
        let part = &dir[k];
        let mut m: usize = 0;
        while m < part.len()
            invariant
                m <= part@.len(),
                absolute@ =~= before.push('/') + part@.take(m as int),
            decreases part.len() - m,
        {
            absolute.push(part[m]);
            m = m + 1;
        }
        assert(part@.take(m as int) =~= part@);
        assert(parts.take(k + 1).last() == part@);
        k = k + 1;
    }
    assert(parts.take(k as int) =~= parts);
    absolute
}

/// The part is a proper name: not empty, not "." and not "..".
pub open spec fn is_name(part: Seq<char>) -> bool {
    part.len() > 0 && part != "."@ && part != ".."@
}

/// All parts are proper names.
pub open spec fn all_names(parts: Seq<Seq<char>>) -> bool {
    forall|i: int| 0 <= i < parts.len() ==> is_name(#[trigger] parts[i])
}

/// A resolved path begins at the root, also for an empty path or one that goes
/// up too far; an absolute path is not changed, so that resolving again changes
/// nothing.
pub proof fn law_resolved_is_absolute(cwd: Seq<char>, path: Seq<char>, other: Seq<char>)
    ensures
        is_absolute(resolved(cwd, path)),
        resolved(other, resolved(cwd, path)) == resolved(cwd, path),
{
    if !is_absolute(path) {
        lemma_slashed_absolute(resolved_parts(cwd, path));
    }
}

proof fn lemma_slashed_absolute(parts: Seq<Seq<char>>)
    ensures
        parts.len() > 0 ==> is_absolute(slashed(parts)),
    decreases parts.len(),
{
    if parts.len() > 0 {
        let before = slashed(parts.drop_last());
        lemma_slashed_absolute(parts.drop_last());
        assert(parts.len() == 1 ==> before.len() == 0);
        assert(slashed(parts)[0] == (if before.len() == 0 {
            '/'
        } else {
            before[0]
        }));
    }
}

/// Where the working directory consists of proper names, so does the path that a
/// relative path leads to: no "." or ".." is left in it.
pub proof fn law_resolved_is_normal(cwd: Seq<char>, path: Seq<char>)
    requires
        all_names(nonempty(split_slash(cwd))),
    ensures
        all_names(resolved_parts(cwd, path)),
{
    lemma_walk_names(nonempty(split_slash(cwd)), split_slash(path));
}

proof fn lemma_walk_names(dir: Seq<Seq<char>>, parts: Seq<Seq<char>>)
    requires
        all_names(dir),
    ensures
        all_names(walk_all(dir, parts)),
    decreases parts.len(),
{
    if parts.len() > 0 {
        lemma_walk_names(dir, parts.drop_last());
    }
}

/// Resolving in two steps is resolving at once: from where the relative path `a`
/// leads to, the relative path `b` leads to where `a/b` does.
pub proof fn law_resolved_in_steps(cwd: Seq<char>, a: Seq<char>, b: Seq<char>)
    requires
        a.len() > 0,
        !is_absolute(a),
        !is_absolute(b),
    ensures
        resolved(resolved(cwd, a), b) == resolved(cwd, a.push('/') + b),
{
    let dir = nonempty(split_slash(cwd));
    let parts = resolved_parts(cwd, a);
    lemma_split_clean(cwd);
    lemma_nonempty_clean(split_slash(cwd));
    lemma_split_clean(a);
    lemma_walk_clean(dir, split_slash(a));
    lemma_parts_of_path(parts);
    lemma_split_joined(a, b);
    lemma_walk_on(dir, split_slash(a), split_slash(b));
    assert((a.push('/') + b)[0] == a[0]);
}

/// No part holds a slash.
spec fn all_clean(parts: Seq<Seq<char>>) -> bool {
    forall|i: int| 0 <= i < parts.len() ==> !(#[trigger] parts[i]).contains('/')
}

/// No part is empty.
spec fn none_empty(parts: Seq<Seq<char>>) -> bool {
    forall|i: int| 0 <= i < parts.len() ==> (#[trigger] parts[i]).len() > 0
}

proof fn lemma_split_clean(s: Seq<char>)
    ensures
        split_slash(s).len() > 0,
        all_clean(split_slash(s)),
    decreases s.len(),
{
    if s.len() > 0 {
        lemma_split_clean(s.drop_last());
        let before = split_slash(s.drop_last());
        if s.last() != '/' {
            let part = before.last().push(s.last());
            assert(!before[before.len() - 1].contains('/'));
            assert(!part.contains('/')) by {
                if part.contains('/') {
                    let k = choose|k: int| 0 <= k < part.len() && part[k] == '/';
                    assert(before.last()[k] == '/');
                }
            }
        }
    }
}

proof fn lemma_split_joined(a: Seq<char>, b: Seq<char>)
    ensures
        split_slash(a.push('/') + b) == split_slash(a) + split_slash(b),
    decreases b.len(),
{
    let s = a.push('/') + b;
    if b.len() == 0 {
        assert(s.drop_last() =~= a);
        assert(split_slash(s) =~= split_slash(a) + split_slash(b));
    } else {
        lemma_split_joined(a, b.drop_last());
        lemma_split_clean(b.drop_last());
        assert(s.drop_last() =~= a.push('/') + b.drop_last());
        assert(split_slash(s) =~= split_slash(a) + split_slash(b));
    }
}

proof fn lemma_split_whole(part: Seq<char>)
    requires
        !part.contains('/'),
    ensures
        split_slash(part) == seq![part],
    decreases part.len(),
{
    if part.len() > 0 {
        let start = part.drop_last();
        assert(part[part.len() - 1] != '/');
        assert(!start.contains('/')) by {
            if start.contains('/') {
                let k = choose|k: int| 0 <= k < start.len() && start[k] == '/';
                assert(part[k] == '/');
            }
        }
        lemma_split_whole(start);
        assert(start.push(part.last()) =~= part);
        assert(split_slash(part) =~= seq![part]);
    } else {
        assert(part =~= Seq::empty());
    }
}

proof fn lemma_nonempty_clean(parts: Seq<Seq<char>>)
    requires
        all_clean(parts),
    ensures
        all_clean(nonempty(parts)),
        none_empty(nonempty(parts)),
    decreases parts.len(),
{
    if parts.len() > 0 {
        assert(!parts[parts.len() - 1].contains('/'));
        lemma_nonempty_clean(parts.drop_last());
    }
}

proof fn lemma_walk_clean(dir: Seq<Seq<char>>, parts: Seq<Seq<char>>)
    requires
        all_clean(dir),
        none_empty(dir),
        all_clean(parts),
    ensures
        all_clean(walk_all(dir, parts)),
        none_empty(walk_all(dir, parts)),
    decreases parts.len(),
{
    if parts.len() > 0 {
        assert(!parts[parts.len() - 1].contains('/'));
        lemma_walk_clean(dir, parts.drop_last());
    }
}

proof fn lemma_walk_on(dir: Seq<Seq<char>>, first: Seq<Seq<char>>, rest: Seq<Seq<char>>)
    ensures
        walk_all(dir, first + rest) == walk_all(walk_all(dir, first), rest),
    decreases rest.len(),
{
    if rest.len() == 0 {
        assert(first + rest =~= first);
    } else {
        lemma_walk_on(dir, first, rest.drop_last());
        assert((first + rest).drop_last() =~= first + rest.drop_last());
    }
}

proof fn lemma_split_slashed(parts: Seq<Seq<char>>)
    requires
        all_clean(parts),
    ensures
        split_slash(slashed(parts)) == seq![Seq::<char>::empty()] + parts,
    decreases parts.len(),
{
    if parts.len() == 0 {
        assert(split_slash(slashed(parts)) =~= seq![Seq::<char>::empty()] + parts);
    } else {
        assert(!parts[parts.len() - 1].contains('/'));
        lemma_split_slashed(parts.drop_last());
        lemma_split_joined(slashed(parts.drop_last()), parts.last());
        lemma_split_whole(parts.last());
        assert(split_slash(slashed(parts)) =~= seq![Seq::<char>::empty()] + parts);
    }
}

proof fn lemma_nonempty_all(parts: Seq<Seq<char>>)
    requires
        none_empty(parts),
    ensures
        nonempty(seq![Seq::<char>::empty()] + parts) == parts,
    decreases parts.len(),
{
    let all = seq![Seq::<char>::empty()] + parts;
    if parts.len() == 0 {
        assert(nonempty(all.drop_last()) =~= Seq::empty());
        assert(nonempty(all) =~= parts);
    } else {
        assert(parts[parts.len() - 1].len() > 0);
        lemma_nonempty_all(parts.drop_last());
        assert(all.drop_last() =~= seq![Seq::<char>::empty()] + parts.drop_last());
        assert(nonempty(all) =~= parts);
    }
}

/// A path has the parts that it was made of.
proof fn lemma_parts_of_path(parts: Seq<Seq<char>>)
    requires
        all_clean(parts),
        none_empty(parts),
    ensures
        nonempty(split_slash(path_of(parts))) == parts,
{
    if parts.len() == 0 {
        let root = Seq::<char>::empty().push('/') + Seq::<char>::empty();
        let nothing = Seq::<Seq<char>>::empty();
        lemma_split_joined(Seq::empty(), Seq::empty());
        assert(root =~= seq!['/']);
        lemma_nonempty_all(nothing);
        assert(seq![Seq::<char>::empty()] + nothing =~= seq![Seq::<char>::empty()]);
        let both = split_slash(root);
        assert(both.drop_last() =~= seq![Seq::<char>::empty()]);
        assert(parts =~= nothing);
    } else {
        lemma_split_slashed(parts);
        lemma_nonempty_all(parts);
    }
}

/// One step at a time: a name leads down into it, ".." leads up, which at the root
/// leads nowhere, and "." and nothing lead to where one is.
pub proof fn law_steps(cwd: Seq<char>, name: Seq<char>)
    requires
        name.len() > 0,
        !name.contains('/'),
        name != seq!['.'],
        name != seq!['.', '.'],
    ensures
        ({
            let dir = nonempty(split_slash(cwd));
            &&& resolved_parts(cwd, name) == dir.push(name)
            &&& dir.len() > 0 ==> resolved_parts(cwd, seq!['.', '.']) == dir.drop_last()
            &&& dir.len() == 0 ==> resolved_parts(cwd, seq!['.', '.']) == dir
            &&& resolved_parts(cwd, seq!['.']) == dir
            &&& resolved_parts(cwd, Seq::empty()) == dir
        }),
        resolved(cwd, name) == (if nonempty(split_slash(cwd)).len() == 0 {
            seq!['/'] + name
        } else {
            resolved(cwd, seq!['.']) + seq!['/'] + name
        }),
{
    reveal_strlit(".");
    reveal_strlit("..");
    let dir = nonempty(split_slash(cwd));
    let dot = seq!['.'];
    let dots = seq!['.', '.'];
    assert("."@ =~= dot);
    assert(".."@ =~= dots);
    lemma_one_step(dir, name);
    assert(!dot.contains('/')) by {
        assert(dot[0] == '.');
    }
    lemma_one_step(dir, dot);
    assert(!dots.contains('/')) by {
        assert(dots[0] == '.' && dots[1] == '.');
    }
    lemma_one_step(dir, dots);
    lemma_one_step(dir, Seq::empty());
    assert(name[0] != '/');
    assert(dir.push(name).drop_last() =~= dir);
    assert(dir.push(name).last() == name);
    if dir.len() == 0 {
        assert(slashed(dir) =~= Seq::empty());
        assert(resolved(cwd, name) =~= seq!['/'] + name);
    } else {
        assert(resolved(cwd, name) =~= slashed(dir) + seq!['/'] + name);
    }
}

proof fn lemma_one_step(dir: Seq<Seq<char>>, part: Seq<char>)
    requires
        !part.contains('/'),
    ensures
        walk_all(dir, split_slash(part)) == walk(dir, part),
{
    lemma_split_whole(part);
    let one = split_slash(part);
    assert(one.drop_last() =~= Seq::empty());
    assert(walk_all(dir, one.drop_last()) == dir);
}

/// Going into a directory and up again leads back.
pub proof fn law_down_and_up(cwd: Seq<char>, name: Seq<char>)
    requires
        name.len() > 0,
        !name.contains('/'),
        name != seq!['.'],
        name != seq!['.', '.'],
    ensures
        resolved(cwd, name + seq!['/', '.', '.']) == resolved(cwd, seq!['.']),
{
    let dots = seq!['.', '.'];
    let dir = nonempty(split_slash(cwd));
    law_steps(cwd, name);
    reveal_strlit("..");
    reveal_strlit(".");
    assert(".."@ =~= dots);
    assert(name + seq!['/', '.', '.'] =~= name.push('/') + dots);
    lemma_split_joined(name, dots);
    assert(!dots.contains('/')) by {
        assert(dots[0] == '.' && dots[1] == '.');
    }
    lemma_split_whole(dots);
    lemma_split_whole(name);
    lemma_walk_on(dir, split_slash(name), split_slash(dots));
    lemma_one_step(dir, name);
    lemma_one_step(dir.push(name), dots);
    assert(dir.push(name).drop_last() =~= dir);
    assert((name + seq!['/', '.', '.'])[0] == name[0]);
    assert(name[0] != '/');
}

/// Splitting at slashes takes the slashes out and nothing else: the parts hold none,
/// and with a slash before each of them they make up the text again.
pub proof fn law_split_keeps_all(s: Seq<char>, i: int)
    ensures
        slashed(split_slash(s)) == seq!['/'] + s,
        split_slash(s).len() > 0,
        0 <= i < split_slash(s).len() ==> !split_slash(s)[i].contains('/'),
    decreases s.len(),
{
    lemma_split_clean(s);
    if s.len() == 0 {
        let parts = split_slash(s);
        assert(parts.drop_last() =~= Seq::empty());
        assert(slashed(parts.drop_last()) =~= Seq::empty());
        assert(slashed(parts) =~= seq!['/'] + s);
    } else {
        let start = s.drop_last();
        law_split_keeps_all(start, i);
        let before = split_slash(start);
        let parts = split_slash(s);
        if s.last() == '/' {
            assert(parts.drop_last() =~= before);
            assert(slashed(parts) =~= seq!['/'] + s);
        } else {
            assert(parts.drop_last() =~= before.drop_last());
            assert(slashed(parts) =~= slashed(before).push(s.last()));
            assert(slashed(parts) =~= seq!['/'] + s);
        }
    }
}

/// A path is the root alone, or its parts with a slash before each; empty parts of a
/// working directory are passed over.
pub proof fn law_path_text(parts: Seq<Seq<char>>, part: Seq<char>)
    ensures
        path_of(Seq::empty()) == seq!['/'],
        slashed(Seq::empty()) == Seq::<char>::empty(),
        slashed(parts.push(part)) == slashed(parts) + seq!['/'] + part,
        path_of(parts.push(part)) == slashed(parts) + seq!['/'] + part,
        nonempty(parts) == parts.filter(|p: Seq<char>| p.len() > 0),
    decreases parts.len(),
{
    reveal(Seq::filter);
    assert(parts.push(part).drop_last() =~= parts);
    assert(slashed(parts.push(part)) =~= slashed(parts) + seq!['/'] + part);
    if parts.len() > 0 {
        law_path_text(parts.drop_last(), part);
    }
    assert(nonempty(parts) =~= parts.filter(|p: Seq<char>| p.len() > 0));
}

} // verus!
