//! Path patterns.

use crate::text::{chars_of, ends_with, has_suffix, holds_at, same, starts_with};
use vstd::prelude::*;

verus! {

/// `pattern` without its last `n` characters.
pub open spec fn without_last(pattern: Seq<char>, n: int) -> Seq<char> {
    pattern.take(pattern.len() - n)
}

/// Whether `path` lies below the directory `dir`, at any depth.
pub open spec fn lies_below(dir: Seq<char>, path: Seq<char>) -> bool {
    starts_with(path, dir.push('/'))
}

/// Whether `path` lies directly in the directory `dir`.
pub open spec fn lies_in(dir: Seq<char>, path: Seq<char>) -> bool {
    lies_below(dir, path) && !path.skip(dir.len() as int + 1).contains('/')
}

/// Whether `path` matches `pattern`.
///
/// A pattern is a path, which matches itself and all below it. `/**` at its end leaves what is
/// below, `/*` what is directly in it; `*.` at its start matches every path with that ending. A
/// `*` anywhere else stands for itself.
pub open spec fn fits_pattern(pattern: Seq<char>, path: Seq<char>) -> bool {
    if pattern == path {
        true
    } else if ends_with(pattern, seq!['/', '*', '*']) {
        lies_below(without_last(pattern, 3), path)
    } else if ends_with(pattern, seq!['/', '*']) {
        lies_in(without_last(pattern, 2), path)
    } else if starts_with(pattern, seq!['*', '.']) {
        ends_with(path, pattern.drop_first())
    } else {
        lies_below(pattern, path)
    }
}

/// Whether the first `len` characters of `pattern` are a directory that `path` lies below.
fn is_below(pattern: &Vec<char>, len: usize, path: &Vec<char>) -> (r: bool)
    requires
        len <= pattern.len(),
    ensures
        r == lies_below(pattern@.take(len as int), path@),
{
    let ghost head: Seq<char> = pattern@.take(len as int).push('/');
    if path.len() <= len {
        return false;
    }
    for i in 0..len
        invariant
            len <= pattern.len(),
            len < path.len(),
            head == pattern@.take(len as int).push('/'),
            forall|j: int| 0 <= j < i ==> pattern@[j] == #[trigger] path@[j],
    {
        if pattern[i] != path[i] {
            assert(path@.take(head.len() as int)[i as int] != head[i as int]);
            return false;
        }
    }
    if path[len] != '/' {
        assert(path@.take(head.len() as int)[len as int] != head[len as int]);
        return false;
    }
    assert(path@.take(head.len() as int) =~= head);
    true
}

/// Whether there is a `/` in `path` from `start` on.
fn has_slash(path: &Vec<char>, start: usize) -> (r: bool)
    requires
        start <= path.len(),
    ensures
        r == path@.skip(start as int).contains('/'),
{
    let mut i: usize = start;
    while i < path.len()
        invariant
            start <= i <= path.len(),
            forall|j: int| start <= j < i ==> #[trigger] path@[j] != '/',
        decreases path.len() - i,
    {
        if path[i] == '/' {
            assert(path@.skip(start as int)[i - start] == '/');
            return true;
        }
        i += 1;
    }
    assert forall|j: int| 0 <= j < path@.skip(start as int).len() implies #[trigger] path@.skip(
        start as int,
    )[j] != '/' by {
        assert(path@[start + j] != '/');
    }
    false
}

/// Whether `path` matches `pattern`: see [`fits_pattern`].
pub fn glob_match(pattern: &str, path: &str) -> (r: bool)
    ensures
        r == fits_pattern(pattern@, path@),
{
    if same(pattern, path) {
        return true;
    }
    let p: Vec<char> = chars_of(pattern);
    let q: Vec<char> = chars_of(path);
    let len: usize = p.len();
    let any_depth: Vec<char> = vec!['/', '*', '*'];
    let one_level: Vec<char> = vec!['/', '*'];
    let ending: Vec<char> = vec!['*', '.'];
    assert(any_depth@ =~= seq!['/', '*', '*']);
    assert(one_level@ =~= seq!['/', '*']);
    assert(ending@ =~= seq!['*', '.']);
    assert(p@.skip(0) =~= p@);
    assert(p@.take(len as int) =~= p@);
    if has_suffix(&p, &any_depth) {
        is_below(&p, len - 3, &q)
    } else if has_suffix(&p, &one_level) {
        is_below(&p, len - 2, &q) && !has_slash(&q, len - 1)
    } else if holds_at(&p, 0, &ending) {
        let tail: Vec<char> = chars_of(pattern.substring_char(1, len));
        assert(tail@ =~= pattern@.drop_first());
        has_suffix(&q, &tail)
    } else {
        is_below(&p, len, &q)
    }
}

/// Every path matches itself.
pub proof fn paths_match_themselves(path: Seq<char>)
    ensures
        fits_pattern(path, path),
{
}

/// What is directly in a directory is below it.
pub proof fn children_are_descendants(dir: Seq<char>, path: Seq<char>)
    requires
        fits_pattern(dir + seq!['/', '*'], path),
        path != dir + seq!['/', '*'],
    ensures
        fits_pattern(dir + seq!['/', '*', '*'], path),
        lies_below(dir, path),
{
    let one = dir + seq!['/', '*'];
    let any = dir + seq!['/', '*', '*'];
    let n = dir.len() as int;
    assert(one.skip(n) =~= seq!['/', '*']);
    assert(any.skip(n) =~= seq!['/', '*', '*']);
    assert(without_last(one, 2) =~= dir);
    assert(without_last(any, 3) =~= dir);
    if ends_with(one, seq!['/', '*', '*']) {
        assert(one.skip(n - 1)[1] == '/');
        assert(seq!['/', '*', '*'][1] == '*');
    }
}

/// Patterns are matched from the start of a path: unless it begins with `*.`, a pattern without
/// the `/*` or `/**` at its end begins each path that it matches.
pub proof fn patterns_match_from_the_start(pattern: Seq<char>, path: Seq<char>)
    requires
        fits_pattern(pattern, path),
        pattern != path,
        ends_with(pattern, seq!['/', '*', '*']) || ends_with(pattern, seq!['/', '*']) || !starts_with(
            pattern,
            seq!['*', '.'],
        ),
    ensures
        lies_below(
            if ends_with(pattern, seq!['/', '*', '*']) {
                without_last(pattern, 3)
            } else if ends_with(pattern, seq!['/', '*']) {
                without_last(pattern, 2)
            } else {
                pattern
            },
            path,
        ),
{
}

/// A pattern `dir/**` matches, besides itself, the paths that are `dir`, a slash and any rest.
pub proof fn any_depth_matches_all_below(dir: Seq<char>, path: Seq<char>)
    requires
        path != dir + seq!['/', '*', '*'],
    ensures
        fits_pattern(dir + seq!['/', '*', '*'], path) <==> exists|rest: Seq<char>| path == #[trigger] (dir.push(
            '/',
        ) + rest),
{
    let pattern = dir + seq!['/', '*', '*'];
    assert(pattern.skip(dir.len() as int) =~= seq!['/', '*', '*']);
    assert(without_last(pattern, 3) =~= dir);
    lemma_starts(path, dir.push('/'));
}

/// A pattern `dir/*` matches, besides itself, the paths that are `dir`, a slash and a name without
/// one.
pub proof fn one_level_matches_names(dir: Seq<char>, path: Seq<char>)
    requires
        path != dir + seq!['/', '*'],
    ensures
        fits_pattern(dir + seq!['/', '*'], path) <==> exists|name: Seq<char>|
            path == #[trigger] (dir.push('/') + name) && !name.contains('/'),
{
    let pattern = dir + seq!['/', '*'];
    let n = dir.len() as int;
    let head = dir.push('/');
    assert(pattern.skip(n) =~= seq!['/', '*']);
    assert(without_last(pattern, 2) =~= dir);
    if ends_with(pattern, seq!['/', '*', '*']) {
        assert(pattern.skip(n - 1)[1] == '/');
        assert(seq!['/', '*', '*'][1] == '*');
    }
    if fits_pattern(pattern, path) {
        assert(path =~= head + path.skip(n + 1));
    }
    if exists|name: Seq<char>| path == #[trigger] (head + name) && !name.contains('/') {
        let name = choose|name: Seq<char>| path == #[trigger] (head + name) && !name.contains('/');
        assert(path.take(n + 1) =~= head);
        assert(path.skip(n + 1) =~= name);
    }
}

/// A pattern `*.ending` matches the paths that are anything, a dot and that ending.
pub proof fn endings_match_at_the_end(ending: Seq<char>, path: Seq<char>)
    requires
        !ends_with(seq!['*', '.'] + ending, seq!['/', '*', '*']),
        !ends_with(seq!['*', '.'] + ending, seq!['/', '*']),
    ensures
        fits_pattern(seq!['*', '.'] + ending, path) <==> exists|front: Seq<char>|
            path == #[trigger] (front + seq!['.'] + ending),
{
    let pattern = seq!['*', '.'] + ending;
    let tail = seq!['.'] + ending;
    assert(pattern.take(2) =~= seq!['*', '.']);
    assert(pattern.drop_first() =~= tail);
    if fits_pattern(pattern, path) {
        if pattern == path {
            assert(path =~= seq!['*'] + seq!['.'] + ending);
        } else {
            let front = path.take(path.len() - tail.len());
            assert(path =~= front + path.skip(path.len() - tail.len()));
            assert(path =~= front + seq!['.'] + ending);
        }
    }
    if exists|front: Seq<char>| path == #[trigger] (front + seq!['.'] + ending) {
        let front = choose|front: Seq<char>| path == #[trigger] (front + seq!['.'] + ending);
        assert(path.skip(path.len() - tail.len()) =~= tail);
    }
}

/// Any other pattern matches itself, and the paths that are the pattern, a slash and any rest.
pub proof fn plain_patterns_match_themselves_and_below(pattern: Seq<char>, path: Seq<char>)
    requires
        !ends_with(pattern, seq!['/', '*', '*']),
        !ends_with(pattern, seq!['/', '*']),
        !starts_with(pattern, seq!['*', '.']),
    ensures
        fits_pattern(pattern, path) <==> path == pattern || exists|rest: Seq<char>|
            path == #[trigger] (pattern.push('/') + rest),
{
    lemma_starts(path, pattern.push('/'));
}

proof fn lemma_starts(s: Seq<char>, head: Seq<char>)
    ensures
        starts_with(s, head) <==> exists|rest: Seq<char>| s == #[trigger] (head + rest),
{
    if starts_with(s, head) {
        assert(s =~= head + s.skip(head.len() as int));
    }
    if exists|rest: Seq<char>| s == #[trigger] (head + rest) {
        let rest = choose|rest: Seq<char>| s == #[trigger] (head + rest);
        assert(s.take(head.len() as int) =~= head);
    }
}

} // verus!
