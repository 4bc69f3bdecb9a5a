//! Sorting by rank: the order is kept among things of the same rank.

use vstd::prelude::*;
use vstd::seq_lib::to_multiset_build;

verus! {

/// A way to rank things.
pub trait Ranking<T>: Sized {
    /// Whether `a` stands ahead of `b`.
    spec fn ahead(&self, a: T, b: T) -> bool;

    /// Of two things, at most one stands ahead of the other.
    proof fn ahead_is_asymmetric(&self, a: T, b: T)
        requires
            self.ahead(a, b),
        ensures
            !self.ahead(b, a),
    ;

    /// Where one thing stands ahead of another, a third stands behind the one or ahead of the
    /// other.
    proof fn ahead_splits(&self, a: T, b: T, c: T)
        requires
            self.ahead(a, b),
        ensures
            self.ahead(a, c) || self.ahead(c, b),
    ;

    /// Whether `a` stands ahead of `b`.
    fn is_ahead(&self, a: &T, b: &T) -> (r: bool)
        ensures
            r == self.ahead(*a, *b),
    ;
}

/// `s` with `x` put in as far back as it may stand: behind all that it is not ahead of.
pub open spec fn placed<T, R: Ranking<T>>(by: R, s: Seq<T>, x: T) -> Seq<T>
    decreases s.len(),
{
    if s.len() > 0 && by.ahead(x, s.last()) {
        placed(by, s.drop_last(), x).push(s.last())
    } else {
        s.push(x)
    }
}

/// `s` by rank.
pub open spec fn ranked<T, R: Ranking<T>>(by: R, s: Seq<T>) -> Seq<T>
    decreases s.len(),
{
    if s.len() == 0 {
        s
    } else {
        placed(by, ranked(by, s.drop_last()), s.last())
    }
}

/// Whether nothing in `s` stands behind what it is ahead of.
pub open spec fn in_order<T, R: Ranking<T>>(by: R, s: Seq<T>) -> bool {
    forall|i: int, j: int| 0 <= i < j < s.len() ==> !by.ahead(#[trigger] s[j], #[trigger] s[i])
}

/// Whether neither of `x` and `y` stands ahead of the other.
pub open spec fn tied<T, R: Ranking<T>>(by: R, x: T, y: T) -> bool {
    !by.ahead(x, y) && !by.ahead(y, x)
}

/// Whether `x` is to stand at `at` in `s`: behind all that it is not ahead of, and nothing else.
spec fn belongs_at<T, R: Ranking<T>>(by: R, s: Seq<T>, x: T, at: int) -> bool {
    &&& 0 <= at <= s.len()
    &&& forall|i: int| 0 <= i < at ==> !by.ahead(x, #[trigger] s[i])
    &&& forall|i: int| at <= i < s.len() ==> by.ahead(x, #[trigger] s[i])
}

proof fn lemma_placed_at<T, R: Ranking<T>>(by: R, s: Seq<T>, x: T, at: int)
    requires
        belongs_at(by, s, x, at),
    ensures
        placed(by, s, x) == s.insert(at, x),
    decreases s.len(),
{
    if at < s.len() {
        assert(by.ahead(x, s.last()));
        lemma_placed_at(by, s.drop_last(), x, at);
        assert(s.insert(at, x) =~= s.drop_last().insert(at, x).push(s.last()));
    } else {
        if s.len() > 0 {
            assert(!by.ahead(x, s.last()));
        }
        assert(s.insert(at, x) =~= s.push(x));
    }
}

/// In an ordered sequence, what stands behind a thing that `x` is ahead of is such a thing too.
proof fn lemma_ahead_of_the_rest<T, R: Ranking<T>>(by: R, s: Seq<T>, x: T, i: int, j: int)
    requires
        in_order(by, s),
        0 <= i <= j < s.len(),
        by.ahead(x, s[i]),
    ensures
        by.ahead(x, s[j]),
{
    if i < j {
        by.ahead_splits(x, s[i], s[j]);
        assert(!by.ahead(s[j], s[i]));
    }
}

proof fn lemma_insert_keeps_order<T, R: Ranking<T>>(by: R, s: Seq<T>, x: T, at: int)
    requires
        in_order(by, s),
        belongs_at(by, s, x, at),
    ensures
        in_order(by, s.insert(at, x)),
{
    let t = s.insert(at, x);
    assert forall|i: int, j: int| 0 <= i < j < t.len() implies !by.ahead(
        #[trigger] t[j],
        #[trigger] t[i],
    ) by {
        let a = if i < at { i } else { i - 1 };
        let b = if j < at { j } else { j - 1 };
        if i == at {
            assert(by.ahead(x, s[b]));
            by.ahead_is_asymmetric(x, s[b]);
        } else if j == at {
            assert(!by.ahead(x, s[a]));
        } else {
            assert(t[i] == s[a] && t[j] == s[b]);
        }
    }
}

/// `items` by rank.
pub fn sort<T, R: Ranking<T>>(by: &R, items: Vec<T>) -> (sorted: Vec<T>)
    ensures
        sorted@ == ranked(*by, items@),
{
    let ghost all: Seq<T> = items@;
    let mut source: Vec<T> = items;
    let mut waiting: Vec<T> = Vec::new();
    while source.len() > 0
        invariant
            source@ + waiting@.reverse() == all,
        decreases source.len(),
    {
        let ghost rest: Seq<T> = source@;
        let ghost before: Seq<T> = waiting@;
        if let Some(x) = source.pop() {
            waiting.push(x);
            assert(waiting@.reverse() =~= seq![x] + before.reverse());
            assert(source@ + waiting@.reverse() =~= rest + before.reverse());
        }
    }
    let mut sorted: Vec<T> = Vec::new();
    let ghost mut done: int = 0;
    assert(all.skip(0) =~= waiting@.reverse());
    while waiting.len() > 0
        invariant
            0 <= done <= all.len(),
            all.skip(done) == waiting@.reverse(),
            sorted@ == ranked(*by, all.take(done)),
            in_order(*by, sorted@),
        decreases waiting.len(),
    {
        let ghost before: Seq<T> = waiting@;
        if let Some(x) = waiting.pop() {
            assert(before.reverse()[0] == x);
            assert(all.skip(done).len() > 0);
            assert(all[done] == all.skip(done)[0]);
            let at: usize = place_of(by, &sorted, &x);
            proof {
                lemma_placed_at(*by, sorted@, x, at as int);
                lemma_insert_keeps_order(*by, sorted@, x, at as int);
                assert(all.take(done + 1).drop_last() =~= all.take(done));
                assert(all.take(done + 1).last() == x);
                assert(all.skip(done + 1) =~= all.skip(done).drop_first());
                assert(waiting@.reverse() =~= before.reverse().drop_first());
                done = done + 1;
            }
            sorted.insert(at, x);
        }
    }
    assert(all.take(done) =~= all) by {
        assert(all.skip(done).len() == 0);
    }
    sorted
}

/// Where `x` is to stand in `sorted`.
fn place_of<T, R: Ranking<T>>(by: &R, sorted: &Vec<T>, x: &T) -> (at: usize)
    requires
        in_order(*by, sorted@),
    ensures
        belongs_at(*by, sorted@, *x, at as int),
{
    let mut low: usize = 0;
    let mut high: usize = sorted.len();
    while low < high
        invariant
            low <= high <= sorted.len(),
            in_order(*by, sorted@),
            forall|i: int| 0 <= i < low ==> !by.ahead(*x, #[trigger] sorted@[i]),
            forall|i: int| high <= i < sorted.len() ==> by.ahead(*x, #[trigger] sorted@[i]),
        decreases high - low,
    {
        let middle: usize = low + (high - low) / 2;
        if by.is_ahead(x, &sorted[middle]) {
            proof {
                assert forall|i: int| middle <= i < sorted.len() implies by.ahead(
                    *x,
                    #[trigger] sorted@[i],
                ) by {
                    lemma_ahead_of_the_rest(*by, sorted@, *x, middle as int, i);
                }
            }
            high = middle;
        } else {
            proof {
                assert forall|i: int| 0 <= i < middle + 1 implies !by.ahead(
                    *x,
                    #[trigger] sorted@[i],
                ) by {
                    if by.ahead(*x, sorted@[i]) {
                        lemma_ahead_of_the_rest(*by, sorted@, *x, i, middle as int);
                    }
                }
            }
            low = middle + 1;
        }
    }
    low
}

proof fn lemma_placed_keeps_order<T, R: Ranking<T>>(by: R, s: Seq<T>, x: T) -> (at: int)
    requires
        in_order(by, s),
    ensures
        belongs_at(by, s, x, at),
        in_order(by, placed(by, s, x)),
    decreases s.len(),
{
    let at = if s.len() > 0 && by.ahead(x, s.last()) {
        let at = lemma_placed_keeps_order(by, s.drop_last(), x);
        assert forall|i: int| 0 <= i < at implies !by.ahead(x, #[trigger] s[i]) by {
            assert(s[i] == s.drop_last()[i]);
        }
        assert forall|i: int| at <= i < s.len() implies by.ahead(x, #[trigger] s[i]) by {
            if i < s.len() - 1 {
                assert(s[i] == s.drop_last()[i]);
            }
        }
        at
    } else {
        assert forall|i: int| 0 <= i < s.len() implies !by.ahead(x, #[trigger] s[i]) by {
            if by.ahead(x, s[i]) {
                lemma_ahead_of_the_rest(by, s, x, i, s.len() - 1);
            }
        }
        s.len() as int
    };
    lemma_placed_at(by, s, x, at);
    lemma_insert_keeps_order(by, s, x, at);
    at
}

/// Sorting puts nothing behind what it is ahead of.
pub proof fn ranked_is_in_order<T, R: Ranking<T>>(by: R, s: Seq<T>)
    ensures
        in_order(by, ranked(by, s)),
    decreases s.len(),
{
    if s.len() > 0 {
        ranked_is_in_order(by, s.drop_last());
        lemma_placed_keeps_order(by, ranked(by, s.drop_last()), s.last());
    }
}

proof fn lemma_placed_adds_one<T, R: Ranking<T>>(by: R, s: Seq<T>, x: T)
    ensures
        placed(by, s, x).to_multiset() == s.to_multiset().insert(x),
        placed(by, s, x).len() == s.len() + 1,
    decreases s.len(),
{
    to_multiset_build(s, x);
    if s.len() > 0 && by.ahead(x, s.last()) {
        lemma_placed_adds_one(by, s.drop_last(), x);
        to_multiset_build(placed(by, s.drop_last(), x), s.last());
        to_multiset_build(s.drop_last(), s.last());
        assert(s =~= s.drop_last().push(s.last()));
        assert(placed(by, s, x).to_multiset() =~= s.to_multiset().insert(x));
    }
}

/// Sorting keeps each entry as often as it occurred.
pub proof fn ranked_is_a_permutation<T, R: Ranking<T>>(by: R, s: Seq<T>)
    ensures
        ranked(by, s).to_multiset() == s.to_multiset(),
        ranked(by, s).len() == s.len(),
    decreases s.len(),
{
    if s.len() > 0 {
        ranked_is_a_permutation(by, s.drop_last());
        lemma_placed_adds_one(by, ranked(by, s.drop_last()), s.last());
        to_multiset_build(s.drop_last(), s.last());
        assert(s =~= s.drop_last().push(s.last()));
    }
}

proof fn lemma_filter_push<T>(s: Seq<T>, x: T, p: spec_fn(T) -> bool)
    ensures
        s.push(x).filter(p) == if p(x) {
            s.filter(p).push(x)
        } else {
            s.filter(p)
        },
{
    reveal(Seq::filter);
    assert(s.push(x).drop_last() =~= s);
}

proof fn lemma_placed_stands_behind_its_ties<T, R: Ranking<T>>(by: R, s: Seq<T>, y: T, x: T)
    ensures
        placed(by, s, y).filter(|z: T| tied(by, x, z)) == if tied(by, x, y) {
            s.filter(|z: T| tied(by, x, z)).push(y)
        } else {
            s.filter(|z: T| tied(by, x, z))
        },
    decreases s.len(),
{
    let p = |z: T| tied(by, x, z);
    if s.len() > 0 && by.ahead(y, s.last()) {
        let shorter = s.drop_last();
        lemma_placed_stands_behind_its_ties(by, shorter, y, x);
        lemma_filter_push(placed(by, shorter, y), s.last(), p);
        lemma_filter_push(shorter, s.last(), p);
        assert(s =~= shorter.push(s.last()));
        if tied(by, x, y) {
            by.ahead_splits(y, s.last(), x);
        }
    } else {
        lemma_filter_push(s, y, p);
    }
}

/// Sorting keeps the order among things of the same rank.
pub proof fn ranked_is_stable<T, R: Ranking<T>>(by: R, s: Seq<T>, x: T)
    ensures
        ranked(by, s).filter(|z: T| tied(by, x, z)) == s.filter(|z: T| tied(by, x, z)),
    decreases s.len(),
{
    let p = |z: T| tied(by, x, z);
    if s.len() > 0 {
        ranked_is_stable(by, s.drop_last(), x);
        lemma_placed_stands_behind_its_ties(by, ranked(by, s.drop_last()), s.last(), x);
        lemma_filter_push(s.drop_last(), s.last(), p);
        assert(s =~= s.drop_last().push(s.last()));
    }
}

/// Whether things of the same rank in `s` are the same thing.
pub open spec fn ranks_differ<T, R: Ranking<T>>(by: R, s: Seq<T>) -> bool {
    forall|x: T, y: T| s.contains(x) && s.contains(y) && #[trigger] tied(by, x, y) ==> x == y
}

/// There is one order only in which things of different rank can stand.
proof fn lemma_one_order<T, R: Ranking<T>>(by: R, s: Seq<T>, t: Seq<T>)
    requires
        in_order(by, s),
        in_order(by, t),
        s.to_multiset() == t.to_multiset(),
        ranks_differ(by, s),
    ensures
        s == t,
    decreases s.len(),
{
    broadcast use vstd::seq_lib::group_to_multiset_ensures;

    assert(s.len() == s.to_multiset().len() && t.len() == t.to_multiset().len());
    if s.len() == 0 {
        assert(s =~= t);
    } else {
        let x = s.last();
        let y = t.last();
        assert(s.contains(x) && t.contains(y));
        assert(s.to_multiset().count(x) > 0 && t.to_multiset().count(y) > 0);
        assert(t.contains(x) && s.contains(y));
        let i = choose|i: int| 0 <= i < t.len() && t[i] == x;
        let j = choose|j: int| 0 <= j < s.len() && s[j] == y;
        assert(i < t.len() - 1 ==> !by.ahead(t[t.len() - 1], t[i]));
        assert(j < s.len() - 1 ==> !by.ahead(s[s.len() - 1], s[j]));
        if i < t.len() - 1 && j < s.len() - 1 {
            assert(tied(by, x, y));
        }
        assert(x == y);
        let a = s.drop_last();
        let b = t.drop_last();
        assert(s =~= a.push(x));
        assert(t =~= b.push(x));
        to_multiset_build(a, x);
        to_multiset_build(b, x);
        assert(a.to_multiset() =~= s.to_multiset().remove(x));
        assert(b.to_multiset() =~= t.to_multiset().remove(x));
        assert forall|u: T, v: T| a.contains(u) && a.contains(v) && #[trigger] tied(by, u, v) implies u == v by {
            let k = choose|k: int| 0 <= k < a.len() && a[k] == u;
            let l = choose|l: int| 0 <= l < a.len() && a[l] == v;
            assert(s[k] == u && s[l] == v);
        }
        assert(in_order(by, a)) by {
            assert forall|p: int, q: int| 0 <= p < q < a.len() implies !by.ahead(
                #[trigger] a[q],
                #[trigger] a[p],
            ) by {
                assert(a[p] == s[p] && a[q] == s[q]);
            }
        }
        assert(in_order(by, b)) by {
            assert forall|p: int, q: int| 0 <= p < q < b.len() implies !by.ahead(
                #[trigger] b[q],
                #[trigger] b[p],
            ) by {
                assert(b[p] == t[p] && b[q] == t[q]);
            }
        }
        lemma_one_order(by, a, b);
    }
}

/// Where no two things are of the same rank, sorting gives the same whatever order they came in.
pub proof fn ranked_whatever_the_order<T, R: Ranking<T>>(by: R, s: Seq<T>, t: Seq<T>)
    requires
        s.to_multiset() == t.to_multiset(),
        ranks_differ(by, s),
    ensures
        ranked(by, s) == ranked(by, t),
{
    broadcast use vstd::seq_lib::group_to_multiset_ensures;

    ranked_is_in_order(by, s);
    ranked_is_in_order(by, t);
    ranked_is_a_permutation(by, s);
    ranked_is_a_permutation(by, t);
    let r = ranked(by, s);
    assert forall|x: T, y: T| r.contains(x) && r.contains(y) && #[trigger] tied(by, x, y) implies x == y by {
        assert(r.to_multiset().count(x) > 0 && r.to_multiset().count(y) > 0);
        assert(s.contains(x) && s.contains(y));
    }
    lemma_one_order(by, r, ranked(by, t));
}

} // verus!
