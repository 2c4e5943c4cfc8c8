//! The order in which the entries of an archive are written: by archive path, character
//! by character, whatever the order in which the files were added.

use vstd::prelude::*;

verus! {

/// Whether `a` comes before `b`: at the first place where they differ `a` has the
/// smaller character, or `a` ends there and `b` does not.
pub open spec fn spec_less(a: Seq<char>, b: Seq<char>) -> bool
    decreases a.len(),
{
    if b.len() == 0 {
        false
    } else if a.len() == 0 {
        true
    } else if a[0] != b[0] {
        (a[0] as u32) < (b[0] as u32)
    } else {
        spec_less(a.drop_first(), b.drop_first())
    }
}

/// Nothing comes before itself.
pub proof fn lemma_less_irreflexive(a: Seq<char>)
    ensures
        !spec_less(a, a),
    decreases a.len(),
{
    if a.len() > 0 {
        lemma_less_irreflexive(a.drop_first());
    }
}

/// Of two different sequences exactly one comes before the other.
pub proof fn lemma_less_total(a: Seq<char>, b: Seq<char>)
    ensures
        a != b ==> (spec_less(a, b) <==> !spec_less(b, a)),
        a == b ==> !spec_less(a, b) && !spec_less(b, a),
    decreases a.len(),
{
    if a == b {
        lemma_less_irreflexive(a);
    } else if a.len() > 0 && b.len() > 0 {
        if a[0] == b[0] {
            lemma_less_total(a.drop_first(), b.drop_first());
            if a.drop_first() == b.drop_first() {
                assert(a =~= seq![a[0]] + a.drop_first());
                assert(b =~= seq![b[0]] + b.drop_first());
            }
        } else {
            vstd::utf8::char_u32_cast(a[0], a[0] as u32);
            vstd::utf8::char_u32_cast(b[0], b[0] as u32);
        }
    } else {
        assert(a.len() != b.len()) by {
            if a.len() == 0 && b.len() == 0 {
                assert(a =~= b);
            }
        }
    }
}

/// The order is transitive.
pub proof fn lemma_less_transitive(a: Seq<char>, b: Seq<char>, c: Seq<char>)
    requires
        spec_less(a, b),
        spec_less(b, c),
    ensures
        spec_less(a, c),
    decreases a.len(),
{
    if a.len() > 0 && a[0] == b[0] && b[0] == c[0] {
        lemma_less_transitive(a.drop_first(), b.drop_first(), c.drop_first());
    }
}

/// If `a` does not come behind `b` and `b` not behind `c`, then `a` does not come behind
/// `c`.
pub proof fn lemma_not_behind_transitive(a: Seq<char>, b: Seq<char>, c: Seq<char>)
    requires
        !spec_less(b, a),
        !spec_less(c, b),
    ensures
        !spec_less(c, a),
{
    lemma_less_total(a, b);
    lemma_less_total(b, c);
    lemma_less_total(a, c);
    if spec_less(c, a) {
        if a == b {
        } else if b == c {
        } else {
            lemma_less_transitive(c, a, b);
        }
    }
}

/// Tests whether `a` comes before `b`.
pub fn less(a: &[char], b: &[char]) -> (res: bool)
    ensures
        res == spec_less(a@, b@),
{
    let mut i: usize = 0;
    proof {
        assert(a@.skip(0) =~= a@);
        assert(b@.skip(0) =~= b@);
    }
    while i < a.len() && i < b.len()
        invariant
            i <= a.len(),
            i <= b.len(),
            spec_less(a@, b@) == spec_less(a@.skip(i as int), b@.skip(i as int)),
        decreases a.len() - i,
    {
        assert(a@.skip(i as int).drop_first() =~= a@.skip(i + 1));
        assert(b@.skip(i as int).drop_first() =~= b@.skip(i + 1));
        if a[i] != b[i] {
            return (a[i] as u32) < (b[i] as u32);
        }
        i = i + 1;
    }
    i < b.len()
}

/// Whether `p` is one of the positions that `order` lists.
pub open spec fn lists_position(order: Seq<usize>, p: int) -> bool {
    exists|i: int| 0 <= i < order.len() && #[trigger] order[i] == p
}

/// Whether `order` lists the positions `0 .. paths.len()`, each once, so that the paths
/// never go down, and paths that are equal stay in the order of their positions.
pub open spec fn is_sorted_order(paths: Seq<Seq<char>>, order: Seq<usize>) -> bool {
    &&& order.len() == paths.len()
    &&& forall|i: int| 0 <= i < order.len() ==> (#[trigger] order[i]) < paths.len()
    &&& forall|p: int| 0 <= p < paths.len() ==> #[trigger] lists_position(order, p)
    &&& forall|i: int, j: int|
        0 <= i < j < order.len() ==> {
            &&& (#[trigger] order[i]) != (#[trigger] order[j])
            &&& !spec_less(paths[order[j] as int], paths[order[i] as int])
            &&& paths[order[i] as int] == paths[order[j] as int] ==> order[i] < order[j]
        }
}

/// Sorts the positions of `paths` by path. Equal paths keep the order of their positions.
pub fn sorted_order(paths: &Vec<Vec<char>>) -> (order: Vec<usize>)
    ensures
        is_sorted_order(paths@.map_values(|p: Vec<char>| p@), order@),
        order@ == spec_sorted_order(paths@.map_values(|p: Vec<char>| p@)),
{
    let ghost views = paths@.map_values(|p: Vec<char>| p@);
    let mut order: Vec<usize> = Vec::new();
    let mut k: usize = 0;
    while k < paths.len()
        invariant
            k <= paths.len(),
            views == paths@.map_values(|p: Vec<char>| p@),
            is_sorted_order(views.take(k as int), order@),
        decreases paths.len() - k,
    {
        let mut pos: usize = order.len();
        while pos > 0 && less(paths[k].as_slice(), paths[order[pos - 1]].as_slice())
            invariant
                pos <= order.len(),
                k < paths.len(),
                views == paths@.map_values(|p: Vec<char>| p@),
                is_sorted_order(views.take(k as int), order@),
                forall|i: int|
                    pos <= i < order.len() ==> spec_less(
                        views[k as int],
                        views[(#[trigger] order[i]) as int],
                    ),
            decreases pos,
        {
            pos = pos - 1;
        }
        proof {
            lemma_insert_sorted(views, k, order@, pos as int);
        }
        order.insert(pos, k);
        k = k + 1;
    }
    proof {
        assert(views.take(paths.len() as int) =~= views);
        lemma_is_sorted_order(views, order@);
    }
    order
}

/// An order that is sorted stays sorted when the next position is put in behind the
/// positions whose paths do not come behind its path.
pub proof fn lemma_insert_sorted(paths: Seq<Seq<char>>, k: usize, before: Seq<usize>, pos: int)
    requires
        k < paths.len(),
        is_sorted_order(paths.take(k as int), before),
        0 <= pos <= before.len(),
        forall|i: int|
            pos <= i < before.len() ==> spec_less(paths[k as int], paths[(#[trigger] before[i]) as int]),
        pos > 0 ==> !spec_less(paths[k as int], paths[before[pos - 1] as int]),
    ensures
        is_sorted_order(paths.take(k + 1), before.insert(pos, k)),
{
    let after = before.insert(pos, k);
    let old_paths = paths.take(k as int);
    let new_paths = paths.take(k + 1);
    assert forall|i: int| 0 <= i < after.len() implies (#[trigger] after[i]) < new_paths.len() by {
        if i < pos {
            assert(after[i] == before[i]);
        } else if i > pos {
            assert(after[i] == before[i - 1]);
        }
    }
    assert forall|p: int| 0 <= p < new_paths.len() implies #[trigger] lists_position(after, p) by {
        if p == k {
            assert(after[pos] == p);
        } else {
            assert(lists_position(before, p));
            let i = choose|i: int| 0 <= i < before.len() && #[trigger] before[i] == p;
            if i < pos {
                assert(after[i] == p);
            } else {
                assert(after[i + 1] == p);
            }
        }
    }
    assert forall|i: int, j: int| 0 <= i < j < after.len() implies {
        &&& (#[trigger] after[i]) != (#[trigger] after[j])
        &&& !spec_less(new_paths[after[j] as int], new_paths[after[i] as int])
        &&& new_paths[after[i] as int] == new_paths[after[j] as int] ==> after[i] < after[j]
    } by {
        let bi = if i < pos {
            i
        } else {
            i - 1
        };
        let bj = if j < pos {
            j
        } else {
            j - 1
        };
        if i != pos {
            assert(after[i] == before[bi]);
            assert(before[bi] < k);
        }
        if j != pos {
            assert(after[j] == before[bj]);
            assert(before[bj] < k);
        }
        if i == pos {
            lemma_less_total(paths[k as int], paths[before[bj] as int]);
        } else if j == pos {
            assert(before[pos - 1] < k);
            if i < pos - 1 {
                assert(!spec_less(old_paths[before[pos - 1] as int], old_paths[before[i] as int]));
            } else {
                lemma_less_irreflexive(paths[before[i] as int]);
            }
            lemma_not_behind_transitive(
                paths[before[i] as int],
                paths[before[pos - 1] as int],
                paths[k as int],
            );
        } else {
            assert(!spec_less(old_paths[before[bj] as int], old_paths[before[bi] as int]));
        }
    }
}

/// The place at which position `k` is put into a sorted order: behind the last
/// position, among the first `p`, whose path does not come behind its path.
pub open spec fn spec_insert_pos(paths: Seq<Seq<char>>, k: int, order: Seq<usize>, p: int) -> int
    decreases p,
{
    if p > 0 && spec_less(paths[k], paths[order[p - 1] as int]) {
        spec_insert_pos(paths, k, order, p - 1)
    } else {
        p
    }
}

proof fn lemma_insert_pos(paths: Seq<Seq<char>>, k: int, order: Seq<usize>, p: int)
    requires
        0 <= p <= order.len(),
    ensures
        0 <= spec_insert_pos(paths, k, order, p) <= p,
        forall|i: int|
            spec_insert_pos(paths, k, order, p) <= i < p ==> spec_less(
                paths[k],
                paths[(#[trigger] order[i]) as int],
            ),
        spec_insert_pos(paths, k, order, p) > 0 ==> !spec_less(
            paths[k],
            paths[order[spec_insert_pos(paths, k, order, p) - 1] as int],
        ),
    decreases p,
{
    if p > 0 && spec_less(paths[k], paths[order[p - 1] as int]) {
        lemma_insert_pos(paths, k, order, p - 1);
    }
}

/// Paths can always be sorted.
pub proof fn lemma_sorted_order_exists(paths: Seq<Seq<char>>)
    requires
        paths.len() <= usize::MAX,
    ensures
        is_sorted_order(paths, spec_sorted_order(paths)),
    decreases paths.len(),
{
    if paths.len() == 0 {
        assert(is_sorted_order(paths, Seq::<usize>::empty()));
    } else {
        let k = (paths.len() - 1) as usize;
        let front = paths.drop_last();
        lemma_sorted_order_exists(front);
        let before = spec_sorted_order(front);
        let pos = spec_insert_pos(paths, k as int, before, before.len() as int);
        lemma_insert_pos(paths, k as int, before, before.len() as int);
        assert(paths.take(k as int) =~= front);
        assert(paths.take(k + 1) =~= paths);
        lemma_insert_sorted(paths, k, before, pos);
        assert(is_sorted_order(paths, before.insert(pos, k)));
    }
}

/// The sorted order of the positions of `paths`.
pub open spec fn spec_sorted_order(paths: Seq<Seq<char>>) -> Seq<usize> {
    choose|order: Seq<usize>| is_sorted_order(paths, order)
}

/// An order that is sorted is the sorted order.
pub proof fn lemma_is_sorted_order(paths: Seq<Seq<char>>, order: Seq<usize>)
    requires
        is_sorted_order(paths, order),
    ensures
        order == spec_sorted_order(paths),
{
    lemma_sorted_order_unique(paths, order, spec_sorted_order(paths));
}

/// Only one order of the positions is sorted: whoever sorts the same paths gets the
/// same order.
pub proof fn lemma_sorted_order_unique(paths: Seq<Seq<char>>, o1: Seq<usize>, o2: Seq<usize>)
    requires
        is_sorted_order(paths, o1),
        is_sorted_order(paths, o2),
    ensures
        o1 == o2,
{
    assert forall|t: int| 0 <= t < o1.len() implies o1[t] == o2[t] by {
        lemma_same_prefix(paths, o1, o2, t + 1);
    }
    assert(o1 =~= o2);
}

proof fn lemma_same_prefix(paths: Seq<Seq<char>>, o1: Seq<usize>, o2: Seq<usize>, n: int)
    requires
        is_sorted_order(paths, o1),
        is_sorted_order(paths, o2),
        0 <= n <= paths.len(),
    ensures
        forall|t: int| 0 <= t < n ==> o1[t] == o2[t],
    decreases n,
{
    if n > 0 {
        lemma_same_prefix(paths, o1, o2, n - 1);
        let t = n - 1;
        let x = o1[t];
        let y = o2[t];
        if x != y {
            assert(lists_position(o2, x as int));
            let u = choose|u: int| 0 <= u < o2.len() && #[trigger] o2[u] == x;
            assert(lists_position(o1, y as int));
            let w = choose|w: int| 0 <= w < o1.len() && #[trigger] o1[w] == y;
            // `x` stands behind place `t` in `o2`, and `y` behind place `t` in `o1`.
            if u < t {
                assert(o1[u] == o2[u]);
                assert(o1[u] != o1[t]);
            }
            if w < t {
                assert(o1[w] == o2[w]);
                assert(o2[w] != o2[t]);
            }
            assert(t < u && t < w);
            // So `y` does not come behind `x`, and `x` not behind `y`; being equal in
            // path, their positions would have to go up both ways.
            assert(!spec_less(paths[o2[u] as int], paths[o2[t] as int]));
            assert(!spec_less(paths[o1[w] as int], paths[o1[t] as int]));
            lemma_less_total(paths[x as int], paths[y as int]);
            assert(paths[x as int] == paths[y as int]);
            assert(o2[t] < o2[u]);
            assert(o1[t] < o1[w]);
        }
    }
}

} // verus!
