//! Ordering the systems of a stage, and grouping them for parallel runs.
//!
//! The systems of a stage are numbered in the order in which they were
//! registered.  A relation `before` says which system must run before which;
//! a relation `conflict` says which two must not run at the same time.  The
//! stage runs its systems in the one order that respects `before` and, at
//! every step, takes the lowest-numbered system that is free to run.  That
//! order is then cut into groups of systems that may run side by side.

use vstd::prelude::*;
use crate::error::EngineError;

verus! {

/// Every row of the matrix is as long as the matrix has rows.
pub open spec fn square(m: Seq<Vec<bool>>) -> bool {
    forall|a: int| 0 <= a < m.len() ==> (#[trigger] m[a])@.len() == m.len()
}

/// The relation that a matrix stands for.
pub open spec fn relation_of(m: Seq<Vec<bool>>) -> spec_fn(int, int) -> bool {
    |a: int, b: int| 0 <= a < m.len() && 0 <= b < m[a]@.len() && m[a]@[b]
}

/// `order` lists each of the systems `0..n` once.
pub open spec fn is_order(order: Seq<usize>, n: nat) -> bool {
    &&& order.len() == n
    &&& forall|k: int| 0 <= k < order.len() ==> (#[trigger] order[k]) < n
    &&& order.no_duplicates()
}

/// Whatever must run before another stands before it in `order`.
pub open spec fn respects(order: Seq<usize>, before: spec_fn(int, int) -> bool) -> bool {
    forall|i: int, j: int|
        0 <= i < order.len() && 0 <= j < order.len() && #[trigger] before(
            order[i] as int,
            order[j] as int,
        ) ==> i < j
}

/// Whether the constraints can be met at all.  They cannot when they run in
/// a circle.
pub open spec fn schedulable(n: nat, before: spec_fn(int, int) -> bool) -> bool {
    exists|order: Seq<usize>| #[trigger] is_order(order, n) && respects(order, before)
}

/// All that must run before `x` is among `placed`.
pub open spec fn ready(placed: Seq<usize>, x: int, n: nat, before: spec_fn(int, int) -> bool) -> bool {
    forall|p: int| 0 <= p < n && #[trigger] before(p, x) ==> placed.contains(p as usize)
}

/// Every system of `order` was free to run when its turn came.
pub open spec fn placed(order: Seq<usize>, n: nat, before: spec_fn(int, int) -> bool) -> bool {
    forall|k: int|
        0 <= k < order.len() ==> #[trigger] ready(order.take(k), order[k] as int, n, before)
}

/// At every step `order` takes the lowest-numbered system that is free to
/// run: whatever has a lower number was taken before or was still held back.
pub open spec fn earliest(order: Seq<usize>, n: nat, before: spec_fn(int, int) -> bool) -> bool {
    forall|k: int, x: int|
        0 <= k < order.len() && 0 <= x < order[k] ==> order.take(k).contains(x as usize)
            || !#[trigger] ready(order.take(k), x, n, before)
}

/// Neither of the two systems must run before the other, and they do not
/// conflict: they may run side by side.
pub open spec fn compatible(
    a: int,
    b: int,
    before: spec_fn(int, int) -> bool,
    conflict: spec_fn(int, int) -> bool,
) -> bool {
    !before(a, b) && !before(b, a) && !conflict(a, b) && !conflict(b, a)
}

/// Whether `x` cannot join `group`: it must run after one of its members, or
/// before one, or conflicts with one.
pub open spec fn held_back(
    x: int,
    group: Seq<usize>,
    before: spec_fn(int, int) -> bool,
    conflict: spec_fn(int, int) -> bool,
) -> bool {
    exists|i: int|
        0 <= i < group.len() && !compatible(#[trigger] group[i] as int, x, before, conflict)
}

/// The groups, one after the other.
pub open spec fn concat(groups: Seq<Vec<usize>>) -> Seq<usize>
    decreases groups.len(),
{
    if groups.len() == 0 {
        Seq::empty()
    } else {
        concat(groups.drop_last()) + groups.last()@
    }
}

/// `groups` cuts `order` into runs of systems that may run side by side;
/// each run is as long as it can be: the system after it cannot join it.
pub open spec fn is_plan(
    groups: Seq<Vec<usize>>,
    order: Seq<usize>,
    before: spec_fn(int, int) -> bool,
    conflict: spec_fn(int, int) -> bool,
) -> bool {
    &&& concat(groups) == order
    &&& forall|g: int| 0 <= g < groups.len() ==> (#[trigger] groups[g])@.len() > 0
    &&& forall|g: int, i: int, j: int|
        0 <= g < groups.len() && 0 <= i < j < groups[g]@.len() ==> compatible(
            #[trigger] groups[g]@[i] as int,
            #[trigger] groups[g]@[j] as int,
            before,
            conflict,
        )
    &&& forall|g: int|
        0 <= g < groups.len() - 1 ==> held_back(
            groups[g + 1]@[0] as int,
            (#[trigger] groups[g])@,
            before,
            conflict,
        )
}

/// Where group `g` begins in the groups taken one after the other.
pub open spec fn offset(groups: Seq<Vec<usize>>, g: int) -> int {
    concat(groups.take(g)).len() as int
}

/// Member `k` of group `g` stands at place `offset(groups, g) + k`.
pub proof fn lemma_concat_index(groups: Seq<Vec<usize>>, g: int, k: int)
    requires
        0 <= g < groups.len(),
        0 <= k < groups[g]@.len(),
    ensures
        0 <= offset(groups, g) + k < concat(groups).len(),
        concat(groups)[offset(groups, g) + k] == groups[g]@[k],
    decreases groups.len(),
{
    let front = groups.drop_last();
    if g == groups.len() - 1 {
        assert(groups.take(g) =~= front);
    } else {
        lemma_concat_index(front, g, k);
        assert(front.take(g) =~= groups.take(g));
        assert(front[g] == groups[g]);
    }
}

/// A sequence without repeats of numbers below `n` is no longer than `n`;
/// if it is as long, it holds each of them, and if it is shorter, it lacks
/// one.
pub proof fn lemma_pigeonhole(s: Seq<usize>, n: nat)
    requires
        n <= usize::MAX,
        s.no_duplicates(),
        forall|k: int| 0 <= k < s.len() ==> (#[trigger] s[k]) < n,
    ensures
        s.len() <= n,
        s.len() == n ==> forall|x: usize| x < n ==> s.contains(x),
        s.len() < n ==> exists|x: usize| x < n && !s.contains(x),
    decreases n,
{
    if n == 0 {
        if s.len() > 0 {
            assert(s[0] < n);
        }
    } else {
        let top = (n - 1) as usize;
        if s.contains(top) {
            let i = s.index_of(top);
            let rest = s.remove(i);
            assert forall|k: int| 0 <= k < rest.len() implies (#[trigger] rest[k]) < n - 1 by {
                if k < i {
                    assert(rest[k] == s[k]);
                } else {
                    assert(rest[k] == s[k + 1]);
                }
            }
            assert(rest.no_duplicates());
            lemma_pigeonhole(rest, (n - 1) as nat);
            if s.len() == n {
                assert forall|x: usize| x < n implies s.contains(x) by {
                    if x != top {
                        assert(rest.contains(x));
                        let k = rest.index_of(x);
                        if k < i {
                            assert(s[k] == x);
                        } else {
                            assert(s[k + 1] == x);
                        }
                    }
                }
            }
            if s.len() < n {
                let x = choose|x: usize| x < n - 1 && !rest.contains(x);
                if s.contains(x) {
                    let k = s.index_of(x);
                    if k < i {
                        assert(rest[k] == x);
                    } else {
                        assert(rest[k - 1] == x);
                    }
                }
                assert(x < n && !s.contains(x));
            }
        } else {
            assert forall|k: int| 0 <= k < s.len() implies (#[trigger] s[k]) < n - 1 by {
                assert(s.contains(s[k]));
            }
            lemma_pigeonhole(s, (n - 1) as nat);
            assert(top < n && !s.contains(top));
        }
    }
}

/// In an order every system was free to run when its turn came, if the
/// order respects the constraints.
pub proof fn lemma_respects_placed(order: Seq<usize>, n: nat, before: spec_fn(int, int) -> bool)
    requires
        n <= usize::MAX,
        is_order(order, n),
        respects(order, before),
    ensures
        placed(order, n, before),
{
    lemma_pigeonhole(order, n);
    assert forall|k: int| 0 <= k < order.len() implies #[trigger] ready(
        order.take(k),
        order[k] as int,
        n,
        before,
    ) by {
        assert forall|p: int| 0 <= p < n && #[trigger] before(p, order[k] as int) implies order.take(
            k,
        ).contains(p as usize) by {
            assert(order.contains(p as usize));
            let i = order.index_of(p as usize);
            assert(before(order[i] as int, order[k] as int));
            assert(order.take(k)[i] == p as usize);
        }
    }
}

/// Where every system was free to run when its turn came, the order
/// respects the constraints.
pub proof fn lemma_placed_respects(order: Seq<usize>, n: nat, before: spec_fn(int, int) -> bool)
    requires
        order.no_duplicates(),
        forall|k: int| 0 <= k < order.len() ==> (#[trigger] order[k]) < n,
        placed(order, n, before),
    ensures
        respects(order, before),
{
    assert forall|i: int, j: int|
        0 <= i < order.len() && 0 <= j < order.len() && #[trigger] before(
            order[i] as int,
            order[j] as int,
        ) implies i < j by {
        assert(ready(order.take(j), order[j] as int, n, before));
        assert(order.take(j).contains(order[i]));
        let k = order.take(j).index_of(order[i]);
        assert(order[k] == order[i]);
    }
}

/// Two orders that are built by the same rule agree on every prefix.
proof fn lemma_prefixes_agree(
    p: Seq<usize>,
    q: Seq<usize>,
    n: nat,
    before: spec_fn(int, int) -> bool,
    k: int,
)
    requires
        is_order(p, n),
        is_order(q, n),
        placed(p, n, before),
        placed(q, n, before),
        earliest(p, n, before),
        earliest(q, n, before),
        0 <= k <= n,
    ensures
        p.take(k) == q.take(k),
    decreases k,
{
    if k == 0 {
        assert(p.take(0) =~= q.take(0));
    } else {
        lemma_prefixes_agree(p, q, n, before, k - 1);
        let front = p.take(k - 1);
        let x = p[k - 1];
        let y = q[k - 1];
        assert(ready(p.take(k - 1), p[k - 1] as int, n, before));
        assert(ready(q.take(k - 1), q[k - 1] as int, n, before));
        if x < y {
            assert(q.take(k - 1).contains(x) || !ready(q.take(k - 1), x as int, n, before));
            let i = front.index_of(x);
            assert(p[i] == x);
        } else if y < x {
            assert(p.take(k - 1).contains(y) || !ready(p.take(k - 1), y as int, n, before));
            let i = q.take(k - 1).index_of(y);
            assert(q[i] == y);
        }
        assert(p.take(k) =~= p.take(k - 1).push(x));
        assert(q.take(k) =~= q.take(k - 1).push(y));
    }
}

/// Only one order respects the constraints and takes the lowest-numbered
/// free system at every step.
pub proof fn lemma_order_is_unique(
    p: Seq<usize>,
    q: Seq<usize>,
    n: nat,
    before: spec_fn(int, int) -> bool,
)
    requires
        n <= usize::MAX,
        is_order(p, n),
        respects(p, before),
        earliest(p, n, before),
        is_order(q, n),
        respects(q, before),
        earliest(q, n, before),
    ensures
        p == q,
{
    lemma_respects_placed(p, n, before);
    lemma_respects_placed(q, n, before);
    lemma_prefixes_agree(p, q, n, before, n as int);
    assert(p.take(n as int) =~= p);
    assert(q.take(n as int) =~= q);
}

/// The groups, one after the other, are the first group and then the rest.
proof fn lemma_concat_front(groups: Seq<Vec<usize>>)
    requires
        groups.len() > 0,
    ensures
        concat(groups) == groups[0]@ + concat(groups.skip(1)),
    decreases groups.len(),
{
    if groups.len() == 1 {
        assert(groups.drop_last() =~= Seq::<Vec<usize>>::empty());
        assert(groups.skip(1) =~= Seq::<Vec<usize>>::empty());
        assert(concat(groups) =~= groups[0]@ + concat(groups.skip(1)));
    } else {
        lemma_concat_front(groups.drop_last());
        assert(groups.drop_last().skip(1) =~= groups.skip(1).drop_last());
        assert(groups.skip(1).last() == groups.last());
        assert(concat(groups) =~= groups[0]@ + concat(groups.skip(1)));
    }
}

/// A plan without its first group is a plan of what is left.
proof fn lemma_plan_tail(
    groups: Seq<Vec<usize>>,
    before: spec_fn(int, int) -> bool,
    conflict: spec_fn(int, int) -> bool,
)
    requires
        groups.len() > 0,
        is_plan(groups, concat(groups), before, conflict),
    ensures
        is_plan(groups.skip(1), concat(groups.skip(1)), before, conflict),
{
    let rest = groups.skip(1);
    assert forall|g: int| 0 <= g < rest.len() implies (#[trigger] rest[g])@.len() > 0 by {
        assert(rest[g] == groups[g + 1]);
    }
    assert forall|g: int, i: int, j: int|
        0 <= g < rest.len() && 0 <= i < j < rest[g]@.len() implies compatible(
        #[trigger] rest[g]@[i] as int,
        #[trigger] rest[g]@[j] as int,
        before,
        conflict,
    ) by {
        assert(rest[g] == groups[g + 1]);
    }
    assert forall|g: int| 0 <= g < rest.len() - 1 implies held_back(
        rest[g + 1]@[0] as int,
        (#[trigger] rest[g])@,
        before,
        conflict,
    ) by {
        assert(rest[g] == groups[g + 1]);
        assert(rest[g + 1] == groups[g + 2]);
    }
}

/// Of two plans of one order, neither has the shorter first group.
proof fn lemma_first_groups_agree(
    g1: Seq<Vec<usize>>,
    g2: Seq<Vec<usize>>,
    before: spec_fn(int, int) -> bool,
    conflict: spec_fn(int, int) -> bool,
)
    requires
        g1.len() > 0,
        g2.len() > 0,
        is_plan(g1, concat(g1), before, conflict),
        is_plan(g2, concat(g2), before, conflict),
        concat(g1) == concat(g2),
    ensures
        g1[0]@.len() >= g2[0]@.len(),
{
    lemma_concat_front(g1);
    lemma_concat_front(g2);
    let a = g1[0]@;
    let b = g2[0]@;
    let order = concat(g1);
    if a.len() < b.len() {
        if g1.len() == 1 {
            assert(g1.skip(1) =~= Seq::<Vec<usize>>::empty());
        }
        lemma_concat_front(g1.skip(1));
        assert(g1.skip(1)[0] == g1[1]);
        let x = g1[1]@[0];
        assert(g1[1]@.len() > 0);
        assert(order[a.len() as int] == x);
        assert(b[a.len() as int] == x);
        assert(held_back(g1[1]@[0] as int, g1[0]@, before, conflict));
        let i = choose|i: int|
            0 <= i < a.len() && !compatible(#[trigger] a[i] as int, x as int, before, conflict);
        assert(order[i] == a[i]);
        assert(b[i] == a[i]);
        assert(compatible(g2[0]@[i] as int, g2[0]@[a.len() as int] as int, before, conflict));
    }
}

/// An order has one plan only.
pub proof fn lemma_plan_is_unique(
    g1: Seq<Vec<usize>>,
    g2: Seq<Vec<usize>>,
    before: spec_fn(int, int) -> bool,
    conflict: spec_fn(int, int) -> bool,
)
    requires
        is_plan(g1, concat(g1), before, conflict),
        is_plan(g2, concat(g2), before, conflict),
        concat(g1) == concat(g2),
    ensures
        g1.len() == g2.len(),
        forall|g: int| 0 <= g < g1.len() ==> (#[trigger] g1[g])@ == g2[g]@,
    decreases g1.len(),
{
    if g1.len() == 0 {
        if g2.len() > 0 {
            lemma_concat_front(g2);
            assert(g2[0]@.len() > 0);
            assert(concat(g2).len() > 0);
            assert(concat(g1).len() == 0);
            assert(false);
        }
    } else if g2.len() == 0 {
        lemma_concat_front(g1);
        assert(g1[0]@.len() > 0);
        assert(concat(g1).len() > 0);
        assert(concat(g2).len() == 0);
        assert(false);
    } else {
        lemma_concat_front(g1);
        lemma_concat_front(g2);
        lemma_first_groups_agree(g1, g2, before, conflict);
        lemma_first_groups_agree(g2, g1, before, conflict);
        let order = concat(g1);
        let len = g1[0]@.len() as int;
        assert(g1[0]@ =~= order.take(len));
        assert(g2[0]@ =~= order.take(len));
        assert(concat(g1.skip(1)) =~= order.skip(len));
        assert(concat(g2.skip(1)) =~= order.skip(len));
        lemma_plan_tail(g1, before, conflict);
        lemma_plan_tail(g2, before, conflict);
        lemma_plan_is_unique(g1.skip(1), g2.skip(1), before, conflict);
        assert(g1.skip(1).len() == g2.skip(1).len());
        assert(g1.len() == g2.len());
        assert forall|g: int| 0 <= g < g1.len() implies (#[trigger] g1[g])@ == g2[g]@ by {
            if g > 0 {
                assert(g1.skip(1)[g - 1] == g1[g]);
                assert(g2.skip(1)[g - 1] == g2[g]);
                assert(g1.skip(1)[g - 1]@ == g2.skip(1)[g - 1]@);
            } else {
                assert(g1[0]@ == g2[0]@);
            }
        }
    }
}

/// Whether everything that must run before `x` is done.
pub open spec fn unblocked(m: Seq<Vec<bool>>, done: Seq<bool>, x: int) -> bool {
    forall|p: int| 0 <= p < m.len() && #[trigger] m[p]@[x] ==> done[p]
}

/// The first position of `order` up to `hi` whose system is not done.
proof fn first_undone(order: Seq<usize>, done: Seq<bool>, hi: int) -> (k: int)
    requires
        0 <= hi < order.len(),
        !done[order[hi] as int],
    ensures
        0 <= k <= hi,
        !done[order[k] as int],
        forall|j: int| 0 <= j < k ==> done[#[trigger] order[j] as int],
    decreases hi,
{
    if exists|j: int| 0 <= j < hi && !done[#[trigger] order[j] as int] {
        let j = choose|j: int| 0 <= j < hi && !done[#[trigger] order[j] as int];
        first_undone(order, done, j)
    } else {
        hi
    }
}

/// Where some systems are left and none of them is free to run, no order
/// respects the constraints.
proof fn lemma_stuck(m: Seq<Vec<bool>>, taken: Seq<usize>, done: Seq<bool>, order: Seq<usize>)
    requires
        m.len() <= usize::MAX,
        square(m),
        done.len() == m.len(),
        taken.len() < m.len(),
        taken.no_duplicates(),
        forall|k: int| 0 <= k < taken.len() ==> (#[trigger] taken[k]) < m.len(),
        forall|x: int| 0 <= x < m.len() ==> (#[trigger] done[x] <==> taken.contains(x as usize)),
        forall|x: int| 0 <= x < m.len() ==> done[x] || !#[trigger] unblocked(m, done, x),
        is_order(order, m.len()),
    ensures
        !respects(order, relation_of(m)),
{
    let n = m.len();
    let rel = relation_of(m);
    lemma_pigeonhole(taken, n);
    lemma_pigeonhole(order, n);
    let missing = choose|x: usize| x < n && !taken.contains(x);
    assert(!done[missing as int]);
    assert(order.contains(missing));
    let hi = order.index_of(missing);
    let k = first_undone(order, done, hi);
    let y = order[k] as int;
    assert(!unblocked(m, done, y));
    let q = choose|q: int| 0 <= q < m.len() && #[trigger] m[q]@[y] && !done[q];
    assert(order.contains(q as usize));
    let i = order.index_of(q as usize);
    assert(rel(order[i] as int, order[k] as int));
    if respects(order, rel) {
        assert(i < k);
        assert(done[order[i] as int]);
    }
}

/// Taking a system that is free to run, and has the lowest number of those
/// that are, keeps an order well built.
proof fn lemma_extend(order: Seq<usize>, x: usize, n: nat, before: spec_fn(int, int) -> bool)
    requires
        placed(order, n, before),
        earliest(order, n, before),
        ready(order, x as int, n, before),
        forall|y: int| 0 <= y < x ==> order.contains(y as usize) || !#[trigger] ready(order, y, n, before),
    ensures
        placed(order.push(x), n, before),
        earliest(order.push(x), n, before),
{
    let longer = order.push(x);
    assert(longer.take(order.len() as int) =~= order);
    assert forall|k: int| 0 <= k < order.len() implies #[trigger] longer.take(k) == order.take(k) by {
        assert(longer.take(k) =~= order.take(k));
    }
    assert forall|k: int| 0 <= k < longer.len() implies #[trigger] ready(
        longer.take(k),
        longer[k] as int,
        n,
        before,
    ) by {
        if k < order.len() {
            assert(longer.take(k) == order.take(k));
            assert(ready(order.take(k), order[k] as int, n, before));
        }
    }
    assert forall|k: int, y: int| 0 <= k < longer.len() && 0 <= y < longer[k] implies longer.take(
        k,
    ).contains(y as usize) || !#[trigger] ready(longer.take(k), y, n, before) by {
        if k < order.len() {
            assert(longer.take(k) == order.take(k));
            assert(order.take(k).contains(y as usize) || !ready(order.take(k), y, n, before));
        }
    }
}

/// A vector of `n` times `false`.
fn all_false(n: usize) -> (v: Vec<bool>)
    ensures
        v@.len() == n,
        forall|i: int| 0 <= i < n ==> !v@[i],
{
    let mut v: Vec<bool> = Vec::new();
    let mut i: usize = 0;
    while i < n
        invariant
            i <= n,
            v@.len() == i,
            forall|j: int| 0 <= j < i ==> !v@[j],
        decreases n - i,
    {
        v.push(false);
        i += 1;
    }
    v
}

/// Whether everything that must run before `x` is done.
fn is_unblocked(m: &Vec<Vec<bool>>, done: &Vec<bool>, x: usize) -> (b: bool)
    requires
        square(m@),
        done@.len() == m@.len(),
        x < m@.len(),
    ensures
        b == unblocked(m@, done@, x as int),
{
    let mut p: usize = 0;
    while p < m.len()
        invariant
            square(m@),
            done@.len() == m@.len(),
            x < m@.len(),
            p <= m@.len(),
            forall|q: int| 0 <= q < p && #[trigger] m@[q]@[x as int] ==> done@[q],
        decreases m@.len() - p,
    {
        if m[p][x] && !done[p] {
            return false;
        }
        p += 1;
    }
    true
}

/// The lowest-numbered system that is not done and is free to run.
fn next_ready(m: &Vec<Vec<bool>>, done: &Vec<bool>) -> (r: Option<usize>)
    requires
        square(m@),
        done@.len() == m@.len(),
    ensures
        match r {
            Some(x) => x < m@.len() && !done@[x as int] && unblocked(m@, done@, x as int)
                && forall|y: int|
                0 <= y < x ==> done@[y] || !#[trigger] unblocked(m@, done@, y),
            None => forall|y: int|
                0 <= y < m@.len() ==> done@[y] || !#[trigger] unblocked(m@, done@, y),
        },
{
    let mut x: usize = 0;
    while x < m.len()
        invariant
            square(m@),
            done@.len() == m@.len(),
            x <= m@.len(),
            forall|y: int| 0 <= y < x ==> done@[y] || !#[trigger] unblocked(m@, done@, y),
        decreases m@.len() - x,
    {
        if !done[x] && is_unblocked(m, done, x) {
            return Some(x);
        }
        x += 1;
    }
    None
}

/// The order in which the systems of a stage run: it respects the relation
/// `m`, and at every step takes the lowest-numbered system that is free to
/// run.  Fails with `OrderingCycle` when no order respects the relation.
pub fn topological_order(m: &Vec<Vec<bool>>) -> (r: Result<Vec<usize>, EngineError>)
    requires
        square(m@),
    ensures
        match r {
            Ok(order) => is_order(order@, m@.len()) && respects(order@, relation_of(m@))
                && earliest(order@, m@.len(), relation_of(m@)),
            Err(e) => e == EngineError::OrderingCycle && !schedulable(
                m@.len(),
                relation_of(m@),
            ),
        },
{
    let n = m.len();
    let ghost rel = relation_of(m@);
    let mut order: Vec<usize> = Vec::new();
    let mut done = all_false(n);
    assert(order@.take(0) =~= order@);
    while order.len() < n
        invariant
            n == m@.len(),
            square(m@),
            rel == relation_of(m@),
            done@.len() == n,
            order@.len() <= n,
            forall|x: int| 0 <= x < n ==> (#[trigger] done@[x] <==> order@.contains(x as usize)),
            forall|k: int| 0 <= k < order@.len() ==> (#[trigger] order@[k]) < n,
            order@.no_duplicates(),
            placed(order@, n as nat, rel),
            earliest(order@, n as nat, rel),
        decreases n - order@.len(),
    {
        match next_ready(m, &done) {
            None => {
                proof {
                    assert forall|p: Seq<usize>| #[trigger] is_order(p, n as nat) implies !respects(
                        p,
                        rel,
                    ) by {
                        lemma_stuck(m@, order@, done@, p);
                    }
                }
                return Err(EngineError::OrderingCycle);
            },
            Some(x) => {
                let ghost taken = order@;
                let ghost was_done = done@;
                proof {
                    assert(ready(taken, x as int, n as nat, rel)) by {
                        assert forall|p: int| 0 <= p < n && #[trigger] rel(p, x as int) implies taken.contains(
                            p as usize,
                        ) by {
                            assert(m@[p]@[x as int]);
                        }
                    }
                    assert forall|y: int| 0 <= y < x implies taken.contains(y as usize)
                        || !#[trigger] ready(taken, y, n as nat, rel) by {
                        if !was_done[y] {
                            assert(!unblocked(m@, was_done, y));
                            let q = choose|q: int|
                                0 <= q < m@.len() && #[trigger] m@[q]@[y] && !was_done[q];
                            assert(rel(q, y));
                            assert(!taken.contains(q as usize));
                        }
                    }
                    lemma_extend(taken, x, n as nat, rel);
                }
                done[x] = true;
                order.push(x);
                proof {
                    assert forall|y: int| 0 <= y < n implies (#[trigger] done@[y]
                        <==> order@.contains(y as usize)) by {
                        if taken.contains(y as usize) {
                            let k = taken.index_of(y as usize);
                            assert(order@[k] == y as usize);
                        }
                        if y == x {
                            assert(order@[taken.len() as int] == x);
                        }
                        if order@.contains(y as usize) {
                            let k = order@.index_of(y as usize);
                            if k < taken.len() {
                                assert(taken[k] == y as usize);
                            }
                        }
                    }
                }
            },
        }
    }
    proof {
        lemma_placed_respects(order@, n as nat, rel);
    }
    Ok(order)
}

/// Whether `x` may run side by side with every system of `group`.
fn fits(group: &Vec<usize>, x: usize, m: &Vec<Vec<bool>>, c: &Vec<Vec<bool>>) -> (b: bool)
    requires
        square(m@),
        square(c@),
        c@.len() == m@.len(),
        x < m@.len(),
        forall|i: int| 0 <= i < group@.len() ==> (#[trigger] group@[i]) < m@.len(),
    ensures
        b == !held_back(x as int, group@, relation_of(m@), relation_of(c@)),
{
    let mut i: usize = 0;
    while i < group.len()
        invariant
            square(m@),
            square(c@),
            c@.len() == m@.len(),
            x < m@.len(),
            i <= group@.len(),
            forall|i: int| 0 <= i < group@.len() ==> (#[trigger] group@[i]) < m@.len(),
            forall|k: int|
                0 <= k < i ==> compatible(
                    #[trigger] group@[k] as int,
                    x as int,
                    relation_of(m@),
                    relation_of(c@),
                ),
        decreases group@.len() - i,
    {
        let y = group[i];
        if m[y][x] || m[x][y] || c[y][x] || c[x][y] {
            return false;
        }
        i += 1;
    }
    true
}

/// A plan stays a plan when a group is added that is sound in itself and
/// whose first system cannot join the group before it.
proof fn lemma_plan_grows(
    groups: Seq<Vec<usize>>,
    before: spec_fn(int, int) -> bool,
    conflict: spec_fn(int, int) -> bool,
)
    requires
        groups.len() > 0,
        is_plan(groups.drop_last(), concat(groups.drop_last()), before, conflict),
        groups.last()@.len() > 0,
        forall|i: int, j: int|
            0 <= i < j < groups.last()@.len() ==> compatible(
                #[trigger] groups.last()@[i] as int,
                #[trigger] groups.last()@[j] as int,
                before,
                conflict,
            ),
        groups.len() > 1 ==> held_back(
            groups.last()@[0] as int,
            groups[groups.len() - 2]@,
            before,
            conflict,
        ),
    ensures
        is_plan(groups, concat(groups), before, conflict),
{
    let earlier = groups.drop_last();
    assert forall|g: int| 0 <= g < groups.len() implies (#[trigger] groups[g])@.len() > 0 by {
        if g < earlier.len() {
            assert(groups[g] == earlier[g]);
        }
    }
    assert forall|g: int, i: int, j: int|
        0 <= g < groups.len() && 0 <= i < j < groups[g]@.len() implies compatible(
        #[trigger] groups[g]@[i] as int,
        #[trigger] groups[g]@[j] as int,
        before,
        conflict,
    ) by {
        if g < earlier.len() {
            assert(groups[g] == earlier[g]);
        }
    }
    assert forall|g: int| 0 <= g < groups.len() - 1 implies held_back(
        groups[g + 1]@[0] as int,
        (#[trigger] groups[g])@,
        before,
        conflict,
    ) by {
        if g < earlier.len() - 1 {
            assert(groups[g] == earlier[g]);
            assert(groups[g + 1] == earlier[g + 1]);
        }
    }
}

/// Cuts `order` into groups of systems that may run side by side.  A group
/// ends where the next system must run after one of its members, or
/// conflicts with one.
pub fn partition(order: &Vec<usize>, m: &Vec<Vec<bool>>, c: &Vec<Vec<bool>>) -> (groups: Vec<
    Vec<usize>,
>)
    requires
        square(m@),
        square(c@),
        c@.len() == m@.len(),
        forall|k: int| 0 <= k < order@.len() ==> (#[trigger] order@[k]) < m@.len(),
    ensures
        is_plan(groups@, order@, relation_of(m@), relation_of(c@)),
{
    let ghost before = relation_of(m@);
    let ghost conflict = relation_of(c@);
    let mut groups: Vec<Vec<usize>> = Vec::new();
    let mut current: Vec<usize> = Vec::new();
    let mut k: usize = 0;
    assert(concat(groups@) + current@ =~= order@.take(0));
    while k < order.len()
        invariant
            square(m@),
            square(c@),
            c@.len() == m@.len(),
            before == relation_of(m@),
            conflict == relation_of(c@),
            k <= order@.len(),
            forall|k: int| 0 <= k < order@.len() ==> (#[trigger] order@[k]) < m@.len(),
            forall|i: int| 0 <= i < current@.len() ==> (#[trigger] current@[i]) < m@.len(),
            concat(groups@) + current@ == order@.take(k as int),
            is_plan(groups@, concat(groups@), before, conflict),
            forall|i: int, j: int|
                0 <= i < j < current@.len() ==> compatible(
                    #[trigger] current@[i] as int,
                    #[trigger] current@[j] as int,
                    before,
                    conflict,
                ),
            groups@.len() > 0 ==> current@.len() > 0 && held_back(
                current@[0] as int,
                groups@.last()@,
                before,
                conflict,
            ),
        decreases order@.len() - k,
    {
        let x = order[k];
        let ghost earlier = groups@;
        let ghost run = current@;
        if current.len() > 0 && !fits(&current, x, m, c) {
            groups.push(current);
            current = Vec::new();
            current.push(x);
            proof {
                assert(groups@.drop_last() =~= earlier);
                assert(concat(groups@) == concat(earlier) + run);
                assert(order@.take(k + 1) =~= order@.take(k as int).push(x));
                assert(concat(groups@) + current@ =~= (concat(earlier) + run).push(x));
                assert(groups@.last()@ == run);
                lemma_plan_grows(groups@, before, conflict);
            }
        } else {
            current.push(x);
            proof {
                assert(order@.take(k + 1) =~= order@.take(k as int).push(x));
                assert(concat(groups@) + current@ =~= (concat(groups@) + run).push(x));
            }
        }
        k += 1;
    }
    let ghost earlier = groups@;
    let ghost run = current@;
    if current.len() > 0 {
        groups.push(current);
        proof {
            assert(groups@.drop_last() =~= earlier);
            assert(concat(groups@) == concat(earlier) + run);
            lemma_plan_grows(groups@, before, conflict);
        }
    }
    proof {
        assert(order@.take(order@.len() as int) =~= order@);
        assert(concat(groups@) =~= order@);
    }
    groups
}

} // verus!
