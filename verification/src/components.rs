//! Connected components of a grid, where a cell touches its eight neighbours.

use crate::grid::{lemma_cell, lemma_position};
use vstd::prelude::*;

verus! {

/// Positions `i` and `j` are equal or touch, corners counting.
pub open spec fn touching(w: int, i: int, j: int) -> bool {
    &&& -1 <= i % w - j % w <= 1
    &&& -1 <= i / w - j / w <= 1
}

/// A walk over set cells in which every step touches the one before.
pub open spec fn is_walk(active: Seq<bool>, w: int, p: Seq<int>) -> bool {
    &&& p.len() >= 1
    &&& forall|k: int| 0 <= k < p.len() ==> 0 <= #[trigger] p[k] < active.len() && active[p[k]]
    &&& forall|k: int| 0 <= k < p.len() - 1 ==> touching(w, #[trigger] p[k], p[k + 1])
}

/// A walk over set cells leads from `i` to `j`.
pub open spec fn connected(active: Seq<bool>, w: int, i: int, j: int) -> bool {
    exists|p: Seq<int>| #[trigger] is_walk(active, w, p) && p[0] == i && p.last() == j
}

/// The labelling of a grid: zero off the set cells, one number per component,
/// the components numbered from one in the order of their first cells.
pub open spec fn labelled(active: Seq<bool>, w: int, labels: Seq<usize>) -> bool {
    &&& labels.len() == active.len()
    &&& forall|i: int| 0 <= i < active.len() ==> (active[i] <==> #[trigger] labels[i] > 0)
    &&& forall|i: int, j: int|
        #![trigger labels[i], labels[j]]
        0 <= i < active.len() && 0 <= j < active.len() && active[i] && active[j] ==> (labels[i]
            == labels[j] <==> connected(active, w, i, j))
    &&& forall|i: int|
        0 <= i < active.len() && #[trigger] labels[i] > 1 ==> occurs_before(
            labels,
            i,
            labels[i] - 1,
        )
}

/// The label `v` stands somewhere before position `i`.
pub open spec fn occurs_before(labels: Seq<usize>, i: int, v: int) -> bool {
    exists|j: int| 0 <= j < i && #[trigger] labels[j] == v
}

/// The one labelling of a grid.
pub open spec fn labelling(active: Seq<bool>, w: int) -> Seq<usize> {
    choose|labels: Seq<usize>| labelled(active, w, labels)
}

/// What is known of a component: the box around its cells, right and bottom
/// edges exclusive, and how many they are.
#[derive(Clone, Copy, Debug, PartialEq, Eq, Structural)]
pub struct Component {
    pub x1: usize,
    pub y1: usize,
    pub x2: usize,
    pub y2: usize,
    pub area: usize,
}

/// How often the label `k` stands among the first `n` positions.
pub open spec fn tally(labels: Seq<usize>, k: int, n: int) -> int
    decreases n,
{
    if n <= 0 {
        0
    } else {
        tally(labels, k, n - 1) + if labels[n - 1] == k {
            1int
        } else {
            0
        }
    }
}

/// The smallest box around the cells with label `k` among the first `n`.
pub open spec fn is_hull(labels: Seq<usize>, w: int, k: int, n: int, c: Component) -> bool {
    &&& forall|i: int|
        0 <= i < n && #[trigger] labels[i] == k ==> {
            &&& c.x1 <= i % w < c.x2
            &&& c.y1 <= i / w < c.y2
        }
    &&& exists|i: int| 0 <= i < n && #[trigger] labels[i] == k && i % w == c.x1
    &&& exists|i: int| 0 <= i < n && #[trigger] labels[i] == k && i / w == c.y1
    &&& exists|i: int| 0 <= i < n && #[trigger] labels[i] == k && i % w + 1 == c.x2
    &&& exists|i: int| 0 <= i < n && #[trigger] labels[i] == k && i / w + 1 == c.y2
}

/// `c` describes the cells with label `k`.
pub open spec fn describes(labels: Seq<usize>, w: int, k: int, c: Component) -> bool {
    &&& is_hull(labels, w, k, labels.len() as int, c)
    &&& c.area == tally(labels, k, labels.len() as int)
}

/// The greatest label.
pub open spec fn is_count(labels: Seq<usize>, n: int) -> bool {
    &&& n >= 0
    &&& forall|i: int| 0 <= i < labels.len() ==> #[trigger] labels[i] <= n
    &&& n > 0 ==> exists|i: int| 0 <= i < labels.len() && #[trigger] labels[i] == n
}

/// One description per component, in the order of the labels.
pub open spec fn are_components(labels: Seq<usize>, w: int, parts: Seq<Component>) -> bool {
    &&& is_count(labels, parts.len() as int)
    &&& forall|k: int| 0 <= k < parts.len() ==> describes(labels, w, k + 1, #[trigger] parts[k])
}

/// The components of a grid, in the order of their first cells.
pub open spec fn components(active: Seq<bool>, w: int) -> Seq<Component> {
    choose|parts: Seq<Component>| are_components(labelling(active, w), w, parts)
}

/// A component lies inside the grid and holds at least one cell.
pub open spec fn within_grid(w: int, h: int, c: Component) -> bool {
    &&& c.x1 < c.x2 <= w
    &&& c.y1 < c.y2 <= h
    &&& 1 <= c.area <= w * h
}

proof fn lemma_touching_symmetric(w: int, i: int, j: int)
    ensures
        touching(w, i, j) == touching(w, j, i),
{
}

proof fn lemma_connected_self(active: Seq<bool>, w: int, i: int)
    requires
        0 <= i < active.len(),
        active[i],
    ensures
        connected(active, w, i, i),
{
    let p = seq![i];
    assert(is_walk(active, w, p));
    assert(p[0] == i && p.last() == i);
}

proof fn lemma_connected_step(active: Seq<bool>, w: int, i: int, j: int, k: int)
    requires
        connected(active, w, i, j),
        0 <= k < active.len(),
        active[k],
        touching(w, j, k),
    ensures
        connected(active, w, i, k),
{
    let p = choose|p: Seq<int>| #[trigger] is_walk(active, w, p) && p[0] == i && p.last() == j;
    let q = p.push(k);
    assert(is_walk(active, w, q)) by {
        assert forall|n: int| 0 <= n < q.len() - 1 implies touching(w, #[trigger] q[n], q[n + 1]) by {
            if n < p.len() - 1 {
                assert(q[n] == p[n] && q[n + 1] == p[n + 1]);
            }
        }
    }
    assert(q[0] == i && q.last() == k);
}

proof fn lemma_connected_flip(active: Seq<bool>, w: int, i: int, j: int)
    requires
        connected(active, w, i, j),
    ensures
        connected(active, w, j, i),
{
    let p = choose|p: Seq<int>| #[trigger] is_walk(active, w, p) && p[0] == i && p.last() == j;
    let q = Seq::new(p.len(), |n: int| p[p.len() - 1 - n]);
    assert(is_walk(active, w, q)) by {
        assert forall|n: int| 0 <= n < q.len() - 1 implies touching(w, #[trigger] q[n], q[n + 1]) by {
            let m = p.len() - 2 - n;
            assert(touching(w, p[m], p[m + 1]));
            lemma_touching_symmetric(w, p[m], p[m + 1]);
        }
    }
    assert(q[0] == j && q.last() == i);
}

proof fn lemma_connected_chain(active: Seq<bool>, w: int, i: int, j: int, k: int)
    requires
        connected(active, w, i, j),
        connected(active, w, j, k),
    ensures
        connected(active, w, i, k),
{
    let p = choose|p: Seq<int>| #[trigger] is_walk(active, w, p) && p[0] == i && p.last() == j;
    let q = choose|q: Seq<int>| #[trigger] is_walk(active, w, q) && q[0] == j && q.last() == k;
    let r = p + q.drop_first();
    assert(is_walk(active, w, r)) by {
        assert forall|n: int| 0 <= n < r.len() implies 0 <= #[trigger] r[n] < active.len()
            && active[r[n]] by {
            if n >= p.len() {
                assert(r[n] == q[n - p.len() + 1]);
            } else {
                assert(r[n] == p[n]);
            }
        }
        assert forall|n: int| 0 <= n < r.len() - 1 implies touching(w, #[trigger] r[n], r[n + 1]) by {
            if n < p.len() - 1 {
                assert(r[n] == p[n] && r[n + 1] == p[n + 1]);
            } else {
                let m = n - (p.len() - 1);
                assert(r[n] == q[m]);
                assert(r[n + 1] == q[m + 1]);
                assert(touching(w, q[m], q[m + 1]));
            }
        }
    }
    assert(r[0] == i);
    assert(r.last() == k) by {
        if q.len() == 1 {
            assert(r =~= p);
        }
    }
}

/// Labels that agree on touching cells agree along a walk.
proof fn lemma_walk_label(active: Seq<bool>, w: int, labels: Seq<usize>, p: Seq<int>, n: int)
    requires
        is_walk(active, w, p),
        labels.len() == active.len(),
        forall|j: int, k: int|
            #![trigger labels[j], labels[k]]
            0 <= j < active.len() && 0 <= k < active.len() && labels[j] > 0 && active[k]
                && touching(w, j, k) ==> labels[k] == labels[j],
        labels[p[0]] > 0,
        0 <= n < p.len(),
    ensures
        labels[p[n]] == labels[p[0]],
    decreases n,
{
    if n > 0 {
        lemma_walk_label(active, w, labels, p, n - 1);
        assert(touching(w, p[n - 1], p[n - 1 + 1]));
        assert(0 <= p[n - 1] < active.len());
        assert(labels[p[n]] == labels[p[n - 1]]);
    }
}

/// How many positions still have no label.
spec fn unlabelled(labels: Seq<usize>) -> nat
    decreases labels.len(),
{
    if labels.len() == 0 {
        0
    } else {
        unlabelled(labels.drop_last()) + if labels.last() == 0 {
            1nat
        } else {
            0
        }
    }
}

proof fn lemma_unlabelled_update(labels: Seq<usize>, i: int, v: usize)
    requires
        0 <= i < labels.len(),
        labels[i] == 0,
        v > 0,
    ensures
        unlabelled(labels.update(i, v)) + 1 == unlabelled(labels),
    decreases labels.len(),
{
    let next = labels.update(i, v);
    if i == labels.len() - 1 {
        assert(next.drop_last() =~= labels.drop_last());
    } else {
        assert(next.drop_last() =~= labels.drop_last().update(i, v));
        lemma_unlabelled_update(labels.drop_last(), i, v);
    }
}

/// The facts that hold of the labels given out before the component `cur`.
spec fn settled(active: Seq<bool>, w: int, labels: Seq<usize>, cur: int) -> bool {
    &&& labels.len() == active.len()
    &&& forall|j: int| 0 <= j < active.len() && #[trigger] labels[j] > 0 ==> active[j]
    &&& forall|j: int, k: int|
        #![trigger labels[j], labels[k]]
        0 <= j < active.len() && 0 <= k < active.len() && 0 < labels[j] < cur && active[k]
            && touching(w, j, k) ==> labels[k] == labels[j]
}

/// Gives the label `cur` to the whole component of the cell `seed`.
fn flood(
    active: &[bool],
    w: usize,
    h: usize,
    labels: &mut Vec<usize>,
    seed: usize,
    cur: usize,
)
    requires
        active@.len() == w * h,
        seed < w * h,
        active@[seed as int],
        cur > 0,
        settled(active@, w as int, old(labels)@, cur as int),
        forall|j: int| 0 <= j < active@.len() ==> #[trigger] old(labels)@[j] < cur,
        forall|j: int| 0 <= j < seed && active@[j] ==> #[trigger] old(labels)@[j] > 0,
        old(labels)@[seed as int] == 0,
    ensures
        settled(active@, w as int, final(labels)@, cur + 1),
        forall|j: int|
            0 <= j < active@.len() ==> {
                ||| #[trigger] final(labels)@[j] == old(labels)@[j] && final(labels)@[j] < cur
                ||| final(labels)@[j] == cur && old(labels)@[j] == 0 && j >= seed && connected(
                    active@,
                    w as int,
                    seed as int,
                    j,
                )
            },
        final(labels)@[seed as int] == cur,
{
    let n: usize = active.len();
    let ghost before = labels@;
    let mut stack: Vec<usize> = Vec::new();
    proof {
        lemma_connected_self(active@, w as int, seed as int);
    }
    labels.set(seed, cur);
    stack.push(seed);
    proof {
        assert(stack@[0] == seed);
    }
    while stack.len() > 0
        invariant
            n == w * h,
            active@.len() == n,
            seed < n,
            cur > 0,
            before.len() == n,
            labels@.len() == n,
            forall|j: int| 0 <= j < seed && active@[j] ==> #[trigger] before[j] > 0,
            labels@[seed as int] == cur,
            settled(active@, w as int, labels@, cur as int),
            forall|k: int| 0 <= k < stack@.len() ==> #[trigger] stack@[k] < n,
            forall|k: int| 0 <= k < stack@.len() ==> labels@[(#[trigger] stack@[k]) as int] == cur,
            forall|j: int|
                0 <= j < n ==> {
                    ||| #[trigger] labels@[j] == before[j] && labels@[j] < cur
                    ||| labels@[j] == cur && before[j] == 0 && j >= seed && connected(
                        active@,
                        w as int,
                        seed as int,
                        j,
                    )
                },
            forall|j: int, k: int|
                #![trigger labels@[j], labels@[k]]
                0 <= j < n && 0 <= k < n && labels@[j] == cur && active@[k] && touching(
                    w as int,
                    j,
                    k,
                ) && !stack@.contains(j as usize) ==> labels@[k] == cur,
        decreases unlabelled(labels@), stack@.len(),
    {
        let ghost held = stack@;
        let c: usize = stack.pop().unwrap();
        proof {
            assert(held.last() == c);
            assert(labels@[held[held.len() - 1] as int] == cur);
            lemma_position(w as int, h as int, c as int);
        }
        let ghost entry = labels@;
        proof {
            assert forall|a: int, b: int|
                #![trigger labels@[a], labels@[b]]
                0 <= a < n && 0 <= b < n && labels@[a] == cur && active@[b] && touching(
                    w as int,
                    a,
                    b,
                ) && a != c && !stack@.contains(a as usize) implies labels@[b] == cur by {
                if held.contains(a as usize) {
                    let z = choose|z: int| 0 <= z < held.len() && held[z] == a as usize;
                    assert(stack@[z] == a as usize);
                }
            }
        }
        let cx: usize = c % w;
        let cy: usize = c / w;
        let y0: usize = if cy > 0 {
            cy - 1
        } else {
            0
        };
        let y1: usize = if cy + 1 < h {
            cy + 2
        } else {
            h
        };
        let x0: usize = if cx > 0 {
            cx - 1
        } else {
            0
        };
        let x1: usize = if cx + 1 < w {
            cx + 2
        } else {
            w
        };
        let mut y: usize = y0;
        while y < y1
            invariant
                n == w * h,
                active@.len() == n,
                seed < n,
                cur > 0,
                before.len() == n,
                labels@.len() == n,
                entry.len() == n,
                c < n,
                cx == c as int % w as int,
                cy == c as int / w as int,
                y0 == (if cy > 0 {
                    cy - 1
                } else {
                    0
                }),
                y1 == (if cy + 1 < h {
                    cy + 2
                } else {
                    h as int
                }),
                x0 == (if cx > 0 {
                    cx - 1
                } else {
                    0
                }),
                x1 == (if cx + 1 < w {
                    cx + 2
                } else {
                    w as int
                }),
                y0 <= y <= y1 <= h,
                labels@[c as int] == cur,
                labels@[seed as int] == cur,
                forall|j: int| 0 <= j < seed && active@[j] ==> #[trigger] before[j] > 0,
                settled(active@, w as int, labels@, cur as int),
                forall|k: int| 0 <= k < stack@.len() ==> #[trigger] stack@[k] < n,
                forall|k: int|
                    0 <= k < stack@.len() ==> labels@[(#[trigger] stack@[k]) as int] == cur,
                forall|j: int|
                    0 <= j < n ==> {
                        ||| #[trigger] labels@[j] == before[j] && labels@[j] < cur
                        ||| labels@[j] == cur && before[j] == 0 && j >= seed && connected(
                            active@,
                            w as int,
                            seed as int,
                            j,
                        )
                    },
                forall|j: int, k: int|
                    #![trigger labels@[j], labels@[k]]
                    0 <= j < n && 0 <= k < n && labels@[j] == cur && active@[k] && touching(
                        w as int,
                        j,
                        k,
                    ) && j != c && !stack@.contains(j as usize) ==> labels@[k] == cur,
                forall|k: int|
                    0 <= k < n && active@[k] && touching(w as int, c as int, k) && (k / w as int)
                        < y ==> #[trigger] labels@[k] == cur,
                unlabelled(labels@) <= unlabelled(entry),
                unlabelled(labels@) == unlabelled(entry) ==> stack@.len() < held.len(),
            decreases y1 - y,
        {
            let mut x: usize = x0;
            while x < x1
                invariant
                    n == w * h,
                    active@.len() == n,
                    seed < n,
                    cur > 0,
                    before.len() == n,
                    labels@.len() == n,
                    entry.len() == n,
                    c < n,
                    cx == c as int % w as int,
                    cy == c as int / w as int,
                    x0 == (if cx > 0 {
                        cx - 1
                    } else {
                        0
                    }),
                    x1 == (if cx + 1 < w {
                        cx + 2
                    } else {
                        w as int
                    }),
                    y < h,
                    -1 <= y - cy <= 1,
                    x0 <= x <= x1 <= w,
                    labels@[c as int] == cur,
                    labels@[seed as int] == cur,
                    forall|j: int| 0 <= j < seed && active@[j] ==> #[trigger] before[j] > 0,
                    settled(active@, w as int, labels@, cur as int),
                    forall|k: int| 0 <= k < stack@.len() ==> #[trigger] stack@[k] < n,
                    forall|k: int|
                        0 <= k < stack@.len() ==> labels@[(#[trigger] stack@[k]) as int] == cur,
                    forall|j: int|
                        0 <= j < n ==> {
                            ||| #[trigger] labels@[j] == before[j] && labels@[j] < cur
                            ||| labels@[j] == cur && before[j] == 0 && j >= seed && connected(
                                active@,
                                w as int,
                                seed as int,
                                j,
                            )
                        },
                    forall|j: int, k: int|
                        #![trigger labels@[j], labels@[k]]
                        0 <= j < n && 0 <= k < n && labels@[j] == cur && active@[k] && touching(
                            w as int,
                            j,
                            k,
                        ) && j != c && !stack@.contains(j as usize) ==> labels@[k] == cur,
                    forall|k: int|
                        0 <= k < n && active@[k] && touching(w as int, c as int, k) && (k
                            / w as int) < y ==> #[trigger] labels@[k] == cur,
                    forall|k: int|
                        0 <= k < n && active@[k] && touching(w as int, c as int, k) && k / w as int
                            == y && (k % w as int) < x ==> #[trigger] labels@[k] == cur,
                    unlabelled(labels@) <= unlabelled(entry),
                    unlabelled(labels@) == unlabelled(entry) ==> stack@.len() < held.len(),
                decreases x1 - x,
            {
                proof {
                    lemma_cell(w as int, h as int, x as int, y as int);
                }
                let k: usize = y * w + x;
                let ghost prior = labels@;
                let ghost waiting = stack@;
                proof {
                    assert(touching(w as int, c as int, k as int));
                    lemma_touching_symmetric(w as int, c as int, k as int);
                    if active@[k as int] && prior[k as int] != 0 {
                        assert(prior[c as int] == cur);
                        assert(prior[k as int] == cur);
                    }
                }
                if active[k] && labels[k] == 0 {
                    proof {
                        lemma_connected_step(
                            active@,
                            w as int,
                            seed as int,
                            c as int,
                            k as int,
                        );
                        lemma_unlabelled_update(labels@, k as int, cur);
                        assert(before[k as int] == 0);
                        assert(k >= seed);
                    }
                    labels.set(k, cur);
                    stack.push(k);
                    proof {
                        assert forall|v: usize| #[trigger] waiting.contains(v) implies stack@.contains(v) by {
                            let z = choose|z: int| 0 <= z < waiting.len() && waiting[z] == v;
                            assert(stack@[z] == v);
                        }
                        assert(stack@[waiting.len() as int] == k);
                        assert(stack@.contains(k));
                        assert(labels@ == prior.update(k as int, cur));
                        assert forall|a: int, b: int|
                            #![trigger labels@[a], labels@[b]]
                            0 <= a < n && 0 <= b < n && 0 < labels@[a] < cur && active@[b]
                                && touching(w as int, a, b) implies labels@[b] == labels@[a] by {
                            assert(prior[a] == labels@[a]);
                            assert(prior[b] == prior[a]);
                        }
                        assert forall|a: int, b: int|
                            #![trigger labels@[a], labels@[b]]
                            0 <= a < n && 0 <= b < n && labels@[a] == cur && active@[b] && touching(
                                w as int,
                                a,
                                b,
                            ) && a != c && !stack@.contains(a as usize) implies labels@[b] == cur by {
                            assert(a != k);
                            assert(!waiting.contains(a as usize));
                            assert(prior[a] == cur);
                            if b != k {
                                assert(prior[b] == cur);
                            }
                        }
                    }
                }
                proof {
                    assert forall|m: int|
                        0 <= m < n && active@[m] && touching(w as int, c as int, m) && m / w as int
                            == y && (m % w as int) < x + 1 implies #[trigger] labels@[m] == cur by {
                        lemma_position(w as int, h as int, m);
                        if m % w as int == x {
                            assert(m == k);
                        } else {
                            assert(prior[m] == cur);
                        }
                    }
                }
                x = x + 1;
            }
            y = y + 1;
        }
        proof {
            assert forall|j: int, k: int|
                #![trigger labels@[j], labels@[k]]
                0 <= j < n && 0 <= k < n && labels@[j] == cur && active@[k] && touching(
                    w as int,
                    j,
                    k,
                ) && !stack@.contains(j as usize) implies labels@[k] == cur by {
                if j == c {
                    lemma_position(w as int, h as int, k);
                }
            }
        }
    }
    proof {
        assert forall|j: int, k: int|
            #![trigger labels@[j], labels@[k]]
            0 <= j < active@.len() && 0 <= k < active@.len() && 0 < labels@[j] < cur + 1
                && active@[k] && touching(w as int, j, k) implies labels@[k] == labels@[j] by {
            assert(!stack@.contains(j as usize));
        }
    }
}

/// Every smaller label stands no later than a given one.
proof fn lemma_labels_below(labels: Seq<usize>, i: int, u: int)
    requires
        0 <= i < labels.len(),
        forall|j: int|
            0 <= j < labels.len() && #[trigger] labels[j] > 1 ==> occurs_before(
                labels,
                j,
                labels[j] - 1,
            ),
        1 <= u < labels[i],
    ensures
        occurs_before(labels, i, u),
    decreases labels[i],
{
    assert(occurs_before(labels, i, labels[i] - 1));
    let j = choose|j: int| 0 <= j < i && #[trigger] labels[j] == labels[i] - 1;
    if labels[j] != u {
        lemma_labels_below(labels, j, u);
        let k = choose|k: int| 0 <= k < j && #[trigger] labels[k] == u;
        assert(labels[k] == u);
    }
}

proof fn lemma_labelled_agree(active: Seq<bool>, w: int, a: Seq<usize>, b: Seq<usize>, i: int)
    requires
        labelled(active, w, a),
        labelled(active, w, b),
        0 <= i < active.len(),
        forall|j: int| 0 <= j < i ==> a[j] == b[j],
    ensures
        a[i] <= b[i],
{
    if a[i] > b[i] {
        assert(active[i]);
        assert(b[i] > 0);
        lemma_labels_below(a, i, b[i] as int);
        let j = choose|j: int| 0 <= j < i && #[trigger] a[j] == b[i];
        assert(b[j] == b[i]);
        assert(active[j]) by {
            assert(a[j] > 0);
        }
        assert(connected(active, w, j, i));
        assert(a[j] == a[i]);
    }
}

/// A grid has one labelling.
pub proof fn lemma_labelled_unique(active: Seq<bool>, w: int, a: Seq<usize>, b: Seq<usize>)
    requires
        labelled(active, w, a),
        labelled(active, w, b),
    ensures
        a == b,
{
    assert forall|i: int| 0 <= i < active.len() implies a[i] == b[i] by {
        lemma_labelled_prefix(active, w, a, b, i);
    }
    assert(a =~= b);
}

proof fn lemma_labelled_prefix(active: Seq<bool>, w: int, a: Seq<usize>, b: Seq<usize>, i: int)
    requires
        labelled(active, w, a),
        labelled(active, w, b),
        0 <= i < active.len(),
    ensures
        forall|j: int| 0 <= j <= i ==> a[j] == b[j],
    decreases i,
{
    if i > 0 {
        lemma_labelled_prefix(active, w, a, b, i - 1);
    }
    lemma_labelled_agree(active, w, a, b, i);
    lemma_labelled_agree(active, w, b, a, i);
}

/// Two descriptions of the same cells are equal.
proof fn lemma_describes_unique(labels: Seq<usize>, w: int, k: int, a: Component, b: Component)
    requires
        describes(labels, w, k, a),
        describes(labels, w, k, b),
    ensures
        a == b,
{
    let n = labels.len() as int;
    let a1 = choose|i: int| 0 <= i < n && #[trigger] labels[i] == k && i % w == a.x1;
    let a2 = choose|i: int| 0 <= i < n && #[trigger] labels[i] == k && i / w == a.y1;
    let a3 = choose|i: int| 0 <= i < n && #[trigger] labels[i] == k && i % w + 1 == a.x2;
    let a4 = choose|i: int| 0 <= i < n && #[trigger] labels[i] == k && i / w + 1 == a.y2;
    let b1 = choose|i: int| 0 <= i < n && #[trigger] labels[i] == k && i % w == b.x1;
    let b2 = choose|i: int| 0 <= i < n && #[trigger] labels[i] == k && i / w == b.y1;
    let b3 = choose|i: int| 0 <= i < n && #[trigger] labels[i] == k && i % w + 1 == b.x2;
    let b4 = choose|i: int| 0 <= i < n && #[trigger] labels[i] == k && i / w + 1 == b.y2;
    assert(labels[a1] == k && labels[a2] == k && labels[a3] == k && labels[a4] == k);
    assert(labels[b1] == k && labels[b2] == k && labels[b3] == k && labels[b4] == k);
}

/// A grid has one list of components.
pub proof fn lemma_components_unique(
    labels: Seq<usize>,
    w: int,
    a: Seq<Component>,
    b: Seq<Component>,
)
    requires
        are_components(labels, w, a),
        are_components(labels, w, b),
    ensures
        a == b,
{
    if a.len() > 0 {
        let i = choose|i: int| 0 <= i < labels.len() && #[trigger] labels[i] == a.len();
        assert(labels[i] <= b.len());
    }
    if b.len() > 0 {
        let i = choose|i: int| 0 <= i < labels.len() && #[trigger] labels[i] == b.len();
        assert(labels[i] <= a.len());
    }
    assert forall|k: int| 0 <= k < a.len() implies a[k] == b[k] by {
        lemma_describes_unique(labels, w, k + 1, a[k], b[k]);
    }
    assert(a =~= b);
}

/// Labels the components of a grid; also returns how many there are.
fn label(active: &[bool], w: usize, h: usize) -> (r: (Vec<usize>, usize))
    requires
        active@.len() == w * h,
    ensures
        labelled(active@, w as int, r.0@),
        r.0@ == labelling(active@, w as int),
        is_count(r.0@, r.1 as int),
        r.1 <= active@.len(),
{
    let n: usize = active.len();
    let mut labels: Vec<usize> = vec![0; n];
    let mut cur: usize = 0;
    let mut i: usize = 0;
    let ghost mut firsts: Seq<int> = seq![];
    while i < n
        invariant
            i <= n,
            n == w * h,
            active@.len() == n,
            cur <= i,
            settled(active@, w as int, labels@, cur + 1),
            firsts.len() == cur,
            forall|k: int|
                0 <= k < cur ==> 0 <= #[trigger] firsts[k] < i && labels@[firsts[k]] == k + 1,
            forall|k: int, m: int|
                #![trigger firsts[k], firsts[m]]
                0 <= k < m < cur ==> firsts[k] < firsts[m],
            forall|j: int| 0 <= j < n ==> #[trigger] labels@[j] <= cur,
            forall|j: int| 0 <= j < i && active@[j] ==> #[trigger] labels@[j] > 0,
            forall|j: int|
                0 <= j < n && #[trigger] labels@[j] > 0 ==> j >= firsts[labels@[j] - 1]
                    && connected(active@, w as int, firsts[labels@[j] - 1], j),
        decreases n - i,
    {
        if active[i] && labels[i] == 0 {
            let ghost prior = labels@;
            let ghost known = firsts;
            cur = cur + 1;
            flood(active, w, h, &mut labels, i, cur);
            proof {
                firsts = firsts.push(i as int);
                assert forall|k: int| 0 <= k < cur implies 0 <= #[trigger] firsts[k] < i + 1
                    && labels@[firsts[k]] == k + 1 by {
                    if k < cur - 1 {
                        assert(firsts[k] == known[k]);
                        assert(prior[known[k]] == k + 1);
                        assert(labels@[known[k]] == prior[known[k]]);
                    }
                }
                assert forall|j: int| 0 <= j < n && #[trigger] labels@[j] > 0 implies j
                    >= firsts[labels@[j] - 1] && connected(
                    active@,
                    w as int,
                    firsts[labels@[j] - 1],
                    j,
                ) by {
                    if labels@[j] < cur {
                        assert(prior[j] == labels@[j]);
                        assert(firsts[labels@[j] - 1] == known[labels@[j] - 1]);
                    }
                }
                assert forall|j: int| 0 <= j < i + 1 && active@[j] implies #[trigger] labels@[j]
                    > 0 by {
                    if j < i {
                        assert(prior[j] > 0);
                    }
                }
            }
        }
        i = i + 1;
    }
    proof {
        assert forall|a: int, b: int|
            #![trigger labels@[a], labels@[b]]
            0 <= a < n && 0 <= b < n && active@[a] && active@[b] implies (labels@[a] == labels@[b]
            <==> connected(active@, w as int, a, b)) by {
            if labels@[a] == labels@[b] {
                let f = firsts[labels@[a] - 1];
                lemma_connected_flip(active@, w as int, f, a);
                lemma_connected_chain(active@, w as int, a, f, b);
            }
            if connected(active@, w as int, a, b) {
                let p = choose|p: Seq<int>|
                    #[trigger] is_walk(active@, w as int, p) && p[0] == a && p.last() == b;
                lemma_walk_label(active@, w as int, labels@, p, p.len() - 1);
            }
        }
        assert forall|j: int| 0 <= j < n && #[trigger] labels@[j] > 1 implies occurs_before(
            labels@,
            j,
            labels@[j] - 1,
        ) by {
            let k = labels@[j] - 1;
            assert(firsts[k - 1] < firsts[k]);
            assert(labels@[firsts[k - 1]] == k);
        }
        assert(labelled(active@, w as int, labels@));
        let chosen = labelling(active@, w as int);
        assert(labelled(active@, w as int, chosen));
        lemma_labelled_unique(active@, w as int, labels@, chosen);
        if cur > 0 {
            assert(labels@[firsts[cur - 1]] == cur);
        }
    }
    (labels, cur)
}

/// The labels of a grid and the description of its components.
pub struct Labelling {
    pub labels: Vec<usize>,
    pub parts: Vec<Component>,
}

/// Labels the components of a grid and describes each of them.
pub fn label_components(active: &[bool], w: usize, h: usize) -> (r: Labelling)
    requires
        active@.len() == w * h,
    ensures
        labelled(active@, w as int, r.labels@),
        r.labels@ == labelling(active@, w as int),
        are_components(r.labels@, w as int, r.parts@),
        r.parts@ == components(active@, w as int),
        r.parts@.len() <= active@.len(),
        forall|k: int|
            0 <= k < r.parts@.len() ==> within_grid(w as int, h as int, #[trigger] r.parts@[k]),
{
    let n: usize = active.len();
    let (labels, count) = label(active, w, h);
    let mut parts: Vec<Component> = Vec::new();
    let mut k: usize = 0;
    while k < count
        invariant
            n == w * h,
            labels@.len() == n,
            k <= count,
            count <= n,
            is_count(labels@, count as int),
            parts@.len() == k,
            forall|j: int|
                0 <= j < k ==> #[trigger] parts@[j] == (Component {
                    x1: w,
                    y1: h,
                    x2: 0,
                    y2: 0,
                    area: 0,
                }),
        decreases count - k,
    {
        parts.push(Component { x1: w, y1: h, x2: 0, y2: 0, area: 0 });
        k = k + 1;
    }
    let mut i: usize = 0;
    while i < n
        invariant
            n == w * h,
            labels@.len() == n,
            i <= n,
            parts@.len() == count,
            is_count(labels@, count as int),
            forall|k: int|
                0 <= k < count ==> gathered(
                    labels@,
                    w as int,
                    h as int,
                    k + 1,
                    i as int,
                    #[trigger] parts@[k],
                ),
        decreases n - i,
    {
        proof {
            lemma_position(w as int, h as int, i as int);
        }
        let x: usize = i % w;
        let y: usize = i / w;
        let v: usize = labels[i];
        let ghost prior = parts@;
        if v > 0 {
            let c: Component = parts[v - 1];
            proof {
                assert(gathered(labels@, w as int, h as int, v as int, i as int, c)) by {
                    assert(prior[v - 1] == c);
                }
            }
            let next = Component {
                x1: if x < c.x1 {
                    x
                } else {
                    c.x1
                },
                y1: if y < c.y1 {
                    y
                } else {
                    c.y1
                },
                x2: if x + 1 > c.x2 {
                    x + 1
                } else {
                    c.x2
                },
                y2: if y + 1 > c.y2 {
                    y + 1
                } else {
                    c.y2
                },
                area: c.area + 1,
            };
            parts.set(v - 1, next);
            proof {
                lemma_gathered_hit(labels@, w as int, h as int, v as int, i as int, c, next);
            }
        }
        proof {
            assert forall|k: int| 0 <= k < count implies gathered(
                labels@,
                w as int,
                h as int,
                k + 1,
                i + 1,
                #[trigger] parts@[k],
            ) by {
                if k + 1 != v {
                    assert(parts@[k] == prior[k]);
                    lemma_gathered_miss(labels@, w as int, h as int, k + 1, i as int, prior[k]);
                }
            }
        }
        i = i + 1;
    }
    proof {
        assert forall|k: int| 0 <= k < parts@.len() implies describes(
            labels@,
            w as int,
            k + 1,
            #[trigger] parts@[k],
        ) && within_grid(w as int, h as int, parts@[k]) by {
            lemma_label_present(labels@, active@, w as int, count as int, k + 1);
            let j = choose|j: int| 0 <= j < labels@.len() && #[trigger] labels@[j] == k + 1;
            lemma_position(w as int, h as int, j);
            assert(gathered(labels@, w as int, h as int, k + 1, n as int, parts@[k]));
            assert(labels@[j] == k + 1);
            lemma_tally_bound(labels@, k + 1, n as int);
            lemma_tally_positive(labels@, k + 1, n as int, j);
        }
        assert(are_components(labels@, w as int, parts@));
        let chosen = components(active@, w as int);
        assert(are_components(labelling(active@, w as int), w as int, chosen));
        lemma_components_unique(labels@, w as int, parts@, chosen);
    }
    Labelling { labels, parts }
}

/// Describes the components of a grid.
pub fn parts_of(active: &[bool], w: usize, h: usize) -> (r: Vec<Component>)
    requires
        active@.len() == w * h,
    ensures
        r@ == components(active@, w as int),
        r@.len() <= active@.len(),
        forall|k: int| 0 <= k < r@.len() ==> within_grid(w as int, h as int, #[trigger] r@[k]),
{
    label_components(active, w, h).parts
}

/// Labels the components of a grid.
pub fn labels_of(active: &[bool], w: usize, h: usize) -> (r: Labelling)
    requires
        active@.len() == w * h,
    ensures
        r.labels@ == labelling(active@, w as int),
        r.labels@.len() == active@.len(),
        r.parts@ == components(active@, w as int),
        r.parts@.len() <= active@.len(),
        is_count(r.labels@, r.parts@.len() as int),
        forall|k: int| 0 <= k < r.parts@.len() ==> (#[trigger] r.parts@[k]).area >= 1,
{
    let r = label_components(active, w, h);
    proof {
        assert forall|k: int| 0 <= k < r.parts@.len() implies (#[trigger] r.parts@[k]).area >= 1 by {
            assert(within_grid(w as int, h as int, r.parts@[k]));
        }
    }
    r
}

/// What the first `n` positions tell of the label `k`.
spec fn gathered(labels: Seq<usize>, w: int, h: int, k: int, n: int, c: Component) -> bool {
    &&& c.area == tally(labels, k, n)
    &&& 0 <= c.area <= n
    &&& c.x1 <= w
    &&& c.y1 <= h
    &&& c.x2 <= w
    &&& c.y2 <= h
    &&& (exists|i: int| 0 <= i < n && #[trigger] labels[i] == k) ==> is_hull(labels, w, k, n, c)
    &&& !(exists|i: int| 0 <= i < n && #[trigger] labels[i] == k) ==> c.x1 == w && c.y1 == h && c.x2
        == 0 && c.y2 == 0
}

proof fn lemma_gathered_miss(labels: Seq<usize>, w: int, h: int, k: int, n: int, c: Component)
    requires
        gathered(labels, w, h, k, n, c),
        0 <= n < labels.len(),
        labels[n] != k,
    ensures
        gathered(labels, w, h, k, n + 1, c),
{
    if exists|i: int| 0 <= i < n + 1 && #[trigger] labels[i] == k {
        let i = choose|i: int| 0 <= i < n + 1 && #[trigger] labels[i] == k;
        assert(0 <= i < n && labels[i] == k);
        assert(is_hull(labels, w, k, n, c));
    }
}

proof fn lemma_gathered_hit(
    labels: Seq<usize>,
    w: int,
    h: int,
    k: int,
    n: int,
    c: Component,
    d: Component,
)
    requires
        gathered(labels, w, h, k, n, c),
        0 <= n < labels.len(),
        labels.len() == w * h,
        0 <= w,
        0 <= h,
        labels[n] == k,
        d.x1 == if n % w < c.x1 {
            n % w
        } else {
            c.x1 as int
        },
        d.y1 == if n / w < c.y1 {
            n / w
        } else {
            c.y1 as int
        },
        d.x2 == if n % w + 1 > c.x2 {
            n % w + 1
        } else {
            c.x2 as int
        },
        d.y2 == if n / w + 1 > c.y2 {
            n / w + 1
        } else {
            c.y2 as int
        },
        d.area == c.area + 1,
    ensures
        gathered(labels, w, h, k, n + 1, d),
{
    lemma_position(w, h, n);
    assert(labels[n] == k);
    if exists|i: int| 0 <= i < n && #[trigger] labels[i] == k {
        assert(is_hull(labels, w, k, n, c));
        let a1 = choose|i: int| 0 <= i < n && #[trigger] labels[i] == k && i % w == c.x1;
        let a2 = choose|i: int| 0 <= i < n && #[trigger] labels[i] == k && i / w == c.y1;
        let a3 = choose|i: int| 0 <= i < n && #[trigger] labels[i] == k && i % w + 1 == c.x2;
        let a4 = choose|i: int| 0 <= i < n && #[trigger] labels[i] == k && i / w + 1 == c.y2;
        assert(labels[a1] == k && labels[a2] == k && labels[a3] == k && labels[a4] == k);
    }
    assert(is_hull(labels, w, k, n + 1, d));
}

proof fn lemma_label_present(labels: Seq<usize>, active: Seq<bool>, w: int, count: int, k: int)
    requires
        labelled(active, w, labels),
        is_count(labels, count),
        1 <= k <= count,
    ensures
        exists|i: int| 0 <= i < labels.len() && #[trigger] labels[i] == k,
{
    let i = choose|i: int| 0 <= i < labels.len() && #[trigger] labels[i] == count;
    if k < count {
        lemma_labels_below(labels, i, k);
        let j = choose|j: int| 0 <= j < i && #[trigger] labels[j] == k;
        assert(labels[j] == k);
    }
}

proof fn lemma_tally_bound(labels: Seq<usize>, k: int, n: int)
    requires
        0 <= n <= labels.len(),
    ensures
        0 <= tally(labels, k, n) <= n,
    decreases n,
{
    if n > 0 {
        lemma_tally_bound(labels, k, n - 1);
    }
}

proof fn lemma_tally_positive(labels: Seq<usize>, k: int, n: int, i: int)
    requires
        0 <= i < n <= labels.len(),
        labels[i] == k,
    ensures
        tally(labels, k, n) >= 1,
    decreases n,
{
    lemma_tally_bound(labels, k, n - 1);
    if i < n - 1 {
        lemma_tally_positive(labels, k, n - 1, i);
    }
}

} // verus!
