//! The two flood-fill passes: discovery of the regions that open edges join,
//! then their renumbering into dense tile IDs with their neighbor sets.

use vstd::prelude::*;
use vstd::set_lib::*;
use crate::grid::{
    adjacent, edge_is_open, lemma_adjacent_symmetric, lemma_open_edge_back, lemma_step_back, next_cell, open_edge,
    opposite, step, walls_shaped, walls_view,
};

verus! {

/// Every cell of the labelling that was 0 is still 0 or now holds `k`;
/// every other cell keeps its label.
pub open spec fn only_zeros_took(old_labels: Seq<usize>, labels: Seq<usize>, k: usize) -> bool {
    &&& labels.len() == old_labels.len()
    &&& forall|c: int|
        0 <= c < labels.len() ==> {
            &&& old_labels[c] != 0 ==> #[trigger] labels[c] == old_labels[c]
            &&& old_labels[c] == 0 ==> labels[c] == 0 || labels[c] == k
        }
}

/// Cell `c` hangs off its parent `par[c]`, which carries the same label:
/// either `c` is its own parent and the root of its label, or the parent is
/// adjacent to it and of smaller rank. Following parents from any cell thus
/// reaches the root of its label through cells of that label.
pub open spec fn linked_at(
    labels: Seq<usize>,
    par: Seq<int>,
    rank: Seq<int>,
    roots: Seq<int>,
    width: int,
    height: int,
    wrap: bool,
    c: int,
) -> bool {
    let p = par[c];
    &&& 0 <= p < labels.len()
    &&& labels[p] == labels[c]
    &&& labels[c] < roots.len()
    &&& rank[c] >= 0
    &&& p == c ==> roots[labels[c] as int] == c
    &&& p != c ==> rank[p] < rank[c] && adjacent(width, height, wrap, p, c)
}

/// Cells `a` and `b` share an edge without a wall.
pub open spec fn open_adjacent(
    width: int,
    height: int,
    wrap: bool,
    vertical: Seq<Seq<bool>>,
    horizontal: Seq<Seq<bool>>,
    a: int,
    b: int,
) -> bool {
    exists|d: int|
        0 <= d < 4 && #[trigger] step(width, height, wrap, a, d) == Some(b)
            && open_edge(width, height, vertical, horizontal, a, d)
}

/// Every cell that an open edge joins to `c` carries the label of `c`.
pub open spec fn open_closed(
    labels: Seq<usize>,
    width: int,
    height: int,
    wrap: bool,
    vertical: Seq<Seq<bool>>,
    horizontal: Seq<Seq<bool>>,
    c: int,
) -> bool {
    forall|d: int| 0 <= d < 4 ==> (#[trigger] step(width, height, wrap, c, d) matches Some(b) ==>
        (open_edge(width, height, vertical, horizontal, c, d) ==> labels[b] == labels[c]))
}

/// Every labelled cell that is not the root of its label hangs off its
/// parent across an open edge, and no labelled cell comes before its label's
/// root in row-major order.
pub open spec fn walled_forest(
    labels: Seq<usize>,
    par: Seq<int>,
    roots: Seq<int>,
    width: int,
    height: int,
    wrap: bool,
    vertical: Seq<Seq<bool>>,
    horizontal: Seq<Seq<bool>>,
) -> bool {
    forall|c: int| 0 <= c < labels.len() && #[trigger] labels[c] != 0 ==> {
        &&& par[c] != c ==> open_adjacent(width, height, wrap, vertical, horizontal, par[c], c)
        &&& roots[labels[c] as int] <= c
    }
}

/// Every cell whose label is at least `lo` hangs off its parent.
pub open spec fn linked(
    labels: Seq<usize>,
    par: Seq<int>,
    rank: Seq<int>,
    roots: Seq<int>,
    lo: int,
    width: int,
    height: int,
    wrap: bool,
) -> bool {
    &&& par.len() == labels.len()
    &&& rank.len() == labels.len()
    &&& forall|c: int|
        0 <= c < labels.len() && labels[c] >= lo ==> #[trigger] linked_at(labels, par, rank, roots, width, height, wrap, c)
}

/// No cell adjacent to `m` carries `label`.
pub open spec fn closed_to(labels: Seq<usize>, width: int, height: int, wrap: bool, m: int, label: usize) -> bool {
    forall|d: int| 0 <= d < 4 ==> (#[trigger] step(width, height, wrap, m, d) matches Some(b) ==> labels[b] != label)
}

/// No cell adjacent to `m` carries `from`, and each adjacent cell carries
/// `to` or a label listed in `met`.
pub open spec fn settled(
    labels: Seq<usize>,
    met: Seq<usize>,
    width: int,
    height: int,
    wrap: bool,
    m: int,
    from: usize,
    to: usize,
) -> bool {
    forall|d: int| 0 <= d < 4 ==> (#[trigger] step(width, height, wrap, m, d) matches Some(b) ==>
        labels[b] != from && (labels[b] == to || met.contains(labels[b])))
}

/// Some cell labelled `from` is adjacent to a cell labelled `l`.
pub open spec fn meets(labels: Seq<usize>, width: int, height: int, wrap: bool, from: int, l: int) -> bool {
    exists|a: int, d: int|
        0 <= a < labels.len() && 0 <= d < 4 && labels[a] == from
            && (#[trigger] step(width, height, wrap, a, d)) is Some
            && labels[step(width, height, wrap, a, d)->0] == l
}

/// A walk that moved `from` to `to` and stopped only where no cell of label
/// `from` was next to it has moved the root of `from`, once it moved `c`.
proof fn lemma_root_moved(
    start: Seq<usize>,
    labels: Seq<usize>,
    par: Seq<int>,
    rank: Seq<int>,
    roots: Seq<int>,
    from: usize,
    to: usize,
    width: int,
    height: int,
    wrap: bool,
    c: int,
)
    requires
        0 < width,
        0 < height,
        start.len() == width * height,
        linked(start, par, rank, roots, from as int, width, height, wrap),
        only_moved(start, labels, from, to),
        to != from,
        forall|m: int| 0 <= m < start.len() && start[m] == from && labels[m] == to ==>
            #[trigger] closed_to(labels, width, height, wrap, m, from),
        0 <= c < start.len(),
        start[c] == from,
        labels[c] == to,
    ensures
        labels[roots[from as int]] == to,
    decreases rank[c],
{
    assert(linked_at(start, par, rank, roots, width, height, wrap, c));
    let p = par[c];
    if p != c {
        lemma_adjacent_symmetric(width, height, wrap, p, c);
        let d = choose|d: int| 0 <= d < 4 && #[trigger] step(width, height, wrap, c, d) == Some(p);
        assert(closed_to(labels, width, height, wrap, c, from));
        assert(labels[p] != from);
        assert(linked_at(start, par, rank, roots, width, height, wrap, p));
        lemma_root_moved(start, labels, par, rank, roots, from, to, width, height, wrap, p);
    }
}

/// Once the root of `from` has moved, so has every cell of label `from`.
proof fn lemma_all_moved(
    start: Seq<usize>,
    labels: Seq<usize>,
    par: Seq<int>,
    rank: Seq<int>,
    roots: Seq<int>,
    from: usize,
    to: usize,
    width: int,
    height: int,
    wrap: bool,
    c: int,
)
    requires
        0 < width,
        0 < height,
        start.len() == width * height,
        linked(start, par, rank, roots, from as int, width, height, wrap),
        only_moved(start, labels, from, to),
        to != from,
        forall|m: int| 0 <= m < start.len() && start[m] == from && labels[m] == to ==>
            #[trigger] closed_to(labels, width, height, wrap, m, from),
        0 <= c < start.len(),
        start[c] == from,
        labels[roots[from as int]] == to,
    ensures
        labels[c] == to,
    decreases rank[c],
{
    assert(linked_at(start, par, rank, roots, width, height, wrap, c));
    let p = par[c];
    if p != c {
        assert(linked_at(start, par, rank, roots, width, height, wrap, p));
        lemma_all_moved(start, labels, par, rank, roots, from, to, width, height, wrap, p);
        let d = choose|d: int| 0 <= d < 4 && #[trigger] step(width, height, wrap, p, d) == Some(c);
        assert(closed_to(labels, width, height, wrap, p, from));
    }
}

/// A set of indices below `n` is finite and has at most `n` members.
proof fn lemma_bounded_set(s: Set<int>, n: int)
    requires
        0 <= n,
        forall|c: int| s.contains(c) ==> 0 <= c < n,
    ensures
        s.finite(),
        s.len() <= n,
{
    lemma_int_range(0, n);
    assert(s.subset_of(set_int_range(0, n)));
    vstd::set_lib::lemma_len_subset(s, set_int_range(0, n));
}

/// Some entry of the stack is `m`.
pub open spec fn stack_holds(stack: Seq<usize>, m: int) -> bool {
    exists|j: int| 0 <= j < stack.len() && stack[j] == m
}

/// Labels with `k` every unlabelled cell that open edges join to `seed`,
/// by depth-first search over an explicit stack. Each cell labelled hangs
/// off the cell it was reached from, and `seed` is the root of `k`.
fn fill_region(
    labels: &mut Vec<usize>,
    seed: usize,
    k: usize,
    width: usize,
    height: usize,
    wrap: bool,
    vertical: &Vec<Vec<bool>>,
    horizontal: &Vec<Vec<bool>>,
    Ghost(par0): Ghost<Seq<int>>,
    Ghost(rank0): Ghost<Seq<int>>,
    Ghost(roots): Ghost<Seq<int>>,
    Ghost(tick0): Ghost<int>,
) -> (g: Ghost<(Seq<int>, Seq<int>, int)>)
    requires
        0 < width,
        0 < height,
        width * height <= usize::MAX,
        old(labels)@.len() == width * height,
        seed < width * height,
        old(labels)@[seed as int] == 0,
        k >= 1,
        walls_shaped(width as int, height as int, wrap, walls_view(vertical), walls_view(horizontal)),
        linked(old(labels)@, par0, rank0, roots, 1, width as int, height as int, wrap),
        k < roots.len(),
        roots[k as int] == seed,
        tick0 >= 0,
        forall|c: int| 0 <= c < old(labels)@.len() && #[trigger] old(labels)@[c] != 0 ==> rank0[c] < tick0,
        forall|c: int| 0 <= c < seed ==> #[trigger] old(labels)@[c] != 0,
        forall|c: int| 0 <= c < old(labels)@.len() && #[trigger] old(labels)@[c] != 0 ==>
            open_closed(old(labels)@, width as int, height as int, wrap, walls_view(vertical), walls_view(horizontal), c),
        walled_forest(old(labels)@, par0, roots, width as int, height as int, wrap, walls_view(vertical), walls_view(horizontal)),
    ensures
        only_zeros_took(old(labels)@, final(labels)@, k),
        final(labels)@[seed as int] == k,
        linked(final(labels)@, g@.0, g@.1, roots, 1, width as int, height as int, wrap),
        g@.2 >= tick0,
        forall|c: int| 0 <= c < final(labels)@.len() && #[trigger] final(labels)@[c] != 0 ==> g@.1[c] < g@.2,
        forall|c: int| 0 <= c < final(labels)@.len() && #[trigger] final(labels)@[c] != 0 ==>
            open_closed(final(labels)@, width as int, height as int, wrap, walls_view(vertical), walls_view(horizontal), c),
        walled_forest(final(labels)@, g@.0, roots, width as int, height as int, wrap, walls_view(vertical), walls_view(horizontal)),
{
    let ghost vw = walls_view(vertical);
    let ghost hw = walls_view(horizontal);
    let n = width * height;
    let ghost start = labels@;
    let ghost w = width as int;
    let ghost h = height as int;
    labels.set(seed, k);
    let ghost mut par = par0.update(seed as int, seed as int);
    let ghost mut rank = rank0.update(seed as int, tick0);
    let ghost mut tick = tick0 + 1;
    proof {
        assert forall|c: int| 0 <= c < labels@.len() && labels@[c] >= 1 implies
            #[trigger] linked_at(labels@, par, rank, roots, w, h, wrap, c) by {
            if c != seed {
                assert(linked_at(start, par0, rank0, roots, w, h, wrap, c));
            }
        }
        assert forall|m: int| 0 <= m < n && #[trigger] labels@[m] != 0 implies
            stack_holds(seq![seed], m) || open_closed(labels@, w, h, wrap, vw, hw, m) by {
            if m != seed {
                assert(open_closed(start, w, h, wrap, vw, hw, m));
                assert forall|dd: int| 0 <= dd < 4 implies (#[trigger] step(w, h, wrap, m, dd) matches Some(b) ==>
                    (open_edge(w, h, vw, hw, m, dd) ==> labels@[b] == labels@[m])) by {
                    crate::grid::lemma_step_in_range(w, h, wrap, m, dd);
                }
            } else {
                assert(seq![seed][0] == seed);
            }
        }
    }
    let mut stack: Vec<usize> = Vec::new();
    stack.push(seed);
    let ghost mut filled: Set<int> = set![seed as int];
    proof {
        lemma_bounded_set(filled, n as int);
    }
    while stack.len() > 0
        invariant
            0 < width,
            0 < height,
            n == width * height,
            w == width,
            h == height,
            labels@.len() == n,
            start.len() == n,
            k >= 1,
            walls_shaped(width as int, height as int, wrap, walls_view(vertical), walls_view(horizontal)),
            forall|i: int| 0 <= i < stack@.len() ==> #[trigger] stack@[i] < n && labels@[stack@[i] as int] == k,
            filled.finite(),
            filled.len() <= n,
            forall|c: int| 0 <= c < n ==> (#[trigger] filled.contains(c) <==> (start[c] == 0 && labels@[c] == k)),
            forall|c: int| filled.contains(c) ==> 0 <= c < n,
            only_zeros_took(start, labels@, k),
            seed < n,
            labels@[seed as int] == k,
            linked(labels@, par, rank, roots, 1, w, h, wrap),
            k < roots.len(),
            tick0 >= 0,
            tick >= tick0,
            forall|c: int| 0 <= c < n && #[trigger] labels@[c] != 0 ==> rank[c] < tick,
            vw == walls_view(vertical),
            hw == walls_view(horizontal),
            k < roots.len(),
            roots[k as int] == seed,
            forall|c: int| 0 <= c < seed ==> #[trigger] start[c] != 0,
            forall|m: int| 0 <= m < n && #[trigger] labels@[m] != 0 ==>
                stack_holds(stack@, m) || open_closed(labels@, w, h, wrap, vw, hw, m),
            walled_forest(labels@, par, roots, w, h, wrap, vw, hw),
        decreases 5 * (n - filled.len()) + stack@.len(),
    {
        let ghost measure = 5 * (n - filled.len()) + stack@.len();
        let ghost stack_before = stack@;
        let c = stack.pop().unwrap();
        proof {
            assert(labels@[c as int] == k);
            assert forall|m: int| 0 <= m < n && #[trigger] labels@[m] != 0 implies
                stack_holds(stack@, m) || open_closed(labels@, w, h, wrap, vw, hw, m) || m == c by {
                if stack_holds(stack_before, m) {
                    let j = choose|j: int| 0 <= j < stack_before.len() && stack_before[j] == m;
                    if j < stack@.len() {
                        assert(stack@[j] == stack_before[j]);
                    }
                }
            }
        }
        let mut d: usize = 0;
        while d < 4
            invariant
                0 < width,
                0 < height,
                n == width * height,
                w == width,
                h == height,
                c < n,
                labels@[c as int] == k,
                labels@.len() == n,
                start.len() == n,
                k >= 1,
                walls_shaped(width as int, height as int, wrap, walls_view(vertical), walls_view(horizontal)),
                forall|i: int| 0 <= i < stack@.len() ==> #[trigger] stack@[i] < n && labels@[stack@[i] as int] == k,
                filled.finite(),
                filled.len() <= n,
                forall|c: int| 0 <= c < n ==> (#[trigger] filled.contains(c) <==> (start[c] == 0 && labels@[c] == k)),
                forall|c: int| filled.contains(c) ==> 0 <= c < n,
                only_zeros_took(start, labels@, k),
                seed < n,
                labels@[seed as int] == k,
                linked(labels@, par, rank, roots, 1, w, h, wrap),
                k < roots.len(),
                tick0 >= 0,
                tick >= tick0,
                forall|c: int| 0 <= c < n && #[trigger] labels@[c] != 0 ==> rank[c] < tick,
                vw == walls_view(vertical),
                hw == walls_view(horizontal),
                k < roots.len(),
                roots[k as int] == seed,
                forall|c: int| 0 <= c < seed ==> #[trigger] start[c] != 0,
                forall|m: int| 0 <= m < n && #[trigger] labels@[m] != 0 ==>
                    stack_holds(stack@, m) || open_closed(labels@, w, h, wrap, vw, hw, m) || m == c,
                forall|e: int| 0 <= e < d ==> (#[trigger] step(w, h, wrap, c as int, e) matches Some(b) ==>
                    (open_edge(w, h, vw, hw, c as int, e) ==> labels@[b] == k)),
                walled_forest(labels@, par, roots, w, h, wrap, vw, hw),
                d <= 4,
                5 * (n - filled.len()) + stack@.len() < measure,
            decreases 4 - d,
        {
            if let Some(m) = next_cell(width, height, wrap, c, d) {
                proof {
                    crate::grid::lemma_step_in_range(w, h, wrap, c as int, d as int);
                }
                if edge_is_open(width, height, wrap, vertical, horizontal, c, d) {
                    if labels[m] == 0 {
                        proof {
                            assert(!filled.contains(m as int));
                            assert(m >= seed);
                        }
                        let ghost before = labels@;
                        let ghost par_before = par;
                        let ghost rank_before = rank;
                        let ghost stack_prev = stack@;
                        labels.set(m, k);
                        stack.push(m);
                        proof {
                            filled = filled.insert(m as int);
                            lemma_bounded_set(filled, n as int);
                            par = par.update(m as int, c as int);
                            rank = rank.update(m as int, tick);
                            assert(step(w, h, wrap, c as int, d as int) == Some(m as int));
                            assert forall|e: int| 0 <= e < labels@.len() && labels@[e] >= 1 implies
                                #[trigger] linked_at(labels@, par, rank, roots, w, h, wrap, e) by {
                                if e != m {
                                    assert(linked_at(before, par_before, rank_before, roots, w, h, wrap, e));
                                }
                            }
                            tick = tick + 1;
                            assert(open_adjacent(w, h, wrap, vw, hw, c as int, m as int));
                            assert(stack@[stack@.len() - 1] == m);
                            assert forall|e: int| 0 <= e < n && #[trigger] labels@[e] != 0 implies
                                stack_holds(stack@, e) || open_closed(labels@, w, h, wrap, vw, hw, e) || e == c by {
                                if e == m {
                                } else if stack_holds(stack_prev, e) {
                                    let j = choose|j: int| 0 <= j < stack_prev.len() && stack_prev[j] == e;
                                    assert(stack@[j] == stack_prev[j]);
                                } else if e != c {
                                    assert(open_closed(before, w, h, wrap, vw, hw, e));
                                    assert forall|dd: int| 0 <= dd < 4 implies (#[trigger] step(w, h, wrap, e, dd) matches Some(b) ==>
                                        (open_edge(w, h, vw, hw, e, dd) ==> labels@[b] == labels@[e])) by {
                                        crate::grid::lemma_step_in_range(w, h, wrap, e, dd);
                                    }
                                }
                            }
                            assert forall|e: int| 0 <= e < d + 1 implies (#[trigger] step(w, h, wrap, c as int, e) matches Some(b) ==>
                                (open_edge(w, h, vw, hw, c as int, e) ==> labels@[b] == k)) by {
                                crate::grid::lemma_step_in_range(w, h, wrap, c as int, e);
                            }
                        }
                    } else {
                        proof {
                            if !stack_holds(stack@, m as int) && m != c {
                                assert(open_closed(labels@, w, h, wrap, vw, hw, m as int));
                                lemma_step_back(w, h, wrap, c as int, d as int);
                                lemma_open_edge_back(w, h, wrap, vw, hw, c as int, d as int);
                                assert(step(w, h, wrap, m as int, opposite(d as int)) == Some(c as int));
                                assert(0 <= opposite(d as int) < 4);
                            }
                        }
                    }
                }
            }
            d = d + 1;
        }
    }
    proof {
        assert forall|m: int| 0 <= m < n && #[trigger] labels@[m] != 0 implies
            open_closed(labels@, w, h, wrap, vw, hw, m) by {
            assert(!stack_holds(stack@, m));
        }
    }
    Ghost((par, rank, tick))
}

/// Some cell carries label `k`.
pub open spec fn has_label(labels: Seq<usize>, k: int) -> bool {
    exists|c: int| 0 <= c < labels.len() && #[trigger] labels[c] == k
}

/// The cells of each label hang together: each reaches its label's root
/// through adjacent cells of that label.
pub open spec fn regions_connected(labels: Seq<usize>, width: int, height: int, wrap: bool) -> bool {
    exists|par: Seq<int>, rank: Seq<int>, roots: Seq<int>| #[trigger] linked(labels, par, rank, roots, 1, width, height, wrap)
}

/// The cells of each label hang together through open edges, and no cell
/// of a label comes before its root in row-major order.
pub open spec fn regions_open_connected(
    labels: Seq<usize>,
    width: int,
    height: int,
    wrap: bool,
    vertical: Seq<Seq<bool>>,
    horizontal: Seq<Seq<bool>>,
) -> bool {
    exists|par: Seq<int>, rank: Seq<int>, roots: Seq<int>|
        #[trigger] linked(labels, par, rank, roots, 1, width, height, wrap)
            && walled_forest(labels, par, roots, width, height, wrap, vertical, horizontal)
}

/// Cell `c`, unless it is its own parent, shares an open edge with its
/// parent.
pub open spec fn walled_at(
    par: Seq<int>,
    width: int,
    height: int,
    wrap: bool,
    vertical: Seq<Seq<bool>>,
    horizontal: Seq<Seq<bool>>,
    c: int,
) -> bool {
    par[c] != c ==> open_adjacent(width, height, wrap, vertical, horizontal, par[c], c)
}

/// The cells of each label, 0 included, hang together through open edges.
pub open spec fn tiles_connected(
    labels: Seq<usize>,
    width: int,
    height: int,
    wrap: bool,
    vertical: Seq<Seq<bool>>,
    horizontal: Seq<Seq<bool>>,
) -> bool {
    exists|par: Seq<int>, rank: Seq<int>, roots: Seq<int>|
        #[trigger] linked(labels, par, rank, roots, 0, width, height, wrap)
            && forall|c: int| 0 <= c < labels.len() ==> #[trigger] walled_at(par, width, height, wrap, vertical, horizontal, c)
}

/// Every cell holds a label in `1..=count`, and each of those labels is on
/// some cell.
pub open spec fn labelled(labels: Seq<usize>, count: usize) -> bool {
    &&& forall|c: int| 0 <= c < labels.len() ==> 1 <= #[trigger] labels[c] <= count
    &&& forall|k: int| 1 <= k <= count ==> #[trigger] has_label(labels, k)
}

/// Discovers the regions that open edges join: scanning the cells in
/// row-major order, each cell still unlabelled starts a new region, numbered
/// from 1 in order of discovery. Returns the labels and the region count.
pub fn label_regions(
    width: usize,
    height: usize,
    wrap: bool,
    vertical: &Vec<Vec<bool>>,
    horizontal: &Vec<Vec<bool>>,
) -> (r: (Vec<usize>, usize))
    requires
        0 < width,
        0 < height,
        width * height <= usize::MAX,
        walls_shaped(width as int, height as int, wrap, walls_view(vertical), walls_view(horizontal)),
    ensures
        r.0@.len() == width * height,
        1 <= r.1 <= width * height,
        labelled(r.0@, r.1),
        regions_connected(r.0@, width as int, height as int, wrap),
        regions_open_connected(r.0@, width as int, height as int, wrap, walls_view(vertical), walls_view(horizontal)),
        forall|c: int| 0 <= c < r.0@.len() ==>
            #[trigger] open_closed(r.0@, width as int, height as int, wrap, walls_view(vertical), walls_view(horizontal), c),
        forall|c: int| 0 <= c < r.0@.len() && #[trigger] r.0@[c] > 1 ==>
            exists|e: int| 0 <= e < c && #[trigger] r.0@[e] == r.0@[c] - 1,
{
    let n = width * height;
    let mut labels: Vec<usize> = Vec::new();
    let mut i: usize = 0;
    while i < n
        invariant
            i <= n,
            labels@.len() == i,
            forall|c: int| 0 <= c < i ==> #[trigger] labels@[c] == 0,
        decreases n - i,
    {
        labels.push(0);
        i = i + 1;
    }
    let mut count: usize = 0;
    let mut start: usize = 0;
    let ghost mut par: Seq<int> = Seq::new(n as nat, |c: int| c);
    let ghost mut rank: Seq<int> = Seq::new(n as nat, |c: int| 0);
    let ghost mut roots: Seq<int> = seq![0];
    let ghost mut tick: int = 0;
    while start < n
        invariant
            linked(labels@, par, rank, roots, 1, width as int, height as int, wrap),
            roots.len() == count + 1,
            tick >= 0,
            forall|c: int| 0 <= c < n && #[trigger] labels@[c] != 0 ==> rank[c] < tick,
            forall|c: int| 0 <= c < n && #[trigger] labels@[c] != 0 ==>
                open_closed(labels@, width as int, height as int, wrap, walls_view(vertical), walls_view(horizontal), c),
            walled_forest(labels@, par, roots, width as int, height as int, wrap, walls_view(vertical), walls_view(horizontal)),
            forall|k: int| 1 <= k <= count ==> 0 <= #[trigger] roots[k] < start && labels@[roots[k]] == k,
            forall|k1: int, k2: int| 1 <= k1 < k2 <= count ==> #[trigger] roots[k1] < #[trigger] roots[k2],
            0 < width,
            0 < height,
            n == width * height,
            start <= n,
            count <= start,
            labels@.len() == n,
            walls_shaped(width as int, height as int, wrap, walls_view(vertical), walls_view(horizontal)),
            forall|c: int| 0 <= c < start ==> #[trigger] labels@[c] != 0,
            forall|c: int| 0 <= c < n ==> #[trigger] labels@[c] <= count,
            forall|k: int| 1 <= k <= count ==> #[trigger] has_label(labels@, k),
        decreases n - start,
    {
        if labels[start] == 0 {
            count = count + 1;
            let ghost before = labels@;
            proof {
                let old_roots = roots;
                roots = roots.push(start as int);
                assert forall|c: int| 0 <= c < labels@.len() && labels@[c] >= 1 implies
                    #[trigger] linked_at(labels@, par, rank, roots, width as int, height as int, wrap, c) by {
                    assert(linked_at(labels@, par, rank, old_roots, width as int, height as int, wrap, c));
                }
                assert(walled_forest(labels@, par, roots, width as int, height as int, wrap, walls_view(vertical), walls_view(horizontal)));
            }
            let Ghost(g) = fill_region(
                &mut labels,
                start,
                count,
                width,
                height,
                wrap,
                vertical,
                horizontal,
                Ghost(par),
                Ghost(rank),
                Ghost(roots),
                Ghost(tick),
            );
            proof {
                par = g.0;
                rank = g.1;
                tick = g.2;
                assert forall|kk: int| 1 <= kk <= count implies 0 <= #[trigger] roots[kk] < start + 1 && labels@[roots[kk]] == kk by {
                    if kk < count {
                        assert(before[roots[kk]] == kk);
                    }
                }
                assert forall|k: int| 1 <= k <= count implies #[trigger] has_label(labels@, k) by {
                    if k < count {
                        assert(has_label(before, k));
                        let c = choose|c: int| 0 <= c < n && #[trigger] before[c] == k;
                        assert(labels@[c] == k);
                    } else {
                        assert(labels@[start as int] == k);
                    }
                }
                assert forall|c: int| 0 <= c < n implies #[trigger] labels@[c] <= count by {
                    assert(before[c] != 0 ==> labels@[c] == before[c]);
                }
            }
        }
        start = start + 1;
    }
    assert(n > 0) by (nonlinear_arith)
        requires
            n == width * height,
            width > 0,
            height > 0,
    ;
    assert(labels@[0] != 0);
    assert(linked(labels@, par, rank, roots, 1, width as int, height as int, wrap));
    assert(walled_forest(labels@, par, roots, width as int, height as int, wrap, walls_view(vertical), walls_view(horizontal)));
    assert forall|c: int| 0 <= c < labels@.len() && #[trigger] labels@[c] > 1 implies
        exists|e: int| 0 <= e < c && #[trigger] labels@[e] == labels@[c] - 1 by {
        let k = labels@[c] as int;
        assert(roots[k - 1] < roots[k]);
        assert(labels@[roots[k - 1]] == k - 1);
    }
    (labels, count)
}

/// The first cell, in row-major order, that carries `needle`.
pub fn find_first(labels: &Vec<usize>, needle: usize) -> (r: Option<usize>)
    ensures
        r is None <==> !has_label(labels@, needle as int),
        r matches Some(c) ==> c < labels@.len() && labels@[c as int] == needle
            && forall|e: int| 0 <= e < c ==> #[trigger] labels@[e] != needle,
{
    let mut c: usize = 0;
    while c < labels.len()
        invariant
            c <= labels@.len(),
            forall|e: int| 0 <= e < c ==> #[trigger] labels@[e] != needle,
        decreases labels@.len() - c,
    {
        if labels[c] == needle {
            return Some(c);
        }
        c = c + 1;
    }
    None
}

/// The entries rise strictly: sorted, without repeats.
pub open spec fn strictly_ascending(s: Seq<usize>) -> bool {
    forall|a: int, b: int| 0 <= a < b < s.len() ==> #[trigger] s[a] < #[trigger] s[b]
}

/// Adds `x` to a strictly ascending vector, keeping it so.
fn insert_sorted(v: &mut Vec<usize>, x: usize)
    requires
        strictly_ascending(old(v)@),
    ensures
        strictly_ascending(final(v)@),
        forall|y: usize| #[trigger] final(v)@.contains(y) <==> (old(v)@.contains(y) || y == x),
{
    let mut i: usize = 0;
    while i < v.len() && v[i] < x
        invariant
            i <= v@.len(),
            v@ == old(v)@,
            forall|e: int| 0 <= e < i ==> #[trigger] v@[e] < x,
        decreases v@.len() - i,
    {
        i = i + 1;
    }
    if i < v.len() && v[i] == x {
        assert(v@[i as int] == x);
        assert(v@.contains(x));
        return;
    }
    let ghost before = v@;
    v.insert(i, x);
    proof {
        assert forall|a: int, b: int| 0 <= a < b < v@.len() implies #[trigger] v@[a] < #[trigger] v@[b] by {
            if b < i {
            } else if b == i {
            } else if a < i {
                assert(before[i as int] > x);
            } else if a == i {
                assert(before[i as int] > x);
                assert(before[i as int] <= before[b - 1]) by {
                    if i < b - 1 {
                        assert(before[i as int] < before[b - 1]);
                    }
                }
            } else {
                assert(before[a - 1] < before[b - 1]);
            }
        }
        assert forall|y: usize| #[trigger] v@.contains(y) <==> (before.contains(y) || y == x) by {
            if v@.contains(y) {
                let e = choose|e: int| 0 <= e < v@.len() && v@[e] == y;
                if e < i {
                    assert(before[e] == y);
                } else if e > i {
                    assert(before[e - 1] == y);
                }
            }
            if before.contains(y) {
                let e = choose|e: int| 0 <= e < before.len() && before[e] == y;
                if e < i {
                    assert(v@[e] == y);
                } else {
                    assert(v@[e + 1] == y);
                }
            }
            if y == x {
                assert(v@[i as int] == y);
            }
        }
    }
}

/// Every cell of the labelling that carried `from` still does or now holds
/// `to`; every other cell keeps its label.
pub open spec fn only_moved(old_labels: Seq<usize>, labels: Seq<usize>, from: usize, to: usize) -> bool {
    &&& labels.len() == old_labels.len()
    &&& forall|c: int|
        0 <= c < labels.len() ==> {
            &&& old_labels[c] != from ==> #[trigger] labels[c] == old_labels[c]
            &&& old_labels[c] == from ==> labels[c] == from || labels[c] == to
        }
}

/// Relabels with `i` the region labelled `i + 1` that holds `seed`, walking
/// from cell to adjacent cell whatever the walls, and stopping at cells of
/// other labels. Returns the cells relabelled, and the labels met across the
/// region's boundary, ascending. Where the region hangs together, the walk
/// relabels all of it.
fn absorb_region(
    labels: &mut Vec<usize>,
    seed: usize,
    i: usize,
    count: usize,
    width: usize,
    height: usize,
    wrap: bool,
    Ghost(par): Ghost<Seq<int>>,
    Ghost(rank): Ghost<Seq<int>>,
    Ghost(roots): Ghost<Seq<int>>,
) -> (r: (Vec<usize>, Vec<usize>))
    requires
        0 < width,
        0 < height,
        width * height <= usize::MAX,
        old(labels)@.len() == width * height,
        seed < width * height,
        i < count,
        old(labels)@[seed as int] == i + 1,
        forall|c: int| 0 <= c < old(labels)@.len() ==> #[trigger] old(labels)@[c] <= count,
        linked(old(labels)@, par, rank, roots, i + 1, width as int, height as int, wrap),
        forall|c: int| 0 <= c < old(labels)@.len() ==> #[trigger] old(labels)@[c] != i,
    ensures
        only_moved(old(labels)@, final(labels)@, (i + 1) as usize, i),
        forall|c: int| 0 <= c < old(labels)@.len() && #[trigger] old(labels)@[c] == i + 1 ==> final(labels)@[c] == i,
        r.0@.len() >= 1,
        forall|j: int| 0 <= j < r.0@.len() ==> #[trigger] r.0@[j] < width * height
            && final(labels)@[r.0@[j] as int] == i,
        r.0@.no_duplicates(),
        forall|c: usize| c < width * height && #[trigger] final(labels)@[c as int] == i ==> r.0@.contains(c),
        strictly_ascending(r.1@),
        forall|j: int| 0 <= j < r.1@.len() ==> #[trigger] r.1@[j] <= count
            && r.1@[j] != i && r.1@[j] != i + 1,
        forall|v: usize| #[trigger] r.1@.contains(v) <==>
            (v != i + 1 && meets(old(labels)@, width as int, height as int, wrap, (i + 1) as int, v as int)),
{
    let n = width * height;
    let from = i + 1;
    let ghost w = width as int;
    let ghost h = height as int;
    let ghost start = labels@;
    labels.set(seed, i);
    let mut positions: Vec<usize> = Vec::new();
    positions.push(seed);
    let mut neighbors: Vec<usize> = Vec::new();
    let mut stack: Vec<usize> = Vec::new();
    stack.push(seed);
    let ghost mut moved: Set<int> = set![seed as int];
    proof {
        lemma_bounded_set(moved, n as int);
        assert(stack@[0] == seed);
        assert(positions@[0] == seed);
    }
    while stack.len() > 0
        invariant
            0 < width,
            0 < height,
            n == width * height,
            w == width,
            h == height,
            from == i + 1,
            i < count,
            labels@.len() == n,
            start.len() == n,
            forall|c: int| 0 <= c < n ==> #[trigger] start[c] <= count,
            forall|j: int| 0 <= j < stack@.len() ==> #[trigger] stack@[j] < n && moved.contains(stack@[j] as int),
            moved.finite(),
            moved.len() <= n,
            forall|c: int| 0 <= c < n ==> (#[trigger] moved.contains(c) <==> (start[c] == from && labels@[c] == i)),
            forall|c: int| moved.contains(c) ==> 0 <= c < n,
            forall|m: int| #[trigger] moved.contains(m) ==>
                stack@.contains(m as usize) || settled(labels@, neighbors@, w, h, wrap, m, from, i),
            forall|c: int| 0 <= c < n ==> #[trigger] start[c] != i,
            forall|v: usize| #[trigger] neighbors@.contains(v) ==> v != from && meets(start, w, h, wrap, from as int, v as int),
            only_moved(start, labels@, from, i),
            seed < n,
            labels@[seed as int] == i,
            positions@.len() >= 1,
            forall|j: int| 0 <= j < positions@.len() ==> #[trigger] positions@[j] < n
                && labels@[positions@[j] as int] == i,
            positions@.no_duplicates(),
            forall|c: int| #[trigger] moved.contains(c) ==> positions@.contains(c as usize),
            strictly_ascending(neighbors@),
            forall|j: int| 0 <= j < neighbors@.len() ==> #[trigger] neighbors@[j] <= count
                && neighbors@[j] != i && neighbors@[j] != from,
        decreases 5 * (n - moved.len()) + stack@.len(),
    {
        let ghost measure = 5 * (n - moved.len()) + stack@.len();
        let ghost stack_before = stack@;
        let c = stack.pop().unwrap();
        proof {
            assert(moved.contains(stack_before[stack_before.len() - 1] as int));
            assert forall|m: int| #[trigger] moved.contains(m) implies
                stack@.contains(m as usize) || settled(labels@, neighbors@, w, h, wrap, m, from, i) || m == c by {
                if stack_before.contains(m as usize) {
                    let j = choose|j: int| 0 <= j < stack_before.len() && stack_before[j] == m as usize;
                    if j < stack@.len() {
                        assert(stack@[j] == m as usize);
                    }
                }
            }
        }
        let mut d: usize = 0;
        while d < 4
            invariant
                0 < width,
                0 < height,
                n == width * height,
                w == width,
                h == height,
                from == i + 1,
                i < count,
                c < n,
                moved.contains(c as int),
                d <= 4,
                labels@.len() == n,
                start.len() == n,
                forall|c: int| 0 <= c < n ==> #[trigger] start[c] <= count,
                forall|j: int| 0 <= j < stack@.len() ==> #[trigger] stack@[j] < n && moved.contains(stack@[j] as int),
                moved.finite(),
                moved.len() <= n,
                forall|c: int| 0 <= c < n ==> (#[trigger] moved.contains(c) <==> (start[c] == from && labels@[c] == i)),
                forall|c: int| moved.contains(c) ==> 0 <= c < n,
                forall|m: int| #[trigger] moved.contains(m) ==>
                    stack@.contains(m as usize) || settled(labels@, neighbors@, w, h, wrap, m, from, i) || m == c,
                forall|e: int| 0 <= e < d ==> (#[trigger] step(w, h, wrap, c as int, e) matches Some(b) ==>
                    labels@[b] != from && (labels@[b] == i || neighbors@.contains(labels@[b]))),
                forall|c: int| 0 <= c < n ==> #[trigger] start[c] != i,
                forall|v: usize| #[trigger] neighbors@.contains(v) ==> v != from && meets(start, w, h, wrap, from as int, v as int),
                only_moved(start, labels@, from, i),
                seed < n,
                labels@[seed as int] == i,
                positions@.len() >= 1,
                forall|j: int| 0 <= j < positions@.len() ==> #[trigger] positions@[j] < n
                    && labels@[positions@[j] as int] == i,
                positions@.no_duplicates(),
                forall|c: int| #[trigger] moved.contains(c) ==> positions@.contains(c as usize),
                strictly_ascending(neighbors@),
                forall|j: int| 0 <= j < neighbors@.len() ==> #[trigger] neighbors@[j] <= count
                    && neighbors@[j] != i && neighbors@[j] != from,
                5 * (n - moved.len()) + stack@.len() < measure,
            decreases 4 - d,
        {
            if let Some(m) = next_cell(width, height, wrap, c, d) {
                let label = labels[m];
                if label == from {
                    proof {
                        assert(!moved.contains(m as int));
                    }
                    let ghost before = labels@;
                    let ghost stack_prev = stack@;
                    let ghost positions_prev = positions@;
                    proof {
                        assert(!positions_prev.contains(m));
                    }
                    labels.set(m, i);
                    positions.push(m);
                    stack.push(m);
                    proof {
                        moved = moved.insert(m as int);
                        lemma_bounded_set(moved, n as int);
                        assert(stack@[stack@.len() - 1] == m);
                        assert(positions@[positions@.len() - 1] == m);
                        assert forall|e: int| #[trigger] moved.contains(e) implies positions@.contains(e as usize) by {
                            if e != m {
                                let j = choose|j: int| 0 <= j < positions_prev.len() && positions_prev[j] == e as usize;
                                assert(positions@[j] == e as usize);
                            }
                        }
                        assert forall|e: int| #[trigger] moved.contains(e) implies
                            stack@.contains(e as usize) || settled(labels@, neighbors@, w, h, wrap, e, from, i) || e == c by {
                            if e == m {
                            } else if stack_prev.contains(e as usize) {
                                let j = choose|j: int| 0 <= j < stack_prev.len() && stack_prev[j] == e as usize;
                                assert(stack@[j] == e as usize);
                            } else if settled(before, neighbors@, w, h, wrap, e, from, i) {
                                assert forall|dd: int| 0 <= dd < 4 implies (#[trigger] step(w, h, wrap, e, dd) matches Some(b)
                                    ==> labels@[b] != from && (labels@[b] == i || neighbors@.contains(labels@[b]))) by {
                                    crate::grid::lemma_step_in_range(w, h, wrap, e, dd);
                                    if let Some(b) = step(w, h, wrap, e, dd) {
                                        assert(before[b] != from);
                                    }
                                }
                            }
                        }
                        assert forall|e: int| 0 <= e < d + 1 implies (#[trigger] step(w, h, wrap, c as int, e) matches Some(b)
                            ==> labels@[b] != from && (labels@[b] == i || neighbors@.contains(labels@[b]))) by {
                            crate::grid::lemma_step_in_range(w, h, wrap, c as int, e);
                            if let Some(b) = step(w, h, wrap, c as int, e) {
                                if e < d {
                                    assert(before[b] != from);
                                }
                            }
                        }
                    }
                } else if label != i {
                    proof {
                        assert(start[m as int] == label || start[m as int] == from);
                    }
                    let ghost before = neighbors@;
                    insert_sorted(&mut neighbors, label);
                    proof {
                        assert(step(w, h, wrap, c as int, d as int) == Some(m as int));
                        assert(start[c as int] == from);
                        assert(start[m as int] == label);
                        assert(meets(start, w, h, wrap, from as int, label as int));
                        assert forall|v: usize| #[trigger] neighbors@.contains(v) implies v != from
                            && meets(start, w, h, wrap, from as int, v as int) by {
                            if v != label {
                                assert(before.contains(v));
                            }
                        }
                        assert(neighbors@.contains(label));
                        assert forall|e: int| #[trigger] moved.contains(e) implies
                            stack@.contains(e as usize) || settled(labels@, neighbors@, w, h, wrap, e, from, i) || e == c by {
                            if !stack@.contains(e as usize) && e != c {
                                assert forall|dd: int| 0 <= dd < 4 implies (#[trigger] step(w, h, wrap, e, dd) matches Some(b)
                                    ==> labels@[b] != from && (labels@[b] == i || neighbors@.contains(labels@[b]))) by {
                                    if let Some(b) = step(w, h, wrap, e, dd) {
                                        if before.contains(labels@[b]) {
                                            assert(neighbors@.contains(labels@[b]));
                                        }
                                    }
                                }
                            }
                        }
                        assert forall|e: int| 0 <= e < d + 1 implies (#[trigger] step(w, h, wrap, c as int, e) matches Some(b)
                            ==> labels@[b] != from && (labels@[b] == i || neighbors@.contains(labels@[b]))) by {
                            if let Some(b) = step(w, h, wrap, c as int, e) {
                                if e < d && before.contains(labels@[b]) {
                                    assert(neighbors@.contains(labels@[b]));
                                }
                            }
                        }
                        assert forall|j: int| 0 <= j < neighbors@.len() implies #[trigger] neighbors@[j] <= count
                            && neighbors@[j] != i && neighbors@[j] != from by {
                            assert(neighbors@.contains(neighbors@[j]));
                            if neighbors@[j] != label {
                                assert(before.contains(neighbors@[j]));
                            }
                        }
                    }
                }
            }
            d = d + 1;
        }
        proof {
            assert(settled(labels@, neighbors@, w, h, wrap, c as int, from, i));
        }
    }
    proof {
        assert forall|m: int| 0 <= m < start.len() && start[m] == from && labels@[m] == i implies
            #[trigger] closed_to(labels@, w, h, wrap, m, from) by {
            assert(moved.contains(m));
            assert(!stack@.contains(m as usize));
            assert(settled(labels@, neighbors@, w, h, wrap, m, from, i));
        }
        assert(linked(start, par, rank, roots, from as int, w, h, wrap));
        lemma_root_moved(start, labels@, par, rank, roots, from, i, w, h, wrap, seed as int);
        assert forall|c: int| 0 <= c < start.len() && #[trigger] start[c] == i + 1 implies labels@[c] == i by {
            lemma_all_moved(start, labels@, par, rank, roots, from, i, w, h, wrap, c);
        }
        assert forall|c: usize| c < n && #[trigger] labels@[c as int] == i implies positions@.contains(c) by {
            assert(moved.contains(c as int));
        }
        assert forall|v: usize| #[trigger] neighbors@.contains(v) <==> (v != from && meets(start, w, h, wrap, from as int, v as int)) by {
            if v != from && meets(start, w, h, wrap, from as int, v as int) {
                let (a, dd) = choose|a: int, dd: int|
                    0 <= a < start.len() && 0 <= dd < 4 && start[a] == from
                        && (#[trigger] step(w, h, wrap, a, dd)) is Some
                        && start[step(w, h, wrap, a, dd)->0] == v;
                let b = step(w, h, wrap, a, dd)->0;
                assert(moved.contains(a));
                assert(!stack@.contains(a as usize));
                assert(settled(labels@, neighbors@, w, h, wrap, a, from, i));
                crate::grid::lemma_step_in_range(w, h, wrap, a, dd);
                assert(labels@[b] == start[b]);
            }
        }
    }
    (positions, neighbors)
}

/// The final ID of a label met while tile `i` is being merged: labels above
/// `i` belong to regions still provisional, whose final ID is one less;
/// labels up to `i` are final already.
pub open spec fn final_id(label: int, i: int) -> int {
    if label > i {
        label - 1
    } else {
        label
    }
}

/// The final ID of a label met while tile `i` is being merged.
pub fn project_label(label: usize, i: usize) -> (r: usize)
    ensures
        r == final_id(label as int, i as int),
{
    if label > i {
        label - 1
    } else {
        label
    }
}

/// Renumbers each region `k + 1` to its final ID `k`, in order, with a walk
/// from its first cell in row-major order. Returns, for each tile, the cells
/// it covers and the final IDs of its neighbors, ascending.
pub fn merge_regions(
    labels: &mut Vec<usize>,
    count: usize,
    width: usize,
    height: usize,
    wrap: bool,
) -> (r: (Vec<Vec<usize>>, Vec<Vec<usize>>))
    requires
        0 < width,
        0 < height,
        width * height <= usize::MAX,
        old(labels)@.len() == width * height,
        labelled(old(labels)@, count),
        regions_connected(old(labels)@, width as int, height as int, wrap),
    ensures
        final(labels)@.len() == width * height,
        forall|c: int| 0 <= c < width * height ==> #[trigger] final(labels)@[c] < count,
        forall|c: int| 0 <= c < width * height ==> #[trigger] final(labels)@[c] == old(labels)@[c] - 1,
        r.0@.len() == count,
        r.1@.len() == count,
        forall|k: int| 0 <= k < count ==> (#[trigger] r.0@[k])@.len() >= 1,
        forall|k: int, j: int| 0 <= k < count && 0 <= j < r.0@[k]@.len() ==>
            #[trigger] r.0@[k]@[j] < width * height && final(labels)@[r.0@[k]@[j] as int] == k,
        forall|k: int| 0 <= k < count ==> (#[trigger] r.0@[k])@.no_duplicates(),
        forall|k: int, c: usize| 0 <= k < count && c < width * height && final(labels)@[c as int] == k ==>
            #[trigger] r.0@[k]@.contains(c),
        forall|k: int| 0 <= k < count ==> strictly_ascending(#[trigger] r.1@[k]@),
        forall|k: int, j: int| 0 <= k < count && 0 <= j < r.1@[k]@.len() ==>
            #[trigger] r.1@[k]@[j] < count && r.1@[k]@[j] != k,
        forall|k: int, j: usize| 0 <= k < count ==> (#[trigger] r.1@[k]@.contains(j) <==>
            (j != k && meets(final(labels)@, width as int, height as int, wrap, k, j as int))),
{
    let n = width * height;
    let mut positions: Vec<Vec<usize>> = Vec::new();
    let mut neighbors: Vec<Vec<usize>> = Vec::new();
    let ghost w = width as int;
    let ghost h = height as int;
    let ghost (par, rank, roots) = choose|par: Seq<int>, rank: Seq<int>, roots: Seq<int>|
        #[trigger] linked(labels@, par, rank, roots, 1, w, h, wrap);
    let ghost original = labels@;
    let ghost target: Seq<usize> = Seq::new(n as nat, |c: int| (original[c] - 1) as usize);
    let mut i: usize = 0;
    while i < count
        invariant
            w == width,
            h == height,
            linked(labels@, par, rank, roots, i + 1, w, h, wrap),
            original.len() == n,
            target.len() == n,
            forall|c: int| 0 <= c < n ==> #[trigger] target[c] == original[c] - 1,
            forall|k: int, j: usize| 0 <= k < i ==> (#[trigger] neighbors@[k]@.contains(j) <==>
                (j != k && meets(target, w, h, wrap, k, j as int))),
            forall|c: int| 0 <= c < n ==> 1 <= #[trigger] original[c] <= count,
            forall|c: int| 0 <= c < n ==> #[trigger] labels@[c] == (if original[c] <= i { original[c] - 1 } else { original[c] as int }),
            0 < width,
            0 < height,
            n == width * height,
            i <= count,
            labels@.len() == n,
            forall|c: int| 0 <= c < n ==> #[trigger] labels@[c] <= count,
            forall|k: int| i + 1 <= k <= count ==> #[trigger] has_label(labels@, k),
            positions@.len() == i,
            neighbors@.len() == i,
            forall|k: int| 0 <= k < i ==> (#[trigger] positions@[k])@.len() >= 1,
            forall|k: int, j: int| 0 <= k < i && 0 <= j < positions@[k]@.len() ==>
                #[trigger] positions@[k]@[j] < n && labels@[positions@[k]@[j] as int] == k,
            forall|k: int| 0 <= k < i ==> (#[trigger] positions@[k])@.no_duplicates(),
            forall|k: int, c: usize| 0 <= k < i && c < n && labels@[c as int] == k ==>
                #[trigger] positions@[k]@.contains(c),
            forall|k: int| 0 <= k < i ==> strictly_ascending(#[trigger] neighbors@[k]@),
            forall|k: int, j: int| 0 <= k < i && 0 <= j < neighbors@[k]@.len() ==>
                #[trigger] neighbors@[k]@[j] < count && neighbors@[k]@[j] != k,
        decreases count - i,
    {
        let ghost before = labels@;
        let seed = match find_first(labels, i + 1) {
            Some(c) => c,
            None => {
                proof {
                    assert(has_label(labels@, i + 1));
                }
                return (positions, neighbors);
            }
        };
        let (cells, raw) = absorb_region(labels, seed, i, count, width, height, wrap, Ghost(par), Ghost(rank), Ghost(roots));
        let mut ids: Vec<usize> = Vec::new();
        let mut t: usize = 0;
        while t < raw.len()
            invariant
                t <= raw@.len(),
                ids@.len() == t,
                forall|j: int| 0 <= j < t ==> #[trigger] ids@[j] == final_id(raw@[j] as int, i as int),
            decreases raw@.len() - t,
        {
            ids.push(project_label(raw[t], i));
            t = t + 1;
        }
        proof {
            assert forall|a: int, b: int| 0 <= a < b < ids@.len() implies #[trigger] ids@[a] < #[trigger] ids@[b] by {
                assert(raw@[a] < raw@[b]);
            }
            assert forall|k: int| i + 2 <= k <= count implies #[trigger] has_label(labels@, k) by {
                assert(has_label(before, k));
                let c = choose|c: int| 0 <= c < before.len() && #[trigger] before[c] == k;
                assert(labels@[c] == k);
            }
            assert forall|c: int| 0 <= c < n implies #[trigger] labels@[c] <= count by {
                assert(before[c] != i + 1 ==> labels@[c] == before[c]);
            }
            assert forall|c: int| 0 <= c < n implies #[trigger] labels@[c] == (if original[c] <= i + 1 {
                original[c] - 1
            } else {
                original[c] as int
            }) by {
                assert(before[c] != i + 1 ==> labels@[c] == before[c]);
                assert(before[c] == i + 1 ==> labels@[c] == i);
            }
            assert forall|c: int| 0 <= c < labels@.len() && labels@[c] >= i + 2 implies
                #[trigger] linked_at(labels@, par, rank, roots, w, h, wrap, c) by {
                assert(linked_at(before, par, rank, roots, w, h, wrap, c));
                assert(before[c] != i + 1 ==> labels@[c] == before[c]);
                assert(before[c] == i + 1 ==> labels@[c] == i);
                let p = par[c];
                assert(before[p] != i + 1 ==> labels@[p] == before[p]);
            }
            assert forall|k: int, j: int| 0 <= k < i && 0 <= j < positions@[k]@.len() implies
                #[trigger] positions@[k]@[j] < n && labels@[positions@[k]@[j] as int] == k by {
                let c = positions@[k]@[j] as int;
                assert(before[c] == k);
            }
        }
        proof {
            assert forall|j: usize| #[trigger] ids@.contains(j) <==> (j != i && meets(target, w, h, wrap, i as int, j as int)) by {
                if ids@.contains(j) {
                    let t = choose|t: int| 0 <= t < ids@.len() && ids@[t] == j;
                    let v = raw@[t];
                    assert(raw@.contains(v));
                    let (a, d) = choose|a: int, d: int|
                        0 <= a < before.len() && 0 <= d < 4 && before[a] == i + 1
                            && (#[trigger] step(w, h, wrap, a, d)) is Some
                            && before[step(w, h, wrap, a, d)->0] == v;
                    crate::grid::lemma_step_in_range(w, h, wrap, a, d);
                    let b = step(w, h, wrap, a, d)->0;
                    assert(target[a] == i);
                    assert(target[b] == j);
                }
                if j != i && meets(target, w, h, wrap, i as int, j as int) {
                    let (a, d) = choose|a: int, d: int|
                        0 <= a < target.len() && 0 <= d < 4 && target[a] == i
                            && (#[trigger] step(w, h, wrap, a, d)) is Some
                            && target[step(w, h, wrap, a, d)->0] == j;
                    crate::grid::lemma_step_in_range(w, h, wrap, a, d);
                    let b = step(w, h, wrap, a, d)->0;
                    let v = before[b];
                    assert(meets(before, w, h, wrap, (i + 1) as int, v as int));
                    assert(raw@.contains(v));
                    let t = choose|t: int| 0 <= t < raw@.len() && raw@[t] == v;
                    assert(ids@[t] == j);
                }
            }
        }
        proof {
            assert forall|k: int, c: usize| 0 <= k < i && c < n && labels@[c as int] == k implies
                #[trigger] positions@[k]@.contains(c) by {
                assert(before[c as int] != i + 1 ==> labels@[c as int] == before[c as int]);
            }
        }
        positions.push(cells);
        neighbors.push(ids);
        i = i + 1;
    }
    assert(labels@ =~= target);
    (positions, neighbors)
}

} // verus!
