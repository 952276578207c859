use vstd::prelude::*;

use crate::matrix::Matrix;

verus! {

/// The arena index of the root header.
pub const ROOT: usize = 0;

/// A node of the link structure: the root, a column header, a row header or a data node.
/// Links are arena indices. `size` counts the data nodes of a column header's column.
/// Row headers and the root have `column == ROOT`; a column header is its own column.
#[derive(Clone, Copy)]
pub struct Node {
    pub up: usize,
    pub down: usize,
    pub left: usize,
    pub right: usize,
    pub column: usize,
    pub row: usize,
    pub size: usize,
}

/// One unlinking step, recorded so that it can be undone.
#[derive(Clone, Copy, PartialEq, Eq, Structural)]
pub enum Unlink {
    /// A column header taken out of the ring of active columns.
    FromRing(usize),
    /// A node taken out of its column's vertical list.
    FromColumn(usize),
}

/// Every link of every node points into the arena.
pub open spec fn bounded(s: Seq<Node>) -> bool {
    forall|i: int|
        0 <= i < s.len() ==> {
            &&& (#[trigger] s[i]).up < s.len()
            &&& s[i].down < s.len()
            &&& s[i].left < s.len()
            &&& s[i].right < s.len()
            &&& s[i].column < s.len()
        }
}

/// Both horizontal neighbours of `c` point back to it.
pub open spec fn in_ring(s: Seq<Node>, c: int) -> bool {
    &&& s[s[c].left as int].right == c
    &&& s[s[c].right as int].left == c
}

/// Both vertical neighbours of `j` point back to it.
pub open spec fn in_column(s: Seq<Node>, j: int) -> bool {
    &&& s[s[j].up as int].down == j
    &&& s[s[j].down as int].up == j
}

/// `c.right.left = c.left; c.left.right = c.right`.
pub open spec fn take_from_ring(s: Seq<Node>, c: int) -> Seq<Node> {
    let l = s[c].left as int;
    let r = s[c].right as int;
    let s1 = s.update(r, Node { left: l as usize, ..s[r] });
    s1.update(l, Node { right: r as usize, ..s1[l] })
}

/// `c.right.left = c; c.left.right = c`.
pub open spec fn put_in_ring(s: Seq<Node>, c: int) -> Seq<Node> {
    let l = s[c].left as int;
    let r = s[c].right as int;
    let s1 = s.update(r, Node { left: c as usize, ..s[r] });
    s1.update(l, Node { right: c as usize, ..s1[l] })
}

/// `j.down.up = j.up; j.up.down = j.down; j.column.size -= 1`.
pub open spec fn take_from_column(s: Seq<Node>, j: int) -> Seq<Node> {
    let u = s[j].up as int;
    let d = s[j].down as int;
    let h = s[j].column as int;
    let s1 = s.update(d, Node { up: u as usize, ..s[d] });
    let s2 = s1.update(u, Node { down: d as usize, ..s1[u] });
    s2.update(h, Node { size: (s2[h].size - 1) as usize, ..s2[h] })
}

/// `j.column.size += 1; j.down.up = j; j.up.down = j`.
pub open spec fn put_in_column(s: Seq<Node>, j: int) -> Seq<Node> {
    let u = s[j].up as int;
    let d = s[j].down as int;
    let h = s[j].column as int;
    let s1 = s.update(h, Node { size: (s[h].size + 1) as usize, ..s[h] });
    let s2 = s1.update(d, Node { up: j as usize, ..s1[d] });
    s2.update(u, Node { down: j as usize, ..s2[u] })
}

pub open spec fn apply(s: Seq<Node>, op: Unlink) -> Seq<Node> {
    match op {
        Unlink::FromRing(c) => take_from_ring(s, c as int),
        Unlink::FromColumn(j) => take_from_column(s, j as int),
    }
}

pub open spec fn revert(s: Seq<Node>, op: Unlink) -> Seq<Node> {
    match op {
        Unlink::FromRing(c) => put_in_ring(s, c as int),
        Unlink::FromColumn(j) => put_in_column(s, j as int),
    }
}

/// The step may be taken on `s`: its node is linked where the step unlinks it.
pub open spec fn applicable(s: Seq<Node>, op: Unlink) -> bool {
    match op {
        Unlink::FromRing(c) => c < s.len() && in_ring(s, c as int),
        Unlink::FromColumn(j) => j < s.len() && in_column(s, j as int) && s[s[j as int].column as int].size
            > 0,
    }
}

/// The structure after taking the steps `ops`, in order, from `base`.
pub open spec fn replay(base: Seq<Node>, ops: Seq<Unlink>) -> Seq<Node>
    decreases ops.len(),
{
    if ops.len() == 0 {
        base
    } else {
        apply(replay(base, ops.drop_last()), ops.last())
    }
}

/// Each step of `ops` was applicable when it was taken.
pub open spec fn replayable(base: Seq<Node>, ops: Seq<Unlink>) -> bool
    decreases ops.len(),
{
    ops.len() == 0 || (replayable(base, ops.drop_last()) && applicable(
        replay(base, ops.drop_last()),
        ops.last(),
    ))
}

/// Undoes the steps of `ops` after the first `m`, last step first.
pub open spec fn unwind(s: Seq<Node>, ops: Seq<Unlink>, m: int) -> Seq<Node>
    decreases ops.len(),
{
    if ops.len() <= m || ops.len() == 0 {
        s
    } else {
        unwind(revert(s, ops.last()), ops.drop_last(), m)
    }
}

/// The position of the last step that took `c` out of the ring, or `-1`.
pub open spec fn last_ring_step(ops: Seq<Unlink>, c: usize) -> int
    decreases ops.len(),
{
    if ops.len() == 0 {
        -1
    } else if ops.last() == Unlink::FromRing(c) {
        ops.len() - 1
    } else {
        last_ring_step(ops.drop_last(), c)
    }
}

pub proof fn lemma_last_ring_step_bound(ops: Seq<Unlink>, c: usize)
    ensures
        -1 <= last_ring_step(ops, c) < ops.len(),
    decreases ops.len(),
{
    if ops.len() > 0 {
        lemma_last_ring_step_bound(ops.drop_last(), c);
    }
}

/// One step keeps every link inside the arena.
pub proof fn lemma_apply_bounded(s: Seq<Node>, op: Unlink)
    requires
        bounded(s),
        applicable(s, op),
    ensures
        bounded(apply(s, op)),
        apply(s, op).len() == s.len(),
        bounded(revert(apply(s, op), op)),
{
    lemma_step_undone(s, op);
}

/// Undoing a step right after taking it gives back the structure exactly.
pub proof fn lemma_step_undone(s: Seq<Node>, op: Unlink)
    requires
        bounded(s),
        applicable(s, op),
    ensures
        revert(apply(s, op), op) == s,
        bounded(apply(s, op)),
        apply(s, op).len() == s.len(),
        op matches Unlink::FromColumn(j) ==> apply(s, op)[j as int].column == s[j as int].column
            && apply(s, op)[s[j as int].column as int].size + 1 == s[s[j as int].column as int].size,
        op matches Unlink::FromColumn(j) ==> apply(s, op)[j as int].up == s[j as int].up
            && apply(s, op)[j as int].down == s[j as int].down,
        op matches Unlink::FromRing(c) ==> apply(s, op)[c as int].left == s[c as int].left
            && apply(s, op)[c as int].right == s[c as int].right,
{
    let t = apply(s, op);
    assert(revert(t, op) =~= s);
}

/// Replaying steps keeps the arena's size and every link inside it.
pub proof fn lemma_replay_bounded(base: Seq<Node>, ops: Seq<Unlink>)
    requires
        bounded(base),
        replayable(base, ops),
    ensures
        bounded(replay(base, ops)),
        replay(base, ops).len() == base.len(),
    decreases ops.len(),
{
    if ops.len() > 0 {
        lemma_replay_bounded(base, ops.drop_last());
        lemma_apply_bounded(replay(base, ops.drop_last()), ops.last());
    }
}

/// Undoing, last step first, every step taken after the first `m` restores the structure
/// as it stood after those `m` steps: covering and then uncovering leaves every field of
/// every node as it was.
pub proof fn lemma_unwind_restores(base: Seq<Node>, ops: Seq<Unlink>, m: int)
    requires
        bounded(base),
        replayable(base, ops),
        0 <= m <= ops.len(),
    ensures
        unwind(replay(base, ops), ops, m) == replay(base, ops.take(m)),
    decreases ops.len(),
{
    if ops.len() == m {
        assert(ops.take(m) =~= ops);
    } else {
        let rest = ops.drop_last();
        lemma_replay_bounded(base, rest);
        lemma_step_undone(replay(base, rest), ops.last());
        lemma_unwind_restores(base, rest, m);
        assert(rest.take(m) =~= ops.take(m));
    }
}

/// After covering `c` (one ring step for `c`, then steps that only take nodes out of
/// columns), the last ring step for `c` is the cover's first step, so uncovering `c`
/// undoes exactly what the cover did.
pub proof fn lemma_uncover_matches_cover(ops: Seq<Unlink>, c: usize, more: Seq<Unlink>)
    requires
        forall|i: int| 0 <= i < more.len() ==> (#[trigger] more[i]) is FromColumn,
    ensures
        last_ring_step(ops.push(Unlink::FromRing(c)) + more, c) == ops.len(),
    decreases more.len(),
{
    let t = ops.push(Unlink::FromRing(c)) + more;
    if more.len() == 0 {
        assert(t =~= ops.push(Unlink::FromRing(c)));
    } else {
        assert(t.drop_last() =~= ops.push(Unlink::FromRing(c)) + more.drop_last());
        assert(more[more.len() - 1] is FromColumn);
        lemma_uncover_matches_cover(ops, c, more.drop_last());
    }
}

/// Covering column `c` and then uncovering it leaves every field of every node, every
/// count and the ring exactly as they were: after the steps `ops`, a cover of `c` takes one
/// ring step for `c` and then only column steps `more`; uncovering `c` undoes the steps back
/// to and including the last ring step for `c`, which gives back the links after `ops`.
pub proof fn lemma_cover_uncover_identity(base: Seq<Node>, ops: Seq<Unlink>, c: usize, more: Seq<Unlink>)
    requires
        bounded(base),
        replayable(base, ops.push(Unlink::FromRing(c)) + more),
        forall|i: int| 0 <= i < more.len() ==> (#[trigger] more[i]) is FromColumn,
    ensures
        ({
            let t = ops.push(Unlink::FromRing(c)) + more;
            unwind(replay(base, t), t, last_ring_step(t, c)) == replay(base, ops)
        }),
{
    let t = ops.push(Unlink::FromRing(c)) + more;
    lemma_uncover_matches_cover(ops, c, more);
    lemma_unwind_restores(base, t, ops.len() as int);
    assert(t.take(ops.len() as int) =~= ops);
}

/// Whether one of the rows `sol` of `m` has a one in column `k`.
pub open spec fn covered_by(m: Seq<Seq<usize>>, sol: Seq<usize>, k: usize) -> bool
    decreases sol.len(),
{
    sol.len() > 0 && (covered_by(m, sol.drop_last(), k) || m[sol.last() as int].contains(k))
}

/// `covered_by` holds when some row of `sol` has the one.
pub proof fn lemma_covered_by(m: Seq<Seq<usize>>, sol: Seq<usize>, k: usize)
    ensures
        covered_by(m, sol, k) <==> exists|t: int| 0 <= t < sol.len() && #[trigger] m[sol[t] as int].contains(k),
    decreases sol.len(),
{
    if sol.len() > 0 {
        let rest = sol.drop_last();
        lemma_covered_by(m, rest, k);
        if exists|t: int| 0 <= t < sol.len() && #[trigger] m[sol[t] as int].contains(k) {
            let t = choose|t: int| 0 <= t < sol.len() && #[trigger] m[sol[t] as int].contains(k);
            if t < rest.len() {
                assert(rest[t] == sol[t]);
            }
        }
        if covered_by(m, rest, k) {
            let t = choose|t: int| 0 <= t < rest.len() && #[trigger] m[rest[t] as int].contains(k);
            assert(rest[t] == sol[t]);
        }
    }
}

/// No two of the rows `sol` of `m` have a one in the same column.
pub open spec fn pairwise_disjoint(m: Seq<Seq<usize>>, sol: Seq<usize>) -> bool {
    forall|i: int, j: int, k: usize|
        0 <= i < j < sol.len() ==> !(#[trigger] m[sol[i] as int].contains(k) && #[trigger] m[sol[j] as int].contains(k))
}

/// How many rows of `sol` have a one in column `k` of `m`.
pub open spec fn hits(m: Seq<Seq<usize>>, sol: Seq<usize>, k: usize) -> nat
    decreases sol.len(),
{
    if sol.len() == 0 {
        0
    } else {
        hits(m, sol.drop_last(), k) + if m[sol.last() as int].contains(k) { 1nat } else { 0nat }
    }
}

pub proof fn lemma_hits_bound(m: Seq<Seq<usize>>, sol: Seq<usize>, k: usize)
    ensures
        hits(m, sol, k) <= sol.len(),
    decreases sol.len(),
{
    if sol.len() > 0 {
        lemma_hits_bound(m, sol.drop_last(), k);
    }
}

/// Counting over two parts adds up.
pub proof fn lemma_hits_concat(m: Seq<Seq<usize>>, a: Seq<usize>, b: Seq<usize>, k: usize)
    ensures
        hits(m, a + b, k) == hits(m, a, k) + hits(m, b, k),
    decreases b.len(),
{
    if b.len() == 0 {
        assert(a + b =~= a);
    } else {
        lemma_hits_concat(m, a, b.drop_last(), k);
        assert((a + b).drop_last() =~= a + b.drop_last());
    }
}

/// A row of `sol` with a one in column `k` is counted.
pub proof fn lemma_hits_member(m: Seq<Seq<usize>>, sol: Seq<usize>, i: int, k: usize)
    requires
        0 <= i < sol.len(),
        m[sol[i] as int].contains(k),
    ensures
        hits(m, sol, k) >= 1,
    decreases sol.len(),
{
    if i < sol.len() - 1 {
        assert(sol.drop_last()[i] == sol[i]);
        lemma_hits_member(m, sol.drop_last(), i, k);
    }
}

/// Two different positions of `sol` with a one in column `k` count twice.
pub proof fn lemma_hits_two(m: Seq<Seq<usize>>, sol: Seq<usize>, i: int, j: int, k: usize)
    requires
        0 <= i < j < sol.len(),
        m[sol[i] as int].contains(k),
        m[sol[j] as int].contains(k),
    ensures
        hits(m, sol, k) >= 2,
    decreases sol.len(),
{
    if j < sol.len() - 1 {
        assert(sol.drop_last()[i] == sol[i] && sol.drop_last()[j] == sol[j]);
        lemma_hits_two(m, sol.drop_last(), i, j, k);
    } else {
        assert(sol.drop_last()[i] == sol[i]);
        lemma_hits_member(m, sol.drop_last(), i, k);
    }
}

/// No row of `sol` with a one in column `k`: nothing is counted.
pub proof fn lemma_hits_none(m: Seq<Seq<usize>>, sol: Seq<usize>, k: usize)
    requires
        forall|i: int| 0 <= i < sol.len() ==> !(#[trigger] m[sol[i] as int]).contains(k),
    ensures
        hits(m, sol, k) == 0,
    decreases sol.len(),
{
    if sol.len() > 0 {
        assert forall|i: int| 0 <= i < sol.drop_last().len() implies !(#[trigger] m[sol.drop_last()[i] as int]).contains(k) by {
            assert(sol.drop_last()[i] == sol[i]);
        }
        lemma_hits_none(m, sol.drop_last(), k);
    }
}

/// With the active headers `act` exactly the columns that no row of `p` meets, every row of
/// a completion `more` of `p` to an exact cover has all its columns active.
pub proof fn lemma_completion_rows_active(
    m: Seq<Seq<usize>>,
    n: int,
    p: Seq<usize>,
    more: Seq<usize>,
    act: Seq<usize>,
    i: int,
    k: usize,
)
    requires
        0 <= n <= usize::MAX,
        forall|h: usize| 1 <= h <= n ==> (#[trigger] act.contains(h) <==> !covered_by(m, p, (h - 1) as usize)),
        exact_cover(m, p + more, n as nat),
        0 <= i < more.len(),
        m[more[i] as int].contains(k),
        k < n,
    ensures
        act.contains((k + 1) as usize),
{
    if !act.contains((k + 1) as usize) {
        assert((((k + 1) as usize) - 1) as usize == k);
        assert(covered_by(m, p, k));
        lemma_covered_by(m, p, k);
        let t = choose|t: int| 0 <= t < p.len() && #[trigger] m[p[t] as int].contains(k);
        let all = p + more;
        assert(all[t] == p[t]);
        assert(all[p.len() + i] == more[i]);
        lemma_hits_two(m, all, t, p.len() + i, k);
        assert(hits(m, all, k) == 1);
    }
}

/// In a completion of `p`, an active column `h` is met by exactly one row of `more`, and by
/// no row of `p`.
pub proof fn lemma_completion_meets(
    m: Seq<Seq<usize>>,
    n: int,
    p: Seq<usize>,
    more: Seq<usize>,
    act: Seq<usize>,
    h: usize,
) -> (u: int)
    requires
        forall|x: usize| 1 <= x <= n ==> (#[trigger] act.contains(x) <==> !covered_by(m, p, (x - 1) as usize)),
        exact_cover(m, p + more, n as nat),
        1 <= h <= n,
        act.contains(h),
    ensures
        0 <= u < more.len(),
        m[more[u] as int].contains((h - 1) as usize),
        forall|v: int| 0 <= v < more.len() && v != u ==> !(#[trigger] m[more[v] as int]).contains((h - 1) as usize),
{
    let k = (h - 1) as usize;
    let all = p + more;
    assert(hits(m, all, k) == 1);
    lemma_covered_by(m, p, k);
    assert forall|t: int| 0 <= t < p.len() implies !(#[trigger] m[p[t] as int]).contains(k) by {}
    lemma_hits_none(m, p, k);
    lemma_hits_concat(m, p, more, k);
    assert(hits(m, more, k) == 1);
    if forall|v: int| 0 <= v < more.len() ==> !(#[trigger] m[more[v] as int]).contains(k) {
        lemma_hits_none(m, more, k);
    }
    let u = choose|u: int| 0 <= u < more.len() && m[more[u] as int].contains(k);
    assert forall|v: int| 0 <= v < more.len() && v != u implies !(#[trigger] m[more[v] as int]).contains(k) by {
        if m[more[v] as int].contains(k) {
            if u < v {
                lemma_hits_two(m, more, u, v, k);
            } else {
                lemma_hits_two(m, more, v, u, k);
            }
        }
    }
    u
}

/// Moving the row `more[u]` to the end of `p` keeps the completion and its set of rows.
pub proof fn lemma_completion_step(m: Seq<Seq<usize>>, n: nat, p: Seq<usize>, more: Seq<usize>, u: int)
    requires
        exact_cover(m, p + more, n),
        0 <= u < more.len(),
    ensures
        exact_cover(m, p.push(more[u]) + more.remove(u), n),
        (p.push(more[u]) + more.remove(u)).to_set() == (p + more).to_set(),
{
    let a = more.take(u);
    let b = more.skip(u + 1);
    let r = more[u];
    assert(more =~= a + seq![r] + b);
    assert(more.remove(u) =~= a + b);
    let x = p + more;
    let y = p.push(r) + more.remove(u);
    assert(x =~= p + (a + (seq![r] + b)));
    assert(y =~= p + (seq![r] + (a + b)));
    assert forall|k: usize| k < n implies #[trigger] hits(m, y, k) == 1 by {
        lemma_hits_concat(m, p, a + (seq![r] + b), k);
        lemma_hits_concat(m, a, seq![r] + b, k);
        lemma_hits_concat(m, seq![r], b, k);
        lemma_hits_concat(m, p, seq![r] + (a + b), k);
        lemma_hits_concat(m, seq![r], a + b, k);
        lemma_hits_concat(m, a, b, k);
        assert(hits(m, x, k) == 1);
    }
    assert forall|i: int| 0 <= i < y.len() implies #[trigger] y[i] < m.len() by {
        if i < p.len() {
            assert(y[i] == x[i]);
        } else if i == p.len() {
            assert(y[i] == x[p.len() + u]);
        } else if i < p.len() + 1 + u {
            assert(y[i] == x[i - 1]);
        } else {
            assert(y[i] == x[i]);
        }
    }
    assert(y.to_set() =~= x.to_set()) by {
        assert forall|e: usize| y.to_set().contains(e) <==> x.to_set().contains(e) by {
            if y.contains(e) {
                let i = choose|i: int| 0 <= i < y.len() && y[i] == e;
                if i < p.len() {
                    assert(x[i] == e);
                } else if i == p.len() {
                    assert(x[p.len() + u] == e);
                } else if i < p.len() + 1 + u {
                    assert(x[i - 1] == e);
                } else {
                    assert(x[i] == e);
                }
            }
            if x.contains(e) {
                let i = choose|i: int| 0 <= i < x.len() && x[i] == e;
                if i < p.len() {
                    assert(y[i] == e);
                } else if i < p.len() + u {
                    assert(y[i + 1] == e);
                } else if i == p.len() + u {
                    assert(y[p.len() as int] == e);
                } else {
                    assert(y[i] == e);
                }
            }
        }
    }
}

/// A list of distinct elements all in `a` and missing one of `a`'s is shorter.
pub proof fn lemma_shorter(a: Seq<usize>, b: Seq<usize>, y: usize)
    requires
        a.no_duplicates(),
        b.no_duplicates(),
        forall|x: usize| #[trigger] b.contains(x) ==> a.contains(x),
        a.contains(y),
        !b.contains(y),
    ensures
        b.len() < a.len(),
{
    a.unique_seq_to_set();
    b.unique_seq_to_set();
    let sa = a.to_set().remove(y);
    assert(b.to_set().subset_of(sa));
    vstd::set_lib::lemma_len_subset(b.to_set(), sa);
}

/// `sol` names rows of `m` that together hold exactly one one in every column below `num_cols`.
pub open spec fn exact_cover(m: Seq<Seq<usize>>, sol: Seq<usize>, num_cols: nat) -> bool {
    &&& forall|i: int| 0 <= i < sol.len() ==> #[trigger] sol[i] < m.len()
    &&& forall|k: usize| k < num_cols ==> #[trigger] hits(m, sol, k) == 1
}

/// The columns `k < t` where row `q` of the dense matrix holds `true`, in increasing order.
pub open spec fn set_columns(matrix: Matrix<bool>, q: int, t: int) -> Seq<usize>
    decreases t,
{
    if t <= 0 {
        Seq::empty()
    } else if matrix.at(q, t - 1) {
        set_columns(matrix, q, t - 1).push((t - 1) as usize)
    } else {
        set_columns(matrix, q, t - 1)
    }
}

/// How many of the first `q` rows of the dense matrix have a one in column `k`.
pub open spec fn ones_in_column(matrix: Matrix<bool>, k: int, q: int) -> nat
    decreases q,
{
    if q <= 0 {
        0
    } else {
        ones_in_column(matrix, k, q - 1) + if matrix.at(q - 1, k) { 1nat } else { 0nat }
    }
}

/// Walking down from header `h` meets the nodes `l` in order and then `h` again, and walking
/// up meets them in reverse order; every node of `l` belongs to column `h`.
pub open spec fn column_list(s: Seq<Node>, h: int, l: Seq<usize>) -> bool {
    &&& s[h].down == if l.len() == 0 { h as usize } else { l[0] }
    &&& s[h].up == if l.len() == 0 { h as usize } else { l.last() }
    &&& forall|i: int|
        0 <= i < l.len() ==> {
            &&& (#[trigger] s[l[i] as int]).up == if i == 0 { h as usize } else { l[i - 1] }
            &&& s[l[i] as int].down == if i == l.len() - 1 { h as usize } else { l[i + 1] }
            &&& s[l[i] as int].column == h
        }
    &&& l.no_duplicates()
    &&& !l.contains(h as usize)
}

/// Whether one of the first `t` nodes of `lc` lies in matrix row `r`.
pub open spec fn row_meets(s: Seq<Node>, lc: Seq<usize>, t: int, r: usize) -> bool {
    exists|u: int| 0 <= u < t && #[trigger] s[lc[u] as int].row == r
}

/// A column list of `s0` is, after the ring step for `c`, the list that `lists0` names.
pub proof fn lemma_list_through_ring_step(
    s0: Seq<Node>,
    c: int,
    n: int,
    lists0: Seq<Seq<usize>>,
    h: int,
    l: Seq<usize>,
)
    requires
        sizes_match(s0, n),
        bounded(s0),
        0 <= c < s0.len(),
        columns_ok(take_from_ring(s0, c), n, lists0),
        1 <= h <= n,
        column_list(s0, h, l),
    ensures
        l == lists0[h - 1],
        forall|i: int| 0 <= i < l.len() ==> n < #[trigger] l[i] < s0.len(),
{
    let lists = choose|lists: Seq<Seq<usize>>| columns_ok(s0, n, lists);
    assert(column_list(s0, (h - 1) + 1, lists[h - 1]));
    lemma_column_list_unique(s0, h, l, lists[h - 1]);
    assert forall|i: int| 0 <= i < l.len() implies #[trigger] l[i] < s0.len() by {
        assert(n < lists[h - 1][i] < s0.len());
    }
    lemma_ring_step_keeps_column_list(s0, c, h, l);
    assert(column_list(take_from_ring(s0, c), (h - 1) + 1, lists0[h - 1]));
    lemma_column_list_unique(take_from_ring(s0, c), h, l, lists0[h - 1]);
}

/// A column's list is the walk down from its header, so it is unique.
pub proof fn lemma_column_list_unique(s: Seq<Node>, h: int, a: Seq<usize>, b: Seq<usize>)
    requires
        column_list(s, h, a),
        column_list(s, h, b),
    ensures
        a == b,
{
    assert forall|i: int| 0 <= i < a.len() && 0 <= i < b.len() implies a[i] == b[i] by {
        lemma_column_list_prefix(s, h, a, b, i);
    }
    if a.len() < b.len() {
        if a.len() == 0 {
            assert(s[h].down == b[0]);
            assert(b[0] != h as usize);
        } else {
            lemma_column_list_prefix(s, h, a, b, a.len() - 1);
            assert(s[a.last() as int].down == h as usize);
            assert(s[b[a.len() - 1] as int].down == b[a.len() as int]);
            assert(!b.contains(h as usize));
        }
    } else if b.len() < a.len() {
        if b.len() == 0 {
            assert(s[h].down == a[0]);
            assert(a[0] != h as usize);
        } else {
            lemma_column_list_prefix(s, h, a, b, b.len() - 1);
            assert(s[b.last() as int].down == h as usize);
            assert(s[a[b.len() - 1] as int].down == a[b.len() as int]);
            assert(!a.contains(h as usize));
        }
    }
    assert(a =~= b);
}

proof fn lemma_column_list_prefix(s: Seq<Node>, h: int, a: Seq<usize>, b: Seq<usize>, i: int)
    requires
        column_list(s, h, a),
        column_list(s, h, b),
        0 <= i < a.len(),
        i < b.len(),
    ensures
        forall|k: int| 0 <= k <= i ==> a[k] == b[k],
    decreases i,
{
    if i > 0 {
        lemma_column_list_prefix(s, h, a, b, i - 1);
        assert(s[a[i - 1] as int].down == a[i]);
        assert(s[b[i - 1] as int].down == b[i]);
    }
}

/// The vertical lists of the `n` columns: header `h` heads the list `lists[h - 1]` of data
/// nodes, whose length is its `size`; every other node past the headers is a row header
/// (column `ROOT`) or a data node of some column that is either in that column's list or
/// unlinked, one of its vertical neighbours no longer pointing back to it. The root
/// counts nothing.
pub open spec fn columns_ok(s: Seq<Node>, n: int, lists: Seq<Seq<usize>>) -> bool {
    &&& 0 <= n < s.len() <= usize::MAX
    &&& s[ROOT as int].size == 0
    &&& lists.len() == n
    &&& forall|c: int|
        0 <= c < n ==> column_list(s, c + 1, #[trigger] lists[c]) && lists[c].len() == s[c + 1].size
    &&& forall|c: int, i: int| 0 <= c < n && 0 <= i < lists[c].len() ==> n < #[trigger] lists[c][i] < s.len()
    &&& forall|j: int| n < j < s.len() ==> (#[trigger] s[j]).column <= n
    &&& forall|j: int|
        n < j < s.len() && 1 <= (#[trigger] s[j]).column ==> lists[s[j].column - 1].contains(j as usize)
            || !in_column(s, j)
}

/// Every column's `size` is the number of data nodes met walking down from its header until
/// the header comes back.
pub open spec fn sizes_match(s: Seq<Node>, n: int) -> bool {
    exists|lists: Seq<Seq<usize>>| columns_ok(s, n, lists)
}

/// Taking a column header out of the ring changes no vertical list.
pub proof fn lemma_ring_step_keeps_columns(s: Seq<Node>, n: int, c: int)
    requires
        sizes_match(s, n),
        bounded(s),
        0 <= c < s.len(),
    ensures
        sizes_match(take_from_ring(s, c), n),
{
    let lists = choose|lists: Seq<Seq<usize>>| columns_ok(s, n, lists);
    let t = take_from_ring(s, c);
    assert forall|x: int| 0 <= x < s.len() implies #[trigger] t[x].up == s[x].up && t[x].down == s[x].down
        && t[x].column == s[x].column && t[x].size == s[x].size by {}
    assert forall|k: int| 0 <= k < n implies column_list(t, k + 1, #[trigger] lists[k]) && lists[k].len()
        == t[k + 1].size by {
        let l = lists[k];
        assert(column_list(s, k + 1, l));
        assert forall|i: int| 0 <= i < l.len() implies #[trigger] t[l[i] as int].up == s[l[i] as int].up
            && t[l[i] as int].down == s[l[i] as int].down && t[l[i] as int].column == s[l[i] as int].column by {
            assert(l[i] < s.len());
        }
    }
    assert forall|j: int|
        n < j < t.len() && 1 <= (#[trigger] t[j]).column implies lists[t[j].column - 1].contains(j as usize)
        || !in_column(t, j) by {
        assert(s[j].column == t[j].column);
        assert(s[j].up < s.len() && s[j].down < s.len());
    }
    assert(columns_ok(t, n, lists));
}

/// The ring of active column headers: walking right from the root meets the headers `a` in
/// order and then the root again, and walking left meets them in reverse order.
pub open spec fn ring_list(s: Seq<Node>, a: Seq<usize>) -> bool {
    &&& s[ROOT as int].right == if a.len() == 0 { ROOT } else { a[0] }
    &&& s[ROOT as int].left == if a.len() == 0 { ROOT } else { a.last() }
    &&& forall|i: int|
        0 <= i < a.len() ==> {
            &&& (#[trigger] s[a[i] as int]).left == if i == 0 { ROOT } else { a[i - 1] }
            &&& s[a[i] as int].right == if i == a.len() - 1 { ROOT } else { a[i + 1] }
        }
    &&& a.no_duplicates()
    &&& !a.contains(ROOT)
}

/// The active columns `a` of a structure with `n` column headers: they form the ring, in
/// increasing order, and every other column header is out of the ring, one of its
/// horizontal neighbours no longer pointing back to it.
pub open spec fn ring_ok(s: Seq<Node>, n: int, a: Seq<usize>) -> bool {
    &&& 0 <= n < s.len() <= usize::MAX
    &&& ring_list(s, a)
    &&& forall|i: int| 0 <= i < a.len() ==> 1 <= #[trigger] a[i] <= n
    &&& forall|i: int, k: int| 0 <= i < k < a.len() ==> #[trigger] a[i] < #[trigger] a[k]
    &&& forall|h: int| 1 <= h <= n ==> a.contains(h as usize) || !#[trigger] in_ring(s, h)
}

/// The headers of the active columns, in ring order.
pub open spec fn active_columns(s: Seq<Node>, n: int) -> Seq<usize> {
    choose|a: Seq<usize>| ring_ok(s, n, a)
}

/// Every column's count is right and the active columns form the ring.
pub open spec fn links_ok(s: Seq<Node>, base: Seq<Node>, n: int) -> bool {
    sizes_match(s, n) && ring_matches(s, n) && rows_static(s, base, n)
}

/// The row of matrix row `q`: walking right from its header `head` meets the data nodes `l`
/// in order and then the header again, and walking left meets them in reverse order; node
/// `l[i]` lies in column header `cols[i] + 1`.
pub open spec fn row_list(s: Seq<Node>, head: int, l: Seq<usize>, cols: Seq<usize>, q: int) -> bool {
    &&& s[head].right == if l.len() == 0 { head as usize } else { l[0] }
    &&& s[head].left == if l.len() == 0 { head as usize } else { l.last() }
    &&& s[head].column == ROOT
    &&& s[head].row == q
    &&& l.len() == cols.len()
    &&& forall|i: int|
        0 <= i < l.len() ==> {
            &&& (#[trigger] s[l[i] as int]).left == if i == 0 { head as usize } else { l[i - 1] }
            &&& s[l[i] as int].right == if i == l.len() - 1 { head as usize } else { l[i + 1] }
            &&& s[l[i] as int].column == cols[i] + 1
            &&& s[l[i] as int].row == q
        }
    &&& l.no_duplicates()
    &&& !l.contains(head as usize)
}

/// A row as it was built is still the row while the rows stay as they were.
pub proof fn lemma_row_list_static(
    s: Seq<Node>,
    base: Seq<Node>,
    n: int,
    head: int,
    l: Seq<usize>,
    cols: Seq<usize>,
    q: int,
)
    requires
        rows_static(s, base, n),
        row_list(base, head, l, cols, q),
        n < head < base.len(),
        forall|i: int| 0 <= i < l.len() ==> n < #[trigger] l[i] < base.len(),
    ensures
        row_list(s, head, l, cols, q),
{
    assert forall|i: int| 0 <= i < l.len() implies {
        &&& (#[trigger] s[l[i] as int]).left == if i == 0 { head as usize } else { l[i - 1] }
        &&& s[l[i] as int].right == if i == l.len() - 1 { head as usize } else { l[i + 1] }
        &&& s[l[i] as int].column == cols[i] + 1
        &&& s[l[i] as int].row == q
    } by {
        assert(n < l[i] < base.len());
    }
}

/// Nothing past the `n` column headers has changed its horizontal links or its column since
/// `base`: the rows are as they were built.
pub open spec fn rows_static(s: Seq<Node>, base: Seq<Node>, n: int) -> bool {
    &&& s.len() == base.len()
    &&& forall|x: int|
        n < x < s.len() ==> {
            &&& (#[trigger] s[x]).left == base[x].left
            &&& s[x].right == base[x].right
            &&& s[x].column == base[x].column
            &&& s[x].row == base[x].row
        }
}

/// Taking a column header whose neighbours are headers or the root out of the ring leaves
/// the rows as they were.
pub proof fn lemma_ring_step_keeps_rows(s: Seq<Node>, base: Seq<Node>, n: int, c: int)
    requires
        0 <= n,
        rows_static(s, base, n),
        bounded(s),
        0 <= c < s.len(),
        s[c].left <= n,
        s[c].right <= n,
    ensures
        rows_static(take_from_ring(s, c), base, n),
{
    assert forall|x: int| n < x < s.len() implies {
        &&& (#[trigger] take_from_ring(s, c)[x]).left == base[x].left
        &&& take_from_ring(s, c)[x].right == base[x].right
        &&& take_from_ring(s, c)[x].column == base[x].column
        &&& take_from_ring(s, c)[x].row == base[x].row
    } by {
        lemma_ring_step_fields(s, c, x);
    }
}

/// Taking a node out of its column leaves the rows as they were.
pub proof fn lemma_column_step_keeps_rows(s: Seq<Node>, base: Seq<Node>, n: int, j: int)
    requires
        0 <= n,
        rows_static(s, base, n),
        bounded(s),
        0 <= j < s.len(),
    ensures
        rows_static(take_from_column(s, j), base, n),
{
    assert forall|x: int| n < x < s.len() implies {
        &&& (#[trigger] take_from_column(s, j)[x]).left == base[x].left
        &&& take_from_column(s, j)[x].right == base[x].right
        &&& take_from_column(s, j)[x].column == base[x].column
        &&& take_from_column(s, j)[x].row == base[x].row
    } by {
        lemma_column_step_fields(s, j, x);
    }
}

/// The active columns form the ring.
pub open spec fn ring_matches(s: Seq<Node>, n: int) -> bool {
    exists|a: Seq<usize>| ring_ok(s, n, a)
}

/// What taking `c` out of the ring changes: the `left` of its right neighbour and the
/// `right` of its left neighbour.
pub proof fn lemma_ring_step_fields(s: Seq<Node>, c: int, x: int)
    requires
        bounded(s),
        0 <= c < s.len(),
        0 <= x < s.len(),
    ensures
        ({
            let t = take_from_ring(s, c);
            let (l, r) = (s[c].left as int, s[c].right as int);
            &&& t.len() == s.len()
            &&& t[x].column == s[x].column
            &&& t[x].row == s[x].row
            &&& t[x].up == s[x].up
            &&& t[x].down == s[x].down
            &&& t[x].size == s[x].size
            &&& t[x].left == if x == r { l as usize } else { s[x].left }
            &&& t[x].right == if x == l { r as usize } else { s[x].right }
        }),
{
}

/// Taking an active column header out of the ring removes it from the active columns and
/// keeps the ring right.
#[verifier::rlimit(60)]
pub proof fn lemma_ring_step_keeps_ring(s: Seq<Node>, n: int, c: int)
    requires
        ring_matches(s, n),
        bounded(s),
        1 <= c <= n,
        in_ring(s, c),
    ensures
        ring_matches(take_from_ring(s, c), n),
        active_columns(s, n).contains(c as usize),
        forall|h: usize| #[trigger] active_columns(take_from_ring(s, c), n).contains(h) <==> (active_columns(
            s,
            n,
        ).contains(h) && h != c as usize),
{
    let a = choose|a: Seq<usize>| ring_ok(s, n, a);
    assert(a.contains(c as usize));
    let p = choose|p: int| 0 <= p < a.len() && a[p] == c as usize;
    let t = take_from_ring(s, c);
    let a2 = a.remove(p);
    let l = s[c].left as int;
    let r = s[c].right as int;
    assert(s[a[p] as int].left == if p == 0 { ROOT } else { a[p - 1] });
    assert(s[a[p] as int].right == if p == a.len() - 1 { ROOT } else { a[p + 1] });
    assert(l == if p == 0 { ROOT as int } else { a[p - 1] as int });
    assert(r == if p == a.len() - 1 { ROOT as int } else { a[p + 1] as int });
    assert forall|i: int| 0 <= i < a2.len() implies {
        &&& (#[trigger] t[a2[i] as int]).left == if i == 0 { ROOT } else { a2[i - 1] }
        &&& t[a2[i] as int].right == if i == a2.len() - 1 { ROOT } else { a2[i + 1] }
    } by {
        let i2 = if i < p { i } else { i + 1 };
        assert(a2[i] == a[i2]);
        lemma_ring_step_fields(s, c, a[i2] as int);
        if i < p {
            if i > 0 {
                assert(a2[i - 1] == a[i - 1]);
            }
            if i + 1 < p {
                assert(a2[i + 1] == a[i + 1]);
            } else if i + 1 < a2.len() {
                assert(a2[i + 1] == a[i + 2]);
            }
        } else {
            if i > p {
                assert(a2[i - 1] == a[i]);
            } else if i > 0 {
                assert(a2[i - 1] == a[i - 1]);
            }
            if i + 1 < a2.len() {
                assert(a2[i + 1] == a[i + 2]);
            }
        }
    }
    assert(a2.no_duplicates()) by {
        assert forall|x: int, y: int| 0 <= x < y < a2.len() implies a2[x] != a2[y] by {
            let x2 = if x < p { x } else { x + 1 };
            let y2 = if y < p { y } else { y + 1 };
            assert(a2[x] == a[x2] && a2[y] == a[y2]);
        }
    }
    assert(!a2.contains(ROOT)) by {
        if a2.contains(ROOT) {
            let i = choose|i: int| 0 <= i < a2.len() && a2[i] == ROOT;
            let i2 = if i < p { i } else { i + 1 };
            assert(a2[i] == a[i2]);
        }
    }
    lemma_ring_step_fields(s, c, ROOT as int);
    if a2.len() > 0 {
        if p == 0 {
            assert(a2[0] == a[1]);
        } else {
            assert(a2[0] == a[0]);
        }
        if p == a.len() - 1 {
            assert(a2.last() == a[p - 1]);
        } else {
            assert(a2.last() == a.last());
        }
    }
    assert forall|i: int| 0 <= i < a2.len() implies 1 <= #[trigger] a2[i] <= n by {
        let i2 = if i < p { i } else { i + 1 };
        assert(a2[i] == a[i2]);
    }
    assert forall|i: int, k: int| 0 <= i < k < a2.len() implies #[trigger] a2[i] < #[trigger] a2[k] by {
        let i2 = if i < p { i } else { i + 1 };
        let k2 = if k < p { k } else { k + 1 };
        assert(a2[i] == a[i2] && a2[k] == a[k2]);
    }
    assert forall|h: int| 1 <= h <= n implies a2.contains(h as usize) || !#[trigger] in_ring(t, h) by {
        lemma_ring_step_fields(s, c, h);
        if h == c {
            lemma_ring_step_fields(s, c, l);
            assert(r != c) by {
                if p < a.len() - 1 {
                    assert(a[p + 1] != a[p]);
                }
            }
            assert(t[l].right == r as usize);
        } else if a.contains(h as usize) {
            let i = choose|i: int| 0 <= i < a.len() && a[i] == h as usize;
            assert(i != p);
            let i2 = if i < p { i } else { i - 1 };
            assert(a2[i2] == h as usize);
        } else {
            assert(!in_ring(s, h));
            assert(h != l && h != r) by {
                if h == l {
                    assert(p > 0 && a[p - 1] == h as usize);
                }
                if h == r {
                    assert(p < a.len() - 1 && a[p + 1] == h as usize);
                }
            }
            let y = s[h].left as int;
            let z = s[h].right as int;
            lemma_ring_step_fields(s, c, y);
            lemma_ring_step_fields(s, c, z);
        }
    }
    assert(ring_ok(t, n, a2));
    lemma_ring_unique(t, n, a2, active_columns(t, n));
    lemma_ring_unique(s, n, a, active_columns(s, n));
    assert forall|h: usize| #[trigger] active_columns(t, n).contains(h) <==> (active_columns(s, n).contains(h)
        && h != c as usize) by {
        if a2.contains(h) {
            let i = choose|i: int| 0 <= i < a2.len() && a2[i] == h;
            let i2 = if i < p { i } else { i + 1 };
            assert(a2[i] == a[i2]);
            assert(i2 != p);
        }
        if a.contains(h) && h != c as usize {
            let i = choose|i: int| 0 <= i < a.len() && a[i] == h;
            assert(i != p);
            let i2 = if i < p { i } else { i - 1 };
            assert(a2[i2] == h);
        }
    }
}

/// The ring neighbours of an active column header are headers or the root.
pub proof fn lemma_ring_neighbours(s: Seq<Node>, n: int, c: int)
    requires
        ring_matches(s, n),
        active_columns(s, n).contains(c as usize),
        0 <= c < s.len(),
    ensures
        s[c].left <= n,
        s[c].right <= n,
{
    let a = active_columns(s, n);
    assert(ring_ok(s, n, a));
    let p = choose|p: int| 0 <= p < a.len() && a[p] == c as usize;
    assert(s[a[p] as int].left == if p == 0 { ROOT } else { a[p - 1] });
    assert(s[a[p] as int].right == if p == a.len() - 1 { ROOT } else { a[p + 1] });
    if p > 0 {
        assert(a[p - 1] <= n);
    }
    if p < a.len() - 1 {
        assert(a[p + 1] <= n);
    }
}

/// An active column header is linked in the ring.
pub proof fn lemma_active_in_ring(s: Seq<Node>, n: int, c: int)
    requires
        ring_matches(s, n),
        active_columns(s, n).contains(c as usize),
        0 <= c < s.len(),
    ensures
        in_ring(s, c),
        1 <= c <= n,
{
    let a = active_columns(s, n);
    assert(ring_ok(s, n, a));
    let p = choose|p: int| 0 <= p < a.len() && a[p] == c as usize;
    assert(s[a[p] as int].left == if p == 0 { ROOT } else { a[p - 1] });
    assert(s[a[p] as int].right == if p == a.len() - 1 { ROOT } else { a[p + 1] });
    if p > 0 {
        assert(s[a[p - 1] as int].right == a[p]);
    }
    if p < a.len() - 1 {
        assert(s[a[p + 1] as int].left == a[p]);
    }
}

/// Strictly increasing column headers between `1` and `n` number at most `n`.
pub proof fn lemma_increasing_len(a: Seq<usize>, n: int)
    requires
        0 <= n,
        forall|i: int| 0 <= i < a.len() ==> 1 <= #[trigger] a[i] <= n,
        forall|i: int, k: int| 0 <= i < k < a.len() ==> #[trigger] a[i] < #[trigger] a[k],
    ensures
        a.len() <= n,
        forall|i: int| 0 <= i < a.len() ==> i + 1 <= #[trigger] a[i],
    decreases a.len(),
{
    if a.len() > 0 {
        let b = a.drop_last();
        assert forall|i: int, k: int| 0 <= i < k < b.len() implies #[trigger] b[i] < #[trigger] b[k] by {
            assert(b[i] == a[i] && b[k] == a[k]);
        }
        lemma_increasing_len(b, n);
        assert forall|i: int| 0 <= i < a.len() implies i + 1 <= #[trigger] a[i] by {
            if i > 0 {
                assert(b[i - 1] == a[i - 1]);
                assert(a[i - 1] < a[i]);
            }
        }
        assert(a.len() <= a[a.len() - 1]);
        assert(a[a.len() - 1] <= n);
    }
}

/// Taking a node out of its column leaves the ring as it was.
pub proof fn lemma_column_step_keeps_ring(s: Seq<Node>, n: int, j: int)
    requires
        ring_matches(s, n),
        bounded(s),
        0 <= j < s.len(),
    ensures
        ring_matches(take_from_column(s, j), n),
        active_columns(take_from_column(s, j), n) == active_columns(s, n),
{
    let a = choose|a: Seq<usize>| ring_ok(s, n, a);
    let t = take_from_column(s, j);
    assert forall|i: int| 0 <= i < a.len() implies {
        &&& (#[trigger] t[a[i] as int]).left == if i == 0 { ROOT } else { a[i - 1] }
        &&& t[a[i] as int].right == if i == a.len() - 1 { ROOT } else { a[i + 1] }
    } by {
        lemma_column_step_fields(s, j, a[i] as int);
    }
    lemma_column_step_fields(s, j, ROOT as int);
    assert forall|h: int| 1 <= h <= n implies a.contains(h as usize) || !#[trigger] in_ring(t, h) by {
        assert(a.contains(h as usize) || !in_ring(s, h));
        lemma_column_step_fields(s, j, h);
        lemma_column_step_fields(s, j, s[h].left as int);
        lemma_column_step_fields(s, j, s[h].right as int);
    }
    assert(ring_ok(t, n, a));
    lemma_ring_unique(t, n, a, active_columns(t, n));
    lemma_ring_unique(s, n, a, active_columns(s, n));
}

/// The ring determines its list of active columns.
pub proof fn lemma_ring_unique(s: Seq<Node>, n: int, a: Seq<usize>, b: Seq<usize>)
    requires
        ring_ok(s, n, a),
        ring_ok(s, n, b),
    ensures
        a == b,
{
    // both lists are the walk right from the root
    assert forall|i: int| 0 <= i < a.len() && 0 <= i < b.len() implies a[i] == b[i] by {
        lemma_ring_prefix(s, n, a, b, i);
    }
    if a.len() < b.len() {
        if a.len() == 0 {
            assert(s[ROOT as int].right == b[0]);
        } else {
            lemma_ring_prefix(s, n, a, b, a.len() - 1);
            assert(s[a.last() as int].right == ROOT);
            assert(s[b[a.len() - 1] as int].right == b[a.len() as int]);
        }
    } else if b.len() < a.len() {
        if b.len() == 0 {
            assert(s[ROOT as int].right == a[0]);
        } else {
            lemma_ring_prefix(s, n, a, b, b.len() - 1);
            assert(s[b.last() as int].right == ROOT);
            assert(s[a[b.len() - 1] as int].right == a[b.len() as int]);
        }
    }
    assert(a =~= b);
}

pub proof fn lemma_ring_prefix(s: Seq<Node>, n: int, a: Seq<usize>, b: Seq<usize>, i: int)
    requires
        ring_ok(s, n, a),
        ring_ok(s, n, b),
        0 <= i < a.len(),
        i < b.len(),
    ensures
        forall|k: int| 0 <= k <= i ==> a[k] == b[k],
    decreases i,
{
    if i > 0 {
        lemma_ring_prefix(s, n, a, b, i - 1);
        assert(s[a[i - 1] as int].right == a[i]);
        assert(s[b[i - 1] as int].right == b[i]);
    }
}

/// What taking `j` out of its column changes: the `up` of the node below it, the `down` of
/// the node above it, and the count of its column.
pub proof fn lemma_column_step_fields(s: Seq<Node>, j: int, x: int)
    requires
        bounded(s),
        0 <= j < s.len(),
        0 <= x < s.len(),
    ensures
        ({
            let t = take_from_column(s, j);
            let (u, d, h) = (s[j].up as int, s[j].down as int, s[j].column as int);
            &&& t.len() == s.len()
            &&& t[x].column == s[x].column
            &&& t[x].row == s[x].row
            &&& t[x].left == s[x].left
            &&& t[x].right == s[x].right
            &&& t[x].up == if x == d { u as usize } else { s[x].up }
            &&& t[x].down == if x == u { d as usize } else { s[x].down }
            &&& t[x].size == if x == h { (s[h].size - 1) as usize } else { s[x].size }
        }),
{
}

/// The list of `j`'s column, with `j` taken out, is still a proper column list.
pub proof fn lemma_column_step_own_list(s: Seq<Node>, h: int, l: Seq<usize>, p: int)
    requires
        bounded(s),
        0 <= h < s.len(),
        column_list(s, h, l),
        0 <= p < l.len(),
        s[l[p] as int].column == h,
        forall|i: int| 0 <= i < l.len() ==> #[trigger] l[i] < s.len(),
    ensures
        column_list(take_from_column(s, l[p] as int), h, l.remove(p)),
{
    let j = l[p] as int;
    let t = take_from_column(s, j);
    let l2 = l.remove(p);
    let u = s[j].up as int;
    let d = s[j].down as int;
    assert(u == if p == 0 { h } else { l[p - 1] as int });
    assert(d == if p == l.len() - 1 { h } else { l[p + 1] as int });
    assert forall|i: int| 0 <= i < l2.len() implies {
        &&& (#[trigger] t[l2[i] as int]).up == if i == 0 { h as usize } else { l2[i - 1] }
        &&& t[l2[i] as int].down == if i == l2.len() - 1 { h as usize } else { l2[i + 1] }
        &&& t[l2[i] as int].column == h
    } by {
        let i2 = if i < p { i } else { i + 1 };
        assert(l2[i] == l[i2]);
        lemma_column_step_fields(s, j, l[i2] as int);
        assert(l[i2] != h as usize);
        if i < p {
            if i > 0 {
                assert(l2[i - 1] == l[i - 1]);
            }
            if i + 1 < p {
                assert(l2[i + 1] == l[i + 1]);
            } else if i + 1 < l2.len() {
                assert(l2[i + 1] == l[i + 2]);
            }
        } else {
            if i > p {
                assert(l2[i - 1] == l[i]);
            } else if i > 0 {
                assert(l2[i - 1] == l[i - 1]);
            }
            if i + 1 < l2.len() {
                assert(l2[i + 1] == l[i + 2]);
            }
        }
    }
    assert(l2.no_duplicates()) by {
        assert forall|a: int, b: int| 0 <= a < b < l2.len() implies l2[a] != l2[b] by {
            let a2 = if a < p { a } else { a + 1 };
            let b2 = if b < p { b } else { b + 1 };
            assert(l2[a] == l[a2] && l2[b] == l[b2]);
        }
    }
    assert(!l2.contains(h as usize)) by {
        if l2.contains(h as usize) {
            let i = choose|i: int| 0 <= i < l2.len() && l2[i] == h as usize;
            let i2 = if i < p { i } else { i + 1 };
            assert(l2[i] == l[i2]);
        }
    }
    lemma_column_step_fields(s, j, h);
    if l2.len() > 0 {
        if p == 0 {
            assert(l2[0] == l[1]);
        } else {
            assert(l2[0] == l[0]);
        }
        if p == l.len() - 1 {
            assert(l2.last() == l[p - 1]);
        } else {
            assert(l2.last() == l.last());
        }
    }
}

/// Taking a linked data node out of its column removes it from that column's list and
/// keeps every list and count right.
pub proof fn lemma_column_step_keeps_columns(s: Seq<Node>, n: int, j: int)
    requires
        sizes_match(s, n),
        bounded(s),
        n < j < s.len(),
        in_column(s, j),
        s[s[j].column as int].size > 0,
    ensures
        sizes_match(take_from_column(s, j), n),
{
    let lists = choose|lists: Seq<Seq<usize>>| columns_ok(s, n, lists);
    let h = s[j].column as int;
    assert(1 <= h <= n);
    let l = lists[h - 1];
    assert(l.contains(j as usize));
    let p = choose|p: int| 0 <= p < l.len() && l[p] == j as usize;
    lemma_column_step_explicit(s, n, lists, j, p);
}

/// A data node past the headers is linked (its neighbours point back to it and its
/// column counts something) exactly when it is in its column's list.
pub proof fn lemma_linked_iff_listed(s: Seq<Node>, n: int, lists: Seq<Seq<usize>>, j: int)
    requires
        columns_ok(s, n, lists),
        n < j < s.len(),
        1 <= s[j].column,
    ensures
        (in_column(s, j) && s[s[j].column as int].size > 0) <==> lists[s[j].column - 1].contains(j as usize),
{
    let h = s[j].column as int;
    let l = lists[h - 1];
    assert(column_list(s, h, l));
    if l.contains(j as usize) {
        let p = choose|p: int| 0 <= p < l.len() && l[p] == j as usize;
        assert(s[l[p] as int].up == if p == 0 { h as usize } else { l[p - 1] });
        assert(s[l[p] as int].down == if p == l.len() - 1 { h as usize } else { l[p + 1] });
        if p > 0 {
            assert(s[l[p - 1] as int].down == l[p]);
        }
        if p < l.len() - 1 {
            assert(s[l[p + 1] as int].up == l[p]);
        }
    }
}

/// Taking a column header out of the ring leaves every column list as it was.
pub proof fn lemma_ring_step_keeps_column_list(s: Seq<Node>, c: int, h: int, l: Seq<usize>)
    requires
        bounded(s),
        0 <= c < s.len(),
        0 <= h < s.len(),
        column_list(s, h, l),
        forall|i: int| 0 <= i < l.len() ==> #[trigger] l[i] < s.len(),
    ensures
        column_list(take_from_ring(s, c), h, l),
{
    let t = take_from_ring(s, c);
    lemma_ring_step_fields(s, c, h);
    assert forall|i: int| 0 <= i < l.len() implies {
        &&& (#[trigger] t[l[i] as int]).up == if i == 0 { h as usize } else { l[i - 1] }
        &&& t[l[i] as int].down == if i == l.len() - 1 { h as usize } else { l[i + 1] }
        &&& t[l[i] as int].column == h
    } by {
        lemma_ring_step_fields(s, c, l[i] as int);
    }
}

/// Taking the node `lists[h - 1][p]` out of its column removes it from that list and leaves
/// every other list as it was.
pub proof fn lemma_column_step_explicit(s: Seq<Node>, n: int, lists: Seq<Seq<usize>>, j: int, p: int)
    requires
        columns_ok(s, n, lists),
        bounded(s),
        n < j < s.len(),
        1 <= s[j].column,
        0 <= p < lists[s[j].column - 1].len(),
        lists[s[j].column - 1][p] == j as usize,
    ensures
        columns_ok(
            take_from_column(s, j),
            n,
            lists.update(s[j].column - 1, lists[s[j].column - 1].remove(p)),
        ),
{
    let h = s[j].column as int;
    assert(1 <= h <= n);
    let l = lists[h - 1];
    assert(column_list(s, h, l));
    let u = s[j].up as int;
    let d = s[j].down as int;
    let t = take_from_column(s, j);
    let l2 = l.remove(p);
    let lists2 = lists.update(h - 1, l2);
    assert(u == if p == 0 { h } else { l[p - 1] as int });
    assert(d == if p == l.len() - 1 { h } else { l[p + 1] as int });
    assert forall|k: int| 0 <= k < n implies column_list(t, k + 1, #[trigger] lists2[k]) && lists2[k].len()
        == t[k + 1].size by {
        lemma_column_step_fields(s, j, k + 1);
        if k == h - 1 {
            assert forall|i: int| 0 <= i < l.len() implies #[trigger] l[i] < s.len() by {
                assert(l[i] < s.len());
            }
            lemma_column_step_own_list(s, h, l, p);
        } else {
            let lk = lists[k];
            assert(column_list(s, k + 1, lk));
            assert forall|i: int| 0 <= i < lk.len() implies {
                &&& (#[trigger] t[lk[i] as int]).up == s[lk[i] as int].up
                &&& t[lk[i] as int].down == s[lk[i] as int].down
                &&& t[lk[i] as int].column == s[lk[i] as int].column
            } by {
                lemma_column_step_fields(s, j, lk[i] as int);
                assert(s[lk[i] as int].column == k + 1);
                if lk[i] as int == d {
                    assert(s[d].column == h);
                }
                if lk[i] as int == u {
                    assert(s[u].column == h);
                }
            }
            if k + 1 == u {
                assert(s[u].column == h);
            }
            if k + 1 == d {
                assert(s[d].column == h);
            }
        }
    }
    assert forall|c: int, i: int| 0 <= c < n && 0 <= i < lists2[c].len() implies n < #[trigger] lists2[c][i]
        < t.len() by {
        if c == h - 1 {
            let i2 = if i < p { i } else { i + 1 };
            assert(lists2[c][i] == l[i2]);
        }
    }
    assert forall|x: int| n < x < t.len() implies (#[trigger] t[x]).column <= n by {
        lemma_column_step_fields(s, j, x);
    }
    assert forall|x: int|
        n < x < t.len() && 1 <= (#[trigger] t[x]).column implies lists2[t[x].column - 1].contains(x as usize)
        || !in_column(t, x) by {
        lemma_column_step_at(s, n, lists, j, p, x);
    }
    lemma_column_step_fields(s, j, ROOT as int);
    assert(columns_ok(t, n, lists2));
}

/// After taking `j = lists[h - 1][p]` out of its column, every data node is in its column's
/// list or unlinked.
pub proof fn lemma_column_step_at(s: Seq<Node>, n: int, lists: Seq<Seq<usize>>, j: int, p: int, x: int)
    requires
        columns_ok(s, n, lists),
        bounded(s),
        n < j < s.len(),
        1 <= s[j].column <= n,
        0 <= p < lists[s[j].column - 1].len(),
        lists[s[j].column - 1][p] == j as usize,
        n < x < s.len(),
        1 <= s[x].column,
    ensures
        ({
            let h = s[j].column as int;
            let t = take_from_column(s, j);
            lists.update(h - 1, lists[h - 1].remove(p))[t[x].column - 1].contains(x as usize) || !in_column(t, x)
        }),
{
    let h = s[j].column as int;
    let l = lists[h - 1];
    let t = take_from_column(s, j);
    let l2 = l.remove(p);
    let lists2 = lists.update(h - 1, l2);
    let u = s[j].up as int;
    let d = s[j].down as int;
    assert(column_list(s, h, l));
    assert(l[p] == j as usize);
    assert(s[l[p] as int].up == if p == 0 { h as usize } else { l[p - 1] });
    assert(s[l[p] as int].down == if p == l.len() - 1 { h as usize } else { l[p + 1] });
    assert(u == if p == 0 { h } else { l[p - 1] as int });
    assert(d == if p == l.len() - 1 { h } else { l[p + 1] as int });
    lemma_column_step_fields(s, j, x);
    let hx = s[x].column as int;
    assert(hx <= n);
    if x == j {
        lemma_column_step_fields(s, j, u);
        assert(d != j) by {
            if p < l.len() - 1 {
                assert(l[p + 1] != l[p]);
            }
        }
        assert(t[u].down == d as usize);
        assert(!in_column(t, x));
    } else if lists[hx - 1].contains(x as usize) {
        let lx = lists[hx - 1];
        let i = choose|i: int| 0 <= i < lx.len() && lx[i] == x as usize;
        if hx == h {
            assert(lx == l);
            assert(i != p);
            let i2 = if i < p { i } else { i - 1 };
            assert(l2[i2] == x as usize);
        } else {
            assert(lists2[hx - 1] == lx);
        }
    } else {
        assert(!in_column(s, x));
        assert(x != u && x != d) by {
            if x == u {
                assert(l[p - 1] == x as usize);
                assert(s[x].column == h);
                assert(l.contains(x as usize));
            }
            if x == d {
                assert(l[p + 1] == x as usize);
                assert(s[x].column == h);
                assert(l.contains(x as usize));
            }
        }
        let y = s[x].up as int;
        let z = s[x].down as int;
        lemma_column_step_fields(s, j, y);
        lemma_column_step_fields(s, j, z);
    }
}

/// The left neighbour of header `h` in the ring of the root and `n` column headers in
/// increasing order.
pub open spec fn ring_left(h: int, n: int) -> int {
    if h == 0 { n } else { h - 1 }
}

/// The right neighbour of header `h` in the ring of the root and `n` column headers in
/// increasing order.
pub open spec fn ring_right(h: int, n: int) -> int {
    if h == n { 0 } else { h + 1 }
}

pub proof fn lemma_set_columns(matrix: Matrix<bool>, q: int, t: int)
    requires
        0 <= t <= usize::MAX,
    ensures
        set_columns(matrix, q, t).len() <= t,
        set_columns(matrix, q, t).no_duplicates(),
        forall|i: int| 0 <= i < set_columns(matrix, q, t).len() ==> #[trigger] set_columns(matrix, q, t)[i] < t,
    decreases t,
{
    if t > 0 {
        lemma_set_columns(matrix, q, t - 1);
    }
}

} // verus!
