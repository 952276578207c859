use vstd::prelude::*;

use crate::links::{
    lemma_hits_two,
    covered_by,
    lemma_completion_meets,
    lemma_completion_rows_active,
    lemma_completion_step,
    lemma_shorter,
    lemma_column_list_unique,
    lemma_column_step_explicit,
    lemma_linked_iff_listed,
    lemma_list_through_ring_step,
    row_meets,
    Node,
    ROOT,
    Unlink,
    active_columns,
    bounded,
    column_list,
    columns_ok,
    exact_cover,
    hits,
    in_column,
    in_ring,
    last_ring_step,
    lemma_active_in_ring,
    lemma_apply_bounded,
    lemma_column_step_keeps_columns,
    lemma_column_step_keeps_ring,
    lemma_column_step_keeps_rows,
    lemma_hits_bound,
    lemma_increasing_len,
    lemma_last_ring_step_bound,
    lemma_replay_bounded,
    lemma_ring_neighbours,
    lemma_ring_step_keeps_columns,
    lemma_ring_step_keeps_ring,
    lemma_ring_step_keeps_rows,
    lemma_ring_unique,
    lemma_row_list_static,
    lemma_set_columns,
    lemma_step_undone,
    lemma_uncover_matches_cover,
    links_ok,
    ones_in_column,
    replay,
    replayable,
    revert,
    ring_left,
    ring_matches,
    ring_ok,
    ring_right,
    row_list,
    rows_static,
    set_columns,
    sizes_match,
    take_from_column,
    take_from_ring,
};
use crate::matrix::Matrix;

verus! {

/// What holds of the links while they are being built: every link inside the arena, the
/// header ring in increasing order, row nodes linked only to row nodes across, and the
/// columns `lists` hanging below their headers.
pub open spec fn build_ok(s: Seq<Node>, num_cols: int, lists: Seq<Seq<usize>>) -> bool {
    &&& bounded(s)
    &&& num_cols < s.len()
    &&& forall|i: int| 0 <= i < s.len() ==> #[trigger] s[i].size < s.len()
    &&& forall|h: int|
        0 <= h <= num_cols ==> {
            &&& (#[trigger] s[h]).left == ring_left(h, num_cols)
            &&& s[h].right == ring_right(h, num_cols)
            &&& s[h].column == h
        }
    &&& forall|i: int| num_cols < i < s.len() ==> (#[trigger] s[i]).left > num_cols && s[i].right > num_cols
    &&& lists.len() == num_cols
    &&& forall|c: int|
        0 <= c < num_cols ==> column_list(s, c + 1, #[trigger] lists[c]) && lists[c].len() == s[c
            + 1].size
    &&& forall|c: int, i: int|
        0 <= c < num_cols && 0 <= i < lists[c].len() ==> num_cols < #[trigger] lists[c][i] < s.len()
    &&& s[ROOT as int].size == 0
    &&& forall|j: int|
        num_cols < j < s.len() ==> (#[trigger] s[j]).column <= num_cols && (s[j].column == ROOT
            || lists[s[j].column - 1].contains(j as usize))
}

/// Adds the header of matrix row `q`, linked to itself.
fn push_row_header(nodes: &mut Vec<Node>, lists: Ghost<Seq<Seq<usize>>>, num_cols: usize, q: usize) -> (head: usize)
    requires
        build_ok(old(nodes)@, num_cols as int, lists@),
    ensures
        head == old(nodes)@.len(),
        final(nodes)@.len() == head + 1,
        num_cols < head,
        build_ok(final(nodes)@, num_cols as int, lists@),
        forall|i: int| 0 <= i < old(nodes)@.len() ==> #[trigger] final(nodes)@[i] == old(nodes)@[i],
        row_list(final(nodes)@, head as int, Seq::empty(), Seq::empty(), q as int),
{
    let head = nodes.len();
    nodes.push(Node { up: head, down: head, left: head, right: head, column: ROOT, row: q, size: 0 });
    proof {
        let s = nodes@;
        assert forall|c: int| 0 <= c < num_cols implies column_list(s, c + 1, #[trigger] lists@[c])
            && lists@[c].len() == s[c + 1].size by {
            let l = lists@[c];
            assert(column_list(old(nodes)@, c + 1, l));
            assert forall|i: int| 0 <= i < l.len() implies #[trigger] s[l[i] as int] == old(nodes)@[l[i] as int] by {
                assert(l[i] < old(nodes)@.len());
            }
        }
        assert forall|j: int|
            num_cols < j < s.len() implies (#[trigger] s[j]).column <= num_cols && (s[j].column == ROOT
                || lists@[s[j].column - 1].contains(j as usize)) by {
            if j < head {
                assert(s[j] == old(nodes)@[j]);
            }
        }
    }
    head
}

/// The links after a data node `n` of column header `h` is added at the bottom of its column
/// and at the end of the row whose header is `head`, described field by field.
pub open spec fn appended(s0: Seq<Node>, s: Seq<Node>, h: int, head: int, n: int, q: int) -> bool {
    let hu = s0[h].up as int;
    let hl = s0[head].left as int;
    &&& n == s0.len()
    &&& s.len() == n + 1
    &&& forall|x: int|
        0 <= x < s.len() ==> {
            &&& (#[trigger] s[x]).column == if x == n { h as usize } else { s0[x].column }
            &&& s[x].row == if x == n { q as usize } else { s0[x].row }
            &&& s[x].up == if x == h { n as usize } else if x == n { hu as usize } else { s0[x].up }
            &&& s[x].down == if x == hu { n as usize } else if x == n { h as usize } else { s0[x].down }
            &&& s[x].size == if x == h { (s0[h].size + 1) as usize } else if x == n { 0 } else {
                s0[x].size
            }
            &&& s[x].left == if x == head { n as usize } else if x == n { hl as usize } else {
                s0[x].left
            }
            &&& s[x].right == if x == hl { n as usize } else if x == n { head as usize } else {
                s0[x].right
            }
        }
}

/// Adding a data node keeps what holds while building, with the node at the end of its
/// column's list.
proof fn lemma_appended(
    s0: Seq<Node>,
    s: Seq<Node>,
    lists: Seq<Seq<usize>>,
    num_cols: int,
    h: int,
    head: int,
    n: int,
    q: int,
)
    requires
        build_ok(s0, num_cols, lists),
        1 <= h <= num_cols,
        num_cols < head < s0.len(),
        appended(s0, s, h, head, n, q),
        n <= usize::MAX,
    ensures
        build_ok(s, num_cols, lists.update(h - 1, lists[h - 1].push(n as usize))),
{
    let hu = s0[h].up as int;
    let hl = s0[head].left as int;
    let new_lists = lists.update(h - 1, lists[h - 1].push(n as usize));
    assert(hl > num_cols);
    assert(s0[h].size < s0.len());
    assert forall|c: int| 0 <= c < num_cols implies column_list(s, c + 1, #[trigger] new_lists[c])
        && new_lists[c].len() == s[c + 1].size by {
        let l = lists[c];
        assert(column_list(s0, c + 1, l));
        if c == h - 1 {
            assert(!l.contains(n as usize)) by {
                if l.contains(n as usize) {
                    let i = choose|i: int| 0 <= i < l.len() && l[i] == n as usize;
                    assert(l[i] < s0.len());
                }
            }
            let l2 = l.push(n as usize);
            assert(l2 == new_lists[c]);
            assert forall|i: int| 0 <= i < l2.len() implies {
                &&& (#[trigger] s[l2[i] as int]).up == if i == 0 { (c + 1) as usize } else { l2[i - 1] }
                &&& s[l2[i] as int].down == if i == l2.len() - 1 { (c + 1) as usize } else { l2[i + 1] }
                &&& s[l2[i] as int].column == c + 1
            } by {
                if i < l.len() {
                    assert(l2[i] == l[i]);
                    assert(l[i] > num_cols);
                    assert(l[i] < s0.len());
                }
            }
            assert(l2.no_duplicates());
        } else {
            assert(new_lists[c] == l);
            assert forall|i: int| 0 <= i < l.len() implies {
                &&& (#[trigger] s[l[i] as int]).up == if i == 0 { (c + 1) as usize } else { l[i - 1] }
                &&& s[l[i] as int].down == if i == l.len() - 1 { (c + 1) as usize } else { l[i + 1] }
                &&& s[l[i] as int].column == c + 1
            } by {
                assert(l[i] > num_cols);
                assert(l[i] < s0.len());
                assert(s0[l[i] as int].column == c + 1);
                if l[i] as int == hu {
                    let lh = lists[h - 1];
                    assert(column_list(s0, h, lh));
                    assert(lh.len() > 0);
                    assert(s0[hu].column == h);
                }
            }
        }
    }
    assert forall|c: int, i: int|
        0 <= c < num_cols && 0 <= i < new_lists[c].len() implies num_cols < #[trigger] new_lists[c][i]
        < s.len() by {
        if c == h - 1 && i == lists[c].len() {
        } else {
            assert(new_lists[c][i] == lists[c][i]);
        }
    }
    assert forall|j: int|
        num_cols < j < s.len() implies (#[trigger] s[j]).column <= num_cols && (s[j].column == ROOT
            || new_lists[s[j].column - 1].contains(j as usize)) by {
        if j == n {
            assert(new_lists[h - 1][lists[h - 1].len() as int] == n as usize);
        } else {
            assert(s[j].column == s0[j].column);
            if s0[j].column != ROOT {
                let c = s0[j].column - 1;
                let lc = lists[c];
                assert(lc.contains(j as usize));
                let i = choose|i: int| 0 <= i < lc.len() && lc[i] == j as usize;
                assert(new_lists[c][i] == j as usize);
            }
        }
    }
    assert forall|x: int| 0 <= x < s.len() implies #[trigger] s[x].size < s.len() by {
        if x < s0.len() {
            assert(s0[x].size < s0.len());
        }
    }
    assert forall|hh: int|
        0 <= hh <= num_cols implies {
            &&& (#[trigger] s[hh]).left == ring_left(hh, num_cols)
            &&& s[hh].right == ring_right(hh, num_cols)
            &&& s[hh].column == hh
        } by {
        assert(s0[hh].column == hh);
    }
    assert forall|i: int| num_cols < i < s.len() implies (#[trigger] s[i]).left > num_cols && s[i].right
        > num_cols by {
        if i < s0.len() {
            assert(s0[i].left > num_cols && s0[i].right > num_cols);
        }
    }
    assert(bounded(s)) by {
        assert forall|i: int| 0 <= i < s.len() implies {
            &&& (#[trigger] s[i]).up < s.len()
            &&& s[i].down < s.len()
            &&& s[i].left < s.len()
            &&& s[i].right < s.len()
            &&& s[i].column < s.len()
        } by {
            if i < s0.len() {
                assert(s0[i].up < s0.len());
            }
        }
    }
}

/// Matrix row `q` with columns `cols` is built: without a one it has no header, else
/// its header `head` and data nodes `l` lie past the `n` column headers and form its row.
pub open spec fn built_row(s: Seq<Node>, n: int, head: int, l: Seq<usize>, cols: Seq<usize>, q: int) -> bool {
    &&& l.len() == cols.len()
    &&& cols.len() == 0 ==> head == ROOT
    &&& cols.len() > 0 ==> {
        &&& n < head < s.len()
        &&& row_list(s, head, l, cols, q)
        &&& forall|i: int| 0 <= i < l.len() ==> n < #[trigger] l[i] < s.len()
    }
}

/// A built row stays built when nodes are only added.
proof fn lemma_built_row_grows(s0: Seq<Node>, s: Seq<Node>, n: int, head: int, l: Seq<usize>, cols: Seq<usize>, q: int)
    requires
        0 <= n,
        built_row(s0, n, head, l, cols, q),
        s0.len() <= s.len(),
        forall|i: int| 0 <= i < s0.len() ==> #[trigger] s[i] == s0[i],
    ensures
        built_row(s, n, head, l, cols, q),
{
    if cols.len() > 0 {
        assert(n < head < s0.len());
        assert(s[head] == s0[head]);
        assert forall|i: int| 0 <= i < l.len() implies {
            &&& (#[trigger] s[l[i] as int]).left == if i == 0 { head as usize } else { l[i - 1] }
            &&& s[l[i] as int].right == if i == l.len() - 1 { head as usize } else { l[i + 1] }
            &&& s[l[i] as int].column == cols[i] + 1
            &&& s[l[i] as int].row == q
        } by {
            assert(l[i] < s0.len());
            assert(s[l[i] as int] == s0[l[i] as int]);
        }
    }
}

/// Adding a data node at the end of row `q` extends that row's list by it.
proof fn lemma_appended_own_row(
    s0: Seq<Node>,
    s: Seq<Node>,
    h: int,
    head: int,
    n: int,
    q: int,
    l: Seq<usize>,
    cols: Seq<usize>,
)
    requires
        appended(s0, s, h, head, n, q),
        row_list(s0, head, l, cols, q),
        0 <= head < s0.len(),
        1 <= h <= usize::MAX,
        n <= usize::MAX,
        forall|i: int| 0 <= i < l.len() ==> #[trigger] l[i] < s0.len(),
    ensures
        row_list(s, head, l.push(n as usize), cols.push((h - 1) as usize), q),
{
    let l2 = l.push(n as usize);
    let cols2 = cols.push((h - 1) as usize);
    assert(!l.contains(n as usize)) by {
        if l.contains(n as usize) {
            let i = choose|i: int| 0 <= i < l.len() && l[i] == n as usize;
            assert(l[i] < s0.len());
        }
    }
    assert forall|i: int| 0 <= i < l2.len() implies {
        &&& (#[trigger] s[l2[i] as int]).left == if i == 0 { head as usize } else { l2[i - 1] }
        &&& s[l2[i] as int].right == if i == l2.len() - 1 { head as usize } else { l2[i + 1] }
        &&& s[l2[i] as int].column == cols2[i] + 1
        &&& s[l2[i] as int].row == q
    } by {
        if i < l.len() {
            assert(l2[i] == l[i]);
            assert(l[i] < s0.len());
            assert(l[i] != head as usize);
        }
    }
}

/// Adding a data node at the end of row `q` leaves every other row's list as it was.
proof fn lemma_appended_other_row(
    s0: Seq<Node>,
    s: Seq<Node>,
    h: int,
    head: int,
    n: int,
    q: int,
    head2: int,
    l: Seq<usize>,
    cols: Seq<usize>,
    q2: int,
)
    requires
        appended(s0, s, h, head, n, q),
        0 <= head < s0.len(),
        s0[head].row == q,
        s0[s0[head].left as int].row == q,
        s0[head].left < s0.len(),
        row_list(s0, head2, l, cols, q2),
        q2 != q,
        0 <= head2 < s0.len(),
        forall|i: int| 0 <= i < l.len() ==> #[trigger] l[i] < s0.len(),
    ensures
        row_list(s, head2, l, cols, q2),
{
    assert forall|i: int| 0 <= i < l.len() implies {
        &&& (#[trigger] s[l[i] as int]).left == if i == 0 { head2 as usize } else { l[i - 1] }
        &&& s[l[i] as int].right == if i == l.len() - 1 { head2 as usize } else { l[i + 1] }
        &&& s[l[i] as int].column == cols[i] + 1
        &&& s[l[i] as int].row == q2
    } by {
        assert(l[i] < s0.len());
        assert(s0[l[i] as int].row == q2);
    }
}

/// Adds a data node of matrix row `q` in column header `h`: at the bottom of the column and
/// at the end of the row whose header is `head`.
#[verifier::rlimit(100)]
fn append_node(
    nodes: &mut Vec<Node>,
    lists: Ghost<Seq<Seq<usize>>>,
    num_cols: usize,
    h: usize,
    head: usize,
    q: usize,
) -> (n: usize)
    requires
        build_ok(old(nodes)@, num_cols as int, lists@),
        1 <= h <= num_cols,
        num_cols < head < old(nodes)@.len(),
    ensures
        n == old(nodes)@.len(),
        final(nodes)@.len() == n + 1,
        build_ok(final(nodes)@, num_cols as int, lists@.update(h - 1, lists@[h - 1].push(n))),
        forall|c: int|
            0 <= c < num_cols ==> (#[trigger] final(nodes)@[c + 1]).size == old(nodes)@[c + 1].size
                + if c == h - 1 { 1int } else { 0int },
        appended(old(nodes)@, final(nodes)@, h as int, head as int, n as int, q as int),
{
    let ghost s0 = nodes@;
    let n = nodes.len();
    let hu = nodes[h].up;
    let hl = nodes[head].left;
    proof {
        assert(s0[h as int].size < s0.len());
    }
    nodes.push(Node { up: hu, down: h, left: hl, right: head, column: h, row: q, size: 0 });
    let mut above = nodes[hu];
    above.down = n;
    nodes.set(hu, above);
    let mut header = nodes[h];
    header.up = n;
    header.size = header.size + 1;
    nodes.set(h, header);
    let mut before = nodes[hl];
    before.right = n;
    nodes.set(hl, before);
    let mut row_head = nodes[head];
    row_head.left = n;
    nodes.set(head, row_head);
    proof {
        assert(hl > num_cols);
        assert(appended(s0, nodes@, h as int, head as int, n as int, q as int));
        lemma_appended(s0, nodes@, lists@, num_cols as int, h as int, head as int, n as int, q as int);
    }
    n
}

/// After removing position `p` of list `h - 1`, a node is listed exactly when it was listed
/// before and is not the removed one.
proof fn lemma_removed_membership(lists: Seq<Seq<usize>>, n: int, h0: int, p: int)
    requires
        1 <= h0 <= n,
        lists.len() == n,
        0 <= p < lists[h0 - 1].len(),
        lists[h0 - 1].no_duplicates(),
    ensures
        forall|h: int, x: usize|
            1 <= h <= n ==> (#[trigger] lists.update(h0 - 1, lists[h0 - 1].remove(p))[h - 1].contains(x)
                <==> lists[h - 1].contains(x) && !(h == h0 && x == lists[h0 - 1][p])),
{
    let lh = lists[h0 - 1];
    let new_lists = lists.update(h0 - 1, lh.remove(p));
    assert forall|h: int, x: usize| 1 <= h <= n implies (#[trigger] new_lists[h - 1].contains(x)
        <==> lists[h - 1].contains(x) && !(h == h0 && x == lh[p])) by {
        if h == h0 {
            if lh.remove(p).contains(x) {
                let y = choose|y: int| 0 <= y < lh.remove(p).len() && lh.remove(p)[y] == x;
                let y2 = if y < p { y } else { y + 1 };
                assert(lh[y2] == x);
            }
            if lh.contains(x) && x != lh[p] {
                let y = choose|y: int| 0 <= y < lh.len() && lh[y] == x;
                let y2 = if y < p { y } else { y - 1 };
                assert(lh.remove(p)[y2] == x);
            }
        }
    }
}

/// The first `w + 1` elements are the first `w` and element `w`.
proof fn lemma_take_step(l: Seq<usize>, w: int)
    requires
        0 <= w < l.len(),
    ensures
        forall|x: usize| #[trigger] l.take(w + 1).contains(x) <==> (l.take(w).contains(x) || x == l[w]),
{
    assert forall|x: usize| #[trigger] l.take(w + 1).contains(x) <==> (l.take(w).contains(x) || x == l[w]) by {
        let big = l.take(w + 1);
        if big.contains(x) {
            let y = choose|y: int| 0 <= y < big.len() && big[y] == x;
            if y < w {
                assert(l.take(w)[y] == x);
            }
        }
        if l.take(w).contains(x) {
            let y = choose|y: int| 0 <= y < w && l.take(w)[y] == x;
            assert(l.take(w + 1)[y] == x);
        }
        if x == l[w] {
            assert(l.take(w + 1)[w] == x);
        }
    }
}

/// The dancing-links form of an exact-cover matrix: a root, one header per column,
/// one header per non-empty row and one data node per one of the matrix, all in one
/// arena. Every change made while searching is recorded in `trail`, and the links are
/// always the result of replaying that trail on the structure as it was built. A step is
/// taken only when its node is linked where the step unlinks it (always the case in a
/// search over a structure built by `new`); that is what makes every step, undone in
/// reverse order, give back the links exactly.
pub struct DLX {
    nodes: Vec<Node>,
    num_cols: usize,
    rows: Vec<Vec<usize>>,
    row_heads: Vec<usize>,
    trail: Vec<Unlink>,
    base: Ghost<Seq<Node>>,
    row_nodes: Ghost<Seq<Seq<usize>>>,
}

impl DLX {
    /// The links as they stand.
    pub closed spec fn links(&self) -> Seq<Node> {
        self.nodes@
    }

    /// The links as they were built.
    pub closed spec fn initial(&self) -> Seq<Node> {
        self.base@
    }

    /// The unlinking steps taken since the build and not yet undone.
    pub closed spec fn steps(&self) -> Seq<Unlink> {
        self.trail@
    }

    /// The exact-cover matrix: for each row, its columns in increasing order.
    pub closed spec fn matrix(&self) -> Seq<Seq<usize>> {
        self.rows@.map_values(|r: Vec<usize>| r@)
    }

    pub closed spec fn columns(&self) -> nat {
        self.num_cols as nat
    }

    /// The arena index of the header of matrix row `q` (the root when the row is empty).
    pub closed spec fn row_head(&self, q: int) -> int {
        self.row_heads@[q] as int
    }

    /// The data nodes of matrix row `q`, in increasing column order.
    pub closed spec fn row_nodes(&self, q: int) -> Seq<usize> {
        self.row_nodes@[q]
    }

    pub closed spec fn wf(&self) -> bool {
        &&& bounded(self.base@)
        &&& bounded(self.nodes@)
        &&& self.nodes@.len() == self.base@.len()
        &&& self.num_cols < self.nodes@.len()
        &&& replayable(self.base@, self.trail@)
        &&& self.nodes@ == replay(self.base@, self.trail@)
        &&& forall|m: int|
            0 <= m <= self.trail@.len() ==> #[trigger] links_ok(replay(self.base@, self.trail@.take(m)), self.base@, self.num_cols as int)
        &&& self.row_heads@.len() == self.rows@.len()
        &&& self.row_nodes@.len() == self.rows@.len()
        &&& forall|q: int|
            0 <= q < self.rows@.len() ==> #[trigger] built_row(
                self.base@,
                self.num_cols as int,
                self.row_heads@[q] as int,
                self.row_nodes@[q],
                self.rows@[q]@,
                q,
            ) && self.rows@[q]@.len() <= self.num_cols
        &&& forall|j: int|
            self.num_cols < j < self.base@.len() && (#[trigger] self.base@[j]).column != ROOT ==> self.base@[j].row
                < self.rows@.len() && self.row_nodes@[self.base@[j].row as int].contains(j as usize)
        &&& forall|q: int| 0 <= q < self.row_heads@.len() ==> #[trigger] self.row_heads@[q] < self.nodes@.len()
        &&& forall|q: int|
            0 <= q < self.rows@.len() ==> {
                &&& (#[trigger] self.rows@[q])@.no_duplicates()
                &&& forall|i: int| 0 <= i < self.rows@[q]@.len() ==> #[trigger] self.rows@[q]@[i] < self.num_cols
            }
    }

    /// Builds the links of a dense 0/1 matrix: the root, then one header per column threaded
    /// into the root's ring in increasing order, then row by row one data node per `true`
    /// entry, pushed at the bottom of its column and at the end of its row.
    pub fn new(matrix: Matrix<bool>) -> (d: DLX)
        requires
            matrix.wf(),
            matrix.cols() < usize::MAX,
        ensures
            d.wf(),
            d.steps().len() == 0,
            d.links() == d.initial(),
            d.columns() == matrix.cols(),
            d.matrix().len() == matrix.rows(),
            forall|q: int|
                0 <= q < matrix.rows() ==> #[trigger] d.matrix()[q] == set_columns(
                    matrix,
                    q,
                    matrix.cols() as int,
                ),
            forall|h: int|
                0 <= h <= matrix.cols() ==> {
                    &&& (#[trigger] d.links()[h]).left == ring_left(h, matrix.cols() as int)
                    &&& d.links()[h].right == ring_right(h, matrix.cols() as int)
                    &&& d.links()[h].column == h
                },
            forall|k: int|
                0 <= k < matrix.cols() ==> (#[trigger] d.links()[k + 1]).size == ones_in_column(
                    matrix,
                    k,
                    matrix.rows() as int,
                ),
            forall|k: int|
                0 <= k < matrix.cols() ==> exists|l: Seq<usize>|
                    column_list(d.links(), k + 1, l) && l.len() == (#[trigger] d.links()[k + 1]).size,
            forall|h: usize|
                #[trigger] active_columns(d.links(), d.columns() as int).contains(h) <==> 1 <= h
                    <= matrix.cols(),
            forall|q: int|
                0 <= q < matrix.rows() ==> #[trigger] built_row(
                    d.links(),
                    d.columns() as int,
                    d.row_head(q),
                    d.row_nodes(q),
                    d.matrix()[q],
                    q,
                ),
            d.lists_match_rows(d.links()),
    {
        let num_rows = matrix.num_rows();
        let num_cols = matrix.num_cols();
        let mut nodes: Vec<Node> = Vec::new();
        let first = if num_cols > 0 {
            1
        } else {
            ROOT
        };
        nodes.push(
            Node { up: ROOT, down: ROOT, left: num_cols, right: first, column: ROOT, row: 0, size: 0 },
        );
        let mut k: usize = 0;
        while k < num_cols
            invariant
                nodes@.len() == k + 1,
                k <= num_cols < usize::MAX,
                forall|i: int|
                    0 <= i < nodes@.len() ==> {
                        &&& (#[trigger] nodes@[i]).up == i
                        &&& nodes@[i].down == i
                        &&& nodes@[i].column == i
                        &&& nodes@[i].left == ring_left(i, num_cols as int)
                        &&& nodes@[i].right == ring_right(i, num_cols as int)
                        &&& nodes@[i].size == 0
                    },
            decreases num_cols - k,
        {
            let h = k + 1;
            let next = if h < num_cols {
                h + 1
            } else {
                ROOT
            };
            nodes.push(Node { up: h, down: h, left: k, right: next, column: h, row: 0, size: 0 });
            k = k + 1;
        }
        let mut rows: Vec<Vec<usize>> = Vec::new();
        let mut row_heads: Vec<usize> = Vec::new();
        let ghost mut lists: Seq<Seq<usize>> = Seq::new(num_cols as nat, |c: int| Seq::<usize>::empty());
        let ghost mut rnodes: Seq<Seq<usize>> = Seq::empty();
        assert forall|c: int| 0 <= c < num_cols implies column_list(nodes@, c + 1, #[trigger] lists[c])
            && lists[c].len() == nodes@[c + 1].size by {
            assert(lists[c] =~= Seq::<usize>::empty());
        }
        let mut q: usize = 0;
        while q < num_rows
            invariant
                matrix.wf(),
                num_rows == matrix.rows(),
                num_cols == matrix.cols(),
                num_cols < usize::MAX,
                q <= num_rows,
                build_ok(nodes@, num_cols as int, lists),
                rows@.len() == q,
                row_heads@.len() == q,
                forall|p: int| 0 <= p < q ==> #[trigger] row_heads@[p] < nodes@.len(),
                forall|p: int| 0 <= p < q ==> #[trigger] rows@[p]@ == set_columns(matrix, p, num_cols as int),
                forall|c: int|
                    0 <= c < num_cols ==> (#[trigger] nodes@[c + 1]).size == ones_in_column(
                        matrix,
                        c,
                        q as int,
                    ),
                rnodes.len() == q,
                forall|p: int|
                    0 <= p < q ==> #[trigger] built_row(
                        nodes@,
                        num_cols as int,
                        row_heads@[p] as int,
                        rnodes[p],
                        rows@[p]@,
                        p,
                    ),
                forall|j: int|
                    num_cols < j < nodes@.len() && (#[trigger] nodes@[j]).column != ROOT ==> nodes@[j].row < q
                        && rnodes[nodes@[j].row as int].contains(j as usize),
            decreases num_rows - q,
        {
            let mut cols: Vec<usize> = Vec::new();
            let mut head: usize = ROOT;
            let ghost mut cur: Seq<usize> = Seq::empty();
            let mut k: usize = 0;
            while k < num_cols
                invariant
                    matrix.wf(),
                    num_rows == matrix.rows(),
                    num_cols == matrix.cols(),
                    q < num_rows,
                    k <= num_cols,
                    build_ok(nodes@, num_cols as int, lists),
                    head < nodes@.len(),
                    forall|p: int| 0 <= p < q ==> #[trigger] row_heads@[p] < nodes@.len(),
                    cols@ == set_columns(matrix, q as int, k as int),
                    head == ROOT || num_cols < head,
                    forall|c: int|
                        0 <= c < num_cols ==> (#[trigger] nodes@[c + 1]).size == ones_in_column(
                            matrix,
                            c,
                            q as int,
                        ) + if c < k && matrix.at(q as int, c) {
                            1nat
                        } else {
                            0nat
                        },
                    rnodes.len() == q,
                    forall|p: int|
                        0 <= p < q ==> #[trigger] built_row(
                            nodes@,
                            num_cols as int,
                            row_heads@[p] as int,
                            rnodes[p],
                            rows@[p]@,
                            p,
                        ),
                    (head == ROOT) == (cols@.len() == 0),
                    head == ROOT ==> cur.len() == 0,
                    head != ROOT ==> built_row(nodes@, num_cols as int, head as int, cur, cols@, q as int),
                    forall|j: int|
                        num_cols < j < nodes@.len() && (#[trigger] nodes@[j]).column != ROOT ==> (nodes@[j].row
                            < q && rnodes[nodes@[j].row as int].contains(j as usize)) || (nodes@[j].row == q
                            && cur.contains(j as usize)),
                decreases num_cols - k,
            {
                if *matrix.element(q, k) {
                    if head == ROOT {
                        let ghost s0 = nodes@;
                        let ghost old_cur = cur;
                        head = push_row_header(&mut nodes, Ghost(lists), num_cols, q);
                        proof {
                            cur = Seq::empty();
                            assert forall|p: int| 0 <= p < q implies #[trigger] built_row(
                                nodes@,
                                num_cols as int,
                                row_heads@[p] as int,
                                rnodes[p],
                                rows@[p]@,
                                p,
                            ) by {
                                lemma_built_row_grows(s0, nodes@, num_cols as int, row_heads@[p] as int, rnodes[p], rows@[p]@, p);
                            }
                            assert forall|j: int|
                                num_cols < j < nodes@.len() && (#[trigger] nodes@[j]).column != ROOT implies (nodes@[j].row
                                    < q && rnodes[nodes@[j].row as int].contains(j as usize)) || (nodes@[j].row == q
                                    && cur.contains(j as usize)) by {
                                if j < s0.len() {
                                    assert(nodes@[j] == s0[j]);
                                    assert(!old_cur.contains(j as usize));
                                }
                            }
                        }
                    }
                    let ghost s0 = nodes@;
                    proof {
                        assert(row_list(s0, head as int, cur, cols@, q as int));
                        assert(s0[head as int].row == q);
                        if cur.len() > 0 {
                            assert(s0[cur.last() as int].row == q);
                        }
                    }
                    let n = append_node(&mut nodes, Ghost(lists), num_cols, k + 1, head, q);
                    proof {
                        lists = lists.update(k as int, lists[k as int].push(n));
                        lemma_appended_own_row(s0, nodes@, k + 1, head as int, n as int, q as int, cur, cols@);
                        assert forall|p: int| 0 <= p < q implies #[trigger] built_row(
                            nodes@,
                            num_cols as int,
                            row_heads@[p] as int,
                            rnodes[p],
                            rows@[p]@,
                            p,
                        ) by {
                            assert(built_row(s0, num_cols as int, row_heads@[p] as int, rnodes[p], rows@[p]@, p));
                            if rows@[p]@.len() > 0 {
                                lemma_appended_other_row(s0, nodes@, k + 1, head as int, n as int, q as int, row_heads@[p] as int, rnodes[p], rows@[p]@, p);
                            }
                        }
                        let old_cur = cur;
                        cur = cur.push(n);
                        assert forall|j: int|
                            num_cols < j < nodes@.len() && (#[trigger] nodes@[j]).column != ROOT implies (nodes@[j].row
                                < q && rnodes[nodes@[j].row as int].contains(j as usize)) || (nodes@[j].row == q
                                && cur.contains(j as usize)) by {
                            if j == n {
                                assert(cur[old_cur.len() as int] == n);
                            } else {
                                assert(nodes@[j].column == s0[j].column && nodes@[j].row == s0[j].row);
                                if s0[j].row == q && old_cur.contains(j as usize) {
                                    let x = choose|x: int| 0 <= x < old_cur.len() && old_cur[x] == j as usize;
                                    assert(cur[x] == j as usize);
                                }
                            }
                        }
                    }
                    cols.push(k);
                }
                k = k + 1;
            }
            let ghost done_rows = rows@;
            let ghost done_heads = row_heads@;
            rows.push(cols);
            row_heads.push(head);
            proof {
                rnodes = rnodes.push(cur);
                assert forall|p: int| 0 <= p < q + 1 implies #[trigger] built_row(
                    nodes@,
                    num_cols as int,
                    row_heads@[p] as int,
                    rnodes[p],
                    rows@[p]@,
                    p,
                ) by {
                    if p < q {
                        assert(rows@[p] == done_rows[p]);
                        assert(row_heads@[p] == done_heads[p]);
                    }
                }
                assert forall|j: int|
                    num_cols < j < nodes@.len() && (#[trigger] nodes@[j]).column != ROOT implies nodes@[j].row < q + 1
                        && rnodes[nodes@[j].row as int].contains(j as usize) by {
                    if nodes@[j].row < q {
                        assert(rnodes[nodes@[j].row as int] == rnodes.drop_last()[nodes@[j].row as int]);
                    }
                }
            }
            q = q + 1;
        }
        proof {
            assert forall|p: int| 0 <= p < rows@.len() implies {
                &&& (#[trigger] rows@[p])@.no_duplicates()
                &&& forall|i: int| 0 <= i < rows@[p]@.len() ==> #[trigger] rows@[p]@[i] < num_cols
                &&& rows@[p]@.len() <= num_cols
            } by {
                lemma_set_columns(matrix, p, num_cols as int);
            }
        }
        let total = nodes.len();
        proof {
            assert forall|j: int|
                num_cols < j < nodes@.len() && 1 <= (#[trigger] nodes@[j]).column implies lists[nodes@[j].column
                - 1].contains(j as usize) || !in_column(nodes@, j) by {}
            assert(columns_ok(nodes@, num_cols as int, lists));
            assert(Seq::<Unlink>::empty().take(0) =~= Seq::<Unlink>::empty());
            let a = Seq::new(num_cols as nat, |i: int| (i + 1) as usize);
            assert forall|i: int| 0 <= i < a.len() implies {
                &&& (#[trigger] nodes@[a[i] as int]).left == if i == 0 { ROOT } else { a[i - 1] }
                &&& nodes@[a[i] as int].right == if i == a.len() - 1 { ROOT } else { a[i + 1] }
            } by {
                assert(nodes@[i + 1].left == ring_left(i + 1, num_cols as int));
            }
            assert(nodes@[ROOT as int].left == ring_left(0, num_cols as int));
            assert(nodes@[ROOT as int].right == ring_right(0, num_cols as int));
            assert forall|h: int| 1 <= h <= num_cols implies a.contains(h as usize) || !#[trigger] in_ring(
                nodes@,
                h,
            ) by {
                assert(a[h - 1] == h as usize);
            }
            assert(!a.contains(ROOT));
            assert(ring_ok(nodes@, num_cols as int, a));
            lemma_ring_unique(nodes@, num_cols as int, a, active_columns(nodes@, num_cols as int));
            assert forall|h: usize| #[trigger] a.contains(h) <==> 1 <= h <= num_cols by {
                if 1 <= h <= num_cols {
                    assert(a[h - 1] == h);
                }
            }
        }
        let d = DLX {
            nodes,
            num_cols,
            rows,
            row_heads,
            trail: Vec::new(),
            base: Ghost(nodes@),
            row_nodes: Ghost(rnodes),
        };
        assert(d.matrix().len() == matrix.rows());
        assert forall|p: int| 0 <= p < d.rows@.len() implies #[trigger] built_row(
            d.base@,
            d.num_cols as int,
            d.row_heads@[p] as int,
            d.row_nodes@[p],
            d.rows@[p]@,
            p,
        ) && d.rows@[p]@.len() <= d.num_cols by {
            assert(built_row(nodes@, num_cols as int, row_heads@[p] as int, rnodes[p], rows@[p]@, p));
        }
        proof {
            d.lemma_links_replay();
            let nn = num_cols as int;
            let sb = d.links();
            assert(sb == nodes@);
            assert forall|h: int, l: Seq<usize>|
                1 <= h <= nn && active_columns(sb, nn).contains(h as usize) && #[trigger] column_list(sb, h, l) implies forall|x: usize|
                    #[trigger] l.contains(x) <==> (nn < x < sb.len() && sb[x as int].column == h && d.row_active(
                        sb,
                        sb[x as int].row as int,
                    )) by {
                assert(column_list(sb, (h - 1) + 1, lists[h - 1]));
                lemma_column_list_unique(sb, h, l, lists[h - 1]);
                assert forall|x: usize| #[trigger] l.contains(x) <==> (nn < x < sb.len() && sb[x as int].column == h
                    && d.row_active(sb, sb[x as int].row as int)) by {
                    if nn < x < sb.len() && sb[x as int].column == h {
                        let q = sb[x as int].row as int;
                        assert(sb[x as int].column != ROOT);
                        assert(d.base@[x as int].row < d.rows@.len());
                        assert forall|k: usize| #[trigger] d.matrix()[q].contains(k) implies active_columns(
                            sb,
                            nn,
                        ).contains((k + 1) as usize) by {
                            let u = choose|u: int| 0 <= u < d.matrix()[q].len() && d.matrix()[q][u] == k;
                            assert(d.matrix()[q] == d.rows@[q]@);
                            assert(k < nn);
                        }
                    }
                    if l.contains(x) {
                        let u = choose|u: int| 0 <= u < l.len() && l[u] == x;
                        assert(nn < l[u] < sb.len());
                    }
                }
            }
        }
        assert forall|k: int| 0 <= k < matrix.cols() implies exists|l: Seq<usize>|
            column_list(d.links(), k + 1, l) && l.len() == (#[trigger] d.links()[k + 1]).size by {
            assert(column_list(d.links(), k + 1, lists[k]));
        }
        d
    }

    /// Matrix row `q` is active in the links `s`: each of its columns is active.
    pub open spec fn row_active(&self, s: Seq<Node>, q: int) -> bool {
        forall|k: usize|
            #[trigger] self.matrix()[q].contains(k) ==> active_columns(s, self.columns() as int).contains(
                (k + 1) as usize,
            )
    }

    /// In the links `s`, every active column's list holds exactly the data nodes of that
    /// column whose matrix row is active.
    pub open spec fn lists_match_rows(&self, s: Seq<Node>) -> bool {
        forall|h: int, l: Seq<usize>|
            1 <= h <= self.columns() && active_columns(s, self.columns() as int).contains(h as usize)
                && #[trigger] column_list(s, h, l) ==> forall|x: usize|
                #[trigger] l.contains(x) <==> (self.columns() < x < s.len() && s[x as int].column == h
                    && self.row_active(s, s[x as int].row as int))
    }

    /// A data node lies in row `base[x].row`, in the column its row has at that position.
    proof fn lemma_node_in_row(&self, s: Seq<Node>, x: int)
        requires
            self.wf(),
            rows_static(s, self.initial(), self.columns() as int),
            self.columns() < x < s.len(),
            s.len() <= usize::MAX,
            s[x].column != ROOT,
        ensures
            0 <= s[x].row < self.matrix().len(),
            self.matrix()[s[x].row as int].contains((s[x].column - 1) as usize),
    {
        let q = self.base@[x].row as int;
        assert(self.base@[x].column == s[x].column && self.base@[x].row == s[x].row);
        assert(self.row_nodes@[q].contains(x as usize));
        let l = self.row_nodes@[q];
        let t = choose|t: int| 0 <= t < l.len() && l[t] == x as usize;
        assert(built_row(self.base@, self.num_cols as int, self.row_heads@[q] as int, l, self.rows@[q]@, q));
        assert(self.matrix()[q] == self.rows@[q]@);
        assert(self.base@[l[t] as int].column == self.rows@[q]@[t] + 1);
        assert(l[t] as int == x);
        assert(self.matrix()[q][t] == (s[x].column - 1) as usize);
    }

    /// The data node of row `q` in column `k + 1`, for a column `k` of the row.
    proof fn lemma_row_has_node(&self, s: Seq<Node>, q: int, k: usize) -> (y: usize)
        requires
            self.wf(),
            rows_static(s, self.initial(), self.columns() as int),
            s.len() == self.initial().len(),
            0 <= q < self.matrix().len(),
            self.matrix()[q].contains(k),
        ensures
            self.columns() < y < s.len(),
            s[y as int].column == k + 1,
            s[y as int].row == q,
    {
        let l = self.row_nodes@[q];
        let cols = self.rows@[q]@;
        assert(self.matrix()[q] == cols);
        assert(built_row(self.base@, self.num_cols as int, self.row_heads@[q] as int, l, cols, q));
        let t = choose|t: int| 0 <= t < cols.len() && cols[t] == k;
        assert(self.base@[l[t] as int].column == cols[t] + 1);
        l[t]
    }

    /// Covering an active column `c`, with the effect `cover` states, keeps every active
    /// column's list equal to the data nodes of active rows.
    proof fn lemma_cover_keeps_match(&self, s0: Seq<Node>, c: int, lc: Seq<usize>)
        requires
            self.wf(),
            s0.len() == self.links().len(),
            rows_static(s0, self.initial(), self.columns() as int),
            self.lists_match_rows(s0),
            1 <= c <= self.columns(),
            active_columns(s0, self.columns() as int).contains(c as usize),
            column_list(s0, c, lc),
            forall|h: usize|
                #[trigger] active_columns(self.links(), self.columns() as int).contains(h) <==> (
                active_columns(s0, self.columns() as int).contains(h) && h != c),
            forall|h: int, l: Seq<usize>|
                1 <= h <= self.columns() && h != c && #[trigger] column_list(s0, h, l) ==> exists|l2: Seq<usize>|
                    column_list(self.links(), h, l2) && forall|x: usize|
                        #[trigger] l2.contains(x) <==> (l.contains(x) && !row_meets(
                            s0,
                            lc,
                            lc.len() as int,
                            s0[x as int].row,
                        )),
            sizes_match(s0, self.columns() as int),
        ensures
            self.lists_match_rows(self.links()),
    {
        let n = self.columns() as int;
        let s = self.links();
        self.lemma_current();
        let lists_s = choose|lists: Seq<Seq<usize>>| columns_ok(s, n, lists);
        assert(columns_ok(s, n, lists_s));
        assert forall|h: int, l2: Seq<usize>|
            1 <= h <= n && active_columns(s, n).contains(h as usize) && #[trigger] column_list(s, h, l2) implies forall|x: usize|
                #[trigger] l2.contains(x) <==> (n < x < s.len() && s[x as int].column == h && self.row_active(
                    s,
                    s[x as int].row as int,
                )) by {
            assert(active_columns(s0, n).contains(h as usize) && h != c);
            let lists0 = choose|lists: Seq<Seq<usize>>| columns_ok(s0, n, lists);
            let l = lists0[h - 1];
            assert(column_list(s0, (h - 1) + 1, l));
            let l3 = choose|l3: Seq<usize>| column_list(s, h, l3) && forall|x: usize|
                #[trigger] l3.contains(x) <==> (l.contains(x) && !row_meets(s0, lc, lc.len() as int, s0[x as int].row));
            lemma_column_list_unique(s, h, l2, l3);
            assert forall|x: usize| #[trigger] l2.contains(x) <==> (n < x < s.len() && s[x as int].column == h
                && self.row_active(s, s[x as int].row as int)) by {
                if n < x < s.len() && s[x as int].column == h {
                    let q = s[x as int].row as int;
                    assert(s0[x as int].column == s[x as int].column && s0[x as int].row == s[x as int].row);
                    self.lemma_node_in_row(s, x as int);
                    // the row is active now exactly when it was and does not meet c
                    assert(self.row_active(s, q) <==> (self.row_active(s0, q) && !self.matrix()[q].contains(
                        (c - 1) as usize,
                    ))) by {
                        if self.row_active(s, q) && self.matrix()[q].contains((c - 1) as usize) {
                            assert(active_columns(s, n).contains(((c - 1) as usize + 1) as usize));
                        }
                        if self.row_active(s0, q) && !self.matrix()[q].contains((c - 1) as usize) {
                            assert forall|k: usize| #[trigger] self.matrix()[q].contains(k) implies active_columns(
                                s,
                                n,
                            ).contains((k + 1) as usize) by {
                                assert(active_columns(s0, n).contains((k + 1) as usize));
                                assert(k != (c - 1) as usize);
                            }
                        }
                        if self.row_active(s, q) {
                            assert forall|k: usize| #[trigger] self.matrix()[q].contains(k) implies active_columns(
                                s0,
                                n,
                            ).contains((k + 1) as usize) by {
                                assert(active_columns(s, n).contains((k + 1) as usize));
                            }
                        }
                    }
                    // an active row meets c's list exactly when it has a one in column c
                    if self.row_active(s0, q) {
                        if row_meets(s0, lc, lc.len() as int, s0[x as int].row) {
                            let u = choose|u: int| 0 <= u < lc.len() && #[trigger] s0[lc[u] as int].row == s0[x as int].row;
                            let ls = lists0[c - 1];
                            assert(column_list(s0, (c - 1) + 1, ls));
                            lemma_column_list_unique(s0, c, lc, ls);
                            assert(n < lc[u] < s0.len());
                            assert(s0[lc[u] as int].column == c);
                            self.lemma_node_in_row(s0, lc[u] as int);
                        }
                        if self.matrix()[q].contains((c - 1) as usize) {
                            let y = self.lemma_row_has_node(s0, q, (c - 1) as usize);
                            assert(lc.contains(y));
                            let u = choose|u: int| 0 <= u < lc.len() && lc[u] == y;
                            assert(s0[lc[u] as int].row == s0[x as int].row);
                        }
                    }
                }
                if l2.contains(x) {
                    assert(l.contains(x));
                    assert(n < x < s0.len());
                    assert(s0[x as int].column == h);
                }
            }
        }
    }

    /// The links are always those of the build with the recorded steps replayed on them, and
    /// every matrix row is still threaded through its header as it was built.
    pub proof fn lemma_links_replay(&self)
        requires
            self.wf(),
        ensures
            self.links() == replay(self.initial(), self.steps()),
            bounded(self.initial()),
            replayable(self.initial(), self.steps()),
            forall|q: int|
                0 <= q < self.matrix().len() ==> #[trigger] built_row(
                    self.links(),
                    self.columns() as int,
                    self.row_head(q),
                    self.row_nodes(q),
                    self.matrix()[q],
                    q,
                ),
    {
        self.lemma_current();
        assert forall|q: int|
            0 <= q < self.matrix().len() implies #[trigger] built_row(
                self.links(),
                self.columns() as int,
                self.row_head(q),
                self.row_nodes(q),
                self.matrix()[q],
                q,
            ) by {
            assert(self.matrix()[q] == self.rows@[q]@);
            assert(built_row(self.base@, self.num_cols as int, self.row_heads@[q] as int, self.row_nodes@[q], self.rows@[q]@, q));
            if self.rows@[q]@.len() > 0 {
                lemma_row_list_static(self.links(), self.base@, self.num_cols as int, self.row_heads@[q] as int, self.row_nodes@[q], self.rows@[q]@, q);
            }
        }
    }

    /// Whenever the structure is well formed (on entry to and exit from every operation,
    /// every step of the search included), each column's `size` is the number of data nodes
    /// met walking down from its header until the header comes back, covered or not.
    pub proof fn lemma_sizes_match(&self)
        requires
            self.wf(),
        ensures
            sizes_match(self.links(), self.columns() as int),
            forall|h: int|
                1 <= h <= self.columns() ==> exists|l: Seq<usize>|
                    column_list(self.links(), h, l) && l.len() == (#[trigger] self.links()[h]).size,
    {
        assert(self.trail@.take(self.trail@.len() as int) =~= self.trail@);
        assert(links_ok(
            replay(self.base@, self.trail@.take(self.trail@.len() as int)),
            self.base@,
            self.num_cols as int,
        ));
        let lists = choose|lists: Seq<Seq<usize>>| columns_ok(self.links(), self.columns() as int, lists);
        assert forall|h: int| 1 <= h <= self.columns() implies exists|l: Seq<usize>|
            column_list(self.links(), h, l) && l.len() == (#[trigger] self.links()[h]).size by {
            assert(column_list(self.links(), (h - 1) + 1, lists[h - 1]) && lists[h - 1].len() == self.links()[(h - 1) + 1].size);
        }
    }

    /// The matrix's columns are numbered below the number of columns, which leaves room for
    /// their headers in the arena.
    pub proof fn lemma_matrix_bounds(&self)
        requires
            self.wf(),
        ensures
            forall|q: int, i: int|
                0 <= q < self.matrix().len() && 0 <= i < self.matrix()[q].len() ==> #[trigger] self.matrix()[q][i]
                    < self.columns(),
            self.columns() < self.links().len() <= usize::MAX,
    {
        self.lemma_current();
        assert forall|q: int, i: int|
            0 <= q < self.matrix().len() && 0 <= i < self.matrix()[q].len() implies #[trigger] self.matrix()[q][i]
            < self.columns() by {
            assert(self.matrix()[q] == self.rows@[q]@);
        }
        let lists = choose|lists: Seq<Seq<usize>>| columns_ok(self.links(), self.columns() as int, lists);
        assert(columns_ok(self.links(), self.columns() as int, lists));
    }

    /// The links as they stand have every count right and form the ring of active columns.
    proof fn lemma_current(&self)
        requires
            self.wf(),
        ensures
            sizes_match(self.links(), self.columns() as int),
            ring_matches(self.links(), self.columns() as int),
            rows_static(self.links(), self.initial(), self.columns() as int),
    {
        assert(self.trail@.take(self.trail@.len() as int) =~= self.trail@);
        assert(links_ok(
            replay(self.base@, self.trail@.take(self.trail@.len() as int)),
            self.base@,
            self.num_cols as int,
        ));
    }

    /// After one step is pushed on `t`, whose replay has every count right, every prefix of
    /// the steps replays to links with every count right.
    proof fn lemma_steps_pushed(&self, t: Seq<Unlink>)
        requires
            self.trail@.len() == t.len() + 1,
            self.trail@.drop_last() == t,
            self.nodes@ == replay(self.base@, self.trail@),
            sizes_match(self.nodes@, self.num_cols as int),
            ring_matches(self.nodes@, self.num_cols as int),
            rows_static(self.nodes@, self.base@, self.num_cols as int),
            forall|m: int|
                0 <= m <= t.len() ==> #[trigger] links_ok(replay(self.base@, t.take(m)), self.base@, self.num_cols as int),
        ensures
            forall|m: int|
                0 <= m <= self.trail@.len() ==> #[trigger] links_ok(replay(self.base@, self.trail@.take(m)), self.base@, self.num_cols as int),
    {
        assert forall|m: int| 0 <= m <= self.trail@.len() implies #[trigger] links_ok(replay(self.base@, self.trail@.take(m)), self.base@, self.num_cols as int) by {
            if m == self.trail@.len() {
                assert(self.trail@.take(m) =~= self.trail@);
                assert(replay(self.base@, self.trail@.take(m)) == self.nodes@);
            } else {
                assert(self.trail@.take(m) =~= t.take(m));
                assert(links_ok(replay(self.base@, t.take(m)), self.base@, self.num_cols as int));
            }
        }
    }

    /// Takes column header `c` out of the ring if it is an active column.
    #[verifier::spinoff_prover]
    fn unlink_from_ring(&mut self, c: usize) -> (done: bool)
        requires
            old(self).wf(),
            c < old(self).links().len(),
        ensures
            final(self).wf(),
            final(self).initial() == old(self).initial(),
            final(self).matrix() == old(self).matrix(),
            final(self).columns() == old(self).columns(),
            done == active_columns(old(self).links(), old(self).columns() as int).contains(c),
            done ==> final(self).steps() == old(self).steps().push(Unlink::FromRing(c)),
            !done ==> final(self).steps() == old(self).steps(),
            done ==> forall|h: usize|
                #[trigger] active_columns(final(self).links(), final(self).columns() as int).contains(h)
                    <==> (active_columns(old(self).links(), old(self).columns() as int).contains(h) && h
                    != c),
    {
        proof {
            self.lemma_current();
            if active_columns(self.nodes@, self.num_cols as int).contains(c) {
                lemma_active_in_ring(self.nodes@, self.num_cols as int, c as int);
            }
        }
        if c == ROOT || c > self.num_cols {
            return false;
        }
        let l = self.nodes[c].left;
        let r = self.nodes[c].right;
        if self.nodes[l].right != c || self.nodes[r].left != c {
            return false;
        }
        proof {
            lemma_apply_bounded(self.nodes@, Unlink::FromRing(c));
        }
        let ghost t = self.trail@;
        let mut nr = self.nodes[r];
        nr.left = l;
        self.nodes.set(r, nr);
        let mut nl = self.nodes[l];
        nl.right = r;
        self.nodes.set(l, nl);
        self.trail.push(Unlink::FromRing(c));
        assert(self.trail@.drop_last() =~= t);
        assert(self.nodes@ =~= take_from_ring(old(self).nodes@, c as int));
        proof {
            assert(t.take(t.len() as int) =~= t);
            lemma_ring_step_keeps_columns(old(self).nodes@, self.num_cols as int, c as int);
            lemma_ring_step_keeps_ring(old(self).nodes@, self.num_cols as int, c as int);
            lemma_ring_neighbours(old(self).nodes@, self.num_cols as int, c as int);
            lemma_ring_step_keeps_rows(old(self).nodes@, self.base@, self.num_cols as int, c as int);
            self.lemma_steps_pushed(t);
        }
        true
    }

    /// Takes node `j` out of its column if it is linked there and the column's count allows.
    #[verifier::spinoff_prover]
    fn unlink_from_column(&mut self, j: usize)
        requires
            old(self).wf(),
            j < old(self).links().len(),
        ensures
            final(self).wf(),
            final(self).initial() == old(self).initial(),
            final(self).matrix() == old(self).matrix(),
            final(self).columns() == old(self).columns(),
            final(self).steps() == old(self).steps().push(Unlink::FromColumn(j))
                || final(self).steps() == old(self).steps(),
            active_columns(final(self).links(), final(self).columns() as int) == active_columns(
                old(self).links(),
                old(self).columns() as int,
            ),
            final(self).links() == if old(self).columns() < j && in_column(old(self).links(), j as int)
                && old(self).links()[old(self).links()[j as int].column as int].size > 0 {
                take_from_column(old(self).links(), j as int)
            } else {
                old(self).links()
            },
    {
        proof {
            self.lemma_current();
        }
        let u = self.nodes[j].up;
        let d = self.nodes[j].down;
        let h = self.nodes[j].column;
        if j <= self.num_cols || self.nodes[u].down != j || self.nodes[d].up != j || self.nodes[h].size
            == 0 {
            return ;
        }
        proof {
            lemma_apply_bounded(self.nodes@, Unlink::FromColumn(j));
        }
        let ghost t = self.trail@;
        let mut nd = self.nodes[d];
        nd.up = u;
        self.nodes.set(d, nd);
        let mut nu = self.nodes[u];
        nu.down = d;
        self.nodes.set(u, nu);
        let mut nh = self.nodes[h];
        nh.size = nh.size - 1;
        self.nodes.set(h, nh);
        self.trail.push(Unlink::FromColumn(j));
        assert(self.trail@.drop_last() =~= t);
        assert(self.nodes@ =~= take_from_column(old(self).nodes@, j as int));
        proof {
            assert(t.take(t.len() as int) =~= t);
            lemma_column_step_keeps_columns(old(self).nodes@, self.num_cols as int, j as int);
            lemma_column_step_keeps_ring(old(self).nodes@, self.num_cols as int, j as int);
            lemma_column_step_keeps_rows(old(self).nodes@, self.base@, self.num_cols as int, j as int);
            self.lemma_steps_pushed(t);
        }
    }

    /// Undoes the last recorded step.
    fn undo_last(&mut self)
        requires
            old(self).wf(),
            old(self).steps().len() > 0,
        ensures
            final(self).wf(),
            final(self).initial() == old(self).initial(),
            final(self).matrix() == old(self).matrix(),
            final(self).columns() == old(self).columns(),
            final(self).steps() == old(self).steps().drop_last(),
    {
        let op = self.trail.pop().unwrap();
        let ghost prev = replay(self.base@, self.trail@);
        proof {
            assert(old(self).trail@.drop_last() =~= self.trail@);
            lemma_replay_bounded(self.base@, self.trail@);
            lemma_step_undone(prev, op);
        }
        match op {
            Unlink::FromRing(c) => {
                let l = self.nodes[c].left;
                let r = self.nodes[c].right;
                let mut nr = self.nodes[r];
                nr.left = c;
                self.nodes.set(r, nr);
                let mut nl = self.nodes[l];
                nl.right = c;
                self.nodes.set(l, nl);
            },
            Unlink::FromColumn(j) => {
                let u = self.nodes[j].up;
                let d = self.nodes[j].down;
                let h = self.nodes[j].column;
                let mut nh = self.nodes[h];
                nh.size = nh.size + 1;
                self.nodes.set(h, nh);
                let mut nd = self.nodes[d];
                nd.up = j;
                self.nodes.set(d, nd);
                let mut nu = self.nodes[u];
                nu.down = j;
                self.nodes.set(u, nu);
            },
        }
        assert(self.nodes@ =~= revert(old(self).nodes@, op));
        proof {
            let t0 = old(self).trail@;
            assert forall|m: int| 0 <= m <= self.trail@.len() implies #[trigger] links_ok(replay(self.base@, self.trail@.take(m)), self.base@, self.num_cols as int) by {
                assert(self.trail@.take(m) =~= t0.take(m));
                assert(links_ok(replay(self.base@, t0.take(m)), self.base@, self.num_cols as int));
            }
        }
    }

    /// Undoes, last first, every step after the first `mark`.
    pub fn restore(&mut self, mark: usize)
        requires
            old(self).wf(),
            mark <= old(self).steps().len(),
        ensures
            final(self).wf(),
            final(self).initial() == old(self).initial(),
            final(self).matrix() == old(self).matrix(),
            final(self).columns() == old(self).columns(),
            final(self).steps() == old(self).steps().take(mark as int),
            final(self).links() == replay(old(self).initial(), old(self).steps().take(mark as int)),
    {
        while self.trail.len() > mark
            invariant
                self.wf(),
                self.initial() == old(self).initial(),
                self.matrix() == old(self).matrix(),
                self.columns() == old(self).columns(),
                mark <= self.steps().len() <= old(self).steps().len(),
                self.steps() == old(self).steps().take(self.steps().len() as int),
            decreases self.trail.len(),
        {
            self.undo_last();
        }
        assert(self.steps() =~= old(self).steps().take(mark as int));
    }

    /// Covers column header `c`: takes it out of the ring, then, for each node `i` of its
    /// column from the top down, takes every other node of `i`'s row out of that node's
    /// column. Returns `false`, changing nothing, when `c` is not an active column (it is
    /// covered already). Afterwards `c`'s own list is as it was, and every other column's
    /// list has lost exactly the nodes whose row meets `c`.
    #[verifier::rlimit(100)]
    pub fn cover(&mut self, c: usize) -> (done: bool)
        requires
            old(self).wf(),
            c < old(self).links().len(),
        ensures
            final(self).wf(),
            final(self).initial() == old(self).initial(),
            final(self).matrix() == old(self).matrix(),
            final(self).columns() == old(self).columns(),
            done == active_columns(old(self).links(), old(self).columns() as int).contains(c),
            !done ==> final(self).steps() == old(self).steps(),
            done ==> forall|h: usize|
                #[trigger] active_columns(final(self).links(), final(self).columns() as int).contains(h)
                    <==> (active_columns(old(self).links(), old(self).columns() as int).contains(h) && h
                    != c),
            done ==> final(self).steps().len() > old(self).steps().len(),
            done ==> final(self).steps().take(old(self).steps().len() + 1int) == old(self).steps().push(
                Unlink::FromRing(c),
            ),
            forall|i: int|
                old(self).steps().len() < i < final(self).steps().len()
                    ==> #[trigger] final(self).steps()[i] is FromColumn,
            done ==> forall|lc: Seq<usize>|
                #[trigger] column_list(old(self).links(), c as int, lc) ==> column_list(
                    final(self).links(),
                    c as int,
                    lc,
                ) && final(self).links()[c as int].size == lc.len(),
            done ==> forall|h: int, lc: Seq<usize>, l: Seq<usize>|
                1 <= h <= old(self).columns() && h != c && #[trigger] column_list(
                    old(self).links(),
                    c as int,
                    lc,
                ) && #[trigger] column_list(old(self).links(), h, l) ==> exists|l2: Seq<usize>|
                    column_list(final(self).links(), h, l2) && final(self).links()[h].size == l2.len()
                        && forall|x: usize|
                        #[trigger] l2.contains(x) <==> (l.contains(x) && !row_meets(
                            old(self).links(),
                            lc,
                            lc.len() as int,
                            old(self).links()[x as int].row,
                        )),
            old(self).lists_match_rows(old(self).links()) ==> final(self).lists_match_rows(final(self).links()),
    {
        let ghost s0 = self.links();
        proof {
            self.lemma_current();
            self.lemma_links_replay();
        }
        if !self.unlink_from_ring(c) {
            return false;
        }
        let ghost start = self.trail@;
        let ghost after = active_columns(self.links(), self.columns() as int);
        let ghost s1 = self.links();
        proof {
            self.lemma_links_replay();
            assert(self.steps().drop_last() =~= old(self).steps());
            assert(s0 == old(self).links());
            lemma_active_in_ring(s0, self.num_cols as int, c as int);
            assert(s1 == take_from_ring(s0, c as int));
        }
        let ghost n0 = self.num_cols as int;
        proof {
            self.lemma_current();
            lemma_active_in_ring(old(self).links(), n0, c as int);
        }
        let ghost lists0 = choose|lists: Seq<Seq<usize>>| columns_ok(s1, n0, lists);
        let ghost lc = lists0[c - 1];
        let ghost mut lists = lists0;
        proof {
            assert(columns_ok(s1, n0, lists0));
            assert(column_list(s1, c as int, lc));
        }
        let count = self.nodes[c].size;
        let n = self.nodes.len();
        let mut i = self.nodes[c].down;
        let mut t: usize = 0;
        while t < count
            invariant
                self.wf(),
                self.initial() == old(self).initial(),
                self.matrix() == old(self).matrix(),
                self.columns() == old(self).columns(),
                n0 == self.num_cols,
                n == self.links().len(),
                1 <= c <= n0,
                columns_ok(s1, n0, lists0),
                lc == lists0[c - 1],
                count == lc.len(),
                rows_static(s1, self.initial(), n0),
                columns_ok(self.links(), n0, lists),
                lists[c - 1] == lc,
                t <= count,
                i == if t < count { lc[t as int] } else { c },
                forall|h: int, x: usize|
                    1 <= h <= n0 ==> (#[trigger] lists[h - 1].contains(x) <==> lists0[h - 1].contains(x) && (h
                        == c || !row_meets(s1, lc, t as int, s1[x as int].row))),
                start == old(self).steps().push(Unlink::FromRing(c)),
                self.steps().len() >= start.len(),
                self.steps().take(start.len() as int) == start,
                forall|k: int|
                    start.len() <= k < self.steps().len() ==> #[trigger] self.steps()[k] is FromColumn,
                active_columns(self.links(), self.columns() as int) == after,
                forall|h: usize|
                    #[trigger] after.contains(h) <==> (active_columns(
                        old(self).links(),
                        old(self).columns() as int,
                    ).contains(h) && h != c),
            decreases count - t,
        {
            proof {
                self.lemma_links_replay();
                self.lemma_current();
                assert(column_list(self.links(), c as int, lc));
                assert(n0 < lc[t as int] < s1.len());
            }
            let q = self.nodes[i].row;
            let ghost cq = self.matrix()[q as int];
            let ghost lq = self.row_nodes(q as int);
            proof {
                assert(s1[i as int].column == c);
                assert(self.links()[i as int].column == c);
                assert(self.base@[i as int].column == c && self.base@[i as int].row == q);
                assert(q < self.rows@.len());
                assert(self.row_nodes@[q as int].contains(i));
                assert(cq == self.rows@[q as int]@);
                assert(built_row(self.links(), n0, self.row_head(q as int), lq, cq, q as int));
                assert(lq.len() > 0);
                assert(cq.len() > 0);
            }
            let head = self.row_heads[q];
            let len = self.rows[q].len();
            let ghost pi = choose|x: int| 0 <= x < lq.len() && lq[x] == i;
            let mut j = self.nodes[head].right;
            let mut w: usize = 0;
            while w < len
                invariant
                    self.wf(),
                    self.initial() == old(self).initial(),
                    self.matrix() == old(self).matrix(),
                    self.columns() == old(self).columns(),
                    n0 == self.num_cols,
                    n == self.links().len(),
                    1 <= c <= n0,
                    columns_ok(s1, n0, lists0),
                    lc == lists0[c - 1],
                    count == lc.len(),
                    rows_static(s1, self.initial(), n0),
                    columns_ok(self.links(), n0, lists),
                    lists[c - 1] == lc,
                    t < count,
                    i == lc[t as int],
                    q == s1[i as int].row,
                    cq == self.matrix()[q as int],
                    cq.no_duplicates(),
                    len == cq.len(),
                    built_row(self.initial(), n0, head as int, lq, cq, q as int),
                    cq.len() > 0,
                    0 <= pi < lq.len(),
                    lq[pi] == i,
                    w <= len,
                    j == if w < len { lq[w as int] } else { head },
                    forall|h: int, x: usize|
                        1 <= h <= n0 ==> (#[trigger] lists[h - 1].contains(x) <==> lists0[h - 1].contains(x)
                            && (h == c || !(row_meets(s1, lc, t as int, s1[x as int].row) || (s1[x as int].row
                            == q && lq.take(w as int).contains(x))))),
                    start == old(self).steps().push(Unlink::FromRing(c)),
                    self.steps().len() >= start.len(),
                    self.steps().take(start.len() as int) == start,
                    forall|k: int|
                        start.len() <= k < self.steps().len() ==> #[trigger] self.steps()[k] is FromColumn,
                    active_columns(self.links(), self.columns() as int) == after,
                decreases len - w,
            {
                proof {
                    self.lemma_current();
                    lemma_row_list_static(self.links(), self.base@, n0, head as int, lq, cq, q as int);
                    assert(n0 < lq[w as int] < self.links().len());
                }
                if j != i {
                    let ghost before = self.trail@;
                    let ghost sb = self.links();
                    let ghost hj = sb[j as int].column as int;
                    proof {
                        assert(hj == cq[w as int] + 1);
                        assert(c == cq[pi] + 1);
                        assert(w != pi);
                        assert(hj != c);
                        assert(s1[j as int].row == q);
                        lemma_linked_iff_listed(sb, n0, lists, j as int);
                    }
                    self.unlink_from_column(j);
                    proof {
                        assert(self.steps().take(start.len() as int) =~= before.take(start.len() as int));
                        if lists[hj - 1].contains(j) {
                            let lh = lists[hj - 1];
                            let pj = choose|x: int| 0 <= x < lh.len() && lh[x] == j;
                            lemma_column_step_explicit(sb, n0, lists, j as int, pj);
                            let new_lists = lists.update(hj - 1, lh.remove(pj));
                            assert(lh.no_duplicates());
                            lemma_removed_membership(lists, n0, hj, pj);
                            lists = new_lists;
                        }
                    }
                }
                proof {
                    lemma_take_step(lq, w as int);
                    self.lemma_current();
                    lemma_row_list_static(self.links(), self.base@, n0, head as int, lq, cq, q as int);
                }
                j = self.nodes[j].right;
                w = w + 1;
            }
            proof {
                self.lemma_links_replay();
                self.lemma_current();
                assert(column_list(self.links(), c as int, lc));
                assert forall|h: int, x: usize| 1 <= h <= n0 implies (#[trigger] lists[h - 1].contains(x)
                    <==> lists0[h - 1].contains(x) && (h == c || !row_meets(s1, lc, t + 1, s1[x as int].row))) by {
                    if row_meets(s1, lc, t + 1, s1[x as int].row) && !row_meets(s1, lc, t as int, s1[x as int].row) {
                        let u = choose|u: int| 0 <= u < t + 1 && #[trigger] s1[lc[u] as int].row == s1[x as int].row;
                        assert(u == t);
                        if lists0[h - 1].contains(x) {
                            assert(s1[x as int].column == h);
                            assert(n0 < x);
                            assert(self.base@[x as int].column != ROOT);
                            assert(self.row_nodes@[q as int].contains(x));
                            assert(lq.take(w as int) =~= lq);
                        }
                    }
                    if row_meets(s1, lc, t as int, s1[x as int].row) {
                        let u = choose|u: int| 0 <= u < t && #[trigger] s1[lc[u] as int].row == s1[x as int].row;
                        assert(s1[lc[u] as int].row == s1[x as int].row);
                    }
                    if s1[x as int].row == q {
                        assert(s1[lc[t as int] as int].row == s1[x as int].row);
                    }
                }
            }
            i = self.nodes[i].down;
            t = t + 1;
        }
        proof {
            self.lemma_current();
            assert forall|lc2: Seq<usize>| #[trigger] column_list(old(self).links(), c as int, lc2) implies column_list(
                self.links(),
                c as int,
                lc2,
            ) && self.links()[c as int].size == lc2.len() by {
                lemma_list_through_ring_step(s0, c as int, n0, lists0, c as int, lc2);
            }
            assert forall|h: int, lc2: Seq<usize>, l: Seq<usize>|
                1 <= h <= n0 && h != c && #[trigger] column_list(old(self).links(), c as int, lc2)
                    && #[trigger] column_list(old(self).links(), h, l) implies exists|l2: Seq<usize>|
                    column_list(self.links(), h, l2) && self.links()[h].size == l2.len() && forall|x: usize|
                        #[trigger] l2.contains(x) <==> (l.contains(x) && !row_meets(
                            old(self).links(),
                            lc2,
                            lc2.len() as int,
                            old(self).links()[x as int].row,
                        )) by {
                lemma_list_through_ring_step(s0, c as int, n0, lists0, c as int, lc2);
                lemma_list_through_ring_step(s0, c as int, n0, lists0, h, l);
                let l2 = lists[h - 1];
                assert(column_list(self.links(), h, l2));
                assert forall|x: usize| #[trigger] l2.contains(x) <==> (l.contains(x) && !row_meets(
                    old(self).links(),
                    lc2,
                    lc2.len() as int,
                    old(self).links()[x as int].row,
                )) by {
                    if l.contains(x) {
                        assert(n0 < x < s1.len());
                        assert(old(self).links()[x as int].row == s1[x as int].row);
                        if row_meets(old(self).links(), lc2, lc2.len() as int, old(self).links()[x as int].row) {
                            let u = choose|u: int| 0 <= u < lc2.len() && #[trigger] old(self).links()[lc2[u] as int].row == old(self).links()[x as int].row;
                            assert(n0 < lc2[u] < s1.len());
                            assert(s1[lc2[u] as int].row == old(self).links()[lc2[u] as int].row);
                        }
                        if row_meets(s1, lc, lc.len() as int, s1[x as int].row) {
                            let u = choose|u: int| 0 <= u < lc.len() && #[trigger] s1[lc[u] as int].row == s1[x as int].row;
                            assert(n0 < lc[u] < s1.len());
                            assert(s1[lc[u] as int].row == old(self).links()[lc[u] as int].row);
                        }
                    }
                }
            }
            if old(self).lists_match_rows(old(self).links()) {
                assert(rows_static(s0, self.initial(), n0));
                assert(column_list(s0, c as int, lc)) by {
                    let lists_old = choose|lists: Seq<Seq<usize>>| columns_ok(s0, n0, lists);
                    assert(column_list(s0, (c - 1) + 1, lists_old[c - 1]));
                    lemma_list_through_ring_step(s0, c as int, n0, lists0, c as int, lists_old[c - 1]);
                }
                self.lemma_cover_keeps_match(s0, c as int, lc);
            }
        }
        true
    }

    /// Uncovers column header `c`: undoes, last first, every step back to and including the
    /// last time `c` was covered.
    pub fn uncover(&mut self, c: usize)
        requires
            old(self).wf(),
            last_ring_step(old(self).steps(), c) >= 0,
        ensures
            final(self).wf(),
            final(self).initial() == old(self).initial(),
            final(self).matrix() == old(self).matrix(),
            final(self).columns() == old(self).columns(),
            final(self).steps() == old(self).steps().take(last_ring_step(old(self).steps(), c)),
            final(self).links() == replay(
                old(self).initial(),
                old(self).steps().take(last_ring_step(old(self).steps(), c)),
            ),
    {
        let ghost p = last_ring_step(old(self).steps(), c);
        proof {
            lemma_last_ring_step_bound(old(self).steps(), c);
            assert(old(self).steps().take(old(self).steps().len() as int) =~= old(self).steps());
        }
        loop
            invariant
                self.wf(),
                self.initial() == old(self).initial(),
                self.matrix() == old(self).matrix(),
                self.columns() == old(self).columns(),
                p == last_ring_step(old(self).steps(), c),
                0 <= p < self.steps().len(),
                self.steps().len() <= old(self).steps().len(),
                self.steps() == old(self).steps().take(self.steps().len() as int),
                last_ring_step(self.steps(), c) == p,
            decreases self.trail.len(),
        {
            let last = self.trail[self.trail.len() - 1];
            let ghost t = self.steps();
            proof {
                lemma_last_ring_step_bound(t.drop_last(), c);
            }
            self.undo_last();
            match last {
                Unlink::FromRing(k) => {
                    if k == c {
                        assert(last == t.last());
                        assert(p == t.len() - 1);
                        assert(self.steps() =~= old(self).steps().take(p));
                        return ;
                    }
                },
                Unlink::FromColumn(_) => {},
            }
            assert(t.last() != Unlink::FromRing(c));
            assert(self.steps() =~= old(self).steps().take(self.steps().len() as int));
        }
    }

    /// Covers every column in which matrix row `q` has a one, walking the row from its
    /// header. Returns `false` as soon as one of them is covered already; it returns `true`
    /// exactly when all of them were active, and then they are covered and every other
    /// column is as active as it was.
    pub fn cover_row(&mut self, q: usize) -> (done: bool)
        requires
            old(self).wf(),
            q < old(self).matrix().len(),
        ensures
            final(self).wf(),
            final(self).initial() == old(self).initial(),
            final(self).matrix() == old(self).matrix(),
            final(self).columns() == old(self).columns(),
            final(self).steps().len() >= old(self).steps().len(),
            final(self).steps().take(old(self).steps().len() as int) == old(self).steps(),
            done == forall|k: usize|
                #[trigger] old(self).matrix()[q as int].contains(k) ==> active_columns(
                    old(self).links(),
                    old(self).columns() as int,
                ).contains((k + 1) as usize),
            done ==> forall|h: usize|
                #[trigger] active_columns(final(self).links(), final(self).columns() as int).contains(h)
                    <==> (active_columns(old(self).links(), old(self).columns() as int).contains(h)
                    && !(h >= 1 && old(self).matrix()[q as int].contains((h - 1) as usize))),
            old(self).lists_match_rows(old(self).links()) ==> final(self).lists_match_rows(final(self).links()),
    {
        let ghost matched = self.lists_match_rows(self.links());
        let head = self.row_heads[q];
        let n = self.nodes.len();
        let ghost start = self.steps();
        let ghost act0 = active_columns(self.links(), self.columns() as int);
        let ghost cols = self.rows@[q as int]@;
        let ghost l = self.row_nodes@[q as int];
        assert(start.take(start.len() as int) =~= start);
        proof {
            assert(built_row(self.base@, self.num_cols as int, head as int, l, cols, q as int));
            assert(self.matrix()[q as int] == cols);
        }
        if head == ROOT {
            return true;
        }
        proof {
            self.lemma_current();
        }
        let mut j = self.nodes[head].right;
        let mut walked: usize = 0;
        while j != head && walked < n
            invariant
                self.wf(),
                self.initial() == old(self).initial(),
                self.matrix() == old(self).matrix(),
                self.columns() == old(self).columns(),
                act0 == active_columns(old(self).links(), old(self).columns() as int),
                cols == old(self).matrix()[q as int],
                cols.no_duplicates(),
                forall|i: int| 0 <= i < cols.len() ==> #[trigger] cols[i] < self.num_cols,
                cols.len() <= self.num_cols,
                built_row(self.base@, self.num_cols as int, head as int, l, cols, q as int),
                cols.len() > 0,
                n == self.links().len(),
                self.num_cols < n,
                head < n,
                walked <= cols.len(),
                j == if walked < cols.len() { l[walked as int] } else { head },
                start == old(self).steps(),
                matched == old(self).lists_match_rows(old(self).links()),
                matched ==> self.lists_match_rows(self.links()),
                self.steps().len() >= start.len(),
                self.steps().take(start.len() as int) == start,
                forall|i: int| 0 <= i < walked ==> act0.contains((#[trigger] cols[i] + 1) as usize),
                forall|h: usize|
                    #[trigger] active_columns(self.links(), self.columns() as int).contains(h) <==> (
                    act0.contains(h) && !(h >= 1 && cols.take(walked as int).contains((h - 1) as usize))),
            decreases n - walked,
        {
            proof {
                self.lemma_current();
                lemma_row_list_static(self.links(), self.base@, self.num_cols as int, head as int, l, cols, q as int);
            }
            let c = self.nodes[j].column;
            let ghost before = self.steps();
            let ghost act = active_columns(self.links(), self.columns() as int);
            proof {
                assert(c == cols[walked as int] + 1);
                assert(!cols.take(walked as int).contains(cols[walked as int])) by {
                    if cols.take(walked as int).contains(cols[walked as int]) {
                        let i = choose|i: int| 0 <= i < walked && cols.take(walked as int)[i] == cols[walked as int];
                        assert(cols[i] == cols[walked as int]);
                    }
                }
                assert(act.contains(c) <==> act0.contains(c));
            }
            let done = self.cover(c);
            assert(self.steps().take(start.len() as int) =~= before.take(start.len() as int));
            if !done {
                proof {
                    assert(cols.contains(cols[walked as int]));
                    assert(!act0.contains((cols[walked as int] + 1) as usize));
                }
                return false;
            }
            proof {
                let t2 = cols.take(walked + 1);
                assert forall|h: usize|
                    #[trigger] active_columns(self.links(), self.columns() as int).contains(h) <==> (
                    act0.contains(h) && !(h >= 1 && t2.contains((h - 1) as usize))) by {
                    if h >= 1 && t2.contains((h - 1) as usize) {
                        let i = choose|i: int| 0 <= i < t2.len() && t2[i] == (h - 1) as usize;
                        if i < walked {
                            assert(cols.take(walked as int)[i] == (h - 1) as usize);
                        }
                    }
                    if h >= 1 && cols.take(walked as int).contains((h - 1) as usize) {
                        let i = choose|i: int| 0 <= i < walked && cols.take(walked as int)[i] == (h - 1) as usize;
                        assert(t2[i] == (h - 1) as usize);
                    }
                    if h == c {
                        assert(t2[walked as int] == (h - 1) as usize);
                    }
                }
                self.lemma_current();
                lemma_row_list_static(self.links(), self.base@, self.num_cols as int, head as int, l, cols, q as int);
            }
            j = self.nodes[j].right;
            walked = walked + 1;
        }
        proof {
            assert(walked == cols.len());
            assert(cols.take(walked as int) =~= cols);
            assert forall|k: usize| #[trigger] cols.contains(k) implies act0.contains((k + 1) as usize) by {
                let i = choose|i: int| 0 <= i < cols.len() && cols[i] == k;
                assert(act0.contains((cols[i] + 1) as usize));
            }
        }
        true
    }

    /// The active column with the fewest nodes, the first one met walking the ring from
    /// the root on ties; the root itself when no column is active.
    fn choose_column(&self) -> (c: usize)
        requires
            self.wf(),
        ensures
            c < self.links().len(),
            ({
                let a = active_columns(self.links(), self.columns() as int);
                &&& a.len() == 0 ==> c == ROOT
                &&& a.len() > 0 ==> exists|p: int|
                    0 <= p < a.len() && a[p] == c && (forall|i: int|
                        0 <= i < a.len() ==> self.links()[c as int].size <= #[trigger] self.links()[a[i] as int].size)
                        && (forall|i: int|
                        0 <= i < p ==> self.links()[c as int].size < #[trigger] self.links()[a[i] as int].size)
            }),
    {
        let ghost a = active_columns(self.links(), self.columns() as int);
        proof {
            self.lemma_current();
            assert(ring_ok(self.links(), self.columns() as int, a));
            lemma_increasing_len(a, self.columns() as int);
        }
        let n = self.nodes.len();
        let mut best = ROOT;
        let mut best_size: usize = 0;
        let ghost mut bp: int = 0;
        let mut j = self.nodes[ROOT].right;
        let mut walked: usize = 0;
        while j != ROOT && walked < n
            invariant
                self.wf(),
                n == self.links().len(),
                a == active_columns(self.links(), self.columns() as int),
                ring_ok(self.links(), self.columns() as int, a),
                a.len() < n,
                walked <= a.len(),
                j == if walked < a.len() { a[walked as int] } else { ROOT },
                walked == 0 ==> best == ROOT,
                walked > 0 ==> {
                    &&& 0 <= bp < walked
                    &&& best == a[bp]
                    &&& best_size == self.links()[best as int].size
                    &&& forall|i: int| 0 <= i < walked ==> best_size <= #[trigger] self.links()[a[i] as int].size
                    &&& forall|i: int| 0 <= i < bp ==> best_size < #[trigger] self.links()[a[i] as int].size
                },
            decreases n - walked,
        {
            let size = self.nodes[j].size;
            if best == ROOT || size < best_size {
                best = j;
                best_size = size;
                proof {
                    bp = walked as int;
                }
            }
            proof {
                assert(self.links()[a[walked as int] as int].right == if walked == a.len() - 1 {
                    ROOT
                } else {
                    a[walked + 1]
                });
                assert(!a.contains(ROOT));
                if walked > 0 && best == ROOT {
                    assert(a[bp] != ROOT);
                }
            }
            j = self.nodes[j].right;
            walked = walked + 1;
        }
        proof {
            if walked < a.len() {
                assert(a[walked as int] != ROOT) by {
                    assert(!a.contains(ROOT));
                }
            }
        }
        best
    }

    /// Whether the rows `sol` form an exact cover of the matrix.
    pub fn is_exact_cover(&self, sol: &Vec<usize>) -> (r: bool)
        requires
            self.wf(),
        ensures
            r == exact_cover(self.matrix(), sol@, self.columns()),
    {
        let m = Ghost(self.matrix());
        let mut counts: Vec<usize> = vec![0; self.num_cols];
        let mut i: usize = 0;
        while i < sol.len()
            invariant
                self.wf(),
                m@ == self.matrix(),
                i <= sol@.len(),
                counts@.len() == self.num_cols,
                forall|t: int| 0 <= t < i ==> #[trigger] sol@[t] < m@.len(),
                forall|k: int| 0 <= k < self.num_cols ==> #[trigger] counts@[k] == hits(m@, sol@.take(i as int), k as usize),
            decreases sol@.len() - i,
        {
            let q = sol[i];
            if q >= self.rows.len() {
                return false;
            }
            let row = &self.rows[q];
            assert(m@[q as int] == row@);
            let mut t: usize = 0;
            while t < row.len()
                invariant
                    self.wf(),
                    m@ == self.matrix(),
                    i < sol@.len() <= usize::MAX,
                    q == sol@[i as int],
                    q < m@.len(),
                    m@[q as int] == row@,
                    row@.no_duplicates(),
                    forall|x: int| 0 <= x < row@.len() ==> #[trigger] row@[x] < self.num_cols,
                    t <= row@.len(),
                    counts@.len() == self.num_cols,
                    forall|k: int|
                        0 <= k < self.num_cols ==> #[trigger] counts@[k] == hits(m@, sol@.take(i as int), k as usize)
                            + if row@.take(t as int).contains(k as usize) { 1int } else { 0int },
                decreases row@.len() - t,
            {
                let k = row[t];
                proof {
                    lemma_hits_bound(m@, sol@.take(i as int), k);
                    if row@.take(t as int).contains(k) {
                        let x = choose|x: int| 0 <= x < t && row@.take(t as int)[x] == k;
                        assert(row@[x] == row@[t as int]);
                    }
                    assert(!row@.take(t as int).contains(k));
                    assert(counts@[k as int] == hits(m@, sol@.take(i as int), k));
                    assert(sol@.take(i as int).len() == i);
                }
                counts.set(k, counts[k] + 1);
                proof {
                    assert forall|k2: int| 0 <= k2 < self.num_cols implies #[trigger] counts@[k2] == hits(
                        m@,
                        sol@.take(i as int),
                        k2 as usize,
                    ) + if row@.take(t + 1).contains(k2 as usize) { 1int } else { 0int } by {
                        assert(row@.take(t + 1)[t as int] == k);
                        if row@.take(t as int).contains(k2 as usize) {
                            let x = choose|x: int| 0 <= x < t && row@.take(t as int)[x] == k2 as usize;
                            assert(row@.take(t + 1)[x] == k2 as usize);
                        }
                        let longer = row@.take(t + 1);
                        if longer.contains(k2 as usize) && k2 != k {
                            let x = choose|x: int| 0 <= x < longer.len() && longer[x] == k2 as usize;
                            assert(row@.take(t as int)[x] == k2 as usize);
                        }
                    }
                }
                t = t + 1;
            }
            proof {
                assert(row@.take(row@.len() as int) =~= row@);
                assert(sol@.take(i + 1).drop_last() =~= sol@.take(i as int));
                assert(sol@.take(i + 1).last() == q);
            }
            i = i + 1;
        }
        assert(sol@.take(sol@.len() as int) =~= sol@);
        let mut k: usize = 0;
        while k < self.num_cols
            invariant
                self.wf(),
                m@ == self.matrix(),
                k <= self.num_cols,
                counts@.len() == self.num_cols,
                forall|t: int| 0 <= t < sol@.len() ==> #[trigger] sol@[t] < m@.len(),
                forall|x: int| 0 <= x < self.num_cols ==> #[trigger] counts@[x] == hits(m@, sol@, x as usize),
                forall|x: usize| x < k ==> #[trigger] hits(m@, sol@, x) == 1,
            decreases self.num_cols - k,
        {
            if counts[k] != 1 {
                return false;
            }
            k = k + 1;
        }
        true
    }

    /// The active columns of the links `s` are exactly those that no row of `partial` meets.
    pub open spec fn uncovered_by(&self, s: Seq<Node>, partial: Seq<usize>) -> bool {
        forall|h: usize|
            1 <= h <= self.columns() ==> (#[trigger] active_columns(s, self.columns() as int).contains(h)
                <==> !covered_by(self.matrix(), partial, (h - 1) as usize))
    }

    /// The rows `more`, each with at least one one, complete `partial` to an exact cover.
    pub open spec fn completes(&self, partial: Seq<usize>, more: Seq<usize>) -> bool {
        &&& exact_cover(self.matrix(), partial + more, self.columns())
        &&& forall|i: int| 0 <= i < more.len() ==> (#[trigger] self.matrix()[more[i] as int]).len() > 0
    }

    /// One step of Algorithm X. When no column is left, records `partial` if it is an
    /// exact cover; otherwise covers the active column with the fewest nodes and tries each
    /// of its rows in turn, covering that row's other columns, searching on, and undoing
    /// those covers before the next row. The links, the steps and `partial` are as they
    /// were on entry when it returns. Searching for all covers, with the active columns
    /// those that `partial` leaves open, it finds every completion of `partial`.
    #[verifier::rlimit(100)]
    fn search(
        &mut self,
        partial: &mut Vec<usize>,
        solutions: &mut Vec<Vec<usize>>,
        find_all: bool,
        depth: usize,
    )
        requires
            old(self).wf(),
        ensures
            final(self).wf(),
            final(self).initial() == old(self).initial(),
            final(self).matrix() == old(self).matrix(),
            final(self).columns() == old(self).columns(),
            final(self).steps() == old(self).steps(),
            final(self).links() == old(self).links(),
            final(partial)@ == old(partial)@,
            old(solutions)@.len() <= final(solutions)@.len(),
            forall|i: int| 0 <= i < old(solutions)@.len() ==> final(solutions)@[i] == old(solutions)@[i],
            forall|i: int|
                old(solutions)@.len() <= i < final(solutions)@.len() ==> exact_cover(
                    old(self).matrix(),
                    (#[trigger] final(solutions)@[i])@,
                    old(self).columns(),
                ),
            forall|i: int|
                old(solutions)@.len() <= i < final(solutions)@.len() ==> old(partial)@.is_prefix_of((#[trigger] final(solutions)@[i])@),
            !find_all && old(solutions)@.len() > 0 ==> final(solutions)@ == old(solutions)@,
            !find_all ==> final(solutions)@.len() <= old(solutions)@.len() + 1,
            old(self).links()[ROOT as int].right == ROOT && (find_all || old(solutions)@.len() == 0)
                ==> final(solutions)@.len() == old(solutions)@.len() + if exact_cover(
                old(self).matrix(),
                old(partial)@,
                old(self).columns(),
            ) {
                1int
            } else {
                0int
            },
            find_all && old(self).lists_match_rows(old(self).links()) && old(self).uncovered_by(
                old(self).links(),
                old(partial)@,
            ) && depth > active_columns(old(self).links(), old(self).columns() as int).len() ==> forall|
                more: Seq<usize>,
            |
                #[trigger] old(self).completes(old(partial)@, more) ==> exists|i: int|
                    old(solutions)@.len() <= i < final(solutions)@.len() && final(solutions)@[i]@.to_set() == (
                    old(partial)@ + more).to_set(),
            find_all && old(self).lists_match_rows(old(self).links()) && old(self).uncovered_by(
                old(self).links(),
                old(partial)@,
            ) && depth > active_columns(old(self).links(), old(self).columns() as int).len() ==> forall|
                a: int,
                b: int,
            |
                old(solutions)@.len() <= a < b < final(solutions)@.len() ==> (#[trigger] final(solutions)@[a])@.to_set()
                    != (#[trigger] final(solutions)@[b])@.to_set(),
            !find_all && old(solutions)@.len() == 0 && old(self).lists_match_rows(old(self).links())
                && old(self).uncovered_by(old(self).links(), old(partial)@) && depth > active_columns(
                old(self).links(),
                old(self).columns() as int,
            ).len() ==> forall|more: Seq<usize>|
                #[trigger] old(self).completes(old(partial)@, more) ==> final(solutions)@.len() > 0,
        decreases depth,
    {
        let ghost n0 = self.columns() as int;
        let ghost m = self.matrix();
        let ghost s0 = self.links();
        let ghost act0 = active_columns(s0, n0);
        let ghost ready = (find_all || solutions@.len() == 0) && self.lists_match_rows(s0) && self.uncovered_by(
            s0,
            partial@,
        ) && depth > act0.len();
        proof {
            self.lemma_current();
            self.lemma_matrix_bounds();
            assert(ring_ok(s0, n0, act0));
        }
        if !find_all && solutions.len() > 0 {
            return ;
        }
        if self.nodes[ROOT].right == ROOT {
            proof {
                if act0.len() > 0 {
                    assert(s0[ROOT as int].right == act0[0]);
                    assert(!act0.contains(ROOT));
                }
            }
            let ghost p0 = partial@;
            if self.is_exact_cover(partial) {
                let found = partial.clone();
                assert(found@ =~= partial@);
                assert(partial@.is_prefix_of(found@));
                solutions.push(found);
            }
            proof {
                if ready {
                    assert forall|more: Seq<usize>| #[trigger] old(self).completes(p0, more) implies exists|i: int|
                        old(solutions)@.len() <= i < solutions@.len() && solutions@[i]@.to_set() == (p0
                            + more).to_set() by {
                        if more.len() > 0 {
                            let all = p0 + more;
                            assert(all[p0.len() as int] == more[0]);
                            let row = m[more[0] as int];
                            assert(row.len() > 0);
                            assert(row[0] < n0);
                            lemma_completion_rows_active(m, n0, p0, more, act0, 0, row[0]);
                        }
                        assert(p0 + more =~= p0);
                        assert(solutions@[old(solutions)@.len() as int]@ == p0);
                    }
                }
            }
            return ;
        }
        if depth == 0 {
            return ;
        }
        let c = self.choose_column();
        proof {
            if act0.len() == 0 {
                assert(s0[ROOT as int].right == ROOT);
            }
            assert(act0.len() > 0);
            assert(act0.contains(c));
            assert(1 <= c <= n0);
        }
        let ghost lists_old = choose|lists: Seq<Seq<usize>>| columns_ok(s0, n0, lists);
        let ghost lc = lists_old[c - 1];
        proof {
            assert(columns_ok(s0, n0, lists_old));
            assert(column_list(s0, (c - 1) + 1, lc));
        }
        if self.nodes[c].size == 0 {
            proof {
                if ready {
                    assert forall|more: Seq<usize>| #[trigger] old(self).completes(partial@, more) implies false by {
                        self.lemma_completion_node(s0, partial@, more, c as int, lc);
                    }
                }
            }
            return ;
        }
        let ghost entry = self.steps();
        if !self.cover(c) {
            return ;
        }
        let ghost covered = self.steps();
        let ghost sc = self.links();
        proof {
            assert(column_list(sc, c as int, lc));
            self.lemma_current();
            let ls = choose|lists: Seq<Seq<usize>>| columns_ok(sc, n0, lists);
            assert(column_list(sc, (c - 1) + 1, ls[c - 1]));
            lemma_column_list_unique(sc, c as int, lc, ls[c - 1]);
            assert forall|x: int| 0 <= x < lc.len() implies n0 < #[trigger] lc[x] < sc.len() by {
                assert(n0 < ls[c - 1][x] < sc.len());
            }
        }
        let mark = self.trail.len();
        let count = self.nodes[c].size;
        let mut i = self.nodes[c].down;
        let mut t: usize = 0;
        while t < count
            invariant
                self.wf(),
                self.initial() == old(self).initial(),
                self.matrix() == old(self).matrix(),
                self.columns() == old(self).columns(),
                m == old(self).matrix(),
                n0 == old(self).columns(),
                self.steps() == covered,
                self.links() == sc,
                mark == covered.len(),
                1 <= c <= n0,
                column_list(sc, c as int, lc),
                column_list(s0, c as int, lc),
                count == lc.len(),
                t <= count,
                i == if t < count { lc[t as int] } else { c },
                depth > 0,
                s0 == old(self).links(),
                act0 == active_columns(s0, n0),
                ring_ok(s0, n0, act0),
                rows_static(s0, self.initial(), n0),
                rows_static(sc, self.initial(), n0),
                forall|h: usize|
                    #[trigger] active_columns(sc, n0).contains(h) <==> (act0.contains(h) && h != c),
                ready == ((find_all || old(solutions)@.len() == 0) && old(self).lists_match_rows(s0)
                    && old(self).uncovered_by(s0, old(partial)@) && depth > act0.len()),
                ready ==> self.lists_match_rows(sc),
                act0.contains(c),
                partial@ == old(partial)@,
                old(solutions)@.len() <= solutions@.len(),
                forall|k: int| 0 <= k < old(solutions)@.len() ==> solutions@[k] == old(solutions)@[k],
                forall|k: int|
                    old(solutions)@.len() <= k < solutions@.len() ==> exact_cover(
                        old(self).matrix(),
                        (#[trigger] solutions@[k])@,
                        old(self).columns(),
                    ),
                forall|k: int|
                    old(solutions)@.len() <= k < solutions@.len() ==> old(partial)@.is_prefix_of(
                        (#[trigger] solutions@[k])@,
                    ),
                !find_all ==> old(solutions)@.len() == 0,
                !find_all ==> solutions@.len() <= 1,
                ready && find_all ==> forall|more: Seq<usize>, u: int|
                    #![trigger old(self).completes(old(partial)@, more), m[more[u] as int]]
                    old(self).completes(old(partial)@, more) && 0 <= u < more.len() && m[more[u] as int].contains(
                        (c - 1) as usize,
                    ) && row_meets(sc, lc, t as int, more[u]) ==> exists|k: int|
                        old(solutions)@.len() <= k < solutions@.len() && solutions@[k]@.to_set() == (old(partial)@
                            + more).to_set(),
                ready && find_all ==> forall|a: int, b: int|
                    old(solutions)@.len() <= a < b < solutions@.len() ==> (#[trigger] solutions@[a])@.to_set()
                        != (#[trigger] solutions@[b])@.to_set(),
                forall|x: int| 0 <= x < lc.len() ==> n0 < #[trigger] lc[x] < sc.len(),
                ready && find_all ==> forall|a: int|
                    old(solutions)@.len() <= a < solutions@.len() ==> (#[trigger] solutions@[a])@.len() > old(
                        partial,
                    )@.len(),
                ready && find_all ==> forall|a: int|
                    old(solutions)@.len() <= a < solutions@.len() ==> row_meets(
                        sc,
                        lc,
                        t as int,
                        (#[trigger] solutions@[a])@[old(partial)@.len() as int],
                    ),
                ready && !find_all ==> forall|more: Seq<usize>, u: int|
                    #![trigger old(self).completes(old(partial)@, more), m[more[u] as int]]
                    old(self).completes(old(partial)@, more) && 0 <= u < more.len() && m[more[u] as int].contains(
                        (c - 1) as usize,
                    ) && row_meets(sc, lc, t as int, more[u]) ==> solutions@.len() > 0,
            decreases count - t,
        {
            proof {
                self.lemma_links_replay();
                self.lemma_current();
                let ls = choose|lists: Seq<Seq<usize>>| columns_ok(sc, n0, lists);
                assert(column_list(sc, (c - 1) + 1, ls[c - 1]));
                lemma_column_list_unique(sc, c as int, lc, ls[c - 1]);
                assert(n0 < lc[t as int] < sc.len());
            }
            let q = self.nodes[i].row;
            let ghost cq = m[q as int];
            let ghost lq = self.row_nodes(q as int);
            proof {
                assert(sc[i as int].column == c);
                self.lemma_node_in_row(sc, i as int);
                assert(self.base@[i as int].column == c && self.base@[i as int].row == q);
                assert(self.row_nodes@[q as int].contains(i));
                assert(cq == self.rows@[q as int]@);
                assert(built_row(self.base@, n0, self.row_heads@[q as int] as int, lq, cq, q as int));
            }
            let head = self.row_heads[q];
            let len = self.rows[q].len();
            let ghost pi = choose|x: int| 0 <= x < lq.len() && lq[x] == i;
            let ghost act_c = active_columns(sc, n0);
            proof {
                if ready {
                    // the row of a node of c's list was active before the cover
                    assert(old(self).lists_match_rows(s0));
                    assert(lc.contains(i));
                    assert(old(self).row_active(s0, sc[i as int].row as int));
                }
            }
            partial.push(q);
            let mut j = self.nodes[head].right;
            let mut w: usize = 0;
            while w < len
                invariant
                    self.wf(),
                    self.initial() == old(self).initial(),
                    self.matrix() == old(self).matrix(),
                    self.columns() == old(self).columns(),
                    m == old(self).matrix(),
                    n0 == old(self).columns(),
                    self.steps().len() >= mark,
                    self.steps().take(mark as int) == covered,
                    mark == covered.len(),
                    1 <= c <= n0,
                    cq == m[q as int],
                    cq.no_duplicates(),
                    forall|x: int| 0 <= x < cq.len() ==> #[trigger] cq[x] < n0,
                    len == cq.len(),
                    built_row(self.initial(), n0, head as int, lq, cq, q as int),
                    cq.len() > 0,
                    0 <= pi < lq.len(),
                    lq[pi] == i,
                    sc[i as int].column == c,
                    self.initial()[i as int].column == c,
                    w <= len,
                    j == if w < len { lq[w as int] } else { head },
                    act_c == active_columns(sc, n0),
                    forall|h: usize|
                        #[trigger] act_c.contains(h) <==> (act0.contains(h) && h != c),
                    forall|h: usize|
                        #[trigger] active_columns(self.links(), n0).contains(h) <==> (act_c.contains(h) && !(h
                            >= 1 && cq.take(w as int).contains((h - 1) as usize))),
                    ready ==> old(self).row_active(s0, q as int),
                    ready ==> self.lists_match_rows(self.links()),
                    act0.contains(c),
                    act0 == active_columns(s0, n0),
                    s0 == old(self).links(),
                decreases len - w,
            {
                proof {
                    self.lemma_current();
                    lemma_row_list_static(self.links(), self.base@, n0, head as int, lq, cq, q as int);
                    assert(n0 < lq[w as int] < self.links().len());
                }
                if j != i {
                    let col = self.nodes[j].column;
                    let ghost before = self.steps();
                    let ghost actb = active_columns(self.links(), n0);
                    proof {
                        assert(col == cq[w as int] + 1);
                        assert(c == cq[pi] + 1) by {
                            assert(self.initial()[lq[pi] as int].column == cq[pi] + 1);
                        }
                        assert(w != pi);
                        assert(col != c);
                    }
                    let done = self.cover(col);
                    assert(self.steps().take(mark as int) =~= before.take(mark as int));
                    proof {
                        lemma_take_step(cq, w as int);
                        if ready {
                            assert(cq.contains(cq[w as int]));
                            assert(old(self).row_active(s0, q as int));
                            assert(old(self).matrix()[q as int].contains(cq[w as int]));
                            assert(act0.contains(((cq[w as int] + 1) as usize)));
                            assert(!cq.take(w as int).contains(cq[w as int])) by {
                                if cq.take(w as int).contains(cq[w as int]) {
                                    let y = choose|y: int| 0 <= y < w && cq.take(w as int)[y] == cq[w as int];
                                    assert(cq[y] == cq[w as int]);
                                }
                            }
                            assert(actb.contains(col));
                        }
                        assert forall|h: usize|
                            #[trigger] active_columns(self.links(), n0).contains(h) <==> (act_c.contains(h) && !(h
                                >= 1 && cq.take(w + 1).contains((h - 1) as usize))) by {
                            if h >= 1 && h as int == cq[w as int] + 1 {
                                assert(((h - 1) as usize) == cq[w as int]);
                            }
                            if h >= 1 && cq.take(w + 1).contains((h - 1) as usize) && !cq.take(w as int).contains((h - 1) as usize) {
                                assert((h - 1) as usize == cq[w as int]);
                            }
                        }
                    }
                } else {
                    proof {
                        lemma_take_step(cq, w as int);
                        assert forall|h: usize|
                            #[trigger] active_columns(self.links(), n0).contains(h) <==> (act_c.contains(h) && !(h
                                >= 1 && cq.take(w + 1).contains((h - 1) as usize))) by {
                            if h >= 1 && (h - 1) as usize == cq[w as int] {
                                assert(lq.no_duplicates());
                                assert(lq[w as int] == lq[pi]);
                                assert(w == pi);
                                assert(self.initial()[lq[pi] as int].column == cq[pi] + 1);
                                assert(h == c);
                            }
                        }
                    }
                }
                proof {
                    self.lemma_current();
                    lemma_row_list_static(self.links(), self.base@, n0, head as int, lq, cq, q as int);
                }
                j = self.nodes[j].right;
                w = w + 1;
            }
            let ghost before_solutions = solutions@;
            let ghost longer = partial@;
            proof {
                self.lemma_current();
                assert(cq.take(len as int) =~= cq);
                if ready {
                    let act2 = active_columns(self.links(), n0);
                    assert(ring_ok(self.links(), n0, act2));
                    assert(longer == old(partial)@.push(q));
                    assert(longer.drop_last() =~= old(partial)@);
                    assert forall|h: usize| 1 <= h <= n0 implies (#[trigger] act2.contains(h) <==> !covered_by(
                        m,
                        longer,
                        (h - 1) as usize,
                    )) by {
                        assert(old(self).uncovered_by(s0, old(partial)@));
                        assert(act0.contains(h) <==> !covered_by(m, old(partial)@, (h - 1) as usize));
                        if h == c {
                            assert(cq.contains((c - 1) as usize)) by {
                                assert(cq[pi] == (c - 1) as usize) by {
                                    assert(self.base@[lq[pi] as int].column == cq[pi] + 1);
                                }
                            }
                        }
                    }
                    lemma_shorter(act0, act2, c);
                }
            }
            let ghost pre = *self;
            self.search(partial, solutions, find_all, depth - 1);
            self.restore(mark);
            partial.pop();
            proof {
                self.lemma_links_replay();
                assert(covered.take(mark as int) =~= covered);
                assert(partial@ =~= old(partial)@);
                assert forall|k: int|
                    old(solutions)@.len() <= k < solutions@.len() implies old(partial)@.is_prefix_of(
                    (#[trigger] solutions@[k])@,
                ) by {
                    if k < before_solutions.len() {
                        assert(solutions@[k] == before_solutions[k]);
                    } else {
                        let sol = solutions@[k]@;
                        assert(longer.is_prefix_of(sol));
                        assert(longer.subrange(0, old(partial)@.len() as int) =~= old(partial)@);
                        assert(sol.subrange(0, old(partial)@.len() as int) =~= longer.subrange(
                            0,
                            old(partial)@.len() as int,
                        ));
                    }
                }
                assert forall|k: int|
                    old(solutions)@.len() <= k < solutions@.len() implies exact_cover(
                    old(self).matrix(),
                    (#[trigger] solutions@[k])@,
                    old(self).columns(),
                ) by {
                    if k < before_solutions.len() {
                        assert(solutions@[k] == before_solutions[k]);
                    }
                }
                if ready && find_all {
                    let ncount = solutions@.len();
                    assert forall|a: int| old(solutions)@.len() <= a < ncount implies (#[trigger] solutions@[a])@.len()
                        > old(partial)@.len() by {
                        if a < before_solutions.len() {
                            assert(solutions@[a] == before_solutions[a]);
                        } else {
                            assert(longer.is_prefix_of(solutions@[a]@));
                        }
                    }
                    assert forall|a: int|
                        old(solutions)@.len() <= a < ncount implies row_meets(
                        sc,
                        lc,
                        t + 1,
                        (#[trigger] solutions@[a])@[old(partial)@.len() as int],
                    ) by {
                        if a < before_solutions.len() {
                            assert(solutions@[a] == before_solutions[a]);
                            let v = choose|v: int| 0 <= v < t && #[trigger] sc[lc[v] as int].row == before_solutions[a]@[old(partial)@.len() as int];
                            assert(sc[lc[v] as int].row == solutions@[a]@[old(partial)@.len() as int]);
                        } else {
                            assert(longer.is_prefix_of(solutions@[a]@));
                            assert(solutions@[a]@[old(partial)@.len() as int] == longer[old(partial)@.len() as int]);
                            assert(sc[lc[t as int] as int].row == q);
                        }
                    }
                    assert forall|a: int, b: int|
                        old(solutions)@.len() <= a < b < ncount implies (#[trigger] solutions@[a])@.to_set()
                            != (#[trigger] solutions@[b])@.to_set() by {
                        if b < before_solutions.len() {
                            assert(solutions@[a] == before_solutions[a] && solutions@[b] == before_solutions[b]);
                        } else if a < before_solutions.len() {
                            assert(solutions@[a] == before_solutions[a]);
                            assert(row_meets(sc, lc, t as int, before_solutions[a]@[old(partial)@.len() as int]));
                            assert(before_solutions[a]@.len() > old(partial)@.len());
                            assert(longer.is_prefix_of(solutions@[b]@));
                            self.lemma_branches_differ(
                                sc,
                                lc,
                                t as int,
                                old(partial)@,
                                q,
                                solutions@[a]@,
                                solutions@[b]@,
                                c as int,
                            );
                        }
                    }
                }
                if ready && !find_all {
                    assert forall|more: Seq<usize>, u: int|
                        #![trigger old(self).completes(old(partial)@, more), m[more[u] as int]]
                        old(self).completes(old(partial)@, more) && 0 <= u < more.len() && m[more[u] as int].contains(
                            (c - 1) as usize,
                        ) && row_meets(sc, lc, t + 1, more[u]) implies solutions@.len() > 0 by {
                        if !row_meets(sc, lc, t as int, more[u]) && before_solutions.len() == 0 {
                            let v = choose|v: int| 0 <= v < t + 1 && #[trigger] sc[lc[v] as int].row == more[u];
                            assert(v == t);
                            assert(more[u] == q);
                            lemma_completion_step(m, n0 as nat, old(partial)@, more, u);
                            let rest = more.remove(u);
                            assert(longer == old(partial)@.push(more[u]));
                            assert forall|x: int| 0 <= x < rest.len() implies (#[trigger] m[rest[x] as int]).len() > 0 by {
                                let x2 = if x < u { x } else { x + 1 };
                                assert(rest[x] == more[x2]);
                            }
                            assert(pre.completes(longer, rest));
                        }
                    }
                }
                if ready && find_all {
                    assert forall|more: Seq<usize>, u: int|
                        #![trigger old(self).completes(old(partial)@, more), m[more[u] as int]]
                        old(self).completes(old(partial)@, more) && 0 <= u < more.len() && m[more[u] as int].contains(
                            (c - 1) as usize,
                        ) && row_meets(sc, lc, t + 1, more[u]) implies exists|k: int|
                            old(solutions)@.len() <= k < solutions@.len() && solutions@[k]@.to_set() == (old(
                            partial)@ + more).to_set() by {
                        if row_meets(sc, lc, t as int, more[u]) {
                            let k = choose|k: int|
                                old(solutions)@.len() <= k < before_solutions.len() && before_solutions[k]@.to_set()
                                    == (old(partial)@ + more).to_set();
                            assert(solutions@[k] == before_solutions[k]);
                        } else {
                            let v = choose|v: int| 0 <= v < t + 1 && #[trigger] sc[lc[v] as int].row == more[u];
                            assert(v == t);
                            assert(more[u] == q);
                            lemma_completion_step(m, n0 as nat, old(partial)@, more, u);
                            let rest = more.remove(u);
                            assert(longer == old(partial)@.push(more[u]));
                            assert forall|x: int| 0 <= x < rest.len() implies (#[trigger] m[rest[x] as int]).len() > 0 by {
                                let x2 = if x < u { x } else { x + 1 };
                                assert(rest[x] == more[x2]);
                            }
                            assert(old(self).completes(longer, rest));
                            assert(pre.completes(longer, rest));
                        }
                    }
                }
            }
            i = self.nodes[i].down;
            t = t + 1;
        }
        proof {
            if ready && !find_all {
                assert forall|more: Seq<usize>| #[trigger] old(self).completes(old(partial)@, more) implies solutions@.len() > 0 by {
                    let u = self.lemma_completion_node(s0, old(partial)@, more, c as int, lc);
                    let y = choose|y: int| 0 <= y < lc.len() && s0[lc[y] as int].row == more[u];
                    assert(n0 < lc[y] < s0.len());
                    assert(sc[lc[y] as int].row == s0[lc[y] as int].row);
                    assert(row_meets(sc, lc, count as int, more[u]));
                }
            }
            if ready && find_all {
                assert forall|more: Seq<usize>| #[trigger] old(self).completes(old(partial)@, more) implies exists|k: int|
                    old(solutions)@.len() <= k < solutions@.len() && solutions@[k]@.to_set() == (old(partial)@
                        + more).to_set() by {
                    let u = self.lemma_completion_node(s0, old(partial)@, more, c as int, lc);
                    let y = choose|y: int| 0 <= y < lc.len() && s0[lc[y] as int].row == more[u];
                    assert(n0 < lc[y] < s0.len());
                    assert(sc[lc[y] as int].row == s0[lc[y] as int].row);
                    assert(row_meets(sc, lc, count as int, more[u]));
                }
            }
        }
        proof {
            let more = covered.skip(entry.len() + 1int);
            assert(covered =~= entry.push(Unlink::FromRing(c)) + more);
            assert forall|k: int| 0 <= k < more.len() implies (#[trigger] more[k]) is FromColumn by {
                assert(more[k] == covered[entry.len() + 1 + k]);
            }
            lemma_uncover_matches_cover(entry, c, more);
        }
        self.uncover(c);
        assert(self.steps() =~= entry);
        proof {
            self.lemma_links_replay();
            assert(entry.take(entry.len() as int) =~= entry);
        }
    }

    /// A solution whose row after `partial` is `q` (the row of node `t` of `c`'s list `lc`) and
    /// one whose row there is the row of an earlier node of `lc` hold different rows.
    proof fn lemma_branches_differ(
        &self,
        s: Seq<Node>,
        lc: Seq<usize>,
        t: int,
        partial: Seq<usize>,
        q: usize,
        sa: Seq<usize>,
        sb: Seq<usize>,
        c: int,
    )
        requires
            self.wf(),
            rows_static(s, self.initial(), self.columns() as int),
            s.len() == self.initial().len(),
            s.len() <= usize::MAX,
            1 <= c <= self.columns(),
            column_list(s, c, lc),
            forall|i: int| 0 <= i < lc.len() ==> self.columns() < #[trigger] lc[i] < s.len(),
            0 <= t < lc.len(),
            s[lc[t] as int].row == q,
            row_meets(s, lc, t, sa[partial.len() as int]),
            partial.len() < sa.len(),
            partial.push(q).is_prefix_of(sb),
            exact_cover(self.matrix(), sa, self.columns()),
            exact_cover(self.matrix(), sb, self.columns()),
        ensures
            sa.to_set() != sb.to_set(),
    {
        let m = self.matrix();
        let p = partial.len() as int;
        let v = choose|v: int| 0 <= v < t && #[trigger] s[lc[v] as int].row == sa[p];
        let qa = sa[p];
        let k = (c - 1) as usize;
        assert(s[lc[v] as int].column == c && s[lc[t] as int].column == c);
        self.lemma_node_in_row(s, lc[v] as int);
        self.lemma_node_in_row(s, lc[t] as int);
        assert(m[qa as int].contains(k));
        assert(partial.push(q)[p] == q);
        assert(sb.subrange(0, p + 1)[p] == sb[p]);
        assert(sb[p] == q);
        assert(m[q as int].contains(k));
        assert(qa != q) by {
            if qa == q {
                self.lemma_same_row_same_node(s, lc[v] as int, lc[t] as int);
                assert(lc.no_duplicates());
            }
        }
        if sa.to_set() == sb.to_set() {
            assert(sa.to_set().contains(qa));
            assert(sb.contains(qa));
            let x = choose|x: int| 0 <= x < sb.len() && sb[x] == qa;
            assert(x != p);
            assert(k < self.columns());
            if x < p {
                lemma_hits_two(m, sb, x, p, k);
            } else {
                lemma_hits_two(m, sb, p, x, k);
            }
        }
    }

    /// Two data nodes of one column in one row are the same node.
    proof fn lemma_same_row_same_node(&self, s: Seq<Node>, x: int, y: int)
        requires
            self.wf(),
            rows_static(s, self.initial(), self.columns() as int),
            s.len() == self.initial().len(),
            s.len() <= usize::MAX,
            self.columns() < x < s.len(),
            self.columns() < y < s.len(),
            s[x].column != ROOT,
            s[x].column == s[y].column,
            s[x].row == s[y].row,
        ensures
            x == y,
    {
        let q = self.base@[x].row as int;
        let l = self.row_nodes@[q];
        let cols = self.rows@[q]@;
        assert(self.base@[x].column == s[x].column && self.base@[y].column == s[y].column);
        assert(self.base@[y].row == s[y].row);
        assert(l.contains(x as usize) && l.contains(y as usize));
        assert(built_row(self.base@, self.num_cols as int, self.row_heads@[q] as int, l, cols, q));
        let t1 = choose|t: int| 0 <= t < l.len() && l[t] == x as usize;
        let t2 = choose|t: int| 0 <= t < l.len() && l[t] == y as usize;
        assert(self.base@[l[t1] as int].column == cols[t1] + 1);
        assert(self.base@[l[t2] as int].column == cols[t2] + 1);
        assert(cols.no_duplicates());
        assert(t1 == t2);
    }

    /// In a completion of `partial`, with the active columns those it leaves open, the one
    /// row of the completion that meets active column `c` has its node in `c`'s list `lc`.
    proof fn lemma_completion_node(&self, s: Seq<Node>, partial: Seq<usize>, more: Seq<usize>, c: int, lc: Seq<usize>) -> (u: int)
        requires
            self.wf(),
            s.len() == self.initial().len(),
            rows_static(s, self.initial(), self.columns() as int),
            ring_ok(s, self.columns() as int, active_columns(s, self.columns() as int)),
            self.lists_match_rows(s),
            self.uncovered_by(s, partial),
            self.completes(partial, more),
            1 <= c <= self.columns(),
            active_columns(s, self.columns() as int).contains(c as usize),
            column_list(s, c, lc),
        ensures
            0 <= u < more.len(),
            self.matrix()[more[u] as int].contains((c - 1) as usize),
            exists|y: int| 0 <= y < lc.len() && s[lc[y] as int].row == more[u],
    {
        let n0 = self.columns() as int;
        let m = self.matrix();
        let act = active_columns(s, n0);
        self.lemma_matrix_bounds();
        self.lemma_current();
        let u = lemma_completion_meets(m, n0, partial, more, act, c as usize);
        let q = more[u] as int;
        assert(q < m.len()) by {
            let all = partial + more;
            assert(all[partial.len() + u] == more[u]);
        }
        assert(self.row_active(s, q)) by {
            assert forall|k: usize| #[trigger] m[q].contains(k) implies act.contains((k + 1) as usize) by {
                let x = choose|x: int| 0 <= x < m[q].len() && m[q][x] == k;
                assert(k < n0);
                lemma_completion_rows_active(m, n0, partial, more, act, u, k);
            }
        }
        let y = self.lemma_row_has_node(s, q, (c - 1) as usize);
        assert(lc.contains(y));
        let t = choose|t: int| 0 <= t < lc.len() && lc[t] == y;
        assert(s[lc[t] as int].row == more[u]);
        u
    }

    /// All exact covers that extend the rows `chosen` (whose columns the caller has covered
    /// with `cover_row`), or only the first one found unless `find_all`. Each solution lists
    /// the rows of `chosen` followed by the rows the search picked, in the order it picked
    /// them. The links are as they were on entry when it returns. When the active columns
    /// are those `chosen` leaves open and the lists hold the active rows (as after `new` and
    /// `cover_row`), every completion of `chosen` by rows with a one is found, no two
    /// solutions hold the same rows, and a first-only search finds one whenever one exists.
    pub fn solve(&mut self, chosen: Vec<usize>, find_all: bool) -> (solutions: Vec<Vec<usize>>)
        requires
            old(self).wf(),
        ensures
            final(self).wf(),
            final(self).initial() == old(self).initial(),
            final(self).matrix() == old(self).matrix(),
            final(self).columns() == old(self).columns(),
            final(self).steps() == old(self).steps(),
            final(self).links() == old(self).links(),
            forall|i: int|
                0 <= i < solutions@.len() ==> exact_cover(
                    old(self).matrix(),
                    (#[trigger] solutions@[i])@,
                    old(self).columns(),
                ),
            forall|i: int| 0 <= i < solutions@.len() ==> chosen@.is_prefix_of((#[trigger] solutions@[i])@),
            !find_all ==> solutions@.len() <= 1,
            old(self).links()[ROOT as int].right == ROOT ==> solutions@.len() == if exact_cover(
                old(self).matrix(),
                chosen@,
                old(self).columns(),
            ) {
                1int
            } else {
                0int
            },
            find_all && old(self).lists_match_rows(old(self).links()) && old(self).uncovered_by(
                old(self).links(),
                chosen@,
            ) ==> forall|more: Seq<usize>|
                #[trigger] old(self).completes(chosen@, more) ==> exists|i: int|
                    0 <= i < solutions@.len() && solutions@[i]@.to_set() == (chosen@ + more).to_set(),
            !find_all && old(self).lists_match_rows(old(self).links()) && old(self).uncovered_by(
                old(self).links(),
                chosen@,
            ) ==> forall|more: Seq<usize>|
                #[trigger] old(self).completes(chosen@, more) ==> solutions@.len() == 1,
            find_all && old(self).lists_match_rows(old(self).links()) && old(self).uncovered_by(
                old(self).links(),
                chosen@,
            ) ==> forall|a: int, b: int|
                0 <= a < b < solutions@.len() ==> (#[trigger] solutions@[a])@.to_set() != (
                #[trigger] solutions@[b])@.to_set(),
    {
        proof {
            self.lemma_current();
            let a = active_columns(self.links(), self.columns() as int);
            assert(ring_ok(self.links(), self.columns() as int, a));
            lemma_increasing_len(a, self.columns() as int);
        }
        let mut partial = chosen;
        let mut solutions: Vec<Vec<usize>> = Vec::new();
        let depth = self.nodes.len();
        self.search(&mut partial, &mut solutions, find_all, depth);
        solutions
    }
}

} // verus!
