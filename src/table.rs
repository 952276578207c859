use vstd::prelude::*;

verus! {

/// Number of occupied slots in a sequence of optional values.
pub open spec fn count_set<T>(s: Seq<Option<T>>) -> nat
    decreases s.len(),
{
    if s.len() == 0 {
        0
    } else {
        count_set(s.drop_last()) + if s.last() is Some { 1nat } else { 0nat }
    }
}

/// Writing one slot changes the number of occupied slots only by what that slot held.
pub proof fn lemma_count_set_update<T>(s: Seq<Option<T>>, i: int, v: Option<T>)
    requires
        0 <= i < s.len(),
    ensures
        count_set(s.update(i, v)) + (if s[i] is Some { 1int } else { 0int })
            == count_set(s) + (if v is Some { 1int } else { 0int }),
    decreases s.len(),
{
    let t = s.update(i, v);
    if i == s.len() - 1 {
        assert(t.drop_last() =~= s.drop_last());
    } else {
        lemma_count_set_update(s.drop_last(), i, v);
        assert(t.drop_last() =~= s.drop_last().update(i, v));
    }
}

pub proof fn lemma_count_set_bound<T>(s: Seq<Option<T>>)
    ensures
        count_set(s) <= s.len(),
    decreases s.len(),
{
    if s.len() > 0 {
        lemma_count_set_bound(s.drop_last());
    }
}

/// A count of `n` occupied slots out of `n` means every slot is occupied.
pub proof fn lemma_count_set_full<T>(s: Seq<Option<T>>)
    ensures
        count_set(s) == s.len() <==> forall|i: int| 0 <= i < s.len() ==> s[i] is Some,
    decreases s.len(),
{
    if s.len() > 0 {
        lemma_count_set_full(s.drop_last());
        lemma_count_set_bound(s.drop_last());
        if count_set(s) == s.len() {
            assert forall|i: int| 0 <= i < s.len() implies s[i] is Some by {
                if i < s.len() - 1 {
                    assert(s[i] == s.drop_last()[i]);
                }
            }
        }
        if forall|i: int| 0 <= i < s.len() ==> s[i] is Some {
            assert forall|i: int| 0 <= i < s.drop_last().len() implies s.drop_last()[i] is Some by {
                assert(s.drop_last()[i] == s[i]);
            }
        }
    }
}

/// A dense two-dimensional table whose slots are either empty or hold a value.
pub struct Table<T> {
    elements: Vec<Option<T>>,
    num_rows: usize,
    num_cols: usize,
    num_elements: usize,
    num_set_elements: usize,
}

impl<T> Table<T> {
    /// The slots in row-major order.
    pub closed spec fn view(&self) -> Seq<Option<T>> {
        self.elements@
    }

    pub closed spec fn rows(&self) -> nat {
        self.num_rows as nat
    }

    pub closed spec fn cols(&self) -> nat {
        self.num_cols as nat
    }

    pub closed spec fn wf(&self) -> bool {
        &&& self.num_elements == self.num_rows * self.num_cols
        &&& self.elements@.len() == self.num_elements
        &&& self.num_set_elements == count_set(self.elements@)
    }

    /// The slot of `(row, col)` in the row-major order.
    pub open spec fn slot(&self, row: int, col: int) -> Option<T> {
        self.view()[row * self.cols() + col]
    }

    /// An empty table of the given shape.
    pub fn new(num_rows: usize, num_cols: usize) -> (t: Table<T>)
        requires
            num_rows * num_cols <= usize::MAX,
        ensures
            t.wf(),
            t.rows() == num_rows,
            t.cols() == num_cols,
            t@.len() == num_rows * num_cols,
            forall|i: int| 0 <= i < t@.len() ==> t@[i] is None,
    {
        let num_elements = num_rows * num_cols;
        let mut elements: Vec<Option<T>> = Vec::new();
        let mut k: usize = 0;
        while k < num_elements
            invariant
                k <= num_elements,
                elements@.len() == k,
                forall|i: int| 0 <= i < k ==> elements@[i] is None,
                count_set(elements@) == 0,
            decreases num_elements - k,
        {
            let ghost prev = elements@;
            elements.push(None);
            assert(elements@.drop_last() =~= prev);
            k = k + 1;
        }
        Table { elements, num_rows, num_cols, num_elements, num_set_elements: 0 }
    }

    fn element_index(&self, row: usize, col: usize) -> (i: usize)
        requires
            self.wf(),
            row < self.rows(),
            col < self.cols(),
        ensures
            i == row * self.cols() + col,
            i < self@.len(),
    {
        proof {
            assert(row * self.num_cols + col < self.num_rows * self.num_cols) by (nonlinear_arith)
                requires
                    row < self.num_rows,
                    col < self.num_cols,
            ;
        }
        col + row * self.num_cols
    }

    /// The slot at `(row, col)`.
    pub fn element(&self, row: usize, col: usize) -> (r: &Option<T>)
        requires
            self.wf(),
            row < self.rows(),
            col < self.cols(),
        ensures
            *r == self.slot(row as int, col as int),
    {
        let index = self.element_index(row, col);
        &self.elements[index]
    }

    /// Puts `val` in the slot at `(row, col)`.
    pub fn set_element(&mut self, row: usize, col: usize, val: T)
        requires
            old(self).wf(),
            row < old(self).rows(),
            col < old(self).cols(),
        ensures
            final(self).wf(),
            final(self).rows() == old(self).rows(),
            final(self).cols() == old(self).cols(),
            final(self)@ == old(self)@.update(row * old(self).cols() + col, Some(val)),
    {
        let index = self.element_index(row, col);
        proof {
            lemma_count_set_update(self.elements@, index as int, Some(val));
            lemma_count_set_bound(self.elements@.update(index as int, Some(val)));
        }
        if self.elements[index].is_none() {
            self.num_set_elements = self.num_set_elements + 1;
        }
        self.elements.set(index, Some(val));
    }

    /// Empties the slot at `(row, col)`.
    pub fn unset_element(&mut self, row: usize, col: usize)
        requires
            old(self).wf(),
            row < old(self).rows(),
            col < old(self).cols(),
        ensures
            final(self).wf(),
            final(self).rows() == old(self).rows(),
            final(self).cols() == old(self).cols(),
            final(self)@ == old(self)@.update(row * old(self).cols() + col, None),
    {
        let index = self.element_index(row, col);
        proof {
            lemma_count_set_update(self.elements@, index as int, None);
        }
        if self.elements[index].is_some() {
            self.num_set_elements = self.num_set_elements - 1;
        }
        self.elements.set(index, None);
    }

    pub fn num_rows(&self) -> (r: usize)
        ensures
            r == self.rows(),
    {
        self.num_rows
    }

    pub fn num_cols(&self) -> (r: usize)
        ensures
            r == self.cols(),
    {
        self.num_cols
    }

    /// How many slots hold a value.
    pub fn num_set_elements(&self) -> (r: usize)
        requires
            self.wf(),
        ensures
            r == count_set(self@),
    {
        self.num_set_elements
    }

    /// Whether every slot holds a value.
    pub fn is_full(&self) -> (r: bool)
        requires
            self.wf(),
        ensures
            r == (forall|i: int| 0 <= i < self@.len() ==> self@[i] is Some),
    {
        proof {
            lemma_count_set_full(self.elements@);
        }
        self.num_set_elements == self.num_elements
    }
}

} // verus!
