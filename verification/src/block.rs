//! A chunk of columnar data: named columns of equal length.
use crate::column::{filtered_from, Column};
use crate::helpers::unique_names;
use crate::mask::{count_selected, count_true};
use vstd::prelude::*;

verus! {

/// Whether `cols` can form a block of `n` rows: names are unique and every
/// column is well formed with `n` rows.
pub open spec fn block_ok(cols: Seq<(String, Column)>, n: nat) -> bool {
    &&& unique_names(cols)
    &&& forall|i: int| 0 <= i < cols.len() ==> (#[trigger] cols[i]).1.wf() && cols[i].1.rows() == n
}

/// The first position whose name is `name`, if any.
pub open spec fn name_index<T>(cols: Seq<(String, T)>, name: Seq<char>) -> Option<int>
    decreases cols.len(),
{
    if cols.len() == 0 {
        None
    } else {
        match name_index(cols.drop_last(), name) {
            Some(i) => Some(i),
            None => if cols.last().0@ == name {
                Some(cols.len() - 1)
            } else {
                None
            },
        }
    }
}

/// Extending a prefix by one entry finds that entry only when the prefix
/// had no match.
pub proof fn lemma_name_index_step<T>(cols: Seq<(String, T)>, name: Seq<char>, i: int)
    requires
        0 <= i < cols.len(),
    ensures
        name_index(cols.take(i + 1), name) == match name_index(cols.take(i), name) {
            Some(k) => Some(k),
            None => if cols[i].0@ == name {
                Some(i)
            } else {
                None
            },
        },
{
    assert(cols.take(i + 1).drop_last() =~= cols.take(i));
}

/// A match is an in-range position that carries the name.
pub proof fn lemma_name_index_bounds<T>(cols: Seq<(String, T)>, name: Seq<char>)
    ensures
        name_index(cols, name) matches Some(i) ==> 0 <= i < cols.len() && cols[i].0@ == name,
    decreases cols.len(),
{
    if cols.len() > 0 {
        lemma_name_index_bounds(cols.drop_last(), name);
    }
}

/// A set of named columns that all hold the same number of rows.
#[derive(Debug)]
pub struct Block {
    columns: Vec<(String, Column)>,
    num_rows: usize,
}

impl Block {
    /// The named columns, in order.
    pub closed spec fn cols(self) -> Seq<(String, Column)> {
        self.columns@
    }

    /// The number of rows.
    pub closed spec fn rows(self) -> nat {
        self.num_rows as nat
    }

    /// Whether names are unique and every column has the block's row count.
    pub open spec fn wf(self) -> bool {
        block_ok(self.cols(), self.rows())
    }

    /// Builds a block. Column names must be unique and every column must
    /// hold `num_rows` rows; a block without columns may declare any number
    /// of rows.
    pub fn new(columns: Vec<(String, Column)>, num_rows: usize) -> (b: Self)
        requires
            block_ok(columns@, num_rows as nat),
        ensures
            b.wf(),
            b.cols() == columns@,
            b.rows() == num_rows,
    {
        Block { columns, num_rows }
    }

    /// The number of rows.
    pub fn num_rows(&self) -> (n: usize)
        ensures
            n == self.rows(),
    {
        self.num_rows
    }

    /// The column called `name`, if the block has one.
    pub fn column(&self, name: &str) -> (r: Option<&Column>)
        ensures
            match name_index(self.cols(), name@) {
                None => r is None,
                Some(i) => r matches Some(c) && *c == self.cols()[i].1,
            },
    {
        let mut i: usize = 0;
        while i < self.columns.len()
            invariant
                i <= self.columns@.len(),
                name_index(self.columns@.take(i as int), name@) is None,
            decreases self.columns@.len() - i,
        {
            proof {
                lemma_name_index_step(self.columns@, name@, i as int);
            }
            if crate::text::str_is(self.columns[i].0.as_str(), name) {
                proof {
                    lemma_name_index_prefix(self.columns@, name@, i + 1, i as int);
                }
                return Some(&self.columns[i].1);
            }
            i = i + 1;
        }
        assert(self.columns@.take(self.columns@.len() as int) =~= self.columns@);
        None
    }

    /// The rows that `mask` keeps, in every column, in order; names and
    /// column order are unchanged.
    pub fn filter(&self, mask: &[bool]) -> (r: Block)
        requires
            self.wf(),
            mask@.len() == self.rows(),
        ensures
            r.wf(),
            r.rows() == count_true(mask@),
            r.cols().len() == self.cols().len(),
            forall|i: int|
                0 <= i < self.cols().len() ==> (#[trigger] r.cols()[i]).0@ == self.cols()[i].0@
                    && filtered_from(self.cols()[i].1, mask@, r.cols()[i].1),
    {
        let num_rows = count_selected(mask);
        let mut new_columns: Vec<(String, Column)> = Vec::with_capacity(self.columns.len());
        let mut i: usize = 0;
        while i < self.columns.len()
            invariant
                self.wf(),
                mask@.len() == self.rows(),
                num_rows == count_true(mask@),
                i <= self.columns@.len(),
                new_columns@.len() == i,
                forall|k: int|
                    0 <= k < i ==> (#[trigger] new_columns@[k]).0@ == self.columns@[k].0@
                        && filtered_from(self.columns@[k].1, mask@, new_columns@[k].1)
                        && new_columns@[k].1.wf() && new_columns@[k].1.rows() == num_rows,
            decreases self.columns@.len() - i,
        {
            let name = self.columns[i].0.clone();
            let column = self.columns[i].1.filter(mask);
            new_columns.push((name, column));
            i = i + 1;
        }
        assert(unique_names(new_columns@)) by {
            assert forall|a: int, b: int| 0 <= a < b < new_columns@.len() implies (
            #[trigger] new_columns@[a]).0@ != (#[trigger] new_columns@[b]).0@ by {
                assert(self.columns@[a].0@ != self.columns@[b].0@);
            }
        }
        Block { columns: new_columns, num_rows }
    }

    /// The named columns, in order.
    pub fn columns(&self) -> (r: &[(String, Column)])
        ensures
            r@ == self.cols(),
    {
        self.columns.as_slice()
    }
}

/// A match in a prefix is the match in the whole sequence.
pub proof fn lemma_name_index_prefix<T>(cols: Seq<(String, T)>, name: Seq<char>, k: int, j: int)
    requires
        0 < k <= cols.len(),
        name_index(cols.take(k), name) == Some(j),
    ensures
        name_index(cols, name) == Some(j),
    decreases cols.len() - k,
{
    if k < cols.len() {
        lemma_name_index_step(cols, name, k);
        lemma_name_index_prefix(cols, name, k + 1, j);
    } else {
        assert(cols.take(k) =~= cols);
    }
}

} // verus!
