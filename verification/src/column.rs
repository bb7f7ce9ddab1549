//! A typed vector of values. Float values are held as their IEEE-754 bit
//! patterns, which is exactly what the on-disk format stores.
use crate::data_type::DataType;
use crate::mask::{count_selected, filter_seq, filter_slice, lemma_filter_all, lemma_filter_len,
    lemma_filter_none};
use crate::string_column::StringColumn;
use vstd::prelude::*;
use vstd::string::StringSliceAdditionalSpecFns;

verus! {

/// A typed column of values.
#[derive(Debug, Clone, PartialEq)]
pub enum Column {
    Int64(Vec<i64>),
    /// IEEE-754 bit patterns of `f64` values.
    Float64(Vec<u64>),
    String(StringColumn),
}

/// Whether `dst` holds, with the type of `src`, the rows of `src` that
/// `mask` keeps.
pub open spec fn filtered_from(src: Column, mask: Seq<bool>, dst: Column) -> bool {
    match (src, dst) {
        (Column::Int64(a), Column::Int64(b)) => b@ == filter_seq(a@, mask),
        (Column::Float64(a), Column::Float64(b)) => b@ == filter_seq(a@, mask),
        (Column::String(a), Column::String(b)) => b.wf() && b@ == filter_seq(a@, mask),
        _ => false,
    }
}

impl Column {
    /// Whether a string column's offsets are valid.
    pub open spec fn wf(self) -> bool {
        match self {
            Column::String(c) => c.wf(),
            _ => true,
        }
    }

    /// The number of rows.
    pub open spec fn rows(self) -> nat {
        match self {
            Column::Int64(v) => v@.len(),
            Column::Float64(v) => v@.len(),
            Column::String(c) => c@.len(),
        }
    }

    /// The element type.
    pub open spec fn dtype(self) -> DataType {
        match self {
            Column::Int64(_) => DataType::Int64,
            Column::Float64(_) => DataType::Float64,
            Column::String(_) => DataType::String,
        }
    }

    /// An empty column of type `dt`.
    pub fn new(dt: DataType) -> (c: Self)
        ensures
            c.wf(),
            c.rows() == 0,
            c.dtype() == dt,
    {
        Self::with_capacity(dt, 0)
    }

    /// An empty column of type `dt` with room for `cap` values.
    pub fn with_capacity(dt: DataType, cap: usize) -> (c: Self)
        requires
            cap < usize::MAX,
        ensures
            c.wf(),
            c.rows() == 0,
            c.dtype() == dt,
    {
        match dt {
            DataType::Int64 => Column::Int64(Vec::with_capacity(cap)),
            DataType::Float64 => Column::Float64(Vec::with_capacity(cap)),
            DataType::String => Column::String(StringColumn::with_capacity(cap, 0)),
        }
    }

    /// The number of rows.
    pub fn len(&self) -> (n: usize)
        requires
            self.wf(),
        ensures
            n == self.rows(),
    {
        match self {
            Column::Int64(v) => v.len(),
            Column::Float64(v) => v.len(),
            Column::String(c) => c.len(),
        }
    }

    /// Whether the column has no rows.
    pub fn is_empty(&self) -> (b: bool)
        requires
            self.wf(),
        ensures
            b == (self.rows() == 0),
    {
        self.len() == 0
    }

    /// The element type.
    pub fn data_type(&self) -> (dt: DataType)
        ensures
            dt == self.dtype(),
    {
        match self {
            Column::Int64(_) => DataType::Int64,
            Column::Float64(_) => DataType::Float64,
            Column::String(_) => DataType::String,
        }
    }

    /// Appends a value to an `Int64` column.
    pub fn push_i64(&mut self, value: i64)
        requires
            *old(self) is Int64,
        ensures
            *old(self) matches Column::Int64(a) && *final(self) matches Column::Int64(b) && b@
                == a@.push(value),
    {
        match self {
            Column::Int64(v) => v.push(value),
            _ => {},
        }
    }

    /// Appends a value, given by its IEEE-754 bit pattern, to a `Float64`
    /// column.
    pub fn push_f64_bits(&mut self, bits: u64)
        requires
            *old(self) is Float64,
        ensures
            *old(self) matches Column::Float64(a) && *final(self) matches Column::Float64(b) && b@
                == a@.push(bits),
    {
        match self {
            Column::Float64(v) => v.push(bits),
            _ => {},
        }
    }

    /// Appends a string to a `String` column, whose data is limited to
    /// `u32::MAX` bytes.
    pub fn push_str(&mut self, value: &str)
        requires
            *old(self) matches Column::String(c) && c.wf() && c.bytes().len()
                + value.spec_bytes().len() <= u32::MAX,
        ensures
            *old(self) matches Column::String(a) && *final(self) matches Column::String(b) && b.wf()
                && b@ == a@.push(value.spec_bytes()),
    {
        match self {
            Column::String(c) => c.push(value),
            _ => {},
        }
    }

    /// The rows that `mask` keeps, in order, in a column of the same type.
    pub fn filter(&self, mask: &[bool]) -> (r: Column)
        requires
            self.wf(),
            mask@.len() == self.rows(),
        ensures
            r.wf(),
            filtered_from(*self, mask@, r),
            r.rows() == crate::mask::count_true(mask@),
    {
        let cap = count_selected(mask);
        match self {
            Column::Int64(v) => {
                proof {
                    lemma_filter_len(v@, mask@);
                }
                Column::Int64(filter_slice(v.as_slice(), mask, cap))
            },
            Column::Float64(v) => {
                proof {
                    lemma_filter_len(v@, mask@);
                }
                Column::Float64(filter_slice(v.as_slice(), mask, cap))
            },
            Column::String(c) => {
                proof {
                    lemma_filter_len(c@, mask@);
                }
                Column::String(c.filter(mask))
            },
        }
    }
}

} // verus!
