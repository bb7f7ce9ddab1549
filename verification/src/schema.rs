//! The ordered, validated list of named, typed columns of a table or part.
use crate::data_type::DataType;
use crate::text::{push_str, string_of};
use std::slice::Iter;
use vstd::std_specs::iter::IteratorSpec;
use vstd::prelude::*;

verus! {

/// The names and types of a list of column declarations.
pub open spec fn declared(cols: Seq<(String, DataType)>) -> Seq<(Seq<char>, DataType)> {
    Seq::new(cols.len(), |i: int| (cols[i].0@, cols[i].1))
}

/// Whether the name at `i` already occurs before `i`.
pub open spec fn repeats_earlier(cols: Seq<(Seq<char>, DataType)>, i: int) -> bool {
    exists|j: int| 0 <= j < i && cols[j].0 == cols[i].0
}

/// Whether the declaration at `i` is rejected: its name is empty or repeats
/// an earlier name.
pub open spec fn bad_at(cols: Seq<(Seq<char>, DataType)>, i: int) -> bool {
    cols[i].0.len() == 0 || repeats_earlier(cols, i)
}

/// The first rejected declaration at or after `i`, scanning left to right.
pub open spec fn first_bad_from(cols: Seq<(Seq<char>, DataType)>, i: int) -> Option<int>
    decreases cols.len() - i,
{
    if i < 0 || i >= cols.len() {
        None
    } else if bad_at(cols, i) {
        Some(i)
    } else {
        first_bad_from(cols, i + 1)
    }
}

/// Whether no declaration is rejected: every name is non-empty and unique.
pub open spec fn names_ok(cols: Seq<(Seq<char>, DataType)>) -> bool {
    forall|i: int| 0 <= i < cols.len() ==> !#[trigger] bad_at(cols, i)
}

/// Whether `cols` is a valid schema: non-empty, every name non-empty, no
/// name twice.
pub open spec fn valid_schema(cols: Seq<(Seq<char>, DataType)>) -> bool {
    cols.len() > 0 && names_ok(cols)
}

proof fn lemma_first_bad_none(cols: Seq<(Seq<char>, DataType)>, i: int)
    requires
        0 <= i <= cols.len(),
        first_bad_from(cols, i) is None,
    ensures
        forall|k: int| i <= k < cols.len() ==> !#[trigger] bad_at(cols, k),
    decreases cols.len() - i,
{
    if i < cols.len() {
        lemma_first_bad_none(cols, i + 1);
    }
}

/// A valid schema has no rejected declaration.
pub proof fn lemma_valid_has_no_bad(cols: Seq<(Seq<char>, DataType)>)
    requires
        valid_schema(cols),
    ensures
        first_bad_from(cols, 0) is None,
{
    lemma_no_bad_from(cols, 0);
}

proof fn lemma_no_bad_from(cols: Seq<(Seq<char>, DataType)>, i: int)
    requires
        names_ok(cols),
        0 <= i,
    ensures
        first_bad_from(cols, i) is None,
    decreases cols.len() - i,
{
    if i < cols.len() {
        assert(!bad_at(cols, i));
        lemma_no_bad_from(cols, i + 1);
    }
}

/// Why a list of column declarations is not a schema.
#[derive(Debug)]
pub enum SchemaError {
    Empty,
    DuplicateColumnName(String),
    EmptyColumnName,
}

impl SchemaError {
    /// The rendered message of the error.
    pub open spec fn message(self) -> Seq<char> {
        match self {
            SchemaError::Empty => "schema is empty"@,
            SchemaError::DuplicateColumnName(n) => "duplicate column name '"@ + n@ + "'"@,
            SchemaError::EmptyColumnName => "column name is empty"@,
        }
    }

    /// The rendered message of the error.
    pub fn to_string(&self) -> (r: String)
        ensures
            r@ == self.message(),
    {
        match self {
            SchemaError::Empty => string_of("schema is empty"),
            SchemaError::DuplicateColumnName(n) => {
                let mut s = string_of("duplicate column name '");
                push_str(&mut s, n.as_str());
                push_str(&mut s, "'");
                s
            },
            SchemaError::EmptyColumnName => string_of("column name is empty"),
        }
    }
}

/// What `Schema::new` gives for `cols`.
pub open spec fn schema_new_outcome(
    cols: Seq<(Seq<char>, DataType)>,
    r: Result<Schema, SchemaError>,
) -> bool {
    match r {
        Ok(s) => valid_schema(cols) && s@ == cols,
        Err(SchemaError::Empty) => cols.len() == 0,
        Err(SchemaError::EmptyColumnName) => {
            &&& cols.len() > 0
            &&& first_bad_from(cols, 0) matches Some(i)
            &&& cols[i].0.len() == 0
        },
        Err(SchemaError::DuplicateColumnName(n)) => {
            &&& cols.len() > 0
            &&& first_bad_from(cols, 0) matches Some(i)
            &&& cols[i].0.len() > 0
            &&& n@ == cols[i].0
        },
    }
}

/// An ordered list of named, typed columns; the order is the on-disk column
/// layout.
#[derive(Debug, PartialEq, Eq)]
pub struct Schema(Vec<(String, DataType)>);

impl View for Schema {
    type V = Seq<(Seq<char>, DataType)>;

    closed spec fn view(&self) -> Seq<(Seq<char>, DataType)> {
        declared(self.0@)
    }
}

impl Schema {
    #[verifier::type_invariant]
    closed spec fn inv(self) -> bool {
        valid_schema(declared(self.0@))
    }

    /// The declarations themselves.
    pub closed spec fn entries(self) -> Seq<(String, DataType)> {
        self.0@
    }

    /// The view of a schema is the names and types of its declarations.
    pub proof fn lemma_view_is_declared(self)
        ensures
            self@ == declared(self.entries()),
    {
    }

    /// Every schema is valid.
    pub fn check_valid(&self)
        ensures
            valid_schema(self@),
    {
        proof {
            use_type_invariant(self);
        }
    }

    /// Validates `schema` and wraps it. Columns are checked left to right;
    /// the first column whose name is empty or repeats an earlier name is
    /// reported. An empty list is rejected.
    pub fn new(schema: Vec<(String, DataType)>) -> (r: Result<Self, SchemaError>)
        ensures
            schema_new_outcome(declared(schema@), r),
    {
        let ghost cols = declared(schema@);
        if schema.len() == 0 {
            return Err(SchemaError::Empty);
        }
        let mut i: usize = 0;
        while i < schema.len()
            invariant
                cols == declared(schema@),
                i <= schema@.len(),
                first_bad_from(cols, 0) == first_bad_from(cols, i as int),
            decreases schema@.len() - i,
        {
            if schema[i].0.as_str().is_empty() {
                assert(bad_at(cols, i as int));
                return Err(SchemaError::EmptyColumnName);
            }
            let mut j: usize = 0;
            while j < i
                invariant
                    cols == declared(schema@),
                    j <= i < schema@.len(),
                    first_bad_from(cols, 0) == first_bad_from(cols, i as int),
                    cols[i as int].0.len() > 0,
                    forall|k: int| 0 <= k < j ==> cols[k].0 != cols[i as int].0,
                decreases i - j,
            {
                let same = schema[j].0 == schema[i].0;
                assert(cols[j as int].0 == schema@[j as int].0@);
                assert(cols[i as int].0 == schema@[i as int].0@);
                if same {
                    assert(repeats_earlier(cols, i as int));
                    let name = schema[i].0.clone();
                    assert(first_bad_from(cols, i as int) == Some(i as int));
                    assert(cols[i as int].0.len() > 0);
                    assert(name@ == cols[i as int].0);
                    return Err(SchemaError::DuplicateColumnName(name));
                }
                j = j + 1;
            }
            assert(!bad_at(cols, i as int));
            i = i + 1;
        }
        proof {
            lemma_first_bad_none(cols, 0);
        }
        Ok(Schema(schema))
    }

    /// The columns in declaration order.
    pub fn iter(&self) -> (it: Iter<'_, (String, DataType)>)
        ensures
            it.remaining() == self.entries().as_ref(),
    {
        proof {
            broadcast use vstd::std_specs::slice::axiom_spec_slice_iter;
        }
        self.0.as_slice().iter()
    }

    /// The columns in declaration order.
    pub fn columns(&self) -> (r: &[(String, DataType)])
        ensures
            r@ == self.entries(),
    {
        self.0.as_slice()
    }

    /// The number of columns.
    pub fn len(&self) -> (n: usize)
        ensures
            n == self@.len(),
    {
        self.0.len()
    }

    /// The column at position `i`.
    pub fn index(&self, i: usize) -> (c: &(String, DataType))
        requires
            i < self@.len(),
        ensures
            *c == self.entries()[i as int],
            (c.0@, c.1) == self@[i as int],
    {
        &self.0[i]
    }

    /// A copy of this schema.
    pub fn duplicate(&self) -> (r: Schema)
        ensures
            r@ == self@,
    {
        proof {
            use_type_invariant(self);
        }
        let mut v: Vec<(String, DataType)> = Vec::with_capacity(self.0.len());
        let mut i: usize = 0;
        while i < self.0.len()
            invariant
                i <= self.0@.len(),
                v@.len() == i,
                forall|k: int| 0 <= k < i ==> (#[trigger] v@[k]).0@ == self.0@[k].0@ && v@[k].1
                    == self.0@[k].1,
            decreases self.0@.len() - i,
        {
            let name = self.0[i].0.clone();
            v.push((name, self.0[i].1));
            i = i + 1;
        }
        assert(declared(v@) =~= declared(self.0@));
        Schema(v)
    }
}

impl Clone for Schema {
    fn clone(&self) -> (r: Self)
        ensures
            r@ == self@,
    {
        self.duplicate()
    }
}

} // verus!
