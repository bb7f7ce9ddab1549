//! A column of strings stored as one byte buffer plus offsets: string `i`
//! is `data[offsets[i]..offsets[i + 1]]`.
use crate::mask::{count_selected, count_true, filter_seq, lemma_filter_all, lemma_filter_len,
    lemma_filter_none, lemma_filter_step};
use crate::text::{decimal, push_decimal, push_str, string_of};
use vstd::prelude::*;
use vstd::slice::slice_subrange;
use vstd::string::StringSliceAdditionalSpecFns;
use vstd::utf8::valid_utf8;

verus! {

/// The strings that `data` and `offs` describe: one per pair of adjacent
/// offsets.
pub open spec fn slots(data: Seq<u8>, offs: Seq<u32>) -> Seq<Seq<u8>> {
    Seq::new(
        (offs.len() - 1) as nat,
        |i: int| data.subrange(offs[i] as int, offs[i + 1] as int),
    )
}

/// Whether `offs` is a valid offset list for `data`: it starts with 0, never
/// decreases and ends at the length of `data`.
pub open spec fn offsets_ok(data: Seq<u8>, offs: Seq<u32>) -> bool {
    &&& offs.len() >= 1
    &&& offs[0] == 0
    &&& forall|i: int, j: int| 0 <= i <= j < offs.len() ==> #[trigger] offs[i] <= #[trigger] offs[j]
    &&& offs.last() == data.len()
}

/// The first position `k` at or after `from` where `offs[k] > offs[k + 1]`.
pub open spec fn first_descent_from(offs: Seq<u32>, from: int) -> Option<int>
    decreases offs.len() - from,
{
    if from < 0 || from + 1 >= offs.len() {
        None
    } else if offs[from] > offs[from + 1] {
        Some(from)
    } else {
        first_descent_from(offs, from + 1)
    }
}

/// Why `data` and `offs` do not form a string column, checked in this
/// order: no offsets, a first offset other than 0, the first decreasing pair,
/// a last offset other than the data length.
pub open spec fn parts_problem(data: Seq<u8>, offs: Seq<u32>) -> Option<Seq<char>> {
    if offs.len() == 0 {
        Some("offsets must not be empty"@)
    } else if offs[0] != 0 {
        Some("offsets must start with 0, got "@ + decimal(offs[0] as nat))
    } else if first_descent_from(offs, 0) is Some {
        let k = first_descent_from(offs, 0)->0;
        Some(
            "offsets not monotonic: "@ + decimal(offs[k] as nat) + " > "@ + decimal(
                offs[k + 1] as nat,
            ),
        )
    } else if offs.last() != data.len() {
        Some(
            "last offset "@ + decimal(offs.last() as nat) + " != data length "@ + decimal(
                data.len(),
            ),
        )
    } else {
        None
    }
}

proof fn lemma_no_descent_monotone(offs: Seq<u32>, from: int)
    requires
        0 <= from,
        first_descent_from(offs, from) is None,
    ensures
        forall|i: int, j: int|
            from <= i <= j < offs.len() ==> #[trigger] offs[i] <= #[trigger] offs[j],
    decreases offs.len() - from,
{
    if from + 1 < offs.len() {
        lemma_no_descent_monotone(offs, from + 1);
        assert forall|i: int, j: int| from <= i <= j < offs.len() implies #[trigger] offs[i]
            <= #[trigger] offs[j] by {
            if i == from && j > from {
                assert(offs[from + 1] <= offs[j]);
            }
        }
    }
}

proof fn lemma_monotone_no_descent(offs: Seq<u32>, from: int)
    requires
        0 <= from,
        forall|i: int, j: int| 0 <= i <= j < offs.len() ==> #[trigger] offs[i] <= #[trigger] offs[j],
    ensures
        first_descent_from(offs, from) is None,
    decreases offs.len() - from,
{
    if from + 1 < offs.len() {
        assert(offs[from] <= offs[from + 1]);
        lemma_monotone_no_descent(offs, from + 1);
    }
}

/// Valid offsets for `data` raise no problem.
pub proof fn lemma_valid_parts_no_problem(data: Seq<u8>, offs: Seq<u32>)
    requires
        offsets_ok(data, offs),
    ensures
        parts_problem(data, offs) is None,
{
    lemma_monotone_no_descent(offs, 0);
}

/// A column of strings, held as their concatenated bytes and the offset of
/// each string's start, plus a final offset at the end of the data.
#[derive(Debug, PartialEq, Eq)]
pub struct StringColumn {
    data: Vec<u8>,
    offsets: Vec<u32>,
}

impl View for StringColumn {
    type V = Seq<Seq<u8>>;

    closed spec fn view(&self) -> Seq<Seq<u8>> {
        slots(self.data@, self.offsets@)
    }
}

impl StringColumn {
    /// Whether the offsets are valid for the data.
    pub closed spec fn wf(self) -> bool {
        offsets_ok(self.data@, self.offsets@)
    }

    /// The concatenated bytes of all strings.
    pub closed spec fn bytes(self) -> Seq<u8> {
        self.data@
    }

    /// The offset list.
    pub closed spec fn offs(self) -> Seq<u32> {
        self.offsets@
    }

    /// The strings are the slices between adjacent offsets.
    pub proof fn lemma_view_is_slots(self)
        ensures
            self@ == slots(self.bytes(), self.offs()),
            self.wf() == offsets_ok(self.bytes(), self.offs()),
    {
    }

    /// An empty column.
    pub fn new() -> (c: Self)
        ensures
            c.wf(),
            c@ == Seq::<Seq<u8>>::empty(),
            c.bytes() == Seq::<u8>::empty(),
            c.offs() == seq![0u32],
    {
        let mut offsets: Vec<u32> = Vec::new();
        offsets.push(0);
        let c = StringColumn { data: Vec::new(), offsets };
        assert(c@ =~= Seq::<Seq<u8>>::empty());
        c
    }

    /// An empty column with room for `capacity` strings of `bytes` bytes in
    /// all. How much room the allocator gives is not stated: vstd gives
    /// `Vec` no capacity in its view, and an allocator's result gets no name.
    pub fn with_capacity(capacity: usize, bytes: usize) -> (c: Self)
        requires
            capacity < usize::MAX,
        ensures
            c.wf(),
            c@ == Seq::<Seq<u8>>::empty(),
            c.bytes() == Seq::<u8>::empty(),
            c.offs() == seq![0u32],
    {
        let mut offsets: Vec<u32> = Vec::with_capacity(capacity + 1);
        offsets.push(0);
        let c = StringColumn { data: Vec::with_capacity(bytes), offsets };
        assert(c@ =~= Seq::<Seq<u8>>::empty());
        c
    }

    /// Builds a column from its parts, checking the offsets (see
    /// `parts_problem` for the checks and their order and messages). The
    /// bytes are not checked to be UTF-8.
    pub fn try_from_parts(data: Vec<u8>, offsets: Vec<u32>) -> (r: Result<Self, String>)
        ensures
            match parts_problem(data@, offsets@) {
                None => r matches Ok(c) && c.wf() && c.bytes() == data@ && c.offs() == offsets@
                    && c@ == slots(data@, offsets@),
                Some(m) => r matches Err(e) && e@ == m,
            },
    {
        if offsets.len() == 0 {
            return Err(string_of("offsets must not be empty"));
        }
        if offsets[0] != 0 {
            let mut m = string_of("offsets must start with 0, got ");
            push_decimal(&mut m, offsets[0] as u64);
            return Err(m);
        }
        let mut k: usize = 0;
        let n = offsets.len();
        while k < n - 1
            invariant
                n == offsets@.len(),
                offsets@.len() >= 1,
                offsets@[0] == 0,
                k + 1 <= offsets@.len(),
                first_descent_from(offsets@, 0) == first_descent_from(offsets@, k as int),
            decreases offsets@.len() - k,
        {
            if offsets[k] > offsets[k + 1] {
                assert(first_descent_from(offsets@, k as int) == Some(k as int));
                let mut m = string_of("offsets not monotonic: ");
                push_decimal(&mut m, offsets[k] as u64);
                push_str(&mut m, " > ");
                push_decimal(&mut m, offsets[k + 1] as u64);
                return Err(m);
            }
            k = k + 1;
        }
        assert(first_descent_from(offsets@, k as int) is None);
        let last = offsets[offsets.len() - 1] as usize;
        if last != data.len() {
            let mut m = string_of("last offset ");
            push_decimal(&mut m, last as u64);
            push_str(&mut m, " != data length ");
            push_decimal(&mut m, data.len() as u64);
            return Err(m);
        }
        proof {
            lemma_no_descent_monotone(offsets@, 0);
        }
        Ok(StringColumn { data, offsets })
    }

    /// The number of strings.
    pub fn len(&self) -> (n: usize)
        requires
            self.wf(),
        ensures
            n == self@.len(),
            n < usize::MAX,
    {
        let k = self.offsets.len();
        k - 1
    }

    /// Whether the column holds no strings.
    pub fn is_empty(&self) -> (b: bool)
        requires
            self.wf(),
        ensures
            b == (self@.len() == 0),
    {
        self.len() == 0
    }

    /// Appends the UTF-8 bytes of `s` as a new last string. The data of one
    /// column is limited to `u32::MAX` bytes.
    pub fn push(&mut self, s: &str)
        requires
            old(self).wf(),
            old(self).bytes().len() + s.spec_bytes().len() <= u32::MAX,
        ensures
            final(self).wf(),
            final(self)@ == old(self)@.push(s.spec_bytes()),
            final(self).bytes() == old(self).bytes() + s.spec_bytes(),
            final(self).offs() == old(self).offs().push(final(self).bytes().len() as u32),
    {
        let ghost old_view = self@;
        let ghost old_data = self.data@;
        let b = s.as_bytes();
        self.data.extend_from_slice(b);
        assert(self.data@ =~= old_data + b@);
        let end = self.data.len() as u32;
        self.offsets.push(end);
        assert forall|i: int| 0 <= i < old_view.len() implies #[trigger] self@[i] == old_view[i] by {
            assert(self.offsets@[i] <= self.offsets@[i + 1] <= old_data.len());
            assert(self.data@.subrange(self.offsets@[i] as int, self.offsets@[i + 1] as int)
                =~= old_data.subrange(self.offsets@[i] as int, self.offsets@[i + 1] as int));
        }
        assert(self@.last() =~= b@);
        assert(self@ =~= old_view.push(s.spec_bytes()));
    }

    /// The string at `i`, whose bytes must be valid UTF-8.
    pub fn get(&self, i: usize) -> (r: &str)
        requires
            self.wf(),
            i < self@.len(),
            valid_utf8(self@[i as int]),
        ensures
            r.spec_bytes() == self@[i as int],
    {
        let b = self.bytes_at(i);
        match str_from_utf8(b) {
            Some(s) => s,
            None => {
                proof {
                    assert(false);
                }
                ""
            },
        }
    }

    /// The bytes of the string at `i`.
    pub fn bytes_at(&self, i: usize) -> (r: &[u8])
        requires
            self.wf(),
            i < self@.len(),
        ensures
            r@ == self@[i as int],
    {
        let n = self.offsets.len();
        assert(i + 1 < n);
        let start = self.offsets[i] as usize;
        let end = self.offsets[i + 1] as usize;
        assert(self.offsets@[i as int] <= self.offsets@[i + 1]);
        slice_subrange(self.data.as_slice(), start, end)
    }

    /// The strings that `mask` keeps, in order.
    pub fn filter(&self, mask: &[bool]) -> (r: StringColumn)
        requires
            self.wf(),
            mask@.len() == self@.len(),
        ensures
            r.wf(),
            r@ == filter_seq(self@, mask@),
    {
        let num_rows = count_selected(mask);
        proof {
            lemma_filter_len(self@, mask@);
        }
        if num_rows == 0 {
            proof {
                lemma_filter_none(self@, mask@);
            }
            return StringColumn::new();
        }
        if num_rows == self.len() {
            proof {
                lemma_filter_all(self@, mask@);
            }
            return self.duplicate();
        }
        let mut result = StringColumn::with_capacity(num_rows, 0);
        let mut i: usize = 0;
        let n = self.len();
        while i < n
            invariant
                self.wf(),
                n == self@.len(),
                mask@.len() == n,
                i <= n,
                result.wf(),
                result@ == filter_seq(self@.take(i as int), mask@.take(i as int)),
                result.bytes().len() <= self.offs()[i as int],
            decreases n - i,
        {
            proof {
                lemma_filter_step(self@, mask@, i as int);
            }
            if mask[i] {
                let piece = self.bytes_at(i);
                assert(self.offs()[i as int] <= self.offs()[i + 1] <= self.bytes().len());
                result.push_bytes(piece);
            }
            i = i + 1;
        }
        assert(self@.take(n as int) =~= self@);
        assert(mask@.take(n as int) =~= mask@);
        result
    }

    /// Appends raw bytes as a new last string.
    fn push_bytes(&mut self, b: &[u8])
        requires
            old(self).wf(),
            old(self).bytes().len() + b@.len() <= u32::MAX,
        ensures
            final(self).wf(),
            final(self)@ == old(self)@.push(b@),
            final(self).bytes() == old(self).bytes() + b@,
    {
        let ghost old_view = self@;
        let ghost old_data = self.data@;
        self.data.extend_from_slice(b);
        assert(self.data@ =~= old_data + b@);
        let end = self.data.len() as u32;
        self.offsets.push(end);
        assert forall|i: int| 0 <= i < old_view.len() implies #[trigger] self@[i] == old_view[i] by {
            assert(self.offsets@[i] <= self.offsets@[i + 1] <= old_data.len());
            assert(self.data@.subrange(self.offsets@[i] as int, self.offsets@[i + 1] as int)
                =~= old_data.subrange(self.offsets@[i] as int, self.offsets@[i + 1] as int));
        }
        assert(self@.last() =~= b@);
        assert(self@ =~= old_view.push(b@));
    }

    /// The total number of data bytes.
    pub fn data_len(&self) -> (n: usize)
        ensures
            n == self.bytes().len(),
    {
        self.data.len()
    }

    /// The concatenated bytes of all strings.
    pub fn data(&self) -> (r: &[u8])
        ensures
            r@ == self.bytes(),
    {
        self.data.as_slice()
    }

    /// The offset list: one start offset per string, then the end.
    pub fn offsets(&self) -> (r: &[u32])
        ensures
            r@ == self.offs(),
    {
        self.offsets.as_slice()
    }

    /// The room reserved, as `(offsets, data bytes)`: each at least what is
    /// held.
    pub fn capacity(&self) -> (r: (usize, usize))
        ensures
            r.0 >= self.offs().len(),
            r.1 >= self.bytes().len(),
    {
        (vec_capacity(&self.offsets), vec_capacity(&self.data))
    }

    /// A copy of this column.
    pub fn duplicate(&self) -> (r: StringColumn)
        ensures
            r.bytes() == self.bytes(),
            r.offs() == self.offs(),
            r@ == self@,
            r.wf() == self.wf(),
    {
        StringColumn {
            data: vstd::slice::slice_to_vec(self.data.as_slice()),
            offsets: vstd::slice::slice_to_vec(self.offsets.as_slice()),
        }
    }
}

impl Clone for StringColumn {
    fn clone(&self) -> (r: Self)
        ensures
            r.bytes() == self.bytes(),
            r.offs() == self.offs(),
            r@ == self@,
            r.wf() == self.wf(),
    {
        self.duplicate()
    }
}

/// `Vec::capacity`: how many elements the vector can hold without
/// reallocating, which std documents to be at least its length. The exact
/// value is the allocator's and is not stated.
#[verifier::external_body]
fn vec_capacity<T>(v: &Vec<T>) -> (n: usize)
    ensures
        n >= v@.len(),
{
    v.capacity()
}

/// `std::str::from_utf8`: the bytes as a string slice exactly when they are
/// valid UTF-8, with the same bytes.
#[verifier::external_body]
fn str_from_utf8(b: &[u8]) -> (r: Option<&str>)
    ensures
        r is Some <==> valid_utf8(b@),
        r matches Some(s) ==> s.spec_bytes() == b@,
{
    std::str::from_utf8(b).ok()
}

/// The parts of a well-formed column pass the checks of `try_from_parts`
/// and describe the same strings: taking a column apart and building it
/// again gives it back.
pub proof fn lemma_parts_round_trip(c: StringColumn)
    requires
        c.wf(),
    ensures
        parts_problem(c.bytes(), c.offs()) is None,
        slots(c.bytes(), c.offs()) == c@,
{
    lemma_valid_parts_no_problem(c.bytes(), c.offs());
}

/// Two well-formed columns that hold the same strings have the same bytes
/// and offsets: the representation of a string column is canonical.
pub proof fn lemma_representation_canonical(a: StringColumn, b: StringColumn)
    requires
        a.wf(),
        b.wf(),
        a@ == b@,
    ensures
        a.bytes() == b.bytes(),
        a.offs() == b.offs(),
{
    lemma_offsets_are_prefix_sums(a.bytes(), a.offs(), 0);
    lemma_offsets_are_prefix_sums(b.bytes(), b.offs(), 0);
    assert(a@.len() == a.offs().len() - 1);
    assert(b@.len() == b.offs().len() - 1);
    assert(a.offs().len() == b.offs().len());
    assert forall|i: int| 0 <= i < a.offs().len() implies a.offs()[i] == b.offs()[i] by {
        lemma_offset_is_total(a.bytes(), a.offs(), i);
        lemma_offset_is_total(b.bytes(), b.offs(), i);
        assert(slots(a.bytes(), a.offs()).take(i) == slots(b.bytes(), b.offs()).take(i));
    }
    assert(a.offs() =~= b.offs());
    assert(a.bytes().len() == a.offs().last());
    assert forall|k: int| 0 <= k < a.bytes().len() implies a.bytes()[k] == b.bytes()[k] by {
        let j = lemma_slot_of_byte(a.bytes(), a.offs(), k);
        let sa = slots(a.bytes(), a.offs())[j];
        let sb = slots(b.bytes(), b.offs())[j];
        assert(sa[k - a.offs()[j]] == a.bytes()[k]);
        assert(sb[k - b.offs()[j]] == b.bytes()[k]);
    }
    assert(a.bytes() =~= b.bytes());
}

/// The total length of a sequence of byte strings.
pub open spec fn total_len(s: Seq<Seq<u8>>) -> nat
    decreases s.len(),
{
    if s.len() == 0 {
        0
    } else {
        total_len(s.drop_last()) + s.last().len()
    }
}

proof fn lemma_offsets_are_prefix_sums(data: Seq<u8>, offs: Seq<u32>, i: int)
    requires
        offsets_ok(data, offs),
        0 <= i < offs.len(),
    ensures
        offs[i] == total_len(slots(data, offs).take(i)),
    decreases i,
{
    if i > 0 {
        lemma_offsets_are_prefix_sums(data, offs, i - 1);
        assert(slots(data, offs).take(i).drop_last() =~= slots(data, offs).take(i - 1));
        assert(offs[i - 1] <= offs[i]);
    } else {
        assert(slots(data, offs).take(0) =~= Seq::<Seq<u8>>::empty());
    }
}

proof fn lemma_offset_is_total(data: Seq<u8>, offs: Seq<u32>, i: int)
    requires
        offsets_ok(data, offs),
        0 <= i < offs.len(),
    ensures
        offs[i] == total_len(slots(data, offs).take(i)),
{
    lemma_offsets_are_prefix_sums(data, offs, i);
}

proof fn lemma_slot_of_byte(data: Seq<u8>, offs: Seq<u32>, k: int) -> (j: int)
    requires
        offsets_ok(data, offs),
        0 <= k < data.len(),
    ensures
        0 <= j < offs.len() - 1,
        offs[j] <= k < offs[j + 1],
    decreases offs.len(),
{
    let n = offs.len() - 1;
    assert(offs[n] == data.len());
    lemma_find_slot(offs, k, n)
}

proof fn lemma_find_slot(offs: Seq<u32>, k: int, j: int) -> (r: int)
    requires
        offs.len() >= 1,
        offs[0] == 0,
        0 < j < offs.len(),
        k < offs[j],
        0 <= k,
    ensures
        0 <= r < j,
        offs[r] <= k < offs[r + 1],
    decreases j,
{
    if offs[j - 1] <= k {
        j - 1
    } else {
        lemma_find_slot(offs, k, j - 1)
    }
}

} // verus!
