//! The table-level logic: its `schema.txt`, the naming and listing of its
//! parts, and the checks an insert makes before anything is written.
use crate::block::Block;
use crate::part_writer::{block_matches, chunk_fits, total_rows, PartWriter};
use crate::codec::Codec;
use crate::data_type::DataType;
use crate::error::StorageError;
use crate::helpers::unique_names;
use crate::part_reader::{check_version, is_schema_failure, version_check, SchemaFileFailure};
use crate::schema::Schema;
use crate::schema_text::{
    check_schema, checked_decls, column_lines, decls_from, lines_of, parse_column_lines,
    push_column_lines, split_lines, strip_prefix, strip_prefix_chars,
};
use crate::text::{
    chars_of, decimal, digits_value, is_digit, lemma_decimal_digits, parse_usize,
    parse_usize_spec, push_chars, push_decimal, push_str, str_is, string_of, unsigned_body,
};
use vstd::prelude::*;

verus! {

/// What a table's `schema.txt` holds: its column declarations and codec, or
/// why it cannot be read.
pub open spec fn table_schema_spec(text: Seq<char>) -> Result<
    (Seq<(Seq<char>, DataType)>, Codec),
    SchemaFileFailure,
> {
    let ls = lines_of(text);
    if text.len() == 0 {
        Err((false, "empty schema"@))
    } else if version_check(ls) is Some {
        Err(version_check(ls)->0)
    } else if ls.len() < 2 {
        Err((false, "missing codec line"@))
    } else {
        match strip_prefix(ls[1], "codec="@) {
            None => Err((false, "invalid codec line"@)),
            Some(c) => match Codec::from_name(c) {
                None => Err((false, "line 2: "@ + "invalid codec: "@ + c)),
                Some(codec) => match decls_from(ls, 2) {
                    Err(m) => Err((false, m)),
                    Ok(d) => match checked_decls(d) {
                        Err(m) => Err((false, m)),
                        Ok(cols) => Ok((cols, codec)),
                    },
                },
            },
        }
    }
}

/// The text `create` writes to a table's `schema.txt`.
pub open spec fn table_schema_text(cols: Seq<(Seq<char>, DataType)>, codec: Codec) -> Seq<char> {
    "version=1\n"@ + "codec="@ + codec.name() + "\n"@ + column_lines(cols)
}

/// Reads a table's `schema.txt`: `version=1`, then `codec=<name>`, then one
/// `column=<name>:<type>` line per column.
pub fn parse_schema(text: &str) -> (r: Result<(Schema, Codec), StorageError>)
    ensures
        match table_schema_spec(text@) {
            Ok((d, c)) => r matches Ok(p) && p.0@ == d && p.1 == c,
            Err(f) => r matches Err(e) && is_schema_failure(e, f),
        },
{
    let cs = chars_of(text);
    if cs.len() == 0 {
        return Err(StorageError::Corrupt(string_of("empty schema")));
    }
    let ls = split_lines(cs.as_slice());
    let ghost lv = ls@.map_values(|l: Vec<char>| l@);
    assert(lv =~= lines_of(text@));
    check_version(ls.as_slice())?;
    if ls.len() < 2 {
        return Err(StorageError::Corrupt(string_of("missing codec line")));
    }
    assert(lv[1] == ls@[1]@);
    let c = match strip_prefix_chars(ls[1].as_slice(), "codec=") {
        None => return Err(StorageError::Corrupt(string_of("invalid codec line"))),
        Some(c) => c,
    };
    let mut name = String::new();
    push_chars(&mut name, c.as_slice());
    let codec = match Codec::parse_name(name.as_str()) {
        Err(e) => {
            let mut m = string_of("line 2: ");
            push_str(&mut m, e.as_str());
            assert(m@ =~= "line 2: "@ + "invalid codec: "@ + c@);
            return Err(StorageError::Corrupt(m));
        },
        Ok(codec) => codec,
    };
    let decls = match parse_column_lines(ls.as_slice(), 2) {
        Err(m) => return Err(StorageError::Corrupt(m)),
        Ok(d) => d,
    };
    match check_schema(decls) {
        Err(m) => Err(StorageError::Corrupt(m)),
        Ok(s) => Ok((s, codec)),
    }
}

/// The text of a table's `schema.txt` for `schema` and `codec`.
pub fn schema_file_text(schema: &Schema, codec: Codec) -> (t: String)
    ensures
        t@ == table_schema_text(schema@, codec),
{
    let mut t = string_of("version=1\n");
    push_str(&mut t, "codec=");
    push_str(&mut t, codec.as_str());
    push_str(&mut t, "\n");
    push_column_lines(&mut t, schema.columns());
    proof {
        schema.lemma_view_is_declared();
    }
    t
}

/// The decimal rendering of `n`, padded with zeros to at least four digits.
pub open spec fn padded4(n: nat) -> Seq<char> {
    let d = decimal(n);
    if d.len() < 4 {
        Seq::new((4 - d.len()) as nat, |i: int| '0') + d
    } else {
        d
    }
}

/// The directory name of part `id`: `part_` and the id padded to four
/// digits.
pub open spec fn part_name(id: nat) -> Seq<char> {
    "part_"@ + padded4(id)
}

/// The directory name of part `id`.
pub fn part_dir_name(id: usize) -> (s: String)
    ensures
        s@ == part_name(id as nat),
{
    let mut digits = String::new();
    push_decimal(&mut digits, id as u64);
    let mut s = string_of("part_");
    let n = digits.as_str().unicode_len();
    let mut k = n;
    while k < 4
        invariant
            n == decimal(id as nat).len(),
            n <= k <= 4 || (n > 4 && k == n),
            s@ == "part_"@ + Seq::new((k - n) as nat, |i: int| '0'),
        decreases 4 - k,
    {
        let ghost before = s@;
        crate::text::push_char(&mut s, '0');
        assert(s@ =~= "part_"@ + Seq::new((k + 1 - n) as nat, |i: int| '0'));
        k = k + 1;
    }
    push_str(&mut s, digits.as_str());
    proof {
        if n < 4 {
            assert(k == 4);
            assert(s@ =~= "part_"@ + padded4(id as nat));
        } else {
            assert(Seq::new((k - n) as nat, |i: int| '0') =~= Seq::<char>::empty());
            assert(s@ =~= "part_"@ + padded4(id as nat));
        }
    }
    s
}

/// How a directory entry of a table is treated when its parts are listed.
pub enum EntryKind {
    /// `schema.txt`, or a staging directory ending in `.tmp`: skipped.
    Skipped,
    /// The part with this id.
    Part(usize),
    /// Anything else, which makes the directory corrupt.
    Unexpected,
}

/// How the entry called `name` is treated: skipped when it is `schema.txt`
/// or ends in `.tmp`, a part when it is the canonical name of a part id,
/// unexpected otherwise.
pub open spec fn entry_kind_spec(name: Seq<char>) -> EntryKind {
    if name == "schema.txt"@ || ".tmp"@.is_suffix_of(name) {
        EntryKind::Skipped
    } else {
        match strip_prefix(name, "part_"@) {
            Some(digits) => match parse_usize_spec(digits) {
                Some(id) => if part_name(id as nat) == name {
                    EntryKind::Part(id)
                } else {
                    EntryKind::Unexpected
                },
                None => EntryKind::Unexpected,
            },
            None => EntryKind::Unexpected,
        }
    }
}

proof fn lemma_zeros_value(k: nat)
    ensures
        digits_value(Seq::new(k, |i: int| '0')) == 0,
    decreases k,
{
    if k > 0 {
        assert(Seq::new(k, |i: int| '0').drop_last() =~= Seq::new((k - 1) as nat, |i: int| '0'));
        lemma_zeros_value((k - 1) as nat);
    }
}

proof fn lemma_leading_zeros(z: Seq<char>, d: Seq<char>)
    requires
        digits_value(z) == 0,
    ensures
        digits_value(z + d) == digits_value(d),
    decreases d.len(),
{
    if d.len() == 0 {
        assert(z + d =~= z);
    } else {
        assert((z + d).drop_last() =~= z + d.drop_last());
        lemma_leading_zeros(z, d.drop_last());
    }
}

/// The directory name of part `id` is listed as that part.
pub proof fn lemma_part_name_round_trip(id: usize)
    ensures
        entry_kind_spec(part_name(id as nat)) == EntryKind::Part(id),
{
    reveal_strlit("part_");
    reveal_strlit("schema.txt");
    reveal_strlit(".tmp");
    let d = decimal(id as nat);
    let p = padded4(id as nat);
    let name = part_name(id as nat);
    lemma_decimal_digits(id as nat);
    if d.len() < 4 {
        let z = Seq::new((4 - d.len()) as nat, |i: int| '0');
        lemma_zeros_value((4 - d.len()) as nat);
        lemma_leading_zeros(z, d);
        assert forall|i: int| 0 <= i < p.len() implies is_digit(#[trigger] p[i]) by {
            if i < z.len() {
                assert(p[i] == z[i]);
            } else {
                assert(p[i] == d[i - z.len()]);
            }
        }
    }
    assert(p.len() > 0);
    assert(name[0] == 'p');
    assert(name != "schema.txt"@) by {
        assert("schema.txt"@[0] == 's');
    }
    assert(name.last() == p.last());
    assert(is_digit(p.last()));
    assert(!".tmp"@.is_suffix_of(name)) by {
        if ".tmp"@.is_suffix_of(name) {
            assert(name[name.len() - 1] == ".tmp"@[3]);
        }
    }
    assert("part_"@.is_prefix_of(name));
    assert(name.skip(5) =~= p);
    assert(unsigned_body(p) == p);
}

fn ends_with(s: &[char], suffix: &str) -> (b: bool)
    ensures
        b == suffix@.is_suffix_of(s@),
{
    let m = suffix.unicode_len();
    if m > s.len() {
        return false;
    }
    let n = s.len();
    let off = n - m;
    let mut i: usize = 0;
    while i < m
        invariant
            m == suffix@.len(),
            off + m == s@.len(),
            n == s@.len(),
            i <= m,
            forall|j: int| 0 <= j < i ==> suffix@[j] == s@[off + j],
        decreases m - i,
    {
        if suffix.get_char(i) != s[off + i] {
            assert(s@.subrange(off as int, s@.len() as int)[i as int] != suffix@[i as int]);
            return false;
        }
        i = i + 1;
    }
    assert(suffix@ =~= s@.subrange(off as int, s@.len() as int));
    true
}

/// How the entry called `name` is treated when parts are listed.
pub fn entry_kind(name: &str) -> (k: EntryKind)
    ensures
        k == entry_kind_spec(name@),
{
    let cs = chars_of(name);
    if str_is(name, "schema.txt") || ends_with(cs.as_slice(), ".tmp") {
        return EntryKind::Skipped;
    }
    match strip_prefix_chars(cs.as_slice(), "part_") {
        None => EntryKind::Unexpected,
        Some(digits) => match parse_usize(digits.as_slice()) {
            None => EntryKind::Unexpected,
            Some(id) => {
                let canonical = part_dir_name(id);
                if str_is(canonical.as_str(), name) {
                    EntryKind::Part(id)
                } else {
                    EntryKind::Unexpected
                }
            },
        },
    }
}

/// How directory entries are treated: exactly `schema.txt` and names
/// ending in `.tmp` are skipped; an entry taken as part `id` is named
/// exactly `part_name(id)`; every other entry is unexpected.
pub proof fn lemma_entry_kinds(name: Seq<char>)
    ensures
        entry_kind_spec(name) is Skipped <==> (name == "schema.txt"@ || ".tmp"@.is_suffix_of(
            name,
        )),
        entry_kind_spec(name) matches EntryKind::Part(id) ==> name == part_name(id as nat),
        !(name == "schema.txt"@ || ".tmp"@.is_suffix_of(name)) && (forall|id: usize|
            name != #[trigger] part_name(id as nat)) ==> entry_kind_spec(name) is Unexpected,
{
}

/// Whether `parts` lists, in increasing id order, exactly the part entries
/// of `names` as `(id, position in names)`.
pub open spec fn lists_parts(names: Seq<Seq<char>>, parts: Seq<(usize, usize)>) -> bool {
    &&& forall|i: int, j: int| 0 <= i < j < parts.len() ==> (#[trigger] parts[i]).0 < (
    #[trigger] parts[j]).0
    &&& forall|k: int|
        0 <= k < parts.len() ==> (#[trigger] parts[k]).1 < names.len() && entry_kind_spec(
            names[parts[k].1 as int],
        ) == EntryKind::Part(parts[k].0)
    &&& forall|p: int|
        0 <= p < names.len() && (#[trigger] entry_kind_spec(names[p])) is Part ==> exists|k: int|
            0 <= k < parts.len() && parts[k].1 == p
}

/// Whether no two of `names` are equal, as in a directory listing.
pub open spec fn distinct_names(names: Seq<Seq<char>>) -> bool {
    forall|i: int, j: int| 0 <= i < j < names.len() ==> names[i] != names[j]
}

/// Sorts the part entries of a directory listing by id. The first entry,
/// in listing order, that is neither skipped nor a part makes the table
/// corrupt: `unexpected entry '<name>' in table directory`.
pub fn list_parts(names: &[String]) -> (r: Result<Vec<(usize, usize)>, StorageError>)
    requires
        distinct_names(names@.map_values(|s: String| s@)),
    ensures
        match r {
            Ok(parts) => lists_parts(names@.map_values(|s: String| s@), parts@) && forall|p: int|
                0 <= p < names@.len() ==> !(entry_kind_spec(#[trigger] names@[p]@) is Unexpected),
            Err(e) => exists|p: int|
                0 <= p < names@.len() && entry_kind_spec(#[trigger] names@[p]@) is Unexpected
                    && e.corrupt_message() == Some(
                    "unexpected entry '"@ + names@[p]@ + "' in table directory"@,
                ) && forall|q: int|
                    0 <= q < p ==> !(entry_kind_spec(#[trigger] names@[q]@) is Unexpected),
        },
{
    let ghost nv = names@.map_values(|s: String| s@);
    let mut parts: Vec<(usize, usize)> = Vec::new();
    let mut p: usize = 0;
    while p < names.len()
        invariant
            nv == names@.map_values(|s: String| s@),
            distinct_names(nv),
            p <= names@.len(),
            forall|q: int| 0 <= q < p ==> !(entry_kind_spec(#[trigger] names@[q]@) is Unexpected),
            forall|i: int, j: int| 0 <= i < j < parts@.len() ==> (#[trigger] parts@[i]).0 < (
            #[trigger] parts@[j]).0,
            forall|k: int|
                0 <= k < parts@.len() ==> (#[trigger] parts@[k]).1 < p && entry_kind_spec(
                    nv[parts@[k].1 as int],
                ) == EntryKind::Part(parts@[k].0),
            forall|q: int|
                0 <= q < p && (#[trigger] entry_kind_spec(nv[q])) is Part ==> exists|k: int|
                    0 <= k < parts@.len() && parts@[k].1 == q,
        decreases names@.len() - p,
    {
        assert(nv[p as int] == names@[p as int]@);
        match entry_kind(names[p].as_str()) {
            EntryKind::Skipped => {},
            EntryKind::Unexpected => {
                let mut m = string_of("unexpected entry '");
                push_str(&mut m, names[p].as_str());
                push_str(&mut m, "' in table directory");
                return Err(StorageError::Corrupt(m));
            },
            EntryKind::Part(id) => {
                proof {
                    lemma_part_ids_distinct(nv, parts@, p as int, id);
                }
                insert_sorted(&mut parts, (id, p));
            },
        }
        p = p + 1;
    }
    Ok(parts)
}

/// Distinct canonical part names have distinct ids.
proof fn lemma_part_ids_distinct(nv: Seq<Seq<char>>, parts: Seq<(usize, usize)>, p: int, id: usize)
    requires
        distinct_names(nv),
        0 <= p < nv.len(),
        entry_kind_spec(nv[p]) == EntryKind::Part(id),
        forall|k: int|
            0 <= k < parts.len() ==> (#[trigger] parts[k]).1 < p && entry_kind_spec(
                nv[parts[k].1 as int],
            ) == EntryKind::Part(parts[k].0),
    ensures
        forall|k: int| 0 <= k < parts.len() ==> (#[trigger] parts[k]).0 != id,
{
    assert forall|k: int| 0 <= k < parts.len() implies (#[trigger] parts[k]).0 != id by {
        let q = parts[k].1 as int;
        assert(nv[q] != nv[p]);
        if parts[k].0 == id {
            assert(nv[q] == part_name(id as nat));
            assert(nv[p] == part_name(id as nat));
        }
    }
}

/// Whether the entries `names` of a table directory are its schema file,
/// leftover staging entries, and the parts `0 .. k`, each once: what a
/// table created and then given `k` parts holds.
pub open spec fn holds_parts_below(names: Seq<Seq<char>>, k: usize) -> bool {
    &&& forall|p: int|
        0 <= p < names.len() ==> #[trigger] names[p] == "schema.txt"@ || ".tmp"@.is_suffix_of(
            names[p],
        ) || exists|i: usize| i < k && names[p] == #[trigger] part_name(i as nat)
    &&& forall|i: usize|
        #![trigger part_name(i as nat)]
        i < k ==> exists|p: int| 0 <= p < names.len() && #[trigger] names[p] == part_name(i as nat)
}

/// Whether some entry of `parts` has id `i`.
pub open spec fn lists_id(parts: Seq<(usize, usize)>, i: usize) -> bool {
    exists|y: int| 0 <= y < parts.len() && (#[trigger] parts[y]).0 == i
}

proof fn lemma_ids_at_least_positions(parts: Seq<(usize, usize)>, x: int)
    requires
        0 <= x < parts.len(),
        forall|i: int, j: int| 0 <= i < j < parts.len() ==> (#[trigger] parts[i]).0 < (
        #[trigger] parts[j]).0,
    ensures
        parts[x].0 >= x,
    decreases x,
{
    if x > 0 {
        lemma_ids_at_least_positions(parts, x - 1);
        assert(parts[x - 1].0 < parts[x].0);
    }
}

proof fn lemma_ids_are_positions(parts: Seq<(usize, usize)>, k: usize, x: int)
    requires
        0 <= x < parts.len(),
        forall|i: int, j: int| 0 <= i < j < parts.len() ==> (#[trigger] parts[i]).0 < (
        #[trigger] parts[j]).0,
        forall|y: int| 0 <= y < parts.len() ==> (#[trigger] parts[y]).0 < k,
        forall|i: usize| i < k ==> #[trigger] lists_id(parts, i),
    ensures
        forall|y: int| 0 <= y <= x ==> (#[trigger] parts[y]).0 == y,
    decreases x,
{
    if x > 0 {
        lemma_ids_are_positions(parts, k, x - 1);
    }
    lemma_ids_at_least_positions(parts, x);
    let t = x as usize;
    assert(parts[x].0 < k);
    assert(lists_id(parts, t));
    let idx = choose|y: int| 0 <= y < parts.len() && (#[trigger] parts[y]).0 == t;
    if idx < x {
        assert(parts[idx].0 == idx);
    }
    if idx > x {
        assert(parts[x].0 < parts[idx].0);
    }
}

/// Re-opening a table whose directory holds its schema file, leftover
/// staging entries and the parts `0 .. k`: the parts listed are exactly
/// `0 .. k` in order, so the next part id is `k` and the next insert writes
/// `part_name(k)`.
pub proof fn lemma_reopen_continues_numbering(
    names: Seq<Seq<char>>,
    parts: Seq<(usize, usize)>,
    k: usize,
)
    requires
        holds_parts_below(names, k),
        lists_parts(names, parts),
    ensures
        parts.len() == k,
        forall|x: int| 0 <= x < parts.len() ==> (#[trigger] parts[x]).0 == x,
        (if parts.len() == 0 {
            0
        } else {
            parts.last().0 + 1
        }) == k,
{
    reveal_strlit("schema.txt");
    reveal_strlit(".tmp");
    reveal_strlit("part_");
    assert forall|y: int| 0 <= y < parts.len() implies (#[trigger] parts[y]).0 < k by {
        let p = parts[y].1 as int;
        assert(entry_kind_spec(names[p]) == EntryKind::Part(parts[y].0));
        if names[p] == "schema.txt"@ || ".tmp"@.is_suffix_of(names[p]) {
            assert(entry_kind_spec(names[p]) == EntryKind::Skipped);
        } else {
            let i = choose|i: usize| i < k && names[p] == part_name(i as nat);
            lemma_part_name_round_trip(i);
        }
    }
    assert forall|i: usize| i < k implies #[trigger] lists_id(parts, i) by {
        let p = choose|p: int| 0 <= p < names.len() && names[p] == part_name(i as nat);
        lemma_part_name_round_trip(i);
        assert(entry_kind_spec(names[p]) is Part);
        let y = choose|y: int| 0 <= y < parts.len() && parts[y].1 == p;
        assert(parts[y].0 == i);
    }
    if parts.len() > 0 {
        lemma_ids_are_positions(parts, k, parts.len() - 1);
        let last = parts.len() - 1;
        assert(parts[last].0 == last && parts[last].0 < k);
    }
    if k > 0 {
        let t = (k - 1) as usize;
        assert(lists_id(parts, t));
        let y = choose|y: int| 0 <= y < parts.len() && (#[trigger] parts[y]).0 == t;
        assert(parts[y].0 == y);
    }
}

/// Inserts `x` into `v`, which is sorted by strictly increasing id, keeping
/// it so; `x`'s id is not in `v`.
fn insert_sorted(v: &mut Vec<(usize, usize)>, x: (usize, usize))
    requires
        forall|i: int, j: int| 0 <= i < j < old(v)@.len() ==> (#[trigger] old(v)@[i]).0 < (
        #[trigger] old(v)@[j]).0,
        forall|k: int| 0 <= k < old(v)@.len() ==> (#[trigger] old(v)@[k]).0 != x.0,
    ensures
        forall|i: int, j: int| 0 <= i < j < final(v)@.len() ==> (#[trigger] final(v)@[i]).0 < (
        #[trigger] final(v)@[j]).0,
        final(v)@.len() == old(v)@.len() + 1,
        forall|k: int| 0 <= k < final(v)@.len() ==> #[trigger] final(v)@[k] == x || old(v)@.contains(final(v)@[k]),
        exists|k: int| 0 <= k < final(v)@.len() && final(v)@[k] == x,
        forall|k: int| 0 <= k < old(v)@.len() ==> final(v)@.contains(#[trigger] old(v)@[k]),
{
    let mut i: usize = 0;
    while i < v.len() && v[i].0 < x.0
        invariant
            i <= v@.len(),
            forall|k: int| 0 <= k < i ==> (#[trigger] v@[k]).0 < x.0,
        decreases v@.len() - i,
    {
        i = i + 1;
    }
    let ghost before = v@;
    v.insert(i, x);
    proof {
        assert(v@ =~= before.take(i as int).push(x) + before.skip(i as int));
        assert forall|a: int, b: int| 0 <= a < b < v@.len() implies (#[trigger] v@[a]).0 < (
        #[trigger] v@[b]).0 by {
            if a < i && b > i {
                assert(v@[b] == before[b - 1]);
            }
            if a == i as int {
                assert(v@[b] == before[b - 1]);
                assert(before[b - 1].0 != x.0);
                if i < before.len() {
                    assert(before[i as int].0 >= x.0);
                    if b - 1 > i {
                        assert(before[i as int].0 < before[b - 1].0);
                    }
                }
            }
            if a > i {
                assert(v@[a] == before[a - 1]);
                assert(v@[b] == before[b - 1]);
            }
        }
        assert forall|k: int| 0 <= k < v@.len() implies #[trigger] v@[k] == x || before.contains(v@[k]) by {
            if k < i {
                assert(v@[k] == before[k]);
            } else if k > i {
                assert(v@[k] == before[k - 1]);
            }
        }
        assert(v@[i as int] == x);
        assert forall|k: int| 0 <= k < before.len() implies v@.contains(#[trigger] before[k]) by {
            if k < i {
                assert(v@[k] == before[k]);
            } else {
                assert(v@[k + 1] == before[k]);
            }
        }
    }
}

proof fn lemma_total_rows_prefix(blocks: Seq<Block>, b: int)
    requires
        0 <= b < blocks.len(),
    ensures
        total_rows(blocks.take(b + 1)) == total_rows(blocks.take(b)) + blocks[b].rows(),
        total_rows(blocks.take(b + 1)) <= total_rows(blocks),
    decreases blocks.len() - b,
{
    assert(blocks.take(b + 1) =~= blocks.take(b).push(blocks[b]));
    crate::part_writer::lemma_streams_push(blocks.take(b), blocks[b], 0, Codec::Lz4);
    if b + 1 < blocks.len() {
        lemma_total_rows_prefix(blocks, b + 1);
    } else {
        assert(blocks.take(b + 1) =~= blocks);
    }
}

/// The metadata of an open table: its schema, codec, directory and the id
/// the next part will get.
pub struct Table {
    schema: Schema,
    dir: std::path::PathBuf,
    next_part_id: usize,
    codec: Codec,
}

/// Whether every block has the table's columns: the same number, and at
/// each position the same name and type.
pub open spec fn blocks_match_schema(schema: Seq<(Seq<char>, DataType)>, blocks: Seq<Block>) -> bool {
    forall|b: int| 0 <= b < blocks.len() ==> block_matches(schema, #[trigger] blocks[b])
}

/// The blocks that hold at least one row, in order.
pub open spec fn nonempty_blocks(blocks: Seq<Block>) -> Seq<Block>
    decreases blocks.len(),
{
    if blocks.len() == 0 {
        Seq::empty()
    } else if blocks.last().rows() > 0 {
        nonempty_blocks(blocks.drop_last()).push(blocks.last())
    } else {
        nonempty_blocks(blocks.drop_last())
    }
}

/// How a block fails to have the table's columns.
#[derive(Debug, Clone, Copy, PartialEq, Eq, Structural)]
pub enum Mismatch {
    /// The block has `got` columns, the table `expected`.
    ColumnCount { got: usize, expected: usize },
    /// Column `index` differs in name or type.
    Column { index: usize },
}

/// Whether `m` describes how `b` fails to lay out as `schema`: a column
/// count that differs, or the first position whose name or type differs.
pub open spec fn mismatch_of(schema: Seq<(Seq<char>, DataType)>, b: Block, m: Mismatch) -> bool {
    match m {
        Mismatch::ColumnCount { got, expected } => got == b.cols().len() && expected
            == schema.len() && got != expected,
        Mismatch::Column { index } => {
            &&& b.cols().len() == schema.len()
            &&& index < schema.len()
            &&& !(b.cols()[index as int].0@ == schema[index as int].0 && b.cols()[index as int].1.dtype()
                == schema[index as int].1)
            &&& forall|i: int|
                0 <= i < index ==> (#[trigger] b.cols()[i]).0@ == schema[i].0 && b.cols()[i].1.dtype()
                    == schema[i].1
        },
    }
}

impl Table {
    /// The declared columns.
    pub closed spec fn columns_spec(self) -> Seq<(Seq<char>, DataType)> {
        self.schema@
    }

    /// The id the next part will get.
    pub closed spec fn next_id(self) -> nat {
        self.next_part_id as nat
    }

    /// The codec of new blocks.
    pub closed spec fn codec_spec(self) -> Codec {
        self.codec
    }

    /// The table directory.
    pub closed spec fn dir_spec(self) -> std::path::PathBuf {
        self.dir
    }

    /// A freshly created table: no parts yet.
    pub fn created(dir: std::path::PathBuf, schema: Schema, codec: Codec) -> (t: Table)
        ensures
            t.columns_spec() == schema@,
            t.next_id() == 0,
            t.codec_spec() == codec,
            t.dir_spec() == dir,
    {
        Table { schema, dir, next_part_id: 0, codec }
    }

    /// A table re-opened with the parts `parts` (sorted by id, as
    /// `list_parts` gives them): the next part id follows the highest one.
    pub fn reopened(
        dir: std::path::PathBuf,
        schema: Schema,
        codec: Codec,
        parts: &[(usize, usize)],
    ) -> (t: Table)
        requires
            parts@.len() > 0 ==> parts@.last().0 < usize::MAX,
        ensures
            t.columns_spec() == schema@,
            t.codec_spec() == codec,
            t.dir_spec() == dir,
            t.next_id() == if parts@.len() == 0 {
                0
            } else {
                parts@.last().0 + 1
            },
    {
        let next_part_id = if parts.len() == 0 {
            0
        } else {
            parts[parts.len() - 1].0 + 1
        };
        Table { schema, dir, next_part_id, codec }
    }

    /// The table's schema.
    pub fn schema(&self) -> (s: &Schema)
        ensures
            s@ == self.columns_spec(),
    {
        &self.schema
    }

    /// The codec of new blocks.
    pub fn codec(&self) -> (c: Codec)
        ensures
            c == self.codec_spec(),
    {
        self.codec
    }

    /// The table directory.
    pub fn dir(&self) -> (d: &std::path::PathBuf)
        ensures
            *d == self.dir_spec(),
    {
        &self.dir
    }

    /// The id the next part will get.
    pub fn next_part_id(&self) -> (n: usize)
        ensures
            n == self.next_id(),
    {
        self.next_part_id
    }

    /// The directory name the next part will be written to.
    pub fn next_part_name(&self) -> (s: String)
        ensures
            s@ == part_name(self.next_id()),
    {
        part_dir_name(self.next_part_id)
    }

    /// The first block, with how it fails, that does not have the table's
    /// columns; `None` when every block has them.
    pub fn find_mismatch(&self, blocks: &[Block]) -> (r: Option<(usize, Mismatch)>)
        ensures
            r is None <==> blocks_match_schema(self.columns_spec(), blocks@),
            r matches Some((b, m)) ==> b < blocks@.len() && mismatch_of(
                self.columns_spec(),
                blocks@[b as int],
                m,
            ) && forall|c: int| 0 <= c < b ==> block_matches(self.columns_spec(), #[trigger] blocks@[c]),
    {
        let cols = self.schema.columns();
        proof {
            self.schema.lemma_view_is_declared();
        }
        let mut b: usize = 0;
        while b < blocks.len()
            invariant
                cols@.len() == self.columns_spec().len(),
                forall|i: int| 0 <= i < cols@.len() ==> #[trigger] cols@[i].0@ == self.columns_spec()[i].0 && cols@[i].1 == self.columns_spec()[i].1,
                b <= blocks@.len(),
                forall|c: int| 0 <= c < b ==> block_matches(self.columns_spec(), #[trigger] blocks@[c]),
            decreases blocks@.len() - b,
        {
            let bcols = blocks[b].columns();
            if bcols.len() != cols.len() {
                return Some((b, Mismatch::ColumnCount { got: bcols.len(), expected: cols.len() }));
            }
            let mut i: usize = 0;
            while i < cols.len()
                invariant
                    b < blocks@.len(),
                    forall|c: int| 0 <= c < b ==> block_matches(self.columns_spec(), #[trigger] blocks@[c]),
                    bcols@ == blocks@[b as int].cols(),
                    bcols@.len() == cols@.len(),
                    cols@.len() == self.columns_spec().len(),
                    forall|k: int| 0 <= k < cols@.len() ==> #[trigger] cols@[k].0@ == self.columns_spec()[k].0 && cols@[k].1 == self.columns_spec()[k].1,
                    i <= cols@.len(),
                    forall|k: int|
                        0 <= k < i ==> (#[trigger] bcols@[k]).0@ == self.columns_spec()[k].0
                            && bcols@[k].1.dtype() == self.columns_spec()[k].1,
                decreases cols@.len() - i,
            {
                assert(cols@[i as int].0@ == self.columns_spec()[i as int].0);
                if !str_is(bcols[i].0.as_str(), cols[i].0.as_str()) || bcols[i].1.data_type() != cols[i].1 {
                    return Some((b, Mismatch::Column { index: i }));
                }
                i = i + 1;
            }
            b = b + 1;
        }
        None
    }

    /// The part an insert of `blocks` writes: a writer over the table's
    /// columns and codec holding the blocks with at least one row, in order;
    /// `None` when no block has a row. Every block must have the table's
    /// columns and chunks that fit.
    pub fn prepare_insert(&self, blocks: &[Block]) -> (r: Option<PartWriter>)
        requires
            blocks_match_schema(self.columns_spec(), blocks@),
            forall|b: int, i: int|
                0 <= b < blocks@.len() && 0 <= i < blocks@[b].cols().len() ==> chunk_fits(
                    #[trigger] blocks@[b].cols()[i].1,
                ),
            forall|b: int| 0 <= b < blocks@.len() ==> (#[trigger] blocks@[b]).wf(),
            total_rows(blocks@) <= usize::MAX,
        ensures
            r is None <==> nonempty_blocks(blocks@).len() == 0,
            r matches Some(w) ==> w.wf() && w.decls() == self.columns_spec() && w.codec_spec()
                == self.codec_spec() && w.written() == nonempty_blocks(blocks@) && w.rows()
                == total_rows(blocks@),
    {
        let mut w = PartWriter::new(self.schema.columns(), self.codec);
        proof {
            self.schema.lemma_view_is_declared();
        }
        let mut any = false;
        let mut b: usize = 0;
        while b < blocks.len()
            invariant
                w.wf(),
                w.decls() == self.columns_spec(),
                w.codec_spec() == self.codec_spec(),
                b <= blocks@.len(),
                w.written() == nonempty_blocks(blocks@.take(b as int)),
                w.rows() == total_rows(blocks@.take(b as int)),
                any == (nonempty_blocks(blocks@.take(b as int)).len() > 0),
                blocks_match_schema(self.columns_spec(), blocks@),
                forall|c: int, i: int|
                    0 <= c < blocks@.len() && 0 <= i < blocks@[c].cols().len() ==> chunk_fits(
                        #[trigger] blocks@[c].cols()[i].1,
                    ),
                forall|c: int| 0 <= c < blocks@.len() ==> (#[trigger] blocks@[c]).wf(),
                total_rows(blocks@) <= usize::MAX,
            decreases blocks@.len() - b,
        {
            proof {
                lemma_total_rows_prefix(blocks@, b as int);
                assert(blocks@.take(b + 1).drop_last() =~= blocks@.take(b as int));
                assert(blocks@.take(b + 1).last() == blocks@[b as int]);
            }
            if blocks[b].num_rows() > 0 {
                assert(block_matches(w.decls(), blocks@[b as int]));
                assert forall|i: int| 0 <= i < blocks@[b as int].cols().len() implies chunk_fits(
                    #[trigger] blocks@[b as int].cols()[i].1,
                ) by {}
                w.write_block(&blocks[b]);
                any = true;
            }
            b = b + 1;
        }
        assert(blocks@.take(blocks@.len() as int) =~= blocks@);
        if any {
            Some(w)
        } else {
            None
        }
    }

    /// Records that the next part was written.
    pub fn part_written(&mut self)
        requires
            old(self).next_id() < usize::MAX,
        ensures
            final(self).next_id() == old(self).next_id() + 1,
            final(self).columns_spec() == old(self).columns_spec(),
            final(self).codec_spec() == old(self).codec_spec(),
            final(self).dir_spec() == old(self).dir_spec(),
    {
        self.next_part_id = self.next_part_id + 1;
    }
}


/// What a table scan does next: open the part at a position of the part
/// list, read the next block of the open part, or stop.
#[derive(Debug, Clone, Copy, PartialEq, Eq, Structural)]
pub enum ScanStep {
    Open(usize),
    Read,
    Done,
}

/// How reading from the open part went.
#[derive(Debug, Clone, Copy, PartialEq, Eq, Structural)]
pub enum ReadOutcome {
    /// A block came back; the scan hands it out.
    Block,
    /// The part ended; the scan moves to the next one.
    End,
    /// Reading failed; the scan hands out the error and stops.
    Failed,
}

/// The progress of a scan over a table's parts, in id order: the number of
/// parts, the position of the current one, and whether it is open. A
/// failure to open or read ends the scan.
#[derive(Debug)]
pub struct Scan {
    parts: usize,
    pos: usize,
    open: bool,
}

impl Scan {
    /// The number of parts scanned.
    pub closed spec fn part_count(self) -> nat {
        self.parts as nat
    }

    /// The position of the current part; at or past the count when done.
    pub closed spec fn position(self) -> nat {
        self.pos as nat
    }

    /// Whether the current part is open.
    pub closed spec fn is_open(self) -> bool {
        self.open
    }

    /// The step a scan in this state takes.
    pub open spec fn step_spec(self) -> ScanStep {
        if self.position() >= self.part_count() {
            ScanStep::Done
        } else if self.is_open() {
            ScanStep::Read
        } else {
            ScanStep::Open(self.position() as usize)
        }
    }

    /// A scan over `parts` parts, none open yet.
    pub fn new(parts: usize) -> (s: Scan)
        ensures
            s.part_count() == parts,
            s.position() == 0,
            !s.is_open(),
    {
        Scan { parts, pos: 0, open: false }
    }

    /// The next step.
    pub fn step(&self) -> (r: ScanStep)
        ensures
            r == self.step_spec(),
    {
        if self.pos >= self.parts {
            ScanStep::Done
        } else if self.open {
            ScanStep::Read
        } else {
            ScanStep::Open(self.pos)
        }
    }

    /// Records the outcome of opening the current part: it is open, or the
    /// scan ends.
    pub fn opened(&mut self, ok: bool)
        requires
            old(self).position() < old(self).part_count(),
            !old(self).is_open(),
        ensures
            final(self).part_count() == old(self).part_count(),
            ok ==> final(self).position() == old(self).position() && final(self).is_open(),
            !ok ==> final(self).step_spec() == ScanStep::Done,
    {
        if ok {
            self.open = true;
        } else {
            self.pos = self.parts;
            self.open = false;
        }
    }

    /// Records the outcome of reading from the open part: a block keeps the
    /// part open, its end moves to the next part, a failure ends the scan.
    pub fn read(&mut self, outcome: ReadOutcome)
        requires
            old(self).position() < old(self).part_count(),
            old(self).is_open(),
        ensures
            final(self).part_count() == old(self).part_count(),
            outcome == ReadOutcome::Block ==> *final(self) == *old(self),
            outcome == ReadOutcome::End ==> final(self).position() == old(self).position() + 1
                && !final(self).is_open(),
            outcome == ReadOutcome::Failed ==> final(self).step_spec() == ScanStep::Done,
    {
        match outcome {
            ReadOutcome::Block => {},
            ReadOutcome::End => {
                self.pos = self.pos + 1;
                self.open = false;
            },
            ReadOutcome::Failed => {
                self.pos = self.parts;
                self.open = false;
            },
        }
    }
}

} // verus!
