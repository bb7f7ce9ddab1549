//! The line-oriented text shared by the table and part schema files:
//! splitting into lines, `key=value` prefixes, and `column=<name>:<type>`
//! declarations.
use crate::data_type::DataType;
use crate::schema::{declared, schema_new_outcome, Schema, SchemaError};
use crate::text::{chars_eq, decimal, push_chars, push_decimal, push_str, string_of};
use vstd::prelude::*;

verus! {

/// The position of the first `c` in `s`, if any.
pub open spec fn find_char(s: Seq<char>, c: char) -> Option<int>
    decreases s.len(),
{
    if s.len() == 0 {
        None
    } else if s[0] == c {
        Some(0)
    } else {
        match find_char(s.drop_first(), c) {
            Some(k) => Some(k + 1),
            None => None,
        }
    }
}

/// A line without the carriage return that precedes its newline.
pub open spec fn strip_cr(l: Seq<char>) -> Seq<char> {
    if l.len() > 0 && l.last() == '\r' {
        l.drop_last()
    } else {
        l
    }
}

/// The lines of a text as `str::lines` yields them: split at `\n`, a `\r`
/// right before a `\n` dropped, and no empty line after a final `\n`.
pub open spec fn lines_of(s: Seq<char>) -> Seq<Seq<char>>
    decreases s.len(),
{
    if s.len() == 0 {
        Seq::empty()
    } else {
        match find_char(s, '\n') {
            None => seq![s],
            Some(k) => if 0 <= k < s.len() {
                seq![strip_cr(s.take(k))] + lines_of(s.skip(k + 1))
            } else {
                Seq::empty()
            },
        }
    }
}

/// The rest of `s` after `prefix`, if `s` starts with it.
pub open spec fn strip_prefix(s: Seq<char>, prefix: Seq<char>) -> Option<Seq<char>> {
    if prefix.is_prefix_of(s) {
        Some(s.skip(prefix.len() as int))
    } else {
        None
    }
}

/// `s` split at its first `c`, if it has one.
pub open spec fn split_once(s: Seq<char>, c: char) -> Option<(Seq<char>, Seq<char>)> {
    match find_char(s, c) {
        Some(k) => Some((s.take(k), s.skip(k + 1))),
        None => None,
    }
}

/// The declaration a `column=<name>:<type>` line holds, or the message for
/// line number `line_no` when it is malformed.
pub open spec fn column_decl(line: Seq<char>, line_no: nat) -> Result<
    (Seq<char>, DataType),
    Seq<char>,
> {
    match strip_prefix(line, "column="@) {
        None => Err("line "@ + decimal(line_no) + ": expected column=..."@),
        Some(d) => match split_once(d, ':') {
            None => Err("line "@ + decimal(line_no) + ": expected column=<name>:<type>"@),
            Some((name, ty)) => match DataType::from_token(ty) {
                None => Err("line "@ + decimal(line_no) + ": invalid data type '"@ + ty + "'"@),
                Some(dt) => Ok((name, dt)),
            },
        },
    }
}

/// The declarations of `lines[from..]`, where line `i` has number `i + 1`;
/// the first malformed line is reported.
pub open spec fn decls_from(lines: Seq<Seq<char>>, from: int) -> Result<
    Seq<(Seq<char>, DataType)>,
    Seq<char>,
>
    decreases lines.len() - from,
{
    if from < 0 || from >= lines.len() {
        Ok(Seq::empty())
    } else {
        match column_decl(lines[from], (from + 1) as nat) {
            Err(m) => Err(m),
            Ok(d) => match decls_from(lines, from + 1) {
                Err(m) => Err(m),
                Ok(rest) => Ok(seq![d] + rest),
            },
        }
    }
}

/// What a schema check gives for declarations `cols`: the declarations, or
/// the message of the `SchemaError` it reports.
pub open spec fn checked_decls(cols: Seq<(Seq<char>, DataType)>) -> Result<
    Seq<(Seq<char>, DataType)>,
    Seq<char>,
> {
    if cols.len() == 0 {
        Err("schema is empty"@)
    } else {
        match crate::schema::first_bad_from(cols, 0) {
            None => Ok(cols),
            Some(i) => if cols[i].0.len() == 0 {
                Err("column name is empty"@)
            } else {
                Err("duplicate column name '"@ + cols[i].0 + "'"@)
            },
        }
    }
}

/// The text of one column declaration line, without its newline.
pub open spec fn column_line(name: Seq<char>, dt: DataType) -> Seq<char> {
    "column="@ + name + ":"@ + dt.token()
}

/// The declaration lines of `cols`, each followed by a newline.
pub open spec fn column_lines(cols: Seq<(Seq<char>, DataType)>) -> Seq<char>
    decreases cols.len(),
{
    if cols.len() == 0 {
        Seq::empty()
    } else {
        column_lines(cols.drop_last()) + column_line(cols.last().0, cols.last().1) + "\n"@
    }
}

/// Whether `name` can stand in a declaration line and be read back: it
/// holds no `:` and no newline.
pub open spec fn plain_name(name: Seq<char>) -> bool {
    forall|i: int| 0 <= i < name.len() ==> (#[trigger] name[i] != ':') && name[i] != '\n'
}

/// The declaration lines of `cols`, without their newlines.
pub open spec fn line_seq(cols: Seq<(Seq<char>, DataType)>) -> Seq<Seq<char>> {
    Seq::new(cols.len(), |i: int| column_line(cols[i].0, cols[i].1))
}

/// A line without a newline, not ending in a carriage return, followed by a
/// newline is read as itself, then the lines of the rest.
pub proof fn lemma_lines_of_cons(l: Seq<char>, rest: Seq<char>)
    requires
        forall|i: int| 0 <= i < l.len() ==> #[trigger] l[i] != '\n',
        l.len() == 0 || l.last() != '\r',
    ensures
        lines_of(l + "\n"@ + rest) == seq![l] + lines_of(rest),
{
    reveal_strlit("\n");
    let s = l + "\n"@ + rest;
    assert forall|j: int| 0 <= j < l.len() implies s[j] != '\n' by {
        assert(s[j] == l[j]);
    }
    lemma_find_char_prefix(s, '\n', l.len() as int);
    assert(s.take(l.len() as int) =~= l);
    assert(s.skip(l.len() as int + 1) =~= rest);
}

proof fn lemma_column_lines_front(cols: Seq<(Seq<char>, DataType)>)
    requires
        cols.len() > 0,
    ensures
        column_lines(cols) == column_line(cols[0].0, cols[0].1) + "\n"@ + column_lines(
            cols.drop_first(),
        ),
    decreases cols.len(),
{
    if cols.len() == 1 {
        assert(cols.drop_last() =~= Seq::<(Seq<char>, DataType)>::empty());
        assert(cols.drop_first() =~= Seq::<(Seq<char>, DataType)>::empty());
        assert(column_lines(cols) =~= column_line(cols[0].0, cols[0].1) + "\n"@ + column_lines(
            cols.drop_first(),
        ));
    } else {
        lemma_column_lines_front(cols.drop_last());
        assert(cols.drop_last().drop_first() =~= cols.drop_first().drop_last());
        assert(cols.drop_last()[0] == cols[0]);
        assert(cols.drop_first().last() == cols.last());
        assert(column_lines(cols) =~= column_line(cols[0].0, cols[0].1) + "\n"@ + column_lines(
            cols.drop_first(),
        ));
    }
}

/// A declaration line of a plain name holds no newline and does not end in
/// a carriage return.
pub proof fn lemma_column_line_plain(name: Seq<char>, dt: DataType)
    requires
        plain_name(name),
    ensures
        forall|i: int|
            0 <= i < column_line(name, dt).len() ==> #[trigger] column_line(name, dt)[i] != '\n',
        column_line(name, dt).len() > 0,
        column_line(name, dt).last() != '\r',
{
    reveal_strlit("column=");
    reveal_strlit(":");
    crate::data_type::lemma_token_plain(dt);
    let l = column_line(name, dt);
    let t = dt.token();
    assert forall|i: int| 0 <= i < l.len() implies #[trigger] l[i] != '\n' by {
        if i >= l.len() - t.len() {
            assert(l[i] == t[i - (l.len() - t.len())]);
        } else if i >= 7 && i < 7 + name.len() {
            assert(l[i] == name[i - 7]);
        }
    }
    assert(l.last() == t[t.len() - 1]);
}

/// The declaration lines of plain names are read back line by line.
pub proof fn lemma_column_lines_read(cols: Seq<(Seq<char>, DataType)>)
    requires
        forall|i: int| 0 <= i < cols.len() ==> plain_name(#[trigger] cols[i].0),
    ensures
        lines_of(column_lines(cols)) == line_seq(cols),
    decreases cols.len(),
{
    if cols.len() == 0 {
        assert(lines_of(column_lines(cols)) =~= line_seq(cols));
    } else {
        lemma_column_lines_front(cols);
        assert(plain_name(cols[0].0));
        lemma_column_line_plain(cols[0].0, cols[0].1);
        lemma_lines_of_cons(column_line(cols[0].0, cols[0].1), column_lines(cols.drop_first()));
        assert forall|i: int| 0 <= i < cols.drop_first().len() implies plain_name(
            #[trigger] cols.drop_first()[i].0,
        ) by {
            assert(cols.drop_first()[i] == cols[i + 1]);
        }
        lemma_column_lines_read(cols.drop_first());
        assert(seq![column_line(cols[0].0, cols[0].1)] + line_seq(cols.drop_first()) =~= line_seq(
            cols,
        ));
    }
}

/// A declaration line of a plain name reads back as its declaration.
pub proof fn lemma_column_decl_round_trip(name: Seq<char>, dt: DataType, line_no: nat)
    requires
        plain_name(name),
    ensures
        column_decl(column_line(name, dt), line_no) == Ok::<(Seq<char>, DataType), Seq<char>>(
            (name, dt),
        ),
{
    reveal_strlit("column=");
    reveal_strlit(":");
    let l = column_line(name, dt);
    let p = "column="@;
    assert(p.is_prefix_of(l)) by {
        assert forall|i: int| 0 <= i < p.len() implies p[i] == l[i] by {}
    }
    let d = l.skip(7);
    assert(d =~= name + ":"@ + dt.token());
    assert forall|j: int| 0 <= j < name.len() implies d[j] != ':' by {
        assert(d[j] == name[j]);
    }
    lemma_find_char_prefix(d, ':', name.len() as int);
    assert(d.take(name.len() as int) =~= name);
    assert(d.skip(name.len() as int + 1) =~= dt.token());
    crate::data_type::lemma_token_round_trip(dt);
}

/// Lines that are the declaration lines of `cols`, from `from` on, read
/// back as `cols`.
pub proof fn lemma_decls_from_lines(
    lines: Seq<Seq<char>>,
    from: int,
    cols: Seq<(Seq<char>, DataType)>,
)
    requires
        0 <= from <= lines.len(),
        lines.len() - from == cols.len(),
        forall|i: int| 0 <= i < cols.len() ==> lines[from + i] == #[trigger] line_seq(cols)[i],
        forall|i: int| 0 <= i < cols.len() ==> plain_name(#[trigger] cols[i].0),
    ensures
        decls_from(lines, from) == Ok::<Seq<(Seq<char>, DataType)>, Seq<char>>(cols),
    decreases lines.len() - from,
{
    if from == lines.len() {
        assert(cols =~= Seq::<(Seq<char>, DataType)>::empty());
    } else {
        assert(lines[from] == line_seq(cols)[0]);
        assert(plain_name(cols[0].0));
        lemma_column_decl_round_trip(cols[0].0, cols[0].1, (from + 1) as nat);
        let rest = cols.drop_first();
        assert forall|i: int| 0 <= i < rest.len() implies lines[from + 1 + i] == #[trigger] line_seq(
            rest,
        )[i] by {
            assert(line_seq(cols)[i + 1] == line_seq(rest)[i]);
        }
        assert forall|i: int| 0 <= i < rest.len() implies plain_name(#[trigger] rest[i].0) by {
            assert(rest[i] == cols[i + 1]);
        }
        lemma_decls_from_lines(lines, from + 1, rest);
        assert(seq![cols[0]] + rest =~= cols);
    }
}

/// Splits `s` into lines as `str::lines` does.
pub fn split_lines(s: &[char]) -> (r: Vec<Vec<char>>)
    ensures
        r@.len() == lines_of(s@).len(),
        forall|i: int| 0 <= i < r@.len() ==> (#[trigger] r@[i])@ == lines_of(s@)[i],
{
    let mut out: Vec<Vec<char>> = Vec::new();
    let mut start: usize = 0;
    let n = s.len();
    assert(s@.skip(0) =~= s@);
    assert(out@.map_values(|l: Vec<char>| l@) + lines_of(s@) =~= lines_of(s@));
    while start < n
        invariant
            n == s@.len(),
            start <= n,
            lines_of(s@) == out@.map_values(|l: Vec<char>| l@) + lines_of(s@.skip(start as int)),
        decreases n - start,
    {
        let ghost rest = s@.skip(start as int);
        let mut k: usize = start;
        while k < n && s[k] != '\n'
            invariant
                start <= k <= n,
                n == s@.len(),
                forall|j: int| start <= j < k ==> s@[j] != '\n',
            decreases n - k,
        {
            k = k + 1;
        }
        proof {
            lemma_find_char_prefix(rest, '\n', (k - start) as int);
        }
        let mut line: Vec<char> = Vec::new();
        let mut j: usize = start;
        while j < k
            invariant
                start <= j <= k <= n,
                n == s@.len(),
                line@ == s@.subrange(start as int, j as int),
            decreases k - j,
        {
            line.push(s[j]);
            j = j + 1;
        }
        if k < n {
            if line.len() > 0 && line[line.len() - 1] == '\r' {
                line.pop();
            }
            assert(line@ == strip_cr(rest.take((k - start) as int)));
            let ghost old_out = out@.map_values(|l: Vec<char>| l@);
            out.push(line);
            assert(rest.skip((k - start) as int + 1) =~= s@.skip(k + 1));
            assert(out@.map_values(|l: Vec<char>| l@) =~= old_out.push(strip_cr(rest.take((k - start) as int))));
            start = k + 1;
        } else {
            assert(line@ =~= rest);
            let ghost old_out = out@.map_values(|l: Vec<char>| l@);
            out.push(line);
            assert(out@.map_values(|l: Vec<char>| l@) =~= old_out.push(rest));
            assert(s@.skip(n as int) =~= Seq::<char>::empty());
            start = n;
        }
    }
    assert(s@.skip(n as int) =~= Seq::<char>::empty());
    assert(lines_of(s@) =~= out@.map_values(|l: Vec<char>| l@));
    out
}

proof fn lemma_find_char_prefix(s: Seq<char>, c: char, k: int)
    requires
        0 <= k <= s.len(),
        forall|j: int| 0 <= j < k ==> s[j] != c,
        k < s.len() ==> s[k] == c,
    ensures
        k < s.len() ==> find_char(s, c) == Some(k),
        k == s.len() ==> find_char(s, c) is None,
    decreases k,
{
    if s.len() > 0 && k > 0 {
        assert forall|j: int| 0 <= j < k - 1 implies s.drop_first()[j] != c by {
            assert(s.drop_first()[j] == s[j + 1]);
        }
        lemma_find_char_prefix(s.drop_first(), c, k - 1);
    }
}

/// Whether `line` starts with `prefix`; if so, the rest.
pub fn strip_prefix_chars(line: &[char], prefix: &str) -> (r: Option<Vec<char>>)
    ensures
        match strip_prefix(line@, prefix@) {
            None => r is None,
            Some(rest) => r matches Some(v) && v@ == rest,
        },
{
    let m = prefix.unicode_len();
    if m > line.len() {
        return None;
    }
    let mut i: usize = 0;
    while i < m
        invariant
            m == prefix@.len(),
            m <= line@.len(),
            i <= m,
            forall|j: int| 0 <= j < i ==> prefix@[j] == line@[j],
        decreases m - i,
    {
        if prefix.get_char(i) != line[i] {
            return None;
        }
        i = i + 1;
    }
    let mut rest: Vec<char> = Vec::new();
    let mut j: usize = m;
    while j < line.len()
        invariant
            m <= j <= line@.len(),
            rest@ == line@.subrange(m as int, j as int),
        decreases line@.len() - j,
    {
        rest.push(line[j]);
        j = j + 1;
    }
    assert(prefix@.is_prefix_of(line@)) by {
        assert(prefix@ =~= line@.take(m as int));
    }
    assert(rest@ =~= line@.skip(m as int));
    Some(rest)
}

/// `s` split at its first `c`, if it has one.
pub fn split_once_chars(s: &[char], c: char) -> (r: Option<(Vec<char>, Vec<char>)>)
    ensures
        match split_once(s@, c) {
            None => r is None,
            Some((a, b)) => r matches Some(p) && p.0@ == a && p.1@ == b,
        },
{
    let mut k: usize = 0;
    while k < s.len() && s[k] != c
        invariant
            k <= s@.len(),
            forall|j: int| 0 <= j < k ==> s@[j] != c,
        decreases s@.len() - k,
    {
        k = k + 1;
    }
    proof {
        lemma_find_char_prefix(s@, c, k as int);
    }
    if k == s.len() {
        return None;
    }
    let mut a: Vec<char> = Vec::new();
    let mut b: Vec<char> = Vec::new();
    let mut j: usize = 0;
    while j < s.len()
        invariant
            k < s@.len(),
            j <= s@.len(),
            j <= k ==> a@ == s@.take(j as int) && b@.len() == 0,
            j > k ==> a@ == s@.take(k as int) && b@ == s@.subrange(k + 1, j as int),
        decreases s@.len() - j,
    {
        if j < k {
            a.push(s[j]);
        } else if j > k {
            b.push(s[j]);
        }
        j = j + 1;
    }
    assert(b@ =~= s@.skip(k + 1));
    Some((a, b))
}

fn line_error(line_no: usize, detail: &str) -> (m: String)
    ensures
        m@ == "line "@ + decimal(line_no as nat) + detail@,
{
    let mut m = string_of("line ");
    push_decimal(&mut m, line_no as u64);
    push_str(&mut m, detail);
    m
}

/// Reads one `column=<name>:<type>` line.
pub fn parse_column_line(line: &[char], line_no: usize) -> (r: Result<(String, DataType), String>)
    ensures
        match column_decl(line@, line_no as nat) {
            Ok(d) => r matches Ok(p) && p.0@ == d.0 && p.1 == d.1,
            Err(m) => r matches Err(e) && e@ == m,
        },
{
    let d = match strip_prefix_chars(line, "column=") {
        None => return Err(line_error(line_no, ": expected column=...")),
        Some(d) => d,
    };
    let (name, ty) = match split_once_chars(d.as_slice(), ':') {
        None => return Err(line_error(line_no, ": expected column=<name>:<type>")),
        Some(p) => p,
    };
    let mut ty_text = String::new();
    push_chars(&mut ty_text, ty.as_slice());
    match DataType::parse_token(ty_text.as_str()) {
        Ok(dt) => {
            let mut name_text = String::new();
            push_chars(&mut name_text, name.as_slice());
            Ok((name_text, dt))
        },
        Err(_) => {
            let mut m = line_error(line_no, ": invalid data type '");
            push_chars(&mut m, ty.as_slice());
            push_str(&mut m, "'");
            Err(m)
        },
    }
}

/// Whether `r` is what `decls_from` gives: the declarations with their
/// names as strings, or the message.
pub open spec fn decls_match(
    r: Result<Vec<(String, DataType)>, String>,
    s: Result<Seq<(Seq<char>, DataType)>, Seq<char>>,
) -> bool {
    match s {
        Ok(d) => r matches Ok(v) && declared(v@) == d,
        Err(m) => r matches Err(e) && e@ == m,
    }
}

/// Reads the declaration lines `lines[from..]`.
pub fn parse_column_lines(lines: &[Vec<char>], from: usize) -> (r: Result<
    Vec<(String, DataType)>,
    String,
>)
    requires
        from <= lines@.len(),
    ensures
        decls_match(r, decls_from(lines@.map_values(|l: Vec<char>| l@), from as int)),
{
    let ghost ls = lines@.map_values(|l: Vec<char>| l@);
    let mut out: Vec<(String, DataType)> = Vec::new();
    let mut i: usize = from;
    while i < lines.len()
        invariant
            ls == lines@.map_values(|l: Vec<char>| l@),
            from <= i <= lines@.len(),
            decls_from(ls, from as int) == match decls_from(ls, i as int) {
                Err(m) => Err(m),
                Ok(rest) => Ok(declared(out@) + rest),
            },
        decreases lines@.len() - i,
    {
        assert(ls[i as int] == lines@[i as int]@);
        assert(i + 1 <= usize::MAX);
        match parse_column_line(lines[i].as_slice(), i + 1) {
            Err(e) => {
                return Err(e);
            },
            Ok(d) => {
                let ghost before = declared(out@);
                out.push(d);
                assert(declared(out@) =~= before + seq![(d.0@, d.1)]);
                proof {
                    match decls_from(ls, i + 1) {
                        Ok(rest) => {
                            assert(before + (seq![(d.0@, d.1)] + rest) =~= declared(out@) + rest);
                        },
                        Err(_) => {},
                    }
                }
            },
        }
        i = i + 1;
    }
    assert(declared(out@) + Seq::<(Seq<char>, DataType)>::empty() =~= declared(out@));
    Ok(out)
}

/// Checks the declarations as `Schema::new` does, giving the schema or the
/// message of its error.
pub fn check_schema(decls: Vec<(String, DataType)>) -> (r: Result<Schema, String>)
    ensures
        match checked_decls(declared(decls@)) {
            Ok(d) => r matches Ok(s) && s@ == d,
            Err(m) => r matches Err(e) && e@ == m,
        },
{
    let ghost cols = declared(decls@);
    match Schema::new(decls) {
        Ok(s) => {
            assert(schema_new_outcome(cols, Ok::<Schema, SchemaError>(s)));
            proof {
                crate::schema::lemma_valid_has_no_bad(cols);
            }
            Ok(s)
        },
        Err(e) => Err(e.to_string()),
    }
}

/// Appends the declaration lines of `cols` to `out`.
pub fn push_column_lines(out: &mut String, cols: &[(String, DataType)])
    ensures
        final(out)@ == old(out)@ + column_lines(declared(cols@)),
{
    let ghost d = declared(cols@);
    let mut i: usize = 0;
    while i < cols.len()
        invariant
            d == declared(cols@),
            i <= cols@.len(),
            out@ == old(out)@ + column_lines(d.take(i as int)),
        decreases cols@.len() - i,
    {
        push_str(out, "column=");
        push_str(out, cols[i].0.as_str());
        push_str(out, ":");
        push_str(out, cols[i].1.as_str());
        push_str(out, "\n");
        proof {
            assert(d.take(i + 1).drop_last() =~= d.take(i as int));
            assert(d.take(i + 1).last() == (cols@[i as int].0@, cols@[i as int].1));
        }
        assert(out@ =~= old(out)@ + column_lines(d.take(i + 1)));
        i = i + 1;
    }
    assert(d.take(cols@.len() as int) =~= d);
}

} // verus!
