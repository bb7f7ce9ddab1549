//! The schema files read back as they were written: a part's `schema.txt`
//! and a table's.
use crate::codec::Codec;
use crate::data_type::DataType;
use crate::part_reader::part_schema_spec;
use crate::part_writer::part_schema_text;
use crate::schema::valid_schema;
use crate::schema_text::{
    column_lines, lemma_column_lines_read, lemma_decls_from_lines, lemma_lines_of_cons, line_seq,
    lines_of, plain_name, strip_prefix,
};
use crate::table::{table_schema_spec, table_schema_text};
use crate::text::{decimal, is_digit, lemma_decimal_digits, lemma_decimal_parses};
use vstd::prelude::*;

verus! {

/// Whether `l` can be the first or second line of a schema file and be read
/// back: nonempty, without newlines, not ending in a carriage return.
spec fn header_line(l: Seq<char>) -> bool {
    &&& l.len() > 0
    &&& forall|i: int| 0 <= i < l.len() ==> #[trigger] l[i] != '\n'
    &&& l.last() != '\r'
}

proof fn lemma_schema_lines(l1: Seq<char>, l2: Seq<char>, cols: Seq<(Seq<char>, DataType)>)
    requires
        header_line(l1),
        header_line(l2),
        forall|i: int| 0 <= i < cols.len() ==> plain_name(#[trigger] cols[i].0),
    ensures
        lines_of(l1 + "\n"@ + l2 + "\n"@ + column_lines(cols)) == seq![l1, l2] + line_seq(cols),
{
    let cl = column_lines(cols);
    assert(l1 + "\n"@ + l2 + "\n"@ + cl =~= l1 + "\n"@ + (l2 + "\n"@ + cl));
    lemma_lines_of_cons(l1, l2 + "\n"@ + cl);
    lemma_lines_of_cons(l2, cl);
    lemma_column_lines_read(cols);
    assert(seq![l1] + (seq![l2] + line_seq(cols)) =~= seq![l1, l2] + line_seq(cols));
}

proof fn lemma_version_line()
    ensures
        header_line("version=1"@),
        strip_prefix("version=1"@, "version="@) == Some("1"@),
{
    reveal_strlit("version=1");
    reveal_strlit("version=");
    reveal_strlit("1");
    assert("version="@.is_prefix_of("version=1"@));
    assert("version=1"@.skip(8) =~= "1"@);
}

proof fn lemma_rows_line(n: usize)
    ensures
        header_line("num_rows="@ + decimal(n as nat)),
        strip_prefix("num_rows="@ + decimal(n as nat), "num_rows="@) == Some(decimal(n as nat)),
{
    reveal_strlit("num_rows=");
    let d = decimal(n as nat);
    let l2 = "num_rows="@ + d;
    lemma_decimal_digits(n as nat);
    assert forall|i: int| 0 <= i < l2.len() implies #[trigger] l2[i] != '\n' by {
        if i >= 9 {
            assert(l2[i] == d[i - 9]);
            assert(is_digit(d[i - 9]));
        }
    }
    assert(l2.last() == d[d.len() - 1]);
    assert(is_digit(d[d.len() - 1]));
    assert("num_rows="@.is_prefix_of(l2));
    assert(l2.skip(9) =~= d);
}

/// A part's `schema.txt` reads back as the declarations and row count it
/// was written from, when the declarations form a valid schema of plain
/// names.
pub proof fn lemma_part_schema_round_trip(decls: Seq<(Seq<char>, DataType)>, n: usize)
    requires
        valid_schema(decls),
        forall|i: int| 0 <= i < decls.len() ==> plain_name(#[trigger] decls[i].0),
    ensures
        part_schema_spec(part_schema_text(decls, n as nat)) == Ok::<
            (Seq<(Seq<char>, DataType)>, usize),
            (bool, Seq<char>),
        >((decls, n)),
{
    reveal_strlit("version=1\n");
    reveal_strlit("version=1");
    reveal_strlit("\n");
    let l1 = "version=1"@;
    let l2 = "num_rows="@ + decimal(n as nat);
    let text = part_schema_text(decls, n as nat);
    assert(text =~= l1 + "\n"@ + l2 + "\n"@ + column_lines(decls));
    lemma_version_line();
    lemma_rows_line(n);
    lemma_schema_lines(l1, l2, decls);
    let ls = lines_of(text);
    lemma_decimal_parses(n);
    lemma_decls_from_lines(ls, 2, decls);
    crate::schema::lemma_valid_has_no_bad(decls);
}

proof fn lemma_codec_line(c: Codec)
    ensures
        header_line("codec="@ + c.name()),
        strip_prefix("codec="@ + c.name(), "codec="@) == Some(c.name()),
        Codec::from_name(c.name()) == Some(c),
{
    reveal_strlit("codec=");
    reveal_strlit("none");
    reveal_strlit("lz4");
    let l = "codec="@ + c.name();
    assert forall|i: int| 0 <= i < l.len() implies #[trigger] l[i] != '\n' by {
        if i >= 6 {
            assert(l[i] == c.name()[i - 6]);
        }
    }
    assert(l.last() == c.name()[c.name().len() - 1]);
    assert("codec="@.is_prefix_of(l));
    assert(l.skip(6) =~= c.name());
    crate::codec::lemma_codec_round_trips(c);
}

/// A table's `schema.txt` reads back as the declarations and codec it was
/// written from, when the declarations form a valid schema of plain names.
pub proof fn lemma_table_schema_round_trip(decls: Seq<(Seq<char>, DataType)>, codec: Codec)
    requires
        valid_schema(decls),
        forall|i: int| 0 <= i < decls.len() ==> plain_name(#[trigger] decls[i].0),
    ensures
        table_schema_spec(table_schema_text(decls, codec)) == Ok::<
            (Seq<(Seq<char>, DataType)>, Codec),
            (bool, Seq<char>),
        >((decls, codec)),
{
    reveal_strlit("version=1\n");
    reveal_strlit("version=1");
    reveal_strlit("\n");
    let l1 = "version=1"@;
    let l2 = "codec="@ + codec.name();
    let text = table_schema_text(decls, codec);
    assert(text =~= l1 + "\n"@ + l2 + "\n"@ + column_lines(decls));
    lemma_version_line();
    lemma_codec_line(codec);
    lemma_schema_lines(l1, l2, decls);
    let ls = lines_of(text);
    lemma_decls_from_lines(ls, 2, decls);
    crate::schema::lemma_valid_has_no_bad(decls);
}

} // verus!
