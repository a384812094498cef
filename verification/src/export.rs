//! Rendering the current view for export.
//!
//! Output is the "current view": exactly the rows of a view (filtered and
//! sorted) across the selected columns. The bytes are produced in pieces (a
//! header, one piece per row, a footer) so a caller can stream them to disk
//! with bounded memory; [`render`] produces the whole output at once.
//!
//! Escaping works on the UTF-8 bytes of each value. Every byte that an escape
//! rule looks at is ASCII, and in UTF-8 an ASCII byte is always a whole
//! character, so escaping bytes is escaping characters.

use vstd::prelude::*;
use vstd::utf8::encode_utf8;
use vstd::view::View as _;
use crate::dataset::Dataset;
use vstd::utf8::{decode_utf8, valid_utf8};
use crate::encoding::law_clean_utf8_passes_through;
use crate::parser::{
    body_end, field_content, field_end, field_text, law_fields_tile_record, quoted_end,
    ranges_from, record_fields, trimmed_field, unescape_quotes,
};
use crate::view::View;

verus! {

/// Output formats for export.
#[derive(Debug, Clone, Copy, PartialEq, Eq, Structural)]
pub enum Format {
    Csv,
    Tsv,
    /// An array of `{column: value}` objects, one per line.
    Json,
    /// A standalone `<table>` for pasting into incident reports.
    Html,
}

/// The format an integer code stands for.
pub open spec fn format_of_code(code: u32) -> Option<Format> {
    if code == 0 {
        Some(Format::Csv)
    } else if code == 1 {
        Some(Format::Tsv)
    } else if code == 2 {
        Some(Format::Json)
    } else if code == 3 {
        Some(Format::Html)
    } else {
        None
    }
}

impl Format {
    /// Map an integer code to a format.
    pub fn from_code(code: u32) -> (res: Option<Format>)
        ensures
            res == format_of_code(code),
    {
        match code {
            0 => Some(Format::Csv),
            1 => Some(Format::Tsv),
            2 => Some(Format::Json),
            3 => Some(Format::Html),
            _ => None,
        }
    }
}

/// `s` with every `"` doubled.
pub open spec fn quotes_doubled(s: Seq<u8>) -> Seq<u8>
    decreases s.len(),
{
    if s.len() == 0 {
        seq![]
    } else {
        quotes_doubled(s.drop_last()) + if s.last() == 34u8 {
            seq![34u8, 34u8]
        } else {
            seq![s.last()]
        }
    }
}

/// A field must be quoted when it holds the delimiter, a quote, or a line
/// break.
pub open spec fn needs_quoting(s: Seq<u8>, delim: u8) -> bool {
    exists|i: int|
        0 <= i < s.len() && (#[trigger] s[i] == delim || s[i] == 34u8 || s[i] == 10u8 || s[i]
            == 13u8)
}

/// A delimited field per RFC 4180: quoted, with embedded quotes doubled,
/// when it needs quoting; as is otherwise.
pub open spec fn delimited_field(s: Seq<u8>, delim: u8) -> Seq<u8> {
    if needs_quoting(s, delim) {
        seq![34u8] + quotes_doubled(s) + seq![34u8]
    } else {
        s
    }
}

/// A lower-case hexadecimal digit.
pub open spec fn hex_digit(d: u8) -> u8 {
    if d < 10 {
        (48 + d) as u8
    } else {
        (87 + d) as u8
    }
}

/// The JSON escape of one byte.
pub open spec fn json_byte(b: u8) -> Seq<u8> {
    if b == 34u8 {
        encode_utf8("\\\""@)
    } else if b == 92u8 {
        encode_utf8("\\\\"@)
    } else if b == 10u8 {
        encode_utf8("\\n"@)
    } else if b == 13u8 {
        encode_utf8("\\r"@)
    } else if b == 9u8 {
        encode_utf8("\\t"@)
    } else if b < 32u8 {
        encode_utf8("\\u00"@) + seq![hex_digit(b / 16), hex_digit(b % 16)]
    } else {
        seq![b]
    }
}

/// `s` with every byte JSON-escaped.
pub open spec fn json_escaped(s: Seq<u8>) -> Seq<u8>
    decreases s.len(),
{
    if s.len() == 0 {
        seq![]
    } else {
        json_escaped(s.drop_last()) + json_byte(s.last())
    }
}

/// A JSON string literal holding `s`.
pub open spec fn json_string(s: Seq<u8>) -> Seq<u8> {
    seq![34u8] + json_escaped(s) + seq![34u8]
}

/// The HTML escape of one byte.
pub open spec fn html_byte(b: u8) -> Seq<u8> {
    if b == 38u8 {
        encode_utf8("&amp;"@)
    } else if b == 60u8 {
        encode_utf8("&lt;"@)
    } else if b == 62u8 {
        encode_utf8("&gt;"@)
    } else if b == 34u8 {
        encode_utf8("&quot;"@)
    } else if b == 39u8 {
        encode_utf8("&#39;"@)
    } else {
        seq![b]
    }
}

/// `s` with every byte HTML-escaped.
pub open spec fn html_escaped(s: Seq<u8>) -> Seq<u8>
    decreases s.len(),
{
    if s.len() == 0 {
        seq![]
    } else {
        html_escaped(s.drop_last()) + html_byte(s.last())
    }
}

/// `parts` joined with `sep` between neighbours.
pub open spec fn joined(parts: Seq<Seq<u8>>, sep: Seq<u8>) -> Seq<u8>
    decreases parts.len(),
{
    if parts.len() == 0 {
        seq![]
    } else if parts.len() == 1 {
        parts[0]
    } else {
        joined(parts.drop_last(), sep) + sep + parts.last()
    }
}

/// The bytes of column `c`'s name.
pub open spec fn name_bytes(ds: Dataset, c: usize) -> Seq<u8> {
    encode_utf8(ds.column_names()[c as int])
}

/// The bytes of cell `(r, c)`.
pub open spec fn value_bytes(ds: Dataset, r: int, c: usize) -> Seq<u8> {
    encode_utf8(ds.cell_text(r, c as int))
}

/// The field delimiter of a delimited format.
pub open spec fn format_delim(format: Format) -> u8 {
    if format == Format::Tsv {
        9u8
    } else {
        44u8
    }
}

/// The header piece for selected column `i`.
pub open spec fn header_piece(ds: Dataset, format: Format, sel: Seq<usize>, i: int) -> Seq<u8> {
    match format {
        Format::Html => encode_utf8("<th>"@) + html_escaped(name_bytes(ds, sel[i])) + encode_utf8("</th>"@),
        _ => delimited_field(name_bytes(ds, sel[i]), format_delim(format)),
    }
}

/// The piece a row holds for a column named `name` with value `value`.
pub open spec fn value_piece(format: Format, name: Seq<u8>, value: Seq<u8>) -> Seq<u8> {
    match format {
        Format::Json => json_string(name) + encode_utf8(": "@) + json_string(value),
        Format::Html => encode_utf8("<td>"@) + html_escaped(value) + encode_utf8("</td>"@),
        _ => delimited_field(value, format_delim(format)),
    }
}

/// The piece of row `r` for selected column `i`.
pub open spec fn row_piece(ds: Dataset, format: Format, sel: Seq<usize>, r: int, i: int) -> Seq<u8> {
    value_piece(format, name_bytes(ds, sel[i]), value_bytes(ds, r, sel[i]))
}

/// What goes between two pieces of a header or row.
pub open spec fn piece_sep(format: Format) -> Seq<u8> {
    match format {
        Format::Json => encode_utf8(", "@),
        Format::Html => seq![],
        _ => seq![format_delim(format)],
    }
}

/// The header of the output.
pub open spec fn export_header(ds: Dataset, format: Format, sel: Seq<usize>) -> Seq<u8> {
    let pieces = joined(Seq::new(sel.len(), |i: int| header_piece(ds, format, sel, i)), piece_sep(format));
    match format {
        Format::Json => encode_utf8("[\n"@),
        Format::Html => encode_utf8("<table>\n<thead><tr>"@) + pieces + encode_utf8(
            "</tr></thead>\n<tbody>\n"@,
        ),
        _ => pieces + seq![10u8],
    }
}

/// The output for data row `r`; `first` tells whether it is the first row
/// written.
pub open spec fn export_row(ds: Dataset, format: Format, sel: Seq<usize>, r: int, first: bool) -> Seq<u8> {
    let pieces = joined(Seq::new(sel.len(), |i: int| row_piece(ds, format, sel, r, i)), piece_sep(format));
    match format {
        Format::Json => (if first {
            seq![]
        } else {
            encode_utf8(",\n"@)
        }) + encode_utf8("  {"@) + pieces + encode_utf8("}"@),
        Format::Html => encode_utf8("<tr>"@) + pieces + encode_utf8("</tr>\n"@),
        _ => pieces + seq![10u8],
    }
}

/// The footer of the output.
pub open spec fn export_footer(format: Format) -> Seq<u8> {
    match format {
        Format::Json => encode_utf8("\n]\n"@),
        Format::Html => encode_utf8("</tbody>\n</table>\n"@),
        _ => seq![],
    }
}

/// The output for the rows `ids`, in order.
pub open spec fn export_rows(ds: Dataset, format: Format, sel: Seq<usize>, ids: Seq<u32>) -> Seq<u8>
    decreases ids.len(),
{
    if ids.len() == 0 {
        seq![]
    } else {
        export_rows(ds, format, sel, ids.drop_last()) + export_row(ds, format, sel, ids.last() as int, ids.len() == 1)
    }
}

/// The whole output for the rows `ids`.
pub open spec fn export_bytes(ds: Dataset, format: Format, sel: Seq<usize>, ids: Seq<u32>) -> Seq<u8> {
    export_header(ds, format, sel) + export_rows(ds, format, sel, ids) + export_footer(format)
}

/// The columns an export writes: all of them for an empty selection,
/// otherwise the selected ones that exist, in the given order.
pub open spec fn selected_spec(ncols: nat, cols: Seq<usize>) -> Seq<usize> {
    if cols.len() == 0 {
        Seq::new(ncols, |i: int| i as usize)
    } else {
        cols.filter(|c: usize| c < ncols)
    }
}

/// Append the UTF-8 bytes of `s`.
fn push_str(out: &mut Vec<u8>, s: &str)
    ensures
        final(out)@ == old(out)@ + encode_utf8(s@),
{
    let bytes = s.as_bytes();
    out.extend_from_slice(bytes);
    proof {
        assert(final(out)@ =~= old(out)@ + encode_utf8(s@));
    }
}

/// Append one field per RFC 4180: quoted when it holds the delimiter, a
/// quote, or a line break, with embedded quotes doubled.
pub fn write_delimited_field(out: &mut Vec<u8>, field: &str, delim: u8)
    ensures
        final(out)@ == old(out)@ + delimited_field(encode_utf8(field@), delim),
{
    let bytes = field.as_bytes();
    let mut needs = false;
    let mut k: usize = 0;
    while k < bytes.len()
        invariant
            k <= bytes@.len(),
            needs <==> exists|i: int|
                0 <= i < k && (#[trigger] bytes@[i] == delim || bytes@[i] == 34u8 || bytes@[i] == 10u8
                    || bytes@[i] == 13u8),
        decreases bytes@.len() - k,
    {
        let b = bytes[k];
        if b == delim || b == 34 || b == 10 || b == 13 {
            needs = true;
        }
        k += 1;
    }
    if !needs {
        out.extend_from_slice(bytes);
        proof {
            assert(final(out)@ =~= old(out)@ + bytes@);
        }
        return;
    }
    out.push(34);
    let ghost base = out@;
    let mut i: usize = 0;
    while i < bytes.len()
        invariant
            i <= bytes@.len(),
            out@ == base + quotes_doubled(bytes@.subrange(0, i as int)),
        decreases bytes@.len() - i,
    {
        let b = bytes[i];
        proof {
            assert(bytes@.subrange(0, i + 1).drop_last() =~= bytes@.subrange(0, i as int));
        }
        out.push(b);
        if b == 34 {
            out.push(34);
        }
        i += 1;
        proof {
            assert(out@ =~= base + quotes_doubled(bytes@.subrange(0, i as int)));
        }
    }
    out.push(34);
    proof {
        assert(bytes@.subrange(0, bytes@.len() as int) =~= bytes@);
        assert(final(out)@ =~= old(out)@ + delimited_field(encode_utf8(field@), delim));
    }
}

/// Append a JSON string literal holding `s`, with the standard escapes.
pub fn write_json_string(out: &mut Vec<u8>, s: &str)
    ensures
        final(out)@ == old(out)@ + json_string(encode_utf8(s@)),
{
    let bytes = s.as_bytes();
    out.push(34);
    let ghost base = out@;
    let mut i: usize = 0;
    while i < bytes.len()
        invariant
            i <= bytes@.len(),
            out@ == base + json_escaped(bytes@.subrange(0, i as int)),
        decreases bytes@.len() - i,
    {
        let b = bytes[i];
        proof {
            assert(bytes@.subrange(0, i + 1).drop_last() =~= bytes@.subrange(0, i as int));
        }
        let ghost prev = out@;
        if b == 34 {
            push_str(out, "\\\"");
        } else if b == 92 {
            push_str(out, "\\\\");
        } else if b == 10 {
            push_str(out, "\\n");
        } else if b == 13 {
            push_str(out, "\\r");
        } else if b == 9 {
            push_str(out, "\\t");
        } else if b < 32 {
            push_str(out, "\\u00");
            out.push(hex_char(b / 16));
            out.push(hex_char(b % 16));
        } else {
            out.push(b);
        }
        proof {
            assert(out@ =~= prev + json_byte(b));
        }
        i += 1;
        proof {
            assert(out@ =~= base + json_escaped(bytes@.subrange(0, i as int)));
        }
    }
    out.push(34);
    proof {
        assert(bytes@.subrange(0, bytes@.len() as int) =~= bytes@);
        assert(final(out)@ =~= old(out)@ + json_string(encode_utf8(s@)));
    }
}

/// A lower-case hexadecimal digit.
fn hex_char(d: u8) -> (res: u8)
    requires
        d < 16,
    ensures
        res == hex_digit(d),
{
    if d < 10 {
        48 + d
    } else {
        87 + d
    }
}

/// Append `s` with HTML markup characters escaped.
pub fn write_html_escaped(out: &mut Vec<u8>, s: &str)
    ensures
        final(out)@ == old(out)@ + html_escaped(encode_utf8(s@)),
{
    let bytes = s.as_bytes();
    let ghost base = out@;
    let mut i: usize = 0;
    while i < bytes.len()
        invariant
            i <= bytes@.len(),
            out@ == base + html_escaped(bytes@.subrange(0, i as int)),
        decreases bytes@.len() - i,
    {
        let b = bytes[i];
        proof {
            assert(bytes@.subrange(0, i + 1).drop_last() =~= bytes@.subrange(0, i as int));
        }
        let ghost prev = out@;
        if b == 38 {
            push_str(out, "&amp;");
        } else if b == 60 {
            push_str(out, "&lt;");
        } else if b == 62 {
            push_str(out, "&gt;");
        } else if b == 34 {
            push_str(out, "&quot;");
        } else if b == 39 {
            push_str(out, "&#39;");
        } else {
            out.push(b);
        }
        proof {
            assert(out@ =~= prev + html_byte(b));
        }
        i += 1;
        proof {
            assert(out@ =~= base + html_escaped(bytes@.subrange(0, i as int)));
        }
    }
    proof {
        assert(bytes@.subrange(0, bytes@.len() as int) =~= bytes@);
    }
}

/// The columns to export: all columns for an empty `cols`, otherwise the
/// listed columns that exist, in the listed order.
pub fn selected_columns(dataset: &Dataset, cols: &[usize]) -> (res: Vec<usize>)
    ensures
        res@ == selected_spec(dataset.column_names().len(), cols@),
{
    let ncols = dataset.column_count();
    let mut out: Vec<usize> = Vec::new();
    if cols.len() == 0 {
        let mut c: usize = 0;
        while c < ncols
            invariant
                c <= ncols,
                out@ == Seq::new(c as nat, |i: int| i as usize),
            decreases ncols - c,
        {
            out.push(c);
            c += 1;
            proof {
                assert(out@ =~= Seq::new(c as nat, |i: int| i as usize));
            }
        }
        return out;
    }
    let mut k: usize = 0;
    while k < cols.len()
        invariant
            k <= cols@.len(),
            ncols == dataset.column_names().len(),
            out@ == cols@.subrange(0, k as int).filter(|c: usize| c < ncols),
        decreases cols@.len() - k,
    {
        proof {
            reveal_with_fuel(Seq::<_>::filter, 1);
            assert(cols@.subrange(0, k + 1).drop_last() =~= cols@.subrange(0, k as int));
        }
        if cols[k] < ncols {
            out.push(cols[k]);
        }
        k += 1;
    }
    proof {
        assert(cols@.subrange(0, cols@.len() as int) =~= cols@);
    }
    out
}

/// Append the pieces `0..n` joined by the format's separator; `piece`
/// appends one piece.
fn write_header_pieces(out: &mut Vec<u8>, dataset: &Dataset, format: Format, sel: &Vec<usize>)
    requires
        forall|i: int| 0 <= i < sel@.len() ==> #[trigger] sel@[i] < dataset.column_names().len(),
    ensures
        final(out)@ == old(out)@ + joined(
            Seq::new(sel@.len(), |i: int| header_piece(*dataset, format, sel@, i)),
            piece_sep(format),
        ),
{
    let ghost base = out@;
    let columns = dataset.columns();
    let mut i: usize = 0;
    while i < sel.len()
        invariant
            i <= sel@.len(),
            forall|k: int| 0 <= k < sel@.len() ==> #[trigger] sel@[k] < dataset.column_names().len(),
            crate::schema::string_views(columns@) == dataset.column_names(),
            out@ == base + joined(
                Seq::new(i as nat, |k: int| header_piece(*dataset, format, sel@, k)),
                piece_sep(format),
            ),
        decreases sel@.len() - i,
    {
        let ghost prev = out@;
        if i > 0 {
            write_separator(out, format);
        }
        let ghost mid = out@;
        let name = columns[sel[i]].as_str();
        proof {
            assert(name@ == dataset.column_names()[sel@[i as int] as int]);
        }
        match format {
            Format::Html => {
                push_str(out, "<th>");
                write_html_escaped(out, name);
                push_str(out, "</th>");
            },
            Format::Tsv => write_delimited_field(out, name, 9),
            _ => write_delimited_field(out, name, 44),
        }
        proof {
            assert(out@ =~= mid + header_piece(*dataset, format, sel@, i as int));
            lemma_joined_step(Seq::new((i + 1) as nat, |k: int| header_piece(*dataset, format, sel@, k)), piece_sep(format));
            assert(Seq::new((i + 1) as nat, |k: int| header_piece(*dataset, format, sel@, k)).drop_last()
                =~= Seq::new(i as nat, |k: int| header_piece(*dataset, format, sel@, k)));
        }
        i += 1;
    }
}

/// Append the separator between two pieces.
fn write_separator(out: &mut Vec<u8>, format: Format)
    ensures
        final(out)@ == old(out)@ + piece_sep(format),
{
    match format {
        Format::Json => push_str(out, ", "),
        Format::Html => {
            assert(old(out)@ + piece_sep(format) =~= old(out)@);
        },
        Format::Tsv => out.push(9),
        Format::Csv => out.push(44),
    }
}

/// Append the pieces of data row `data_row`.
fn write_row_pieces(out: &mut Vec<u8>, dataset: &Dataset, format: Format, sel: &Vec<usize>, data_row: usize)
    requires
        dataset.wf(),
        forall|i: int| 0 <= i < sel@.len() ==> #[trigger] sel@[i] < dataset.column_names().len(),
    ensures
        final(out)@ == old(out)@ + joined(
            Seq::new(sel@.len(), |i: int| row_piece(*dataset, format, sel@, data_row as int, i)),
            piece_sep(format),
        ),
{
    let ghost base = out@;
    let columns = dataset.columns();
    let values = dataset.row_values(data_row);
    let mut i: usize = 0;
    while i < sel.len()
        invariant
            i <= sel@.len(),
            forall|k: int| 0 <= k < sel@.len() ==> #[trigger] sel@[k] < dataset.column_names().len(),
            crate::schema::string_views(columns@) == dataset.column_names(),
            values@.len() == dataset.column_names().len(),
            forall|c: int| 0 <= c < values@.len() ==> #[trigger] values@[c]@ == dataset.cell_text(data_row as int, c),
            out@ == base + joined(
                Seq::new(i as nat, |k: int| row_piece(*dataset, format, sel@, data_row as int, k)),
                piece_sep(format),
            ),
        decreases sel@.len() - i,
    {
        if i > 0 {
            write_separator(out, format);
        }
        let ghost mid = out@;
        let c = sel[i];
        let value = values[c].as_str();
        let name = columns[c].as_str();
        proof {
            assert(value@ == dataset.cell_text(data_row as int, c as int));
            assert(name@ == dataset.column_names()[c as int]);
        }
        write_value_piece(out, format, name, value);
        proof {
            assert(out@ == mid + row_piece(*dataset, format, sel@, data_row as int, i as int));
            lemma_joined_step(
                Seq::new((i + 1) as nat, |k: int| row_piece(*dataset, format, sel@, data_row as int, k)),
                piece_sep(format),
            );
            assert(Seq::new((i + 1) as nat, |k: int| row_piece(*dataset, format, sel@, data_row as int, k)).drop_last()
                =~= Seq::new(i as nat, |k: int| row_piece(*dataset, format, sel@, data_row as int, k)));
        }
        i += 1;
    }
}

/// Append the piece a row holds for a column named `name` with value
/// `value`.
fn write_value_piece(out: &mut Vec<u8>, format: Format, name: &str, value: &str)
    ensures
        final(out)@ == old(out)@ + value_piece(format, encode_utf8(name@), encode_utf8(value@)),
{
    match format {
        Format::Json => {
            write_json_string(out, name);
            push_str(out, ": ");
            write_json_string(out, value);
        },
        Format::Html => {
            push_str(out, "<td>");
            write_html_escaped(out, value);
            push_str(out, "</td>");
        },
        Format::Tsv => write_delimited_field(out, value, 9),
        Format::Csv => write_delimited_field(out, value, 44),
    }
    proof {
        assert(final(out)@ =~= old(out)@ + value_piece(format, encode_utf8(name@), encode_utf8(value@)));
    }
}

/// Append the header of the output.
pub fn write_header(out: &mut Vec<u8>, dataset: &Dataset, format: Format, sel: &Vec<usize>)
    requires
        forall|i: int| 0 <= i < sel@.len() ==> #[trigger] sel@[i] < dataset.column_names().len(),
    ensures
        final(out)@ == old(out)@ + export_header(*dataset, format, sel@),
{
    match format {
        Format::Json => push_str(out, "[\n"),
        Format::Html => {
            push_str(out, "<table>\n<thead><tr>");
            write_header_pieces(out, dataset, format, sel);
            push_str(out, "</tr></thead>\n<tbody>\n");
        },
        _ => {
            write_header_pieces(out, dataset, format, sel);
            out.push(10);
        },
    }
    proof {
        assert(final(out)@ =~= old(out)@ + export_header(*dataset, format, sel@));
    }
}

/// Append the output for data row `data_row`; `first` tells whether it is
/// the first row written.
pub fn write_row(out: &mut Vec<u8>, dataset: &Dataset, format: Format, sel: &Vec<usize>, data_row: usize, first: bool)
    requires
        dataset.wf(),
        forall|i: int| 0 <= i < sel@.len() ==> #[trigger] sel@[i] < dataset.column_names().len(),
    ensures
        final(out)@ == old(out)@ + export_row(*dataset, format, sel@, data_row as int, first),
{
    match format {
        Format::Json => {
            if !first {
                push_str(out, ",\n");
            }
            push_str(out, "  {");
            write_row_pieces(out, dataset, format, sel, data_row);
            push_str(out, "}");
        },
        Format::Html => {
            push_str(out, "<tr>");
            write_row_pieces(out, dataset, format, sel, data_row);
            push_str(out, "</tr>\n");
        },
        _ => {
            write_row_pieces(out, dataset, format, sel, data_row);
            out.push(10);
        },
    }
    proof {
        assert(final(out)@ =~= old(out)@ + export_row(*dataset, format, sel@, data_row as int, first));
    }
}

/// Append the footer of the output.
pub fn write_footer(out: &mut Vec<u8>, format: Format)
    ensures
        final(out)@ == old(out)@ + export_footer(format),
{
    match format {
        Format::Json => push_str(out, "\n]\n"),
        Format::Html => push_str(out, "</tbody>\n</table>\n"),
        _ => {
            assert(old(out)@ + export_footer(format) =~= old(out)@);
        },
    }
}

/// The whole export of `view` in `format` over the columns `cols` (all
/// columns when empty).
pub fn render(dataset: &Dataset, view: &View, format: Format, cols: &[usize]) -> (res: Vec<u8>)
    requires
        dataset.wf(),
    ensures
        res@ == export_bytes(
            *dataset,
            format,
            selected_spec(dataset.column_names().len(), cols@),
            view.ids(),
        ),
{
    let sel = selected_columns(dataset, cols);
    proof {
        lemma_selected_in_range(dataset.column_names().len(), cols@);
    }
    let mut out: Vec<u8> = Vec::new();
    write_header(&mut out, dataset, format, &sel);
    let ghost head = out@;
    let ids = view.iter();
    let mut k: usize = 0;
    while k < ids.len()
        invariant
            dataset.wf(),
            k <= ids@.len(),
            ids@ == view.ids(),
            forall|i: int| 0 <= i < sel@.len() ==> #[trigger] sel@[i] < dataset.column_names().len(),
            out@ == head + export_rows(*dataset, format, sel@, ids@.subrange(0, k as int)),
        decreases ids@.len() - k,
    {
        proof {
            assert(ids@.subrange(0, k + 1).drop_last() =~= ids@.subrange(0, k as int));
        }
        write_row(&mut out, dataset, format, &sel, ids[k] as usize, k == 0);
        k += 1;
        proof {
            assert(out@ =~= head + export_rows(*dataset, format, sel@, ids@.subrange(0, k as int)));
        }
    }
    write_footer(&mut out, format);
    proof {
        assert(ids@.subrange(0, ids@.len() as int) =~= ids@);
        assert(out@ =~= export_bytes(*dataset, format, sel@, view.ids()));
    }
    out
}

/// Every selected column exists.
pub proof fn lemma_selected_in_range(ncols: nat, cols: Seq<usize>)
    ensures
        forall|i: int| 0 <= i < selected_spec(ncols, cols).len() ==> #[trigger] selected_spec(ncols, cols)[i] < ncols,
{
    broadcast use vstd::seq_lib::group_filter_ensures;

    if cols.len() > 0 {
        assert forall|i: int| 0 <= i < selected_spec(ncols, cols).len() implies #[trigger] selected_spec(ncols, cols)[i] < ncols by {
            let f = cols.filter(|c: usize| c < ncols);
            assert(f.contains(f[i]));
        }
    }
}

proof fn lemma_joined_step(parts: Seq<Seq<u8>>, sep: Seq<u8>)
    requires
        parts.len() >= 1,
    ensures
        joined(parts, sep) == joined(parts.drop_last(), sep) + (if parts.len() > 1 {
            sep
        } else {
            seq![]
        }) + parts.last(),
{
    if parts.len() == 1 {
        assert(joined(parts.drop_last(), sep) =~= seq![]);
        assert(parts.last() == parts[0]);
    }
}

/// The fields written for `values`, in order.
pub open spec fn written_fields(values: Seq<Seq<u8>>, delim: u8) -> Seq<Seq<u8>> {
    Seq::new(values.len(), |i: int| delimited_field(values[i], delim))
}

/// The delimited record written for `values` (without its line break).
pub open spec fn written_record(values: Seq<Seq<u8>>, delim: u8) -> Seq<u8> {
    joined(written_fields(values, delim), seq![delim])
}

/// Where field `k` of a record made of `pieces` (joined by one delimiter
/// byte) starts.
pub open spec fn field_start(pieces: Seq<Seq<u8>>, k: int) -> int
    decreases k,
{
    if k <= 0 {
        0
    } else {
        field_start(pieces, k - 1) + pieces[k - 1].len() + 1
    }
}

/// What is written reads back: a record made of fields written with
/// [`write_delimited_field`] (joined by the delimiter) splits, under the
/// double-quote grammar, into exactly as many fields, and the content of each
/// is the value that was written.
pub proof fn law_written_record_reads_back(values: Seq<Seq<u8>>, delim: u8)
    requires
        values.len() >= 1,
        delim != 34u8,
        written_record(values, delim).len() <= usize::MAX,
    ensures
        record_fields(written_record(values, delim), delim, 34u8).len() == values.len(),
        forall|i: int|
            #![trigger record_fields(written_record(values, delim), delim, 34u8)[i]]
            0 <= i < values.len() ==> {
                let line = written_record(values, delim);
                let f = record_fields(line, delim, 34u8)[i];
                field_content(trimmed_field(line, f.0 as int, f.1 as int), 34u8) == values[i]
            },
{
    let pieces = written_fields(values, delim);
    let line = written_record(values, delim);
    let n = values.len() as int;
    lemma_ranges_layout(values, delim, 0);
    assert forall|i: int|
        #![trigger record_fields(line, delim, 34u8)[i]]
        0 <= i < n implies {
            let f = record_fields(line, delim, 34u8)[i];
            field_content(trimmed_field(line, f.0 as int, f.1 as int), 34u8) == values[i]
        } by {
        lemma_joined_layout(pieces, delim, i);
        let s = field_start(pieces, i);
        let e = s + pieces[i].len();
        let f = record_fields(line, delim, 34u8)[i];
        assert(f == (s as usize, e as usize));
        assert(line.subrange(s, e) == pieces[i]);
        lemma_field_reads_back(values[i], delim);
    }
}

/// A single written field, taken as a whole, has the value as its content.
proof fn lemma_field_reads_back(v: Seq<u8>, delim: u8)
    ensures
        ({
            let piece = delimited_field(v, delim);
            &&& piece.len() == 0 || piece.last() != 13u8
            &&& field_content(piece, 34u8) == v
        }),
{
    let piece = delimited_field(v, delim);
    if needs_quoting(v, delim) {
        lemma_unescape_doubled(v);
        assert(piece.subrange(1, piece.len() - 1) =~= quotes_doubled(v));
    } else {
        if v.len() >= 1 {
            assert(!(v[0] == 34u8));
            assert(!(v[v.len() - 1] == 13u8));
        }
    }
}

proof fn lemma_doubled_append(a: Seq<u8>, b: Seq<u8>)
    ensures
        quotes_doubled(a + b) == quotes_doubled(a) + quotes_doubled(b),
    decreases b.len(),
{
    if b.len() == 0 {
        assert(a + b =~= a);
        assert(quotes_doubled(a) + quotes_doubled(b) =~= quotes_doubled(a));
    } else {
        lemma_doubled_append(a, b.drop_last());
        assert((a + b).drop_last() =~= a + b.drop_last());
        assert((a + b).last() == b.last());
        assert(quotes_doubled(a + b) =~= quotes_doubled(a) + quotes_doubled(b));
    }
}

proof fn lemma_doubled_single(x: u8)
    ensures
        quotes_doubled(seq![x]) == if x == 34u8 {
            seq![34u8, 34u8]
        } else {
            seq![x]
        },
{
    assert(seq![x].drop_last() =~= Seq::<u8>::empty());
    assert(quotes_doubled(Seq::<u8>::empty()) =~= Seq::<u8>::empty());
    assert(quotes_doubled(seq![x]) =~= if x == 34u8 {
        seq![34u8, 34u8]
    } else {
        seq![x]
    });
}

proof fn lemma_unescape_doubled(v: Seq<u8>)
    ensures
        unescape_quotes(quotes_doubled(v), 34u8) == v,
    decreases v.len(),
{
    if v.len() > 0 {
        let rest = v.drop_first();
        lemma_unescape_doubled(rest);
        assert(v =~= seq![v[0]] + rest);
        lemma_doubled_append(seq![v[0]], rest);
        lemma_doubled_single(v[0]);
        let d = quotes_doubled(v);
        if v[0] == 34u8 {
            assert(d.subrange(2, d.len() as int) =~= quotes_doubled(rest));
        } else {
            assert(d.drop_first() =~= quotes_doubled(rest));
        }
    }
}

/// A body scan from `i` stops at `e` when no delimiter lies before it and
/// a delimiter (or the end) lies at it.
proof fn lemma_body_end_at(line: Seq<u8>, delim: u8, i: int, e: int)
    requires
        0 <= i <= e <= line.len(),
        forall|j: int| i <= j < e ==> line[j] != delim,
        e == line.len() || line[e] == delim,
    ensures
        body_end(line, delim, i) == e,
    decreases e - i,
{
    if i < e {
        lemma_body_end_at(line, delim, i + 1, e);
    }
}

/// A quoted scan over doubled quotes stops right after the closing quote.
proof fn lemma_quoted_scan(line: Seq<u8>, base: int, v: Seq<u8>, k: int)
    requires
        0 <= base,
        0 <= k <= v.len(),
        base + quotes_doubled(v).len() + 1 <= line.len(),
        line.subrange(base, base + quotes_doubled(v).len() + 1) == quotes_doubled(v).push(34u8),
        base + quotes_doubled(v).len() + 1 == line.len() || line[base + quotes_doubled(v).len() + 1] != 34u8,
    ensures
        quoted_end(line, 34u8, base + quotes_doubled(v.subrange(0, k)).len()) == base + quotes_doubled(v).len() + 1,
    decreases v.len() - k,
{
    let d = quotes_doubled(v);
    let pre = quotes_doubled(v.subrange(0, k));
    let pos = base + pre.len();
    lemma_doubled_append(v.subrange(0, k), v.subrange(k, v.len() as int));
    assert(v.subrange(0, k) + v.subrange(k, v.len() as int) =~= v);
    if k == v.len() {
        assert(v.subrange(k, v.len() as int) =~= Seq::<u8>::empty());
        assert(pre == d);
        assert(line[pos] == line.subrange(base, base + d.len() + 1)[d.len() as int]);
    } else {
        let tail = v.subrange(k, v.len() as int);
        assert(tail =~= seq![v[k]] + v.subrange(k + 1, v.len() as int));
        lemma_doubled_append(seq![v[k]], v.subrange(k + 1, v.len() as int));
        lemma_doubled_single(v[k]);
        assert(v.subrange(0, k + 1).drop_last() =~= v.subrange(0, k));
        assert(v.subrange(0, k + 1).last() == v[k]);
        assert(line[pos] == line.subrange(base, base + d.len() + 1)[pre.len() as int]);
        assert(d[pre.len() as int] == quotes_doubled(tail)[0]);
        if v[k] == 34u8 {
            assert(line[pos + 1] == line.subrange(base, base + d.len() + 1)[(pre.len() + 1) as int]);
            assert(d[(pre.len() + 1) as int] == quotes_doubled(tail)[1]);
        }
        lemma_quoted_scan(line, base, v, k + 1);
    }
}

/// A written field that lies at `s` in `line`, followed by a delimiter or
/// the end, ends where it was written.
proof fn lemma_written_field_end(line: Seq<u8>, s: int, v: Seq<u8>, delim: u8)
    requires
        delim != 34u8,
        0 <= s,
        s + delimited_field(v, delim).len() <= line.len(),
        line.subrange(s, s + delimited_field(v, delim).len()) == delimited_field(v, delim),
        s + delimited_field(v, delim).len() == line.len() || line[s + delimited_field(v, delim).len()] == delim,
    ensures
        field_end(line, delim, 34u8, s) == s + delimited_field(v, delim).len(),
{
    let piece = delimited_field(v, delim);
    let e = s + piece.len();
    if needs_quoting(v, delim) {
        let d = quotes_doubled(v);
        assert(line[s] == piece[0]);
        assert(line.subrange(s + 1, s + 1 + d.len() + 1) =~= d.push(34u8)) by {
            assert forall|j: int| 0 <= j < d.len() + 1 implies line.subrange(s + 1, s + 1 + d.len() + 1)[j]
                == d.push(34u8)[j] by {
                assert(line.subrange(s + 1, s + 1 + d.len() + 1)[j] == line.subrange(s, e)[j + 1]);
            }
        }
        assert(v.subrange(0, 0) =~= Seq::<u8>::empty());
        assert(quotes_doubled(Seq::<u8>::empty()) =~= Seq::<u8>::empty());
        lemma_quoted_scan(line, s + 1, v, 0);
        lemma_body_end_at(line, delim, e, e);
    } else {
        assert forall|j: int| s <= j < e implies line[j] != delim by {
            assert(line[j] == line.subrange(s, e)[j - s]);
        }
        if v.len() > 0 {
            assert(line[s] == v[0]);
        }
        lemma_body_end_at(line, delim, s, e);
    }
}

proof fn lemma_field_start_prefix(pieces: Seq<Seq<u8>>, j: int)
    requires
        0 <= j < pieces.len(),
    ensures
        field_start(pieces.drop_last(), j) == field_start(pieces, j),
    decreases j,
{
    if j > 0 {
        lemma_field_start_prefix(pieces, j - 1);
    }
}

/// Where each piece of a joined record lies, and what follows it.
proof fn lemma_joined_layout(pieces: Seq<Seq<u8>>, delim: u8, k: int)
    requires
        0 <= k < pieces.len(),
    ensures
        ({
            let line = joined(pieces, seq![delim]);
            let s = field_start(pieces, k);
            &&& 0 <= s
            &&& s + pieces[k].len() <= line.len()
            &&& line.subrange(s, s + pieces[k].len()) == pieces[k]
            &&& k + 1 < pieces.len() ==> line[s + pieces[k].len()] == delim
            &&& k + 1 == pieces.len() ==> s + pieces[k].len() == line.len()
        }),
    decreases pieces.len(),
{
    let n = pieces.len() as int;
    let line = joined(pieces, seq![delim]);
    lemma_field_start_nonneg(pieces, k);
    if n == 1 {
        assert(line.subrange(0, pieces[0].len() as int) =~= pieces[0]);
    } else {
        let init = pieces.drop_last();
        let front = joined(init, seq![delim]);
        assert(line == front + seq![delim] + pieces.last());
        lemma_joined_layout(init, delim, n - 2);
        lemma_field_start_prefix(pieces, n - 2);
        if k == n - 1 {
            assert(field_start(pieces, k) == front.len() + 1);
            assert(line.subrange((front.len() + 1) as int, line.len() as int) =~= pieces[k]);
        } else {
            lemma_joined_layout(init, delim, k);
            lemma_field_start_prefix(pieces, k);
            let s = field_start(pieces, k);
            assert(line.subrange(s, s + pieces[k].len()) =~= front.subrange(s, s + pieces[k].len()));
            if k + 1 < n - 1 {
                assert(line[s + pieces[k].len()] == front[s + pieces[k].len()]);
            }
        }
    }
}

proof fn lemma_field_start_nonneg(pieces: Seq<Seq<u8>>, k: int)
    ensures
        field_start(pieces, k) >= 0,
    decreases k,
{
    if k > 0 {
        lemma_field_start_nonneg(pieces, k - 1);
    }
}

/// The ranges of a written record from field `k` on.
proof fn lemma_ranges_layout(values: Seq<Seq<u8>>, delim: u8, k: int)
    requires
        0 <= k < values.len(),
        delim != 34u8,
        written_record(values, delim).len() <= usize::MAX,
    ensures
        ({
            let pieces = written_fields(values, delim);
            let line = written_record(values, delim);
            ranges_from(line, delim, 34u8, field_start(pieces, k)) == Seq::new(
                (values.len() - k) as nat,
                |j: int|
                    (
                        field_start(pieces, k + j) as usize,
                        (field_start(pieces, k + j) + pieces[k + j].len()) as usize,
                    ),
            )
        }),
    decreases values.len() - k,
{
    let pieces = written_fields(values, delim);
    let line = written_record(values, delim);
    let n = values.len() as int;
    let s = field_start(pieces, k);
    lemma_joined_layout(pieces, delim, k);
    assert(pieces[k] == delimited_field(values[k], delim));
    lemma_written_field_end(line, s, values[k], delim);
    let e = s + pieces[k].len();
    let expect = Seq::new(
        (n - k) as nat,
        |j: int| (field_start(pieces, k + j) as usize, (field_start(pieces, k + j) + pieces[k + j].len()) as usize),
    );
    if k + 1 < n {
        lemma_ranges_layout(values, delim, k + 1);
        assert(field_start(pieces, k + 1) == e + 1);
        assert(ranges_from(line, delim, 34u8, s) =~= expect) by {
            assert forall|j: int| 0 <= j < expect.len() implies ranges_from(line, delim, 34u8, s)[j] == expect[j] by {
                if j > 0 {
                    assert(k + 1 + (j - 1) == k + j);
                }
            }
        }
    } else {
        assert(ranges_from(line, delim, 34u8, s) =~= expect);
    }
}


/// A single field written by [`write_delimited_field`] reads back: the bytes
/// written form one field under the double-quote grammar, and
/// [`field_value`](crate::parser::field_value) over the whole of it gives the
/// text that was written (for valid UTF-8 text without NUL characters, with a
/// delimiter other than the quote).
pub proof fn law_written_field_reads_back(v: Seq<u8>, delim: u8)
    requires
        delim != 34u8,
        valid_utf8(v),
        forall|j: int| 0 <= j < v.len() ==> v[j] != 0u8,
        delimited_field(v, delim).len() <= usize::MAX,
    ensures
        ({
            let w = delimited_field(v, delim);
            &&& record_fields(w, delim, 34u8).len() == 1
            &&& record_fields(w, delim, 34u8)[0] == (0usize, w.len() as usize)
            &&& field_text(w, 0, w.len() as int, 34u8) == decode_utf8(v)
        }),
{
    let values = seq![v];
    let w = delimited_field(v, delim);
    assert(written_fields(values, delim) =~= seq![w]);
    assert(written_record(values, delim) == w);
    law_written_record_reads_back(values, delim);
    law_fields_tile_record(w, delim, 34u8);
    let f = record_fields(w, delim, 34u8)[0];
    assert(field_content(trimmed_field(w, f.0 as int, f.1 as int), 34u8) == values[0]);
    law_clean_utf8_passes_through(v);
}

} // verus!
