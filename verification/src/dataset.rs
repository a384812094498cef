//! The central dataset type: ties the input bytes, the record index, the
//! parser schema, search and tags together behind a small, UI-agnostic API.
//!
//! A `Dataset` never changes its rows after [`Dataset::open`]. Searches
//! produce a new [`View`] rather than mutating shared state; the only mutable
//! state is the lazily built search accelerator and the row tags.

use vstd::prelude::*;
use vstd::string::StringExecFns;
use vstd::view::View as _;
use crate::bloom::{search_substring, BlockBloom};
use crate::encoding::{ascii_icontains, ascii_lower, folded_contains, folded_match_at, sanitize, sanitized};
use crate::error::NexusError;
use crate::index::{has_bom, quoted_record_starts, starts_wf, lemma_quoted_record_starts_wf, LineIndex};
use crate::parser::{
    count_fields, field_at, unquote_borrowed, unquoted, field_range_capacity, field_range_items, field_ranges, field_text,
    field_value, lemma_record_fields_in_bounds, record_fields, FieldRanges,
};
use crate::query::{
    compiled, lemma_blank_has_no_tokens, node_matches, node_scoped, ranges_within, Query, QueryNode,
};
use crate::schema::{
    clone_strings, delimiter_byte_of, law_delimiter_name_round_trip, quote_byte_of, sniff,
    sniffed_delimiter, string_views, ParserSchema,
};
use crate::tags::{count_true, true_positions, TagStore};
use crate::text::{all_white_space, decimal, decimal_chars, is_blank, str_chars, string_from_chars};
use crate::view::View;

verus! {

/// Bytes sampled from the head of the input for delimiter auto-detection.
pub const SNIFF_BYTES: usize = 0x1_0000;

/// The bytes of a record `[s, e)` of `d` as rows see them: a leading UTF-8
/// byte-order mark at the very start of the input is skipped, and the line
/// terminator (`\n`, then `\r`) is trimmed.
pub open spec fn record_bytes(d: Seq<u8>, s: int, e: int) -> Seq<u8> {
    let s2 = if s == 0 && has_bom(d) && e >= 3 { 3 } else { s };
    let raw = d.subrange(s2, e);
    let r1 = if raw.len() > 0 && raw.last() == 10u8 { raw.drop_last() } else { raw };
    if r1.len() > 0 && r1.last() == 13u8 {
        r1.drop_last()
    } else {
        r1
    }
}

/// `Column n`.
pub open spec fn column_label(n: nat) -> Seq<char> {
    "Column "@ + decimal(n)
}

/// Column names taken from a header record; blank names become
/// `Column <position>`.
pub open spec fn header_column_names(line: Seq<u8>, delim: u8, quote: u8) -> Seq<Seq<char>> {
    let f = record_fields(line, delim, quote);
    Seq::new(
        f.len(),
        |i: int|
            {
                let t = field_text(line, f[i].0 as int, f[i].1 as int, quote);
                if all_white_space(t) {
                    column_label((i + 1) as nat)
                } else {
                    t
                }
            },
    )
}

/// `Column 1` .. `Column n`.
pub open spec fn generated_column_names(n: nat) -> Seq<Seq<char>> {
    Seq::new(n, |i: int| column_label((i + 1) as nat))
}

/// The column names of a dataset: explicit schema columns win, else the
/// header record, else names generated for as many fields as the first
/// record holds (at least one). `None` when the needed record does not exist.
pub open spec fn resolved_columns(
    d: Seq<u8>,
    starts: Seq<u64>,
    schema_columns: Seq<Seq<char>>,
    has_header: bool,
    skip: int,
    delim: u8,
    quote: u8,
) -> Option<Seq<Seq<char>>> {
    if schema_columns.len() > 0 {
        Some(schema_columns)
    } else if skip + 1 >= starts.len() {
        None
    } else {
        let line = record_bytes(d, starts[skip] as int, starts[skip + 1] as int);
        if has_header {
            Some(header_column_names(line, delim, quote))
        } else {
            let n = record_fields(line, delim, quote).len();
            Some(generated_column_names(if n >= 1 { n } else { 1 }))
        }
    }
}

/// `s` with every `from` replaced by `to`.
pub open spec fn replaced_char(s: Seq<char>, from: char, to: char) -> Seq<char> {
    Seq::new(s.len(), |i: int| if s[i] == from { to } else { s[i] })
}

/// `parts` joined with `sep` between neighbours.
pub open spec fn joined_chars(parts: Seq<Seq<char>>, sep: char) -> Seq<char>
    decreases parts.len(),
{
    if parts.len() == 0 {
        seq![]
    } else if parts.len() == 1 {
        parts[0]
    } else {
        joined_chars(parts.drop_last(), sep).push(sep) + parts.last()
    }
}

/// An opened, indexed dataset ready for querying.
pub struct Dataset {
    data: Vec<u8>,
    index: LineIndex,
    schema: ParserSchema,
    delim: u8,
    quote: u8,
    columns: Vec<String>,
    /// Number of leading records that are not data (skipped lines + header).
    first_data_line: usize,
    /// Trigram Bloom index, built on the first substring search.
    bloom: Option<BlockBloom>,
    /// Row tags, allocated on the first tag.
    tags: Option<TagStore>,
}

impl Dataset {
    /// The input bytes.
    pub closed spec fn data(&self) -> Seq<u8> {
        self.data@
    }

    /// The record start offsets of the input.
    pub closed spec fn record_starts(&self) -> Seq<u64> {
        self.index.starts()
    }

    /// Records before the first data row.
    pub closed spec fn first_data_line(&self) -> int {
        self.first_data_line as int
    }

    /// The delimiter byte.
    pub closed spec fn delim(&self) -> u8 {
        self.delim
    }

    /// The quote byte.
    pub closed spec fn quote(&self) -> u8 {
        self.quote
    }

    /// The column names.
    pub closed spec fn column_names(&self) -> Seq<Seq<char>> {
        string_views(self.columns@)
    }

    /// The schema the dataset was opened with (after auto-detection).
    pub closed spec fn schema_spec(&self) -> ParserSchema {
        self.schema
    }

    /// The tag of every row, once a tag store exists.
    pub closed spec fn tag_marks(&self) -> Option<Seq<bool>> {
        match self.tags {
            Some(t) => Some(t.tags()),
            None => None,
        }
    }

    /// Well-formedness: the index matches the input and schema, and the tag
    /// store covers every row.
    pub closed spec fn wf(&self) -> bool {
        &&& self.data@.len() > 0
        &&& self.data@.len() + 2 < field_range_capacity()
        &&& self.index.starts() == quoted_record_starts(self.data@, self.delim, self.quote)
        &&& starts_wf(self.index.starts())
        &&& self.index.starts().last() == self.data@.len()
        &&& self.delim == delimiter_byte_of(self.schema.delimiter@)
        &&& self.quote == quote_byte_of(self.schema.quote)
        &&& self.first_data_line == self.schema.skip_lines + if self.schema.has_header { 1int } else { 0int }
        &&& match self.tags {
            Some(t) => t.wf() && t.tags().len() == self.row_count_spec(),
            None => true,
        }
        &&& match self.bloom {
            Some(b) => b.covers(self.row_lines()),
            None => true,
        }
    }

    /// Number of data rows: records after the skipped lines and header.
    pub open spec fn row_count_spec(&self) -> nat {
        let n = self.record_starts().len() - 1 - self.first_data_line();
        if n > 0 {
            n as nat
        } else {
            0
        }
    }

    /// The bytes of data row `r` (terminators trimmed).
    pub open spec fn row_line(&self, r: int) -> Seq<u8> {
        let i = self.first_data_line() + r;
        record_bytes(self.data(), self.record_starts()[i] as int, self.record_starts()[i + 1] as int)
    }

    /// `other` holds the same input, records, columns and settings.
    pub open spec fn same_content(self, other: Dataset) -> bool {
        &&& other.data() == self.data()
        &&& other.record_starts() == self.record_starts()
        &&& other.first_data_line() == self.first_data_line()
        &&& other.delim() == self.delim()
        &&& other.quote() == self.quote()
        &&& other.column_names() == self.column_names()
        &&& other.schema_spec() == self.schema_spec()
    }

    /// The bytes of every data row, in order.
    pub open spec fn row_lines(&self) -> Seq<Seq<u8>> {
        Seq::new(self.row_count_spec(), |r: int| self.row_line(r))
    }

    /// The field ranges of data row `r`.
    pub open spec fn row_fields(&self, r: int) -> Seq<(usize, usize)> {
        record_fields(self.row_line(r), self.delim(), self.quote())
    }

    /// The display text of cell `(r, c)`: empty when the row or field does
    /// not exist.
    pub open spec fn cell_text(&self, r: int, c: int) -> Seq<char> {
        if 0 <= r < self.row_count_spec() && 0 <= c < self.row_fields(r).len() {
            field_text(
                self.row_line(r),
                self.row_fields(r)[c].0 as int,
                self.row_fields(r)[c].1 as int,
                self.quote(),
            )
        } else {
            Seq::empty()
        }
    }

    /// Whether data row `r` is tagged.
    pub open spec fn tag_of(&self, r: int) -> bool {
        match self.tag_marks() {
            Some(t) => 0 <= r < t.len() && t[r],
            None => false,
        }
    }

    /// Whether the query tree matches data row `r` (fields are split when
    /// the query has scoped terms).
    pub open spec fn row_matches_tree(&self, tree: QueryNode, r: int) -> bool {
        node_matches(
            tree,
            self.row_line(r),
            if node_scoped(tree) {
                Some(self.row_fields(r))
            } else {
                None
            },
            self.quote(),
        )
    }

    /// Rows below `n` for which `tree` matches, ascending, as 32-bit ids.
    pub open spec fn matching_rows(&self, tree: QueryNode, n: int) -> Seq<u32>
        decreases n,
    {
        if n <= 0 {
            seq![]
        } else if self.row_matches_tree(tree, n - 1) {
            self.matching_rows(tree, n - 1).push((n - 1) as u32)
        } else {
            self.matching_rows(tree, n - 1)
        }
    }

    /// The search results for a compiled tree. A single substring of at
    /// least three bytes is looked for in every row (through the Bloom
    /// index); any other query in the first `row_count` rows, that count
    /// truncated to 32 bits.
    pub open spec fn search_results(&self, tree: QueryNode) -> Seq<u32> {
        if tree matches QueryNode::Substr { needle, .. } && needle.len() >= 3 {
            self.matching_rows(tree, self.row_count_spec() as int)
        } else {
            self.matching_rows(tree, (self.row_count_spec() as u32) as int)
        }
    }

    /// Open and index `bytes`. When `schema` is `None` the delimiter is
    /// sniffed from the first 64 KiB and a header row is assumed.
    pub fn open(bytes: Vec<u8>, schema: Option<ParserSchema>) -> (res: Result<Dataset, NexusError>)
        requires
            bytes@.len() + 2 < field_range_capacity(),
            schema matches Some(s) ==> s.skip_lines < usize::MAX,
        ensures
            bytes@.len() == 0 ==> res matches Err(NexusError::EmptyFile),
            bytes@.len() > 0 ==> {
                let sch_delim = match schema {
                    Some(s) => delimiter_byte_of(s.delimiter@),
                    None => sniffed_delimiter(bytes@.subrange(0, if bytes@.len() < SNIFF_BYTES { bytes@.len() as int } else { SNIFF_BYTES as int })),
                };
                let quote = match schema {
                    Some(s) => quote_byte_of(s.quote),
                    None => 34u8,
                };
                let has_header = match schema {
                    Some(s) => s.has_header,
                    None => true,
                };
                let skip = match schema {
                    Some(s) => s.skip_lines as int,
                    None => 0int,
                };
                let schema_columns = match schema {
                    Some(s) => string_views(s.columns@),
                    None => Seq::empty(),
                };
                let starts = quoted_record_starts(bytes@, sch_delim, quote);
                match resolved_columns(bytes@, starts, schema_columns, has_header, skip, sch_delim, quote) {
                    None => res matches Err(NexusError::NoColumns),
                    Some(cols) => res matches Ok(ds) && {
                        &&& ds.wf()
                        &&& ds.data() == bytes@
                        &&& ds.delim() == sch_delim
                        &&& ds.quote() == quote
                        &&& ds.record_starts() == starts
                        &&& ds.first_data_line() == skip + if has_header { 1int } else { 0int }
                        &&& ds.column_names() == cols
                        &&& ds.tag_marks() is None
                    },
                }
            },
    {
        if bytes.len() == 0 {
            return Err(NexusError::EmptyFile);
        }
        let schema = match schema {
            Some(s) => s,
            None => {
                let head_len = if bytes.len() < SNIFF_BYTES { bytes.len() } else { SNIFF_BYTES };
                let head = &bytes[0..head_len];
                proof {
                    law_delimiter_name_round_trip(sniffed_delimiter(head@));
                }
                sniff(head)
            },
        };
        let delim = schema.delimiter_byte();
        let quote = schema.quote_byte();
        let index = LineIndex::build_quoted(bytes.as_slice(), delim, quote);
        let first_data_line = schema.skip_lines + if schema.has_header { 1 } else { 0 };
        proof {
            lemma_quoted_record_starts_wf(bytes@, delim, quote);
        }
        let columns = match Self::determine_columns(bytes.as_slice(), &index, &schema, delim, quote) {
            Ok(c) => c,
            Err(e) => return Err(e),
        };
        Ok(Dataset { data: bytes, index, schema, delim, quote, columns, first_data_line, bloom: None, tags: None })
    }

    /// Whether an input of `len` bytes can be opened: every byte offset of
    /// its fields must stay addressable.
    pub fn input_fits(len: usize) -> (res: bool)
        ensures
            res == (len + 2 < field_range_capacity()),
    {
        if usize::BITS == 64 {
            (len as u64) < 0x3ff_ffff_ffff_fffe
        } else {
            (len as u64) < 0x3ff_fffe
        }
    }

    /// Resolve column names: explicit schema columns win, else a header row,
    /// else generated `Column N` names sized to the first data record.
    fn determine_columns(
        data: &[u8],
        index: &LineIndex,
        schema: &ParserSchema,
        delim: u8,
        quote: u8,
    ) -> (res: Result<Vec<String>, NexusError>)
        requires
            data@.len() + 2 < field_range_capacity(),
            starts_wf(index.starts()),
            index.starts().last() == data@.len(),
        ensures
            match resolved_columns(data@, index.starts(), string_views(schema.columns@), schema.has_header, schema.skip_lines as int, delim, quote) {
                None => res matches Err(NexusError::NoColumns),
                Some(cols) => res matches Ok(v) && string_views(v@) == cols,
            },
    {
        if schema.columns.len() > 0 {
            return Ok(clone_strings(&schema.columns));
        }
        let (s, e) = match index.line_span(schema.skip_lines) {
            Some(span) => span,
            None => return Err(NexusError::NoColumns),
        };
        proof {
            lemma_span_in_data(index.starts(), data@.len() as int, schema.skip_lines as int);
        }
        let line = trim_record(data, s, e);
        if schema.has_header {
            let fields = field_ranges(line, delim, quote);
            proof {
                lemma_record_fields_in_bounds(line@, delim, quote, 0);
            }
            let n = fields.len();
            let mut cols: Vec<String> = Vec::new();
            let mut i: usize = 0;
            while i < n
                invariant
                    i <= n,
                    n == field_range_items(fields).len(),
                    field_range_items(fields) == record_fields(line@, delim, quote),
                    forall|k: int| 0 <= k < n ==> {
                        let r = #[trigger] record_fields(line@, delim, quote)[k];
                        r.0 <= r.1 <= line@.len()
                    },
                    cols@.len() == i,
                    forall|k: int| 0 <= k < i ==> #[trigger] cols@[k]@ == header_column_names(line@, delim, quote)[k],
                decreases n - i,
            {
                let (fs, fe) = match fields.get(i) {
                    Some(r) => r,
                    None => (0, 0),
                };
                let name = field_value(line, (fs, fe), quote);
                if is_blank(name.as_str()) {
                    cols.push(column_name_for(i + 1));
                } else {
                    cols.push(name);
                }
                i += 1;
            }
            if cols.len() == 0 {
                cols.push(column_name_for(1));
            }
            proof {
                crate::parser::lemma_record_fields_nonempty(line@, delim, quote);
                assert(string_views(cols@) =~= header_column_names(line@, delim, quote));
            }
            Ok(cols)
        } else {
            let count = count_fields(line, delim, quote);
            let n = if count >= 1 { count } else { 1 };
            let mut cols: Vec<String> = Vec::new();
            let mut i: usize = 0;
            while i < n
                invariant
                    i <= n,
                    cols@.len() == i,
                    forall|k: int| 0 <= k < i ==> #[trigger] cols@[k]@ == column_label((k + 1) as nat),
                decreases n - i,
            {
                cols.push(column_name_for(i + 1));
                i += 1;
            }
            proof {
                assert(string_views(cols@) =~= generated_column_names(n as nat));
            }
            Ok(cols)
        }
    }

    // --- Metadata ---------------------------------------------------------

    /// Number of data rows (excludes skipped lines and the header).
    pub fn row_count(&self) -> (res: usize)
        requires
            self.wf(),
        ensures
            res == self.row_count_spec(),
    {
        let n = self.index.line_count();
        if n > self.first_data_line { n - self.first_data_line } else { 0 }
    }

    /// Column names in order.
    pub fn columns(&self) -> (res: &[String])
        ensures
            string_views(res@) == self.column_names(),
    {
        self.columns.as_slice()
    }

    /// Number of columns.
    pub fn column_count(&self) -> (res: usize)
        ensures
            res == self.column_names().len(),
    {
        self.columns.len()
    }

    /// Name of column `col`, or `None` if out of range.
    pub fn column_name(&self, col: usize) -> (res: Option<&str>)
        ensures
            match res {
                Some(s) => col < self.column_names().len() && s@ == self.column_names()[col as int],
                None => col >= self.column_names().len(),
            },
    {
        if col < self.columns.len() {
            Some(self.columns[col].as_str())
        } else {
            None
        }
    }

    /// The resolved parser schema.
    pub fn schema(&self) -> (res: &ParserSchema)
        ensures
            *res == self.schema_spec(),
    {
        &self.schema
    }

    /// The delimiter byte in use.
    pub fn delimiter(&self) -> (res: u8)
        ensures
            res == self.delim(),
    {
        self.delim
    }

    // --- Row access -------------------------------------------------------

    /// Raw bytes of data row `data_row`, with the line terminator trimmed.
    /// `None` when out of range.
    pub fn line_bytes(&self, data_row: usize) -> (res: Option<&[u8]>)
        requires
            self.wf(),
        ensures
            match res {
                Some(l) => data_row < self.row_count_spec() && l@ == self.row_line(data_row as int),
                None => data_row >= self.row_count_spec(),
            },
            res matches Some(l) ==> l@.len() + 2 < field_range_capacity(),
    {
        let _records = self.index.line_count();
        if data_row > usize::MAX - self.first_data_line {
            return None;
        }
        let file_line = self.first_data_line + data_row;
        match self.index.line_span(file_line) {
            Some((s, e)) => {
                proof {
                    lemma_span_in_data(self.index.starts(), self.data@.len() as int, file_line as int);
                }
                Some(trim_record(self.data.as_slice(), s, e))
            },
            None => None,
        }
    }

    /// Display value of a single cell. Out-of-range row or column yields
    /// `""`. Extracts only the target field.
    pub fn cell(&self, data_row: usize, col: usize) -> (res: String)
        requires
            self.wf(),
        ensures
            res@ == self.cell_text(data_row as int, col as int),
    {
        let line = match self.line_bytes(data_row) {
            Some(l) => l,
            None => return String::new(),
        };
        match field_at(line, self.delim, self.quote, col) {
            Some(r) => {
                proof {
                    lemma_record_fields_in_bounds(line@, self.delim, self.quote, 0);
                    assert(record_fields(line@, self.delim, self.quote)[col as int] == r);
                }
                field_value(line, r, self.quote)
            },
            None => String::new(),
        }
    }

    /// All cell values for a data row, padded/truncated to the column count
    /// so rows stay rectangular.
    pub fn row_values(&self, data_row: usize) -> (res: Vec<String>)
        requires
            self.wf(),
        ensures
            res@.len() == self.column_names().len(),
            forall|c: int| 0 <= c < res@.len() ==> #[trigger] res@[c]@ == self.cell_text(data_row as int, c),
    {
        let ncols = self.columns.len();
        let mut out: Vec<String> = Vec::new();
        let line_opt = self.line_bytes(data_row);
        match line_opt {
            Some(line) => {
                let fields = field_ranges(line, self.delim, self.quote);
                proof {
                    lemma_record_fields_in_bounds(line@, self.delim, self.quote, 0);
                }
                let nf = fields.len();
                let take = if nf < ncols { nf } else { ncols };
                let mut i: usize = 0;
                while i < take
                    invariant
                        i <= take,
                        take <= nf,
                        take <= ncols,
                        nf == field_range_items(fields).len(),
                        field_range_items(fields) == record_fields(line@, self.delim, self.quote),
                        line@ == self.row_line(data_row as int),
                        data_row < self.row_count_spec(),
                        forall|k: int| 0 <= k < nf ==> {
                            let r = #[trigger] record_fields(line@, self.delim, self.quote)[k];
                            r.0 <= r.1 <= line@.len()
                        },
                        out@.len() == i,
                        forall|c: int| 0 <= c < i ==> #[trigger] out@[c]@ == self.cell_text(data_row as int, c),
                    decreases take - i,
                {
                    let r = match fields.get(i) {
                        Some(r) => r,
                        None => (0, 0),
                    };
                    out.push(field_value(line, r, self.quote));
                    i += 1;
                }
            },
            None => {},
        }
        assert(out@.len() < ncols ==> data_row >= self.row_count_spec()
            || out@.len() >= self.row_fields(data_row as int).len());
        while out.len() < ncols
            invariant
                out@.len() <= ncols,
                self.wf(),
                out@.len() < ncols ==> data_row >= self.row_count_spec()
                    || out@.len() >= self.row_fields(data_row as int).len(),
                ncols == self.column_names().len(),
                forall|c: int| 0 <= c < out@.len() ==> #[trigger] out@[c]@ == self.cell_text(data_row as int, c),
            decreases ncols - out@.len(),
        {
            let ghost c = out@.len() as int;
            assert(self.cell_text(data_row as int, c) == Seq::<char>::empty());
            out.push(String::new());
        }
        out
    }

    /// The full raw record of a data row, encoding-sanitized, with the
    /// delimiters kept as they stand in the input. `""` when out of range.
    pub fn raw_line(&self, data_row: usize) -> (res: String)
        requires
            self.wf(),
        ensures
            res@ == if data_row < self.row_count_spec() {
                sanitized(self.row_line(data_row as int))
            } else {
                Seq::empty()
            },
    {
        match self.line_bytes(data_row) {
            Some(line) => sanitize(line),
            None => String::new(),
        }
    }

    // --- Search -----------------------------------------------------------

    /// Whether the compiled query matches data row `data_row`.
    pub fn row_matches(&self, query: &Query, data_row: usize) -> (res: bool)
        requires
            self.wf(),
        ensures
            res == (data_row < self.row_count_spec() && self.row_matches_tree(query.tree(), data_row as int)),
    {
        let line = match self.line_bytes(data_row) {
            Some(l) => l,
            None => return false,
        };
        if query.has_scoped() {
            let fields = field_ranges(line, self.delim, self.quote);
            proof {
                lemma_record_fields_in_bounds(line@, self.delim, self.quote, 0);
                assert(ranges_within(field_range_items(fields), line@.len() as int));
            }
            query.matches(line, Some(&fields), self.quote)
        } else {
            query.matches(line, None, self.quote)
        }
    }

    /// Run a search and return the matching data-row indices in ascending
    /// order. An empty or white-space query matches all rows; a malformed
    /// query is an `InvalidQuery` error. A single substring of three bytes or
    /// more (global or column-scoped) skips whole blocks of rows through the
    /// trigram Bloom index, which is built on first use.
    pub fn search(&mut self, query: &str) -> (res: Result<Vec<u32>, NexusError>)
        requires
            old(self).wf(),
        ensures
            final(self).wf(),
            old(self).same_content(*final(self)),
            final(self).tag_marks() == old(self).tag_marks(),
            match compiled(query@, old(self).column_names()) {
                Some(tree) => res matches Ok(v) && v@ == old(self).search_results(tree),
                None => res matches Err(NexusError::InvalidQuery(_)),
            },
    {
        let q = match Query::compile(query, self.columns.as_slice()) {
            Ok(q) => q,
            Err(e) => return Err(e),
        };
        match q.single_substring() {
            Some((col, needle)) => {
                if needle.len() >= 3 {
                    self.ensure_bloom();
                    match &self.bloom {
                        Some(bloom) => {
                            let ids = search_substring(self, bloom, col, needle);
                            proof {
                                lemma_same_content_matching(*old(self), *self, q.tree(),
                                    self.row_count_spec() as int);
                            }
                            return Ok(ids);
                        },
                        None => {},
                    }
                }
            },
            None => {},
        }
        Ok(self.scan(&q))
    }

    /// Build the Bloom index unless it exists.
    fn ensure_bloom(&mut self)
        requires
            old(self).wf(),
        ensures
            final(self).wf(),
            old(self).same_content(*final(self)),
            final(self).tag_marks() == old(self).tag_marks(),
            final(self).bloom is Some,
    {
        if self.bloom.is_none() {
            let bloom = BlockBloom::build(self);
            self.bloom = Some(bloom);
            assert(self.row_lines() =~= old(self).row_lines());
        }
    }

    /// Test every row below the row count (truncated to 32 bits).
    fn scan(&self, q: &Query) -> (res: Vec<u32>)
        requires
            self.wf(),
        ensures
            res@ == self.matching_rows(q.tree(), (self.row_count_spec() as u32) as int),
    {
        let n = self.row_count() as u32;
        let mut ids: Vec<u32> = Vec::new();
        let mut r: u32 = 0;
        while r < n
            invariant
                r <= n,
                self.wf(),
                n == self.row_count_spec() as u32,
                ids@ == self.matching_rows(q.tree(), r as int),
            decreases n - r,
        {
            if self.row_matches(q, r as usize) {
                ids.push(r);
            }
            r += 1;
        }
        ids
    }

    /// Match a single substring against a row, globally or within column
    /// `col`. Scoped matches extract only the target field.
    pub(crate) fn matches_substring(&self, data_row: usize, col: Option<usize>, needle: &[u8]) -> (res: bool)
        requires
            self.wf(),
        ensures
            res == (data_row < self.row_count_spec() && self.row_matches_tree(
                QueryNode::Substr { col, needle: needle@ },
                data_row as int,
            )),
    {
        let line = match self.line_bytes(data_row) {
            Some(l) => l,
            None => return false,
        };
        match col {
            None => ascii_icontains(line, needle),
            Some(c) => match field_at(line, self.delim, self.quote, c) {
                Some((s, e)) => {
                    proof {
                        lemma_record_fields_in_bounds(line@, self.delim, self.quote, 0);
                        assert(record_fields(line@, self.delim, self.quote)[c as int] == (s, e));
                    }
                    let field = unquote_borrowed(&line[s..e], self.quote);
                    ascii_icontains(field, needle)
                },
                None => false,
            },
        }
    }

    /// A row that matches a substring term contains the needle somewhere in
    /// its record bytes.
    pub proof fn lemma_substring_match_in_line(self, r: int, col: Option<usize>, needle: Seq<u8>)
        requires
            self.wf(),
            0 <= r < self.row_count_spec(),
        ensures
            self.row_matches_tree(QueryNode::Substr { col, needle }, r) ==> folded_contains(
                self.row_line(r),
                needle,
            ),
    {
        let line = self.row_line(r);
        self.lemma_row_line_len(r);
        lemma_record_fields_in_bounds(line, self.delim(), self.quote(), 0);
        if let Some(c) = col {
            let f = self.row_fields(r);
            if c < f.len() && self.row_matches_tree(QueryNode::Substr { col, needle }, r) {
                let sub = line.subrange(f[c as int].0 as int, f[c as int].1 as int);
                if sub.len() >= 2 && sub[0] == self.quote() && sub[sub.len() - 1] == self.quote() {
                    lemma_folded_contains_within(sub, 1, sub.len() - 1, needle);
                }
                lemma_folded_contains_within(line, f[c as int].0 as int, f[c as int].1 as int, needle);
            }
        }
    }

    /// A data row is no longer than the input.
    pub proof fn lemma_row_line_len(self, r: int)
        requires
            self.wf(),
            0 <= r < self.row_count_spec(),
        ensures
            self.row_line(r).len() <= self.data().len(),
    {
        lemma_span_in_data(self.record_starts(), self.data().len() as int, self.first_data_line() + r);
    }

    /// Run a search and return it as a view.
    pub fn search_view(&mut self, query: &str) -> (res: Result<View, NexusError>)
        requires
            old(self).wf(),
        ensures
            final(self).wf(),
            old(self).same_content(*final(self)),
            final(self).tag_marks() == old(self).tag_marks(),
            match compiled(query@, old(self).column_names()) {
                Some(tree) => res matches Ok(v) && v is Filtered && v.ids() == old(self).search_results(tree),
                None => res matches Err(NexusError::InvalidQuery(_)),
            },
    {
        match self.search(query) {
            Ok(ids) => Ok(View::Filtered(ids)),
            Err(e) => Err(e),
        }
    }

    // --- Views ------------------------------------------------------------

    /// The identity view over every data row.
    pub fn view_all(&self) -> (res: View)
        requires
            self.wf(),
        ensures
            res == View::All(self.row_count_spec() as u64),
    {
        View::All(self.row_count() as u64)
    }

    /// Data-row index for a position within `view`.
    pub fn view_row_id(&self, view: &View, view_row: u64) -> (res: Option<u32>)
        ensures
            res == view.spec_row_id(view_row),
    {
        view.row_id(view_row)
    }

    /// Cell value addressed through a view. Out-of-range yields `""`.
    pub fn view_cell(&self, view: &View, view_row: u64, col: usize) -> (res: String)
        requires
            self.wf(),
        ensures
            res@ == match view.spec_row_id(view_row) {
                Some(r) => self.cell_text(r as int, col as int),
                None => Seq::empty(),
            },
    {
        match view.row_id(view_row) {
            Some(r) => self.cell(r as usize, col),
            None => String::new(),
        }
    }

    /// All column values of view position `view_row`, joined by U+0001, so a
    /// whole row is fetched at once. A U+0001 inside a value becomes a space,
    /// so the result splits back safely. Empty when the position is out of
    /// range.
    pub fn view_row_cells(&self, view: &View, view_row: u64) -> (res: String)
        requires
            self.wf(),
        ensures
            res@ == match view.spec_row_id(view_row) {
                Some(r) => joined_chars(
                    Seq::new(
                        self.column_names().len(),
                        |c: int| replaced_char(self.cell_text(r as int, c), '\u{1}', ' '),
                    ),
                    '\u{1}',
                ),
                None => Seq::empty(),
            },
    {
        let r = match view.row_id(view_row) {
            Some(r) => r,
            None => return String::new(),
        };
        let values = self.row_values(r as usize);
        let ghost parts = Seq::new(
            self.column_names().len(),
            |c: int| replaced_char(self.cell_text(r as int, c), '\u{1}', ' '),
        );
        let mut out: Vec<char> = Vec::new();
        let mut c: usize = 0;
        while c < values.len()
            invariant
                c <= values@.len(),
                values@.len() == self.column_names().len(),
                forall|k: int| 0 <= k < values@.len() ==> #[trigger] values@[k]@ == self.cell_text(r as int, k),
                parts == Seq::new(
                    self.column_names().len(),
                    |c: int| replaced_char(self.cell_text(r as int, c), '\u{1}', ' '),
                ),
                out@ == joined_chars(parts.subrange(0, c as int), '\u{1}'),
            decreases values@.len() - c,
        {
            if c > 0 {
                out.push('\u{1}');
            }
            let chars = str_chars(values[c].as_str());
            let ghost before = out@;
            let mut k: usize = 0;
            while k < chars.len()
                invariant
                    k <= chars@.len(),
                    out@ == before + replaced_char(chars@.subrange(0, k as int), '\u{1}', ' '),
                decreases chars@.len() - k,
            {
                let ch = chars[k];
                out.push(if ch == '\u{1}' { ' ' } else { ch });
                k += 1;
                proof {
                    assert(out@ =~= before + replaced_char(chars@.subrange(0, k as int), '\u{1}', ' '));
                }
            }
            proof {
                assert(chars@.subrange(0, chars@.len() as int) =~= chars@);
                assert(parts.subrange(0, c + 1).drop_last() =~= parts.subrange(0, c as int));
                assert(parts[c as int] == replaced_char(chars@, '\u{1}', ' '));
            }
            c += 1;
        }
        proof {
            assert(parts.subrange(0, parts.len() as int) =~= parts);
        }
        string_from_chars(out.as_slice())
    }

    // --- Row tagging ------------------------------------------------------

    /// Tag or untag an absolute data row. Tags persist across
    /// filter/sort/group; out-of-range rows are ignored.
    pub fn set_tag(&mut self, data_row: usize, tagged: bool)
        requires
            old(self).wf(),
        ensures
            final(self).wf(),
            old(self).same_content(*final(self)),
            final(self).tag_marks() is Some,
            forall|r: int| #[trigger] final(self).tag_of(r) == if r == data_row && r < old(self).row_count_spec() {
                tagged
            } else {
                old(self).tag_of(r)
            },
    {
        let n = self.row_count();
        let mut store = match self.tags.take() {
            Some(t) => t,
            None => TagStore::new(n),
        };
        store.set(data_row, tagged);
        self.tags = Some(store);
        assert(self.row_lines() =~= old(self).row_lines());
    }

    /// Is an absolute data row tagged?
    pub fn is_tagged(&self, data_row: usize) -> (res: bool)
        requires
            self.wf(),
        ensures
            res == self.tag_of(data_row as int),
    {
        match &self.tags {
            Some(t) => t.get(data_row),
            None => false,
        }
    }

    /// Number of tagged rows.
    pub fn tagged_count(&self) -> (res: usize)
        requires
            self.wf(),
        ensures
            res == match self.tag_marks() {
                Some(t) => count_true(t, t.len() as int),
                None => 0,
            },
    {
        match &self.tags {
            Some(t) => t.count(),
            None => 0,
        }
    }

    /// Untag every row.
    pub fn clear_tags(&mut self)
        requires
            old(self).wf(),
        ensures
            final(self).wf(),
            old(self).same_content(*final(self)),
            forall|r: int| !#[trigger] final(self).tag_of(r),
            final(self).tag_marks() is Some <==> old(self).tag_marks() is Some,
    {
        match self.tags.take() {
            Some(mut store) => {
                store.clear();
                self.tags = Some(store);
                assert(self.row_lines() =~= old(self).row_lines());
            },
            None => {},
        }
    }

    /// A view of all tagged rows (ascending).
    pub fn tagged_view(&self) -> (res: View)
        requires
            self.wf(),
        ensures
            res is Filtered,
            res.ids() == match self.tag_marks() {
                Some(t) => true_positions(t, t.len() as int),
                None => Seq::empty(),
            },
    {
        match &self.tags {
            Some(t) => View::Filtered(t.tagged_rows()),
            None => View::Filtered(Vec::new()),
        }
    }

    /// The subset of `view` whose rows are tagged, in view order.
    pub fn intersect_tags(&self, view: &View) -> (res: View)
        requires
            self.wf(),
        ensures
            res is Filtered,
            res.ids() == view.ids().filter(|id: u32| self.tag_of(id as int)),
    {
        let ids = view.iter();
        let mut out: Vec<u32> = Vec::new();
        let mut i: usize = 0;
        while i < ids.len()
            invariant
                i <= ids@.len(),
                self.wf(),
                ids@ == view.ids(),
                out@ == ids@.subrange(0, i as int).filter(|id: u32| self.tag_of(id as int)),
            decreases ids@.len() - i,
        {
            proof {
                reveal_with_fuel(Seq::<_>::filter, 1);
                assert(ids@.subrange(0, i + 1).drop_last() =~= ids@.subrange(0, i as int));
            }
            if self.is_tagged(ids[i] as usize) {
                out.push(ids[i]);
            }
            i += 1;
        }
        proof {
            assert(ids@.subrange(0, ids@.len() as int) =~= ids@);
        }
        View::Filtered(out)
    }
}

/// `Column n` as a string.
fn column_name_for(n: usize) -> (res: String)
    ensures
        res@ == column_label(n as nat),
{
    let digits = decimal_chars(n);
    let mut s = "Column ".to_owned();
    s.append(string_from_chars(digits.as_slice()).as_str());
    s
}

/// The bytes of record `[s, e)` as rows see them (see [`record_bytes`]).
fn trim_record(data: &[u8], s: usize, e: usize) -> (res: &[u8])
    requires
        s <= e <= data@.len(),
    ensures
        res@ == record_bytes(data@, s as int, e as int),
{
    let has_bom = data.len() >= 3 && data[0] == 0xEF && data[1] == 0xBB && data[2] == 0xBF;
    let s2 = if s == 0 && has_bom && e >= 3 { 3 } else { s };
    let mut slice = &data[s2..e];
    let n = slice.len();
    if n > 0 && slice[n - 1] == 10 {
        slice = &slice[0..n - 1];
    }
    let m = slice.len();
    if m > 0 && slice[m - 1] == 13 {
        slice = &slice[0..m - 1];
    }
    slice
}

/// An empty or white-space-only query compiles to the match-everything
/// query, and a search with it returns every row (the row count taken to 32
/// bits, as row ids are).
pub proof fn law_blank_query_matches_every_row(ds: Dataset, query: Seq<char>)
    requires
        all_white_space(query),
    ensures
        compiled(query, ds.column_names()) == Some(QueryNode::Always),
        ds.search_results(QueryNode::Always) == Seq::new(
            (ds.row_count_spec() as u32) as nat,
            |i: int| i as u32,
        ),
{
    lemma_blank_has_no_tokens(query, 0);
    lemma_always_matches_all(ds, (ds.row_count_spec() as u32) as int);
}

/// A search returns exactly what testing every row in turn returns, when
/// the row ids fit in 32 bits: the Bloom index never changes a result. The
/// result is strictly ascending, names only rows of the dataset, and holds a
/// row exactly when the query matches that row's record and fields (what
/// [`Query::matches`](crate::query::Query::matches) decides for it).
pub proof fn law_search_is_full_scan(ds: Dataset, tree: QueryNode)
    requires
        ds.row_count_spec() <= u32::MAX,
    ensures
        ds.search_results(tree) == ds.matching_rows(tree, ds.row_count_spec() as int),
        ({
            let ids = ds.search_results(tree);
            &&& forall|i: int, j: int| 0 <= i < j < ids.len() ==> ids[i] < ids[j]
            &&& forall|i: int| 0 <= i < ids.len() ==> (ids[i] as int) < ds.row_count_spec()
            &&& forall|r: int|
                0 <= r < ds.row_count_spec() ==> (ids.contains(r as u32) <==> ds.row_matches_tree(
                    tree,
                    r,
                ))
        }),
{
    lemma_matching_rows_exact(ds, tree, ds.row_count_spec() as int);
}

/// The rows below `n` that match are listed strictly ascending, each below
/// `n`, and exactly the matching ones (ids fit in 32 bits).
proof fn lemma_matching_rows_exact(ds: Dataset, tree: QueryNode, n: int)
    requires
        0 <= n <= 0x1_0000_0000,
    ensures
        forall|i: int, j: int|
            0 <= i < j < ds.matching_rows(tree, n).len() ==> ds.matching_rows(tree, n)[i]
                < ds.matching_rows(tree, n)[j],
        forall|i: int|
            0 <= i < ds.matching_rows(tree, n).len() ==> (ds.matching_rows(tree, n)[i] as int) < n,
        forall|r: int|
            0 <= r < n ==> (ds.matching_rows(tree, n).contains(r as u32) <==> ds.row_matches_tree(
                tree,
                r,
            )),
    decreases n,
{
    if n > 0 {
        lemma_matching_rows_exact(ds, tree, n - 1);
        let prev = ds.matching_rows(tree, n - 1);
        let cur = ds.matching_rows(tree, n);
        assert forall|r: int| 0 <= r < n implies (cur.contains(r as u32) <==> ds.row_matches_tree(
            tree,
            r,
        )) by {
            if ds.row_matches_tree(tree, n - 1) {
                assert(cur == prev.push((n - 1) as u32));
                if r < n - 1 {
                    if cur.contains(r as u32) {
                        let k = choose|k: int| 0 <= k < cur.len() && cur[k] == r as u32;
                        if k < prev.len() {
                            assert(prev[k] == r as u32);
                        }
                    }
                    if prev.contains(r as u32) {
                        let k = choose|k: int| 0 <= k < prev.len() && prev[k] == r as u32;
                        assert(cur[k] == r as u32);
                    }
                } else {
                    assert(cur[prev.len() as int] == (n - 1) as u32);
                }
            } else if r == n - 1 && cur.contains(r as u32) {
                let k = choose|k: int| 0 <= k < cur.len() && cur[k] == r as u32;
                assert((prev[k] as int) < n - 1);
            }
        }
    }
}

proof fn lemma_always_matches_all(ds: Dataset, n: int)
    requires
        0 <= n,
    ensures
        ds.matching_rows(QueryNode::Always, n) == Seq::new(n as nat, |i: int| i as u32),
    decreases n,
{
    if n > 0 {
        lemma_always_matches_all(ds, n - 1);
        assert(ds.matching_rows(QueryNode::Always, n) =~= Seq::new(n as nat, |i: int| i as u32));
    }
}

/// Datasets with the same content match the same rows.
pub proof fn lemma_same_content_matching(a: Dataset, b: Dataset, tree: QueryNode, n: int)
    requires
        a.same_content(b),
    ensures
        a.matching_rows(tree, n) == b.matching_rows(tree, n),
        a.row_count_spec() == b.row_count_spec(),
    decreases n,
{
    if n > 0 {
        lemma_same_content_matching(a, b, tree, n - 1);
        assert(a.row_matches_tree(tree, n - 1) == b.row_matches_tree(tree, n - 1));
    }
}

/// Rows in `[a, b)` that do not match leave the matching rows unchanged.
pub proof fn lemma_matching_rows_skip(ds: Dataset, tree: QueryNode, a: int, b: int)
    requires
        0 <= a <= b,
        forall|r: int| a <= r < b ==> !ds.row_matches_tree(tree, r),
    ensures
        ds.matching_rows(tree, b) == ds.matching_rows(tree, a),
    decreases b - a,
{
    if b > a {
        lemma_matching_rows_skip(ds, tree, a, b - 1);
    }
}

/// A needle found in a slice of `hay` is found in `hay`.
pub proof fn lemma_folded_contains_within(hay: Seq<u8>, s: int, e: int, needle: Seq<u8>)
    requires
        0 <= s <= e <= hay.len(),
        folded_contains(hay.subrange(s, e), needle),
    ensures
        folded_contains(hay, needle),
{
    let sub = hay.subrange(s, e);
    let i = choose|i: int| folded_match_at(sub, needle, i);
    assert forall|k: int| 0 <= k < needle.len() implies ascii_lower(#[trigger] hay[s + i + k]) == needle[k] by {
        assert(sub[i + k] == hay[s + i + k]);
    }
    assert(folded_match_at(hay, needle, s + i));
}

proof fn lemma_span_in_data(starts: Seq<u64>, len: int, i: int)
    requires
        starts_wf(starts),
        starts.last() == len,
        0 <= i,
        i + 1 < starts.len(),
    ensures
        starts[i] < starts[i + 1] <= len,
{
    if i + 1 < starts.len() - 1 {
        assert(starts[i + 1] < starts[starts.len() - 1]);
    }
}

} // verus!
