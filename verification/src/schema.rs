//! Parser schemas: how to split a record into fields.
//!
//! A schema can be loaded from JSON or YAML at run time (the host does the
//! parsing), built from a preset for a common DFIR format, or auto-detected
//! from a sample with [`sniff`].

use vstd::prelude::*;
use vstd::utf8::encode_utf8;
use crate::scan::{count_byte, count_of, find_byte, lemma_count_of_append};
use crate::text::{chars_eq, lower_chars, lower_vec, str_chars, str_eq, white_space};

verus! {

/// How to interpret a delimited text file.
#[derive(Debug, Clone)]
pub struct ParserSchema {
    /// Optional human label (e.g. "bodyfile", "evtxecmd").
    pub name: Option<String>,
    /// Field delimiter: a single character (`","`, `"|"`, `"\t"`) or a
    /// friendly name (`"comma"`, `"tab"`, `"pipe"`, `"semicolon"`, `"space"`).
    pub delimiter: String,
    /// Quote character; delimiters inside a quoted field are ignored.
    pub quote: char,
    /// Whether the first non-skipped line holds column names.
    pub has_header: bool,
    /// Explicit column names. When non-empty these win over a header row.
    pub columns: Vec<String>,
    /// Number of leading lines to ignore before the header/data.
    pub skip_lines: usize,
}

/// The byte a delimiter setting resolves to.
pub open spec fn delimiter_byte_of(d: Seq<char>) -> u8 {
    if d == "comma"@ || d == ","@ {
        44
    } else if d == "tab"@ || d == "\t"@ || d == "\\t"@ {
        9
    } else if d == "pipe"@ || d == "|"@ {
        124
    } else if d == "semicolon"@ || d == ";"@ {
        59
    } else if d == "space"@ {
        32
    } else if encode_utf8(d).len() > 0 {
        encode_utf8(d)[0]
    } else {
        44
    }
}

/// The byte a quote setting resolves to: the character itself when ASCII,
/// `"` otherwise.
pub open spec fn quote_byte_of(q: char) -> u8 {
    if (q as u32) <= 0x7F {
        q as u8
    } else {
        34
    }
}

/// The views of a list of strings.
pub open spec fn string_views(v: Seq<String>) -> Seq<Seq<char>> {
    Seq::new(v.len(), |i: int| v[i]@)
}

/// The default settings: comma-delimited, `"`-quoted, with a header row.
pub open spec fn is_default_schema(s: ParserSchema) -> bool {
    &&& s.name is None
    &&& s.delimiter@ == "comma"@
    &&& s.quote == '"'
    &&& s.has_header
    &&& s.columns@.len() == 0
    &&& s.skip_lines == 0
}

/// A header-row schema named `name` with delimiter `delim`.
pub open spec fn is_named_schema(s: ParserSchema, name: Seq<char>, delim: Seq<char>) -> bool {
    &&& s.name matches Some(n) && n@ == name
    &&& s.delimiter@ == delim
    &&& s.quote == '"'
    &&& s.has_header
    &&& s.columns@.len() == 0
    &&& s.skip_lines == 0
}

/// The bodyfile preset: pipe-delimited, no header, the 11 `mactime`
/// columns.
pub open spec fn is_bodyfile_schema(s: ParserSchema) -> bool {
    &&& s.name matches Some(n) && n@ == "bodyfile"@
    &&& s.delimiter@ == "pipe"@
    &&& s.quote == '"'
    &&& !s.has_header
    &&& string_views(s.columns@) == seq![
        "MD5"@,
        "name"@,
        "inode"@,
        "mode"@,
        "UID"@,
        "GID"@,
        "size"@,
        "atime"@,
        "mtime"@,
        "ctime"@,
        "crtime"@,
    ]
    &&& s.skip_lines == 0
}

/// Copy a list of strings.
pub fn clone_strings(v: &Vec<String>) -> (res: Vec<String>)
    ensures
        string_views(res@) == string_views(v@),
{
    let mut out: Vec<String> = Vec::new();
    let mut i: usize = 0;
    while i < v.len()
        invariant
            i <= v@.len(),
            out@.len() == i,
            forall|j: int| 0 <= j < i ==> #[trigger] out@[j]@ == v@[j]@,
        decreases v@.len() - i,
    {
        out.push(v[i].clone());
        i += 1;
    }
    assert(string_views(out@) =~= string_views(v@));
    out
}

impl Default for ParserSchema {
    fn default() -> (res: Self)
        ensures
            is_default_schema(res),
    {
        ParserSchema {
            name: None,
            delimiter: "comma".to_owned(),
            quote: '"',
            has_header: true,
            columns: Vec::new(),
            skip_lines: 0,
        }
    }
}

impl ParserSchema {
    /// The delimiter resolved to a single byte.
    pub fn delimiter_byte(&self) -> (res: u8)
        ensures
            res == delimiter_byte_of(self.delimiter@),
    {
        let d = self.delimiter.as_str();
        if str_eq(d, "comma") || str_eq(d, ",") {
            44
        } else if str_eq(d, "tab") || str_eq(d, "\t") || str_eq(d, "\\t") {
            9
        } else if str_eq(d, "pipe") || str_eq(d, "|") {
            124
        } else if str_eq(d, "semicolon") || str_eq(d, ";") {
            59
        } else if str_eq(d, "space") {
            32
        } else {
            let bytes = d.as_bytes();
            if bytes.len() > 0 {
                bytes[0]
            } else {
                44
            }
        }
    }

    /// The quote character as a byte (`"` if the configured char is
    /// non-ASCII).
    pub fn quote_byte(&self) -> (res: u8)
        ensures
            res == quote_byte_of(self.quote),
    {
        let c = self.quote as u32;
        if c <= 0x7F {
            c as u8
        } else {
            34
        }
    }

    /// Comma-separated values with a header row.
    pub fn csv() -> (res: Self)
        ensures
            is_named_schema(res, "csv"@, "comma"@),
    {
        ParserSchema { name: Some("csv".to_owned()), ..Self::default() }
    }

    /// Tab-separated values with a header row.
    pub fn tsv() -> (res: Self)
        ensures
            is_named_schema(res, "tsv"@, "tab"@),
    {
        ParserSchema { name: Some("tsv".to_owned()), delimiter: "tab".to_owned(), ..Self::default() }
    }

    /// Pipe-separated values with a header row.
    pub fn psv() -> (res: Self)
        ensures
            is_named_schema(res, "psv"@, "pipe"@),
    {
        ParserSchema {
            name: Some("psv".to_owned()),
            delimiter: "pipe".to_owned(),
            ..Self::default()
        }
    }

    /// The Sleuth Kit `mactime` bodyfile: 11 pipe-separated fields, no
    /// header.
    pub fn bodyfile() -> (res: Self)
        ensures
            is_bodyfile_schema(res),
    {
        let mut columns: Vec<String> = Vec::new();
        columns.push("MD5".to_owned());
        columns.push("name".to_owned());
        columns.push("inode".to_owned());
        columns.push("mode".to_owned());
        columns.push("UID".to_owned());
        columns.push("GID".to_owned());
        columns.push("size".to_owned());
        columns.push("atime".to_owned());
        columns.push("mtime".to_owned());
        columns.push("ctime".to_owned());
        columns.push("crtime".to_owned());
        let res = ParserSchema {
            name: Some("bodyfile".to_owned()),
            delimiter: "pipe".to_owned(),
            quote: '"',
            has_header: false,
            columns,
            skip_lines: 0,
        };
        assert(string_views(res.columns@) =~= seq![
            "MD5"@,
            "name"@,
            "inode"@,
            "mode"@,
            "UID"@,
            "GID"@,
            "size"@,
            "atime"@,
            "mtime"@,
            "ctime"@,
            "crtime"@,
        ]);
        res
    }

    /// EvtxECmd CSV output (standard CSV with a header row).
    pub fn evtxecmd() -> (res: Self)
        ensures
            is_named_schema(res, "evtxecmd"@, "comma"@),
    {
        ParserSchema { name: Some("evtxecmd".to_owned()), ..Self::csv() }
    }

    /// Look up a preset by name (ASCII case-insensitive).
    pub fn preset(name: &str) -> (res: Option<Self>)
        ensures
            lower_chars(name@) == "csv"@ ==> (res matches Some(s) && is_named_schema(s, "csv"@, "comma"@)),
            lower_chars(name@) == "tsv"@ ==> (res matches Some(s) && is_named_schema(s, "tsv"@, "tab"@)),
            lower_chars(name@) == "psv"@ ==> (res matches Some(s) && is_named_schema(s, "psv"@, "pipe"@)),
            lower_chars(name@) == "bodyfile"@ ==> (res matches Some(s) && is_bodyfile_schema(s)),
            lower_chars(name@) == "evtxecmd"@ ==> (res matches Some(s) && is_named_schema(s, "evtxecmd"@, "comma"@)),
            res is Some <==> (lower_chars(name@) == "csv"@ || lower_chars(name@) == "tsv"@
                || lower_chars(name@) == "psv"@ || lower_chars(name@) == "bodyfile"@
                || lower_chars(name@) == "evtxecmd"@),
    {
        proof {
            reveal_strlit("csv");
            reveal_strlit("tsv");
            reveal_strlit("psv");
            reveal_strlit("bodyfile");
            reveal_strlit("evtxecmd");
            assert("tsv"@[0] != "csv"@[0] && "psv"@[0] != "csv"@[0] && "psv"@[0] != "tsv"@[0]);
            assert("evtxecmd"@[0] != "bodyfile"@[0]);
            assert("bodyfile"@.len() != "csv"@.len());
        }
        let lowered = lower_vec(str_chars(name).as_slice());
        if chars_eq(lowered.as_slice(), str_chars("csv").as_slice()) {
            Some(Self::csv())
        } else if chars_eq(lowered.as_slice(), str_chars("tsv").as_slice()) {
            Some(Self::tsv())
        } else if chars_eq(lowered.as_slice(), str_chars("psv").as_slice()) {
            Some(Self::psv())
        } else if chars_eq(lowered.as_slice(), str_chars("bodyfile").as_slice()) {
            Some(Self::bodyfile())
        } else if chars_eq(lowered.as_slice(), str_chars("evtxecmd").as_slice()) {
            Some(Self::evtxecmd())
        } else {
            None
        }
    }
}

/// The two document formats a schema can be written in.
#[derive(Debug, Clone, Copy, PartialEq, Eq)]
pub enum SchemaFormat {
    Json,
    Yaml,
}

/// The format of a schema document: JSON when its first non-white-space
/// character is `{`, YAML otherwise.
pub open spec fn schema_format_of(doc: Seq<char>) -> SchemaFormat {
    let i = crate::text::skip_white_space(doc, 0);
    if i < doc.len() && doc[i] == '{' {
        SchemaFormat::Json
    } else {
        SchemaFormat::Yaml
    }
}

/// Decide whether a schema document is JSON (leading `{` after white space)
/// or YAML.
pub fn schema_format(doc: &str) -> (res: SchemaFormat)
    ensures
        res == schema_format_of(doc@),
{
    let chars = str_chars(doc);
    let mut i: usize = 0;
    while i < chars.len() && crate::text::is_white_space(chars[i])
        invariant
            i <= chars@.len(),
            chars@ == doc@,
            crate::text::skip_white_space(doc@, i as int) == crate::text::skip_white_space(
                doc@,
                0,
            ),
        decreases chars@.len() - i,
    {
        i += 1;
    }
    if i < chars.len() && chars[i] == '{' {
        SchemaFormat::Json
    } else {
        SchemaFormat::Yaml
    }
}

// ---------------------------------------------------------------------------
// Delimiter sniffing
// ---------------------------------------------------------------------------

/// The end of the window spanning the first `k` newline-separated lines of
/// `s` from `i`: the position of the `k`-th newline, or the end of `s`.
pub open spec fn lines_window_end(s: Seq<u8>, i: int, k: nat) -> int
    decreases s.len() - i,
{
    if i >= s.len() {
        s.len() as int
    } else if s[i] == 10u8 {
        if k <= 1 {
            i
        } else {
            lines_window_end(s, i + 1, (k - 1) as nat)
        }
    } else {
        lines_window_end(s, i + 1, k)
    }
}

/// The bytes of the first 16 lines of a sample.
pub open spec fn sniff_window(sample: Seq<u8>) -> Seq<u8> {
    sample.subrange(0, lines_window_end(sample, 0, 16))
}

/// The candidate delimiter that occurs most often (the last of them on a
/// tie), or `,` when none occurs.
pub open spec fn best_delimiter(comma: nat, tab: nat, pipe: nat, semicolon: nat) -> u8 {
    let m1 = if comma >= tab { comma } else { tab };
    let m2 = if pipe >= semicolon { pipe } else { semicolon };
    let m = if m1 >= m2 { m1 } else { m2 };
    if m == 0 {
        44
    } else if semicolon == m {
        59
    } else if pipe == m {
        124
    } else if tab == m {
        9
    } else {
        44
    }
}

/// The delimiter [`sniff`] picks for `sample`.
pub open spec fn sniffed_delimiter(sample: Seq<u8>) -> u8 {
    let w = sniff_window(sample);
    best_delimiter(count_of(w, 44), count_of(w, 9), count_of(w, 124), count_of(w, 59))
}

/// The friendly name of a delimiter byte (`comma` for any other byte).
pub open spec fn delimiter_name_of(b: u8) -> Seq<char> {
    if b == 44 {
        "comma"@
    } else if b == 9 {
        "tab"@
    } else if b == 124 {
        "pipe"@
    } else if b == 59 {
        "semicolon"@
    } else if b == 32 {
        "space"@
    } else {
        "comma"@
    }
}

proof fn lemma_window_end_bounds(s: Seq<u8>, i: int, k: nat)
    requires
        0 <= i <= s.len(),
    ensures
        i <= lines_window_end(s, i, k) <= s.len(),
    decreases s.len() - i,
{
    if i < s.len() {
        if s[i] == 10u8 {
            if k > 1 {
                lemma_window_end_bounds(s, i + 1, (k - 1) as nat);
            }
        } else {
            lemma_window_end_bounds(s, i + 1, k);
        }
    }
}

proof fn lemma_window_end_skip(s: Seq<u8>, i: int, j: int, k: nat)
    requires
        0 <= i <= j <= s.len(),
        forall|m: int| i <= m < j ==> s[m] != 10u8,
    ensures
        lines_window_end(s, i, k) == lines_window_end(s, j, k),
    decreases j - i,
{
    if i < j {
        lemma_window_end_skip(s, i + 1, j, k);
    }
}

/// Auto-detect a delimiter from a sample of the file's first lines.
///
/// Picks whichever candidate (`,` tab `|` `;`) occurs most often in the first
/// 16 lines (the last candidate on a tie). Defaults to comma when none occurs.
pub fn sniff(sample: &[u8]) -> (res: ParserSchema)
    ensures
        res.name is None,
        res.delimiter@ == delimiter_name_of(sniffed_delimiter(sample@)),
        res.quote == '"',
        res.has_header,
        res.columns@.len() == 0,
        res.skip_lines == 0,
{
    // Find the end of the first 16 lines.
    let n = sample.len();
    let mut i: usize = 0;
    let mut k: u64 = 16;
    let mut end: usize = n;
    proof {
        lemma_window_end_bounds(sample@, 0, 16);
    }
    while i < n
        invariant_except_break
            1 <= k <= 16,
            end == n,
            lines_window_end(sample@, i as int, k as nat) == lines_window_end(sample@, 0, 16),
        invariant
            i <= n,
            n == sample@.len(),
        ensures
            end == lines_window_end(sample@, 0, 16),
        decreases n - i,
    {
        match find_byte(10, &sample[i..n]) {
            None => {
                proof {
                    assert forall|m: int| i <= m < n implies sample@[m] != 10u8 by {
                        assert(sample@[m] == sample@.subrange(i as int, n as int)[m - i]);
                    }
                    lemma_window_end_skip(sample@, i as int, n as int, k as nat);
                }
                end = n;
                break;
            },
            Some(off) => {
                let pos = i + off;
                proof {
                    assert forall|m: int| i <= m < pos implies sample@[m] != 10u8 by {
                        assert(sample@[m] == sample@.subrange(i as int, n as int)[m - i]);
                    }
                    lemma_window_end_skip(sample@, i as int, pos as int, k as nat);
                    assert(sample@[pos as int] == sample@.subrange(i as int, n as int)[off as int]);
                }
                if k <= 1 {
                    end = pos;
                    break;
                }
                k -= 1;
                i = pos + 1;
            },
        }
    }
    proof {
        lemma_window_end_bounds(sample@, 0, 16);
    }
    let window = &sample[0..end];
    let comma = count_byte(44, window);
    let tab = count_byte(9, window);
    let pipe = count_byte(124, window);
    let semicolon = count_byte(59, window);
    let m1 = if comma >= tab { comma } else { tab };
    let m2 = if pipe >= semicolon { pipe } else { semicolon };
    let m = if m1 >= m2 { m1 } else { m2 };
    let best: u8 = if m == 0 {
        44
    } else if semicolon == m {
        59
    } else if pipe == m {
        124
    } else if tab == m {
        9
    } else {
        44
    };
    let mut schema = ParserSchema::default();
    schema.delimiter = byte_to_delimiter_name(best).to_owned();
    schema
}

/// The friendly name of a delimiter byte.
pub fn byte_to_delimiter_name(b: u8) -> (res: &'static str)
    ensures
        res@ == delimiter_name_of(b),
{
    if b == 44 {
        "comma"
    } else if b == 9 {
        "tab"
    } else if b == 124 {
        "pipe"
    } else if b == 59 {
        "semicolon"
    } else if b == 32 {
        "space"
    } else {
        "comma"
    }
}

/// A delimiter that has a friendly name resolves back to itself: naming
/// the byte and resolving the name gives the same byte.
pub proof fn law_delimiter_name_round_trip(b: u8)
    requires
        b == 44 || b == 9 || b == 124 || b == 59 || b == 32,
    ensures
        delimiter_byte_of(delimiter_name_of(b)) == b,
{
    reveal_strlit("comma");
    reveal_strlit(",");
    reveal_strlit("tab");
    reveal_strlit("\t");
    reveal_strlit("\\t");
    reveal_strlit("pipe");
    reveal_strlit("|");
    reveal_strlit("semicolon");
    reveal_strlit(";");
    reveal_strlit("space");
    let n = delimiter_name_of(b);
    if b == 9 {
        assert(n[0] == 't');
        assert(n != "comma"@ && n != ","@);
    } else if b == 124 {
        assert(n[0] == 'p');
        assert(n != "comma"@ && n != ","@ && n != "tab"@ && n != "\t"@ && n != "\\t"@);
    } else if b == 59 {
        assert(n.len() == 9);
        assert(n != "comma"@ && n != ","@ && n != "tab"@ && n != "\t"@ && n != "\\t"@);
        assert(n != "pipe"@ && n != "|"@);
    } else if b == 32 {
        assert(n.len() == 5 && n[1] == 'p');
        assert(n != "comma"@ && n != ","@ && n != "tab"@ && n != "\t"@ && n != "\\t"@);
        assert(n != "pipe"@ && n != "|"@ && n != "semicolon"@ && n != ";"@);
    }
}


/// The sniffed delimiter is a most frequent candidate: it is one of `,` tab
/// `|` `;`, it occurs in the sampled window at least as often as every other
/// candidate, and when no candidate occurs it is the comma.
pub proof fn law_sniff_picks_most_frequent(sample: Seq<u8>)
    ensures
        ({
            let w = sniff_window(sample);
            let d = sniffed_delimiter(sample);
            &&& d == 44u8 || d == 9u8 || d == 124u8 || d == 59u8
            &&& count_of(w, d) >= count_of(w, 44u8)
            &&& count_of(w, d) >= count_of(w, 9u8)
            &&& count_of(w, d) >= count_of(w, 124u8)
            &&& count_of(w, d) >= count_of(w, 59u8)
            &&& (count_of(w, 44u8) == 0 && count_of(w, 9u8) == 0 && count_of(w, 124u8) == 0
                && count_of(w, 59u8) == 0) ==> d == 44u8
        }),
{
}


proof fn lemma_count_of_single(x: u8, b: u8)
    ensures
        count_of(seq![x], b) == if x == b { 1nat } else { 0nat },
{
    let s = seq![x];
    assert(s.drop_last() =~= Seq::<u8>::empty());
    assert(count_of(s.drop_last(), b) == 0);
    assert(s.last() == x);
}

/// The window of `k` lines from `i` holds at most `k - 1` newlines; when it
/// stops before the end it stops at a newline, having passed exactly `k - 1`.
proof fn lemma_window_lines(s: Seq<u8>, i: int, k: nat)
    requires
        0 <= i <= s.len(),
        k >= 1,
    ensures
        i <= lines_window_end(s, i, k) <= s.len(),
        count_of(s.subrange(i, lines_window_end(s, i, k)), 10u8) <= k - 1,
        lines_window_end(s, i, k) < s.len() ==> s[lines_window_end(s, i, k)] == 10u8 && count_of(
            s.subrange(i, lines_window_end(s, i, k)),
            10u8,
        ) == k - 1,
    decreases s.len() - i,
{
    let e = lines_window_end(s, i, k);
    if i >= s.len() {
        assert(s.subrange(i, e) =~= Seq::<u8>::empty());
    } else if s[i] == 10u8 && k <= 1 {
        assert(s.subrange(i, e) =~= Seq::<u8>::empty());
    } else {
        let k2: nat = if s[i] == 10u8 { (k - 1) as nat } else { k };
        lemma_window_lines(s, i + 1, k2);
        assert(s.subrange(i, e) =~= seq![s[i]] + s.subrange(i + 1, e));
        lemma_count_of_append(seq![s[i]], s.subrange(i + 1, e), 10u8);
        lemma_count_of_single(s[i], 10u8);
    }
}

/// The sniffed window is the first 16 lines of the sample: a prefix of it
/// holding at most 15 line breaks, and, when shorter than the sample, ending
/// right before the 16th line break.
pub proof fn law_sniff_window_is_first_lines(sample: Seq<u8>)
    ensures
        ({
            let w = sniff_window(sample);
            &&& w.len() <= sample.len()
            &&& w == sample.subrange(0, w.len() as int)
            &&& count_of(w, 10u8) <= 15
            &&& w.len() < sample.len() ==> sample[w.len() as int] == 10u8 && count_of(w, 10u8) == 15
        }),
{
    lemma_window_lines(sample, 0, 16);
}

} // verus!
