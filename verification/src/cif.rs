//! Dictionary-style structure files: cutting the text into tokens, and
//! reading the atom records out of the tables of the atom-site category.

use vstd::prelude::*;
use vstd::string::StringSliceAdditionalSpecFns;
use crate::atom::Element;
use crate::fields::AtomFields;
use crate::ingest::{is_standard_residue, standard_residue};
use crate::text::{find_line_end, lemma_line_end_bounds, line_end, Span};

verus! {

/// The bytes that separate tokens: tab, line feed, vertical tab, form
/// feed, carriage return and blank, and the next-line and no-break-space
/// characters of the Latin-1 range.
pub open spec fn is_space(c: u8) -> bool {
    (9 <= c <= 13) || c == 32 || c == 0x85 || c == 0xA0
}

/// Where the word that begins at `from` ends: at the next separator, or
/// at the end of the text.
pub open spec fn word_end(text: Seq<u8>, from: int) -> int
    decreases text.len() - from,
{
    if from >= text.len() {
        text.len() as int
    } else if is_space(text[from]) {
        from
    } else {
        word_end(text, from + 1)
    }
}

/// Where a quoted token that begins at `from` ends: at the next
/// occurrence of the quote character, or at the end of the text.
pub open spec fn quote_end(text: Seq<u8>, from: int, quote: u8) -> int
    decreases text.len() - from,
{
    if from >= text.len() {
        text.len() as int
    } else if text[from] == quote {
        from
    } else {
        quote_end(text, from + 1, quote)
    }
}

/// Where a text block that begins at `from` ends: at the first line feed
/// that a semicolon follows, if there is one.
pub open spec fn block_end(text: Seq<u8>, from: int) -> Option<int>
    decreases text.len() - from,
{
    if from + 1 >= text.len() {
        None
    } else if text[from] == '\n' as u8 && text[from + 1] == ';' as u8 {
        Some(from)
    } else {
        block_end(text, from + 1)
    }
}

/// Where reading goes on after a text block that opened before `from`
/// and is never closed: at the last byte of the text.
pub open spec fn after_open_block(text: Seq<u8>, from: int) -> int {
    if from + 1 < text.len() {
        text.len() - 1
    } else {
        from
    }
}

/// A word ends at or after its beginning, within the text.
pub proof fn lemma_word_end_bounds(text: Seq<u8>, from: int)
    requires
        0 <= from <= text.len(),
    ensures
        from <= word_end(text, from) <= text.len(),
        from < text.len() && !is_space(text[from]) ==> from < word_end(text, from),
    decreases text.len() - from,
{
    if from < text.len() && !is_space(text[from]) {
        lemma_word_end_bounds(text, from + 1);
    }
}

/// A quoted token ends at or after its beginning, within the text.
pub proof fn lemma_quote_end_bounds(text: Seq<u8>, from: int, quote: u8)
    requires
        0 <= from <= text.len(),
    ensures
        from <= quote_end(text, from, quote) <= text.len(),
    decreases text.len() - from,
{
    if from < text.len() && text[from] != quote {
        lemma_quote_end_bounds(text, from + 1, quote);
    }
}

/// A text block ends at or after its beginning, two bytes or more before
/// the end of the text.
pub proof fn lemma_block_end_bounds(text: Seq<u8>, from: int)
    requires
        0 <= from,
    ensures
        block_end(text, from) matches Some(e) ==> from <= e && e + 1 < text.len(),
    decreases text.len() - from,
{
    if from + 1 < text.len() && !(text[from] == '\n' as u8 && text[from + 1] == ';' as u8) {
        lemma_block_end_bounds(text, from + 1);
    }
}

/// The tokens of the text from `i` on, in order, each as the span of its
/// content. `at_line_start` says whether nothing but separators has been
/// read on the current line.
///
/// Separators are passed over. A `#` begins a comment that runs to the
/// end of the line. A semicolon at the beginning of a line opens a text
/// block, which is one token and ends before the next line feed that a
/// semicolon follows; what stands after that semicolon on its line is
/// passed over. If such a block is never closed, reading goes on with a
/// word at the last byte of the text. A quote character opens a token
/// that runs to the next occurrence of the same character. Anything else
/// begins a word, which runs to the next separator.
pub open spec fn tokens_from(text: Seq<u8>, i: int, at_line_start: bool) -> Seq<Span>
    decreases text.len() - i,
{
    if i < 0 || i >= text.len() {
        Seq::empty()
    } else if is_space(text[i]) {
        tokens_from(text, i + 1, at_line_start || text[i] == '\n' as u8)
    } else if text[i] == '#' as u8 {
        proof {
            lemma_line_end_bounds(text, i + 1);
        }
        tokens_from(text, line_end(text, i + 1), true)
    } else if text[i] == ';' as u8 && at_line_start {
        match block_end(text, i + 1) {
            Some(e) => {
                proof {
                    lemma_block_end_bounds(text, i + 1);
                    lemma_line_end_bounds(text, e + 2);
                }
                seq![Span { start: (i + 1) as usize, end: e as usize }] + tokens_from(
                    text,
                    line_end(text, e + 2),
                    true,
                )
            },
            None => {
                let j = after_open_block(text, i + 1);
                proof {
                    lemma_word_end_bounds(text, j);
                }
                seq![Span { start: j as usize, end: word_end(text, j) as usize }] + tokens_from(
                    text,
                    word_end(text, j),
                    false,
                )
            },
        }
    } else if text[i] == '\'' as u8 || text[i] == '"' as u8 {
        let q = quote_end(text, i + 1, text[i]);
        proof {
            lemma_quote_end_bounds(text, i + 1, text[i]);
        }
        seq![Span { start: (i + 1) as usize, end: q as usize }] + if q < text.len() {
            tokens_from(text, q + 1, false)
        } else {
            Seq::empty()
        }
    } else {
        proof {
            lemma_word_end_bounds(text, i);
        }
        seq![Span { start: i as usize, end: word_end(text, i) as usize }] + tokens_from(
            text,
            word_end(text, i),
            false,
        )
    }
}

/// The tokens of the whole text.
pub open spec fn spec_tokenize(text: Seq<u8>) -> Seq<Span> {
    tokens_from(text, 0, true)
}

/// Whether the byte separates tokens.
pub fn separates(c: u8) -> (r: bool)
    ensures
        r == is_space(c),
{
    (9 <= c && c <= 13) || c == 32 || c == 0x85 || c == 0xA0
}

fn find_word_end(text: &[u8], from: usize) -> (end: usize)
    requires
        from <= text.len(),
    ensures
        end == word_end(text@, from as int),
        from <= end <= text.len(),
{
    let mut end = from;
    while end < text.len() && !separates(text[end])
        invariant
            from <= end <= text.len(),
            word_end(text@, from as int) == word_end(text@, end as int),
        decreases text.len() - end,
    {
        end = end + 1;
    }
    end
}

fn find_quote_end(text: &[u8], from: usize, quote: u8) -> (end: usize)
    requires
        from <= text.len(),
    ensures
        end == quote_end(text@, from as int, quote),
        from <= end <= text.len(),
{
    let mut end = from;
    while end < text.len() && text[end] != quote
        invariant
            from <= end <= text.len(),
            quote_end(text@, from as int, quote) == quote_end(text@, end as int, quote),
        decreases text.len() - end,
    {
        end = end + 1;
    }
    end
}

fn find_block_end(text: &[u8], from: usize) -> (end: Option<usize>)
    requires
        from <= text.len(),
    ensures
        match end {
            Some(e) => block_end(text@, from as int) == Some(e as int) && from <= e && e + 1
                < text.len(),
            None => block_end(text@, from as int) is None,
        },
{
    let mut i = from;
    while i < text.len() && i + 1 < text.len()
        invariant
            from <= i <= text.len(),
            block_end(text@, from as int) == block_end(text@, i as int),
        decreases text.len() - i,
    {
        if text[i] == '\n' as u8 && text[i + 1] == ';' as u8 {
            return Some(i);
        }
        i = i + 1;
    }
    None
}

/// Every span lies within a text of `len` bytes.
pub open spec fn spans_within(spans: Seq<Span>, len: nat) -> bool {
    forall|k: int| 0 <= k < spans.len() ==> (#[trigger] spans[k]).start <= spans[k].end <= len
}

/// Cuts the text into tokens.
pub fn tokenize(text: &[u8]) -> (tokens: Vec<Span>)
    ensures
        tokens@ == spec_tokenize(text@),
        spans_within(tokens@, text@.len()),
{
    let n = text.len();
    let mut tokens: Vec<Span> = Vec::new();
    let mut i: usize = 0;
    let mut at_line_start = true;
    while i < n
        invariant
            n == text.len(),
            i <= n,
            spans_within(tokens@, text@.len()),
            tokens@ + tokens_from(text@, i as int, at_line_start) == spec_tokenize(text@),
        decreases n - i,
    {
        let c = text[i];
        let ghost before = tokens@;
        let ghost here = tokens_from(text@, i as int, at_line_start);
        if separates(c) {
            if c == '\n' as u8 {
                at_line_start = true;
            }
            i = i + 1;
        } else if c == '#' as u8 {
            i = find_line_end(text, i + 1);
            at_line_start = true;
        } else if c == ';' as u8 && at_line_start {
            match find_block_end(text, i + 1) {
                Some(e) => {
                    tokens.push(Span { start: i + 1, end: e });
                    i = find_line_end(text, e + 2);
                    at_line_start = true;
                },
                None => {
                    let j = if n - i > 2 {
                        n - 1
                    } else {
                        i + 1
                    };
                    let w = find_word_end(text, j);
                    tokens.push(Span { start: j, end: w });
                    i = w;
                    at_line_start = false;
                },
            }
            proof {
                let made = tokens@[tokens@.len() - 1];
                assert(here == seq![made] + tokens_from(text@, i as int, at_line_start));
                assert(tokens@ + tokens_from(text@, i as int, at_line_start) == before + (seq![
                    made,
                ] + tokens_from(text@, i as int, at_line_start)));
            }
        } else if c == '\'' as u8 || c == '"' as u8 {
            let q = find_quote_end(text, i + 1, c);
            tokens.push(Span { start: i + 1, end: q });
            let ghost made = Span { start: (i + 1) as usize, end: q };
            if q < n {
                i = q + 1;
            } else {
                i = n;
            }
            at_line_start = false;
            proof {
                let rest = tokens_from(text@, i as int, at_line_start);
                assert(here == seq![made] + rest);
                assert(tokens@ + rest == before + (seq![made] + rest));
            }
        } else {
            let w = find_word_end(text, i);
            tokens.push(Span { start: i, end: w });
            let ghost made = Span { start: i, end: w };
            i = w;
            at_line_start = false;
            proof {
                let rest = tokens_from(text@, i as int, at_line_start);
                assert(here == seq![made] + rest);
                assert(tokens@ + rest == before + (seq![made] + rest));
            }
        }
    }
    assert(tokens@ + Seq::<Span>::empty() == tokens@);
    tokens
}

/// Why a table of the atom-site category cannot be read.
#[derive(Clone, Copy, Debug, PartialEq, Eq, Structural)]
pub enum CifError {
    /// A column for the atom name, the residue name, the chain or the
    /// residue number is missing.
    MissingAtomColumns,
    /// A column for one of the coordinates is missing.
    MissingCoordinates,
}

/// The bytes of a token.
pub open spec fn token_text(text: Seq<u8>, t: Span) -> Seq<u8> {
    text.subrange(t.start as int, t.end as int)
}

/// The token is the given word.
pub open spec fn is_word(text: Seq<u8>, t: Span, word: &str) -> bool {
    token_text(text, t) == word.spec_bytes()
}

/// The token begins with the given word.
pub open spec fn begins_with(text: Seq<u8>, t: Span, word: &str) -> bool {
    &&& t.end - t.start >= word.spec_bytes().len()
    &&& text.subrange(t.start as int, t.start + word.spec_bytes().len()) == word.spec_bytes()
}

/// The token ends with a dot and the given name.
pub open spec fn ends_with_member(text: Seq<u8>, t: Span, name: &str) -> bool {
    &&& t.end - t.start >= name.spec_bytes().len() + 1
    &&& text[t.end - name.spec_bytes().len() - 1] == '.' as u8
    &&& text.subrange(t.end - name.spec_bytes().len(), t.end as int) == name.spec_bytes()
}

/// The token names the column `name`: it is that name, or ends with a
/// dot and that name.
pub open spec fn names_column(text: Seq<u8>, t: Span, name: &str) -> bool {
    is_word(text, t, name) || ends_with_member(text, t, name)
}

/// The token ends the rows of a table: a keyword that opens or closes a
/// table or block, or a name.
pub open spec fn ends_rows(text: Seq<u8>, t: Span) -> bool {
    ||| is_word(text, t, "loop_")
    ||| begins_with(text, t, "_")
    ||| begins_with(text, t, "data_")
    ||| begins_with(text, t, "save_")
    ||| is_word(text, t, "stop_")
}

/// The first byte of the token, or a blank for an empty one.
pub open spec fn first_byte(text: Seq<u8>, t: Span) -> u8 {
    if t.start < t.end {
        text[t.start as int]
    } else {
        ' ' as u8
    }
}

/// The element class that the first letter of an element symbol or atom
/// name stands for, in either case.
pub open spec fn element_of_symbol(c: u8) -> Element {
    if c == 'C' as u8 || c == 'c' as u8 {
        Element::Carbon
    } else if c == 'N' as u8 || c == 'n' as u8 {
        Element::Nitrogen
    } else if c == 'O' as u8 || c == 'o' as u8 {
        Element::Oxygen
    } else {
        Element::Other
    }
}

/// The alternate-location marker that a token stands for: its first
/// byte, with a blank for the two placeholders of a missing value.
pub open spec fn marker_of(c: u8) -> u8 {
    if c == '.' as u8 || c == '?' as u8 {
        ' ' as u8
    } else {
        c
    }
}

/// The upper-case form of a letter; any other byte as it is.
pub open spec fn upper(c: u8) -> u8 {
    if 'a' as u8 <= c <= 'z' as u8 {
        (c - 32) as u8
    } else {
        c
    }
}

/// The bytes with every lower-case letter replaced by its upper-case
/// form.
pub open spec fn upper_text(s: Seq<u8>) -> Seq<u8> {
    Seq::new(s.len(), |i: int| upper(s[i]))
}

/// Where the names that follow the keyword of a table end: at the first
/// token from `from` on that does not begin with an underscore.
pub open spec fn header_end(text: Seq<u8>, tokens: Seq<Span>, from: int) -> int
    decreases tokens.len() - from,
{
    if from < 0 || from >= tokens.len() {
        tokens.len() as int
    } else if begins_with(text, tokens[from], "_") {
        header_end(text, tokens, from + 1)
    } else {
        from
    }
}

/// Where the rows of a table of `width` columns end, when they begin at
/// `from`: before the first row that is incomplete or begins with a
/// token that ends rows.
pub open spec fn rows_end(text: Seq<u8>, tokens: Seq<Span>, from: int, width: int) -> int
    decreases tokens.len() - from,
{
    if width <= 0 || from < 0 || from + width > tokens.len() || ends_rows(text, tokens[from]) {
        from
    } else {
        rows_end(text, tokens, from + width, width)
    }
}

/// The first of the tokens `from..to` that names the column `name`.
pub open spec fn find_column(text: Seq<u8>, tokens: Seq<Span>, from: int, to: int, name: &str)
    -> Option<int>
    decreases to - from,
{
    if from >= to {
        None
    } else if names_column(text, tokens[from], name) {
        Some(from)
    } else {
        find_column(text, tokens, from + 1, to, name)
    }
}

/// The place within a row of the column `name` of the table whose names
/// are the tokens `from..to`.
pub open spec fn column(text: Seq<u8>, tokens: Seq<Span>, from: int, to: int, name: &str) -> Option<
    usize,
> {
    match find_column(text, tokens, from, to, name) {
        Some(k) => Some((k - from) as usize),
        None => None,
    }
}

/// The first of two columns that exists.
pub open spec fn either(a: Option<usize>, b: Option<usize>) -> Option<usize> {
    if a is Some {
        a
    } else {
        b
    }
}

/// Some name among the tokens `from..to` belongs to the atom-site
/// category.
pub open spec fn has_atom_site(text: Seq<u8>, tokens: Seq<Span>, from: int, to: int) -> bool
    decreases to - from,
{
    if from >= to {
        false
    } else {
        begins_with(text, tokens[from], "_atom_site.") || has_atom_site(text, tokens, from + 1, to)
    }
}

/// Where in a row of an atom-site table each field stands.
#[derive(Clone, Copy, Debug, PartialEq, Eq, Structural)]
pub struct Layout {
    /// Number of columns.
    pub width: usize,
    pub group: Option<usize>,
    pub atom: usize,
    pub symbol: Option<usize>,
    pub alt_loc: Option<usize>,
    pub residue: usize,
    pub chain: usize,
    pub res_seq: usize,
    pub x: usize,
    pub y: usize,
    pub z: usize,
}

/// Every column of the layout lies within a row.
pub open spec fn layout_fits(l: Layout) -> bool {
    &&& (l.group matches Some(g) ==> g < l.width)
    &&& l.atom < l.width
    &&& (l.symbol matches Some(s) ==> s < l.width)
    &&& (l.alt_loc matches Some(a) ==> a < l.width)
    &&& l.residue < l.width
    &&& l.chain < l.width
    &&& l.res_seq < l.width
    &&& l.x < l.width
    &&& l.y < l.width
    &&& l.z < l.width
}

/// The layout of the table whose names are the tokens `from..to`. The
/// chain and the residue number are taken from the author's columns
/// where there are any, else from the label columns. A table without a
/// column for the atom name, the residue name, the chain or the residue
/// number cannot be read, nor one without all three coordinates.
pub open spec fn layout_of(text: Seq<u8>, tokens: Seq<Span>, from: int, to: int) -> Result<
    Layout,
    CifError,
> {
    let atom = column(text, tokens, from, to, "label_atom_id");
    let residue = column(text, tokens, from, to, "label_comp_id");
    let chain = either(
        column(text, tokens, from, to, "auth_asym_id"),
        column(text, tokens, from, to, "label_asym_id"),
    );
    let res_seq = either(
        column(text, tokens, from, to, "auth_seq_id"),
        column(text, tokens, from, to, "label_seq_id"),
    );
    let x = column(text, tokens, from, to, "Cartn_x");
    let y = column(text, tokens, from, to, "Cartn_y");
    let z = column(text, tokens, from, to, "Cartn_z");
    if atom is None || residue is None || chain is None || res_seq is None {
        Err(CifError::MissingAtomColumns)
    } else if x is None || y is None || z is None {
        Err(CifError::MissingCoordinates)
    } else {
        Ok(
            Layout {
                width: (to - from) as usize,
                group: column(text, tokens, from, to, "group_PDB"),
                atom: atom->0,
                symbol: column(text, tokens, from, to, "type_symbol"),
                alt_loc: column(text, tokens, from, to, "label_alt_id"),
                residue: residue->0,
                chain: chain->0,
                res_seq: res_seq->0,
                x: x->0,
                y: y->0,
                z: z->0,
            },
        )
    }
}

/// The fields of the row that begins at token `at`, or nothing if the
/// table has a column for the record group and the row is of another
/// group than that of the atoms.
pub open spec fn row_fields(text: Seq<u8>, tokens: Seq<Span>, at: int, l: Layout) -> Option<
    AtomFields,
> {
    if l.group is Some && !is_word(text, tokens[at + l.group->0], "ATOM") {
        None
    } else {
        let name = tokens[at + l.atom];
        let symbol = if l.symbol is Some {
            tokens[at + l.symbol->0]
        } else {
            name
        };
        Some(
            AtomFields {
                element: element_of_symbol(first_byte(text, symbol)),
                backbone: is_word(text, name, "N") || is_word(text, name, "C"),
                alt_loc: if l.alt_loc is Some {
                    marker_of(first_byte(text, tokens[at + l.alt_loc->0]))
                } else {
                    ' ' as u8
                },
                standard_residue: standard_residue(
                    upper_text(token_text(text, tokens[at + l.residue])),
                ),
                chain_id: first_byte(text, tokens[at + l.chain]),
                residue: tokens[at + l.residue],
                res_seq: tokens[at + l.res_seq],
                x: tokens[at + l.x],
                y: tokens[at + l.y],
                z: tokens[at + l.z],
            },
        )
    }
}

/// The atom records of the rows from `from` on, row by row.
pub open spec fn rows_from(text: Seq<u8>, tokens: Seq<Span>, from: int, l: Layout) -> Seq<
    AtomFields,
>
    decreases tokens.len() - from,
{
    if l.width == 0 || from < 0 || from + l.width > tokens.len() || ends_rows(text, tokens[from]) {
        Seq::empty()
    } else {
        let rest = rows_from(text, tokens, from + l.width, l);
        match row_fields(text, tokens, from, l) {
            Some(f) => seq![f] + rest,
            None => rest,
        }
    }
}

/// A table of the atom-site category: its atom records, and the token at
/// which reading goes on after it.
pub struct AtomTable {
    pub rows: Vec<AtomFields>,
    pub next: usize,
}

/// The first table of the atom-site category that begins at token `idx`
/// or later, as its atom records and the token after its rows; nothing
/// if there is none; an error if it cannot be read. Tables of other
/// categories are passed over with their rows, a table keyword without
/// names as it stands.
pub open spec fn find_table(text: Seq<u8>, tokens: Seq<Span>, idx: int) -> Result<
    Option<(Seq<AtomFields>, int)>,
    CifError,
>
    decreases tokens.len() - idx,
{
    if idx < 0 || idx >= tokens.len() {
        Ok(None)
    } else if !is_word(text, tokens[idx], "loop_") {
        find_table(text, tokens, idx + 1)
    } else {
        let names = idx + 1;
        let rows = header_end(text, tokens, names);
        proof {
            lemma_header_end_bounds(text, tokens, names);
        }
        if rows == names {
            find_table(text, tokens, names)
        } else if !has_atom_site(text, tokens, names, rows) {
            proof {
                lemma_rows_end_bounds(text, tokens, rows, rows - names);
            }
            find_table(text, tokens, rows_end(text, tokens, rows, rows - names))
        } else {
            match layout_of(text, tokens, names, rows) {
                Err(e) => Err(e),
                Ok(l) => Ok(
                    Some(
                        (
                            rows_from(text, tokens, rows, l),
                            rows_end(text, tokens, rows, rows - names),
                        ),
                    ),
                ),
            }
        }
    }
}

/// The names of a table end at or after their beginning, among the
/// tokens.
pub proof fn lemma_header_end_bounds(text: Seq<u8>, tokens: Seq<Span>, from: int)
    requires
        0 <= from <= tokens.len(),
    ensures
        from <= header_end(text, tokens, from) <= tokens.len(),
    decreases tokens.len() - from,
{
    if from < tokens.len() && begins_with(text, tokens[from], "_") {
        lemma_header_end_bounds(text, tokens, from + 1);
    }
}

/// The rows of a table end at or after their beginning, among the
/// tokens.
pub proof fn lemma_rows_end_bounds(text: Seq<u8>, tokens: Seq<Span>, from: int, width: int)
    requires
        0 <= from <= tokens.len(),
    ensures
        from <= rows_end(text, tokens, from, width) <= tokens.len(),
    decreases tokens.len() - from,
{
    if !(width <= 0 || from + width > tokens.len() || ends_rows(text, tokens[from])) {
        lemma_rows_end_bounds(text, tokens, from + width, width);
    }
}

fn text_at(text: &[u8], at: usize, word: &str) -> (r: bool)
    requires
        at + word.spec_bytes().len() <= text.len(),
    ensures
        r == (text@.subrange(at as int, at + word.spec_bytes().len()) == word.spec_bytes()),
{
    let w = word.as_bytes();
    let ghost part = text@.subrange(at as int, at + w@.len());
    let mut k: usize = 0;
    while k < w.len()
        invariant
            k <= w.len(),
            at + w.len() <= text.len(),
            w@ == word.spec_bytes(),
            part == text@.subrange(at as int, at + w@.len()),
            forall|j: int| 0 <= j < k ==> part[j] == w@[j],
        decreases w.len() - k,
    {
        if text[at + k] != w[k] {
            assert(part[k as int] != w@[k as int]);
            return false;
        }
        k = k + 1;
    }
    assert(part =~= w@);
    true
}

fn token_is(text: &[u8], t: Span, word: &str) -> (r: bool)
    requires
        t.start <= t.end <= text.len(),
    ensures
        r == is_word(text@, t, word),
{
    let n = word.as_bytes().len();
    if t.end - t.start != n {
        assert(token_text(text@, t).len() != word.spec_bytes().len());
        return false;
    }
    text_at(text, t.start, word)
}

fn token_begins_with(text: &[u8], t: Span, word: &str) -> (r: bool)
    requires
        t.start <= t.end <= text.len(),
    ensures
        r == begins_with(text@, t, word),
{
    let n = word.as_bytes().len();
    if t.end - t.start < n {
        return false;
    }
    text_at(text, t.start, word)
}

fn token_names_column(text: &[u8], t: Span, name: &str) -> (r: bool)
    requires
        t.start <= t.end <= text.len(),
    ensures
        r == names_column(text@, t, name),
{
    if token_is(text, t, name) {
        return true;
    }
    let n = name.as_bytes().len();
    if t.end - t.start <= n {
        return false;
    }
    text[t.end - n - 1] == '.' as u8 && text_at(text, t.end - n, name)
}

fn token_ends_rows(text: &[u8], t: Span) -> (r: bool)
    requires
        t.start <= t.end <= text.len(),
    ensures
        r == ends_rows(text@, t),
{
    token_is(text, t, "loop_") || token_begins_with(text, t, "_") || token_begins_with(
        text,
        t,
        "data_",
    ) || token_begins_with(text, t, "save_") || token_is(text, t, "stop_")
}

fn token_first_byte(text: &[u8], t: Span) -> (c: u8)
    requires
        t.start <= t.end <= text.len(),
    ensures
        c == first_byte(text@, t),
{
    if t.start < t.end {
        text[t.start]
    } else {
        ' ' as u8
    }
}

/// The element class for the first letter of an element symbol or atom
/// name.
pub fn element_for_symbol(c: u8) -> (e: Element)
    ensures
        e == element_of_symbol(c),
{
    if c == 'C' as u8 || c == 'c' as u8 {
        Element::Carbon
    } else if c == 'N' as u8 || c == 'n' as u8 {
        Element::Nitrogen
    } else if c == 'O' as u8 || c == 'o' as u8 {
        Element::Oxygen
    } else {
        Element::Other
    }
}

fn upper_copy(text: &[u8], t: Span) -> (out: Vec<u8>)
    requires
        t.start <= t.end <= text.len(),
    ensures
        out@ == upper_text(token_text(text@, t)),
{
    let mut out: Vec<u8> = Vec::new();
    let mut i: usize = t.start;
    while i < t.end
        invariant
            t.start <= i <= t.end <= text.len(),
            out.len() == i - t.start,
            forall|j: int| 0 <= j < out.len() ==> out@[j] == upper(text@[t.start + j]),
        decreases t.end - i,
    {
        let c = text[i];
        if 'a' as u8 <= c && c <= 'z' as u8 {
            out.push(c - 32);
        } else {
            out.push(c);
        }
        i = i + 1;
    }
    assert(out@ =~= upper_text(token_text(text@, t)));
    out
}

fn find_header_end(text: &[u8], tokens: &Vec<Span>, from: usize) -> (end: usize)
    requires
        spans_within(tokens@, text@.len()),
        from <= tokens.len(),
    ensures
        end == header_end(text@, tokens@, from as int),
        from <= end <= tokens.len(),
{
    let mut end = from;
    while end < tokens.len() && token_begins_with(text, tokens[end], "_")
        invariant
            spans_within(tokens@, text@.len()),
            from <= end <= tokens.len(),
            header_end(text@, tokens@, from as int) == header_end(text@, tokens@, end as int),
        decreases tokens.len() - end,
    {
        end = end + 1;
    }
    end
}

fn find_rows_end(text: &[u8], tokens: &Vec<Span>, from: usize, width: usize) -> (end: usize)
    requires
        spans_within(tokens@, text@.len()),
        from <= tokens.len(),
        width > 0,
    ensures
        end == rows_end(text@, tokens@, from as int, width as int),
        from <= end <= tokens.len(),
{
    let mut end = from;
    while tokens.len() - end >= width && !token_ends_rows(text, tokens[end])
        invariant
            spans_within(tokens@, text@.len()),
            from <= end <= tokens.len(),
            width > 0,
            rows_end(text@, tokens@, from as int, width as int) == rows_end(
                text@,
                tokens@,
                end as int,
                width as int,
            ),
        decreases tokens.len() - end,
    {
        end = end + width;
    }
    end
}

fn locate_column(text: &[u8], tokens: &Vec<Span>, from: usize, to: usize, name: &str) -> (c:
    Option<usize>)
    requires
        spans_within(tokens@, text@.len()),
        from <= to <= tokens.len(),
    ensures
        c == column(text@, tokens@, from as int, to as int, name),
        c matches Some(k) ==> k < to - from,
{
    let mut i = from;
    while i < to
        invariant
            spans_within(tokens@, text@.len()),
            from <= i <= to <= tokens.len(),
            find_column(text@, tokens@, from as int, to as int, name) == find_column(
                text@,
                tokens@,
                i as int,
                to as int,
                name,
            ),
        decreases to - i,
    {
        if token_names_column(text, tokens[i], name) {
            return Some(i - from);
        }
        i = i + 1;
    }
    None
}

fn any_atom_site(text: &[u8], tokens: &Vec<Span>, from: usize, to: usize) -> (r: bool)
    requires
        spans_within(tokens@, text@.len()),
        from <= to <= tokens.len(),
    ensures
        r == has_atom_site(text@, tokens@, from as int, to as int),
{
    let mut i = from;
    while i < to
        invariant
            spans_within(tokens@, text@.len()),
            from <= i <= to <= tokens.len(),
            has_atom_site(text@, tokens@, from as int, to as int) == has_atom_site(
                text@,
                tokens@,
                i as int,
                to as int,
            ),
        decreases to - i,
    {
        if token_begins_with(text, tokens[i], "_atom_site.") {
            return true;
        }
        i = i + 1;
    }
    false
}

fn first_of(a: Option<usize>, b: Option<usize>) -> (r: Option<usize>)
    ensures
        r == either(a, b),
{
    if a.is_some() {
        a
    } else {
        b
    }
}

/// Reads the layout of the table whose names are the tokens `from..to`.
pub fn read_layout(text: &[u8], tokens: &Vec<Span>, from: usize, to: usize) -> (r: Result<
    Layout,
    CifError,
>)
    requires
        spans_within(tokens@, text@.len()),
        from <= to <= tokens.len(),
    ensures
        r == layout_of(text@, tokens@, from as int, to as int),
        r matches Ok(l) ==> layout_fits(l) && l.width == to - from,
{
    let atom = locate_column(text, tokens, from, to, "label_atom_id");
    let residue = locate_column(text, tokens, from, to, "label_comp_id");
    let chain = first_of(
        locate_column(text, tokens, from, to, "auth_asym_id"),
        locate_column(text, tokens, from, to, "label_asym_id"),
    );
    let res_seq = first_of(
        locate_column(text, tokens, from, to, "auth_seq_id"),
        locate_column(text, tokens, from, to, "label_seq_id"),
    );
    let x = locate_column(text, tokens, from, to, "Cartn_x");
    let y = locate_column(text, tokens, from, to, "Cartn_y");
    let z = locate_column(text, tokens, from, to, "Cartn_z");
    match (atom, residue, chain, res_seq) {
        (Some(atom), Some(residue), Some(chain), Some(res_seq)) => {
            match (x, y, z) {
                (Some(x), Some(y), Some(z)) => Ok(
                    Layout {
                        width: to - from,
                        group: locate_column(text, tokens, from, to, "group_PDB"),
                        atom,
                        symbol: locate_column(text, tokens, from, to, "type_symbol"),
                        alt_loc: locate_column(text, tokens, from, to, "label_alt_id"),
                        residue,
                        chain,
                        res_seq,
                        x,
                        y,
                        z,
                    },
                ),
                _ => Err(CifError::MissingCoordinates),
            }
        },
        _ => Err(CifError::MissingAtomColumns),
    }
}

/// Reads the row that begins at token `at`.
pub fn read_row(text: &[u8], tokens: &Vec<Span>, at: usize, l: &Layout) -> (r: Option<AtomFields>)
    requires
        spans_within(tokens@, text@.len()),
        layout_fits(*l),
        at + l.width <= tokens.len(),
    ensures
        r == row_fields(text@, tokens@, at as int, *l),
{
    if let Some(g) = l.group {
        if !token_is(text, tokens[at + g], "ATOM") {
            return None;
        }
    }
    let name = tokens[at + l.atom];
    let symbol = match l.symbol {
        Some(s) => tokens[at + s],
        None => name,
    };
    let alt_loc = match l.alt_loc {
        Some(a) => {
            let c = token_first_byte(text, tokens[at + a]);
            if c == '.' as u8 || c == '?' as u8 {
                ' ' as u8
            } else {
                c
            }
        },
        None => ' ' as u8,
    };
    let residue = tokens[at + l.residue];
    let residue_name = upper_copy(text, residue);
    Some(
        AtomFields {
            element: element_for_symbol(token_first_byte(text, symbol)),
            backbone: token_is(text, name, "N") || token_is(text, name, "C"),
            alt_loc,
            standard_residue: is_standard_residue(residue_name.as_slice()),
            chain_id: token_first_byte(text, tokens[at + l.chain]),
            residue,
            res_seq: tokens[at + l.res_seq],
            x: tokens[at + l.x],
            y: tokens[at + l.y],
            z: tokens[at + l.z],
        },
    )
}

fn read_rows(text: &[u8], tokens: &Vec<Span>, from: usize, l: &Layout) -> (rows: Vec<AtomFields>)
    requires
        spans_within(tokens@, text@.len()),
        layout_fits(*l),
        from <= tokens.len(),
    ensures
        rows@ == rows_from(text@, tokens@, from as int, *l),
{
    let mut rows: Vec<AtomFields> = Vec::new();
    let mut at = from;
    while tokens.len() - at >= l.width && !token_ends_rows(text, tokens[at])
        invariant
            spans_within(tokens@, text@.len()),
            layout_fits(*l),
            from <= at <= tokens.len(),
            rows@ + rows_from(text@, tokens@, at as int, *l) == rows_from(
                text@,
                tokens@,
                from as int,
                *l,
            ),
        decreases tokens.len() - at,
    {
        let ghost before = rows@;
        let ghost rest = rows_from(text@, tokens@, at + l.width, *l);
        match read_row(text, tokens, at, l) {
            Some(f) => {
                rows.push(f);
                assert(rows@ + rest == before + (seq![f] + rest));
            },
            None => {},
        }
        at = at + l.width;
    }
    assert(rows@ + Seq::<AtomFields>::empty() == rows@);
    rows
}

/// Finds the first table of the atom-site category at token `idx` or
/// later and reads its atom records.
pub fn next_atom_table(text: &[u8], tokens: &Vec<Span>, idx: usize) -> (r: Result<
    Option<AtomTable>,
    CifError,
>)
    requires
        spans_within(tokens@, text@.len()),
    ensures
        match r {
            Ok(Some(table)) => find_table(text@, tokens@, idx as int) == Ok::<
                Option<(Seq<AtomFields>, int)>,
                CifError,
            >(Some((table.rows@, table.next as int))) && idx < table.next <= tokens.len(),
            Ok(None) => find_table(text@, tokens@, idx as int) == Ok::<
                Option<(Seq<AtomFields>, int)>,
                CifError,
            >(None),
            Err(e) => find_table(text@, tokens@, idx as int) == Err::<
                Option<(Seq<AtomFields>, int)>,
                CifError,
            >(e),
        },
{
    let mut i = idx;
    while i < tokens.len()
        invariant
            spans_within(tokens@, text@.len()),
            idx <= i,
            find_table(text@, tokens@, idx as int) == find_table(text@, tokens@, i as int),
        decreases tokens.len() - i,
    {
        if !token_is(text, tokens[i], "loop_") {
            i = i + 1;
        } else {
            let names = i + 1;
            let rows = find_header_end(text, tokens, names);
            if rows == names {
                i = names;
            } else if !any_atom_site(text, tokens, names, rows) {
                i = find_rows_end(text, tokens, rows, rows - names);
            } else {
                let layout = read_layout(text, tokens, names, rows)?;
                let next = find_rows_end(text, tokens, rows, rows - names);
                return Ok(Some(AtomTable { rows: read_rows(text, tokens, rows, &layout), next }));
            }
        }
    }
    Ok(None)
}

} // verus!
