//! Editor support for XY Build configurations: diagnostics that check a
//! parsed configuration against its schema, and lookups of known fields.

use vstd::prelude::*;
use vstd::string::*;
use crate::parser::{
    ErrorModel, config_result_model, ConfigFile, Entry, EntryModel, Key, KeyModel, ParseError, Value, ValueModel, entries_model,
    errors_model, lemma_entries_model_index,
};
use crate::schema::{Field, FieldKind, ObjSchema, RestKind};
use crate::text::{
    same_text, chars_of, byte_len, char_offsets, nth_line, line_of, utf8_width, utf8_bytes, char_width, byte_offset,
    char_index_at_byte, lemma_char_index_at_byte, lemma_byte_offset_bounds, lemma_byte_offset_step,
    lemma_byte_range_text, lemma_boundary_after_drop,
};
use vstd::utf8::{is_char_boundary, decode_utf8, encode_utf8};

verus! {

/// How serious a diagnostic is.
#[derive(Debug, Clone, Copy, PartialEq, Eq, Structural)]
pub enum Severity {
    Error,
    Warning,
}

/// A message about the configuration, anchored at a 0-based position.
#[derive(Debug)]
pub struct Diagnostic {
    pub row: usize,
    pub column: usize,
    pub message: String,
    pub severity: Severity,
}

/// The mathematical value of a [`Diagnostic`].
pub struct DiagnosticModel {
    pub row: usize,
    pub column: usize,
    pub message: Seq<char>,
    pub severity: Severity,
}

impl View for Diagnostic {
    type V = DiagnosticModel;

    open spec fn view(&self) -> DiagnosticModel {
        DiagnosticModel {
            row: self.row,
            column: self.column,
            message: self.message@,
            severity: self.severity,
        }
    }
}

/// The models of a sequence of diagnostics, in order.
pub open spec fn diags_model(ds: Seq<Diagnostic>) -> Seq<DiagnosticModel> {
    ds.map_values(|d: Diagnostic| d@)
}

/// A diagnostic at the key of an entry.
pub open spec fn diag_at(e: EntryModel, message: Seq<char>, severity: Severity) -> DiagnosticModel {
    DiagnosticModel { row: e.key_row, column: e.key_col, message, severity }
}

/// The texts of `items` joined with `sep` between each two.
pub open spec fn join(items: Seq<Seq<char>>, sep: Seq<char>) -> Seq<char>
    decreases items.len(),
{
    if items.len() == 0 {
        seq![]
    } else if items.len() == 1 {
        items[0]
    } else {
        join(items.drop_last(), sep) + sep + items[items.len() - 1]
    }
}

/// The index of the first field named `name`, if any.
pub open spec fn field_index(fields: Seq<Field>, name: Seq<char>) -> Option<int>
    decreases fields.len(),
{
    if fields.len() == 0 {
        None
    } else {
        match field_index(fields.drop_last(), name) {
            Some(i) => Some(i),
            None => if fields[fields.len() - 1].name@ == name {
                Some(fields.len() - 1)
            } else {
                None
            },
        }
    }
}

/// The known field of `schema` that an entry key names: an unquoted key names
/// the first field of that name; a quoted key names none.
pub open spec fn field_for_key(schema: ObjSchema, key: KeyModel) -> Option<int> {
    match key {
        KeyModel::KnownIdent(s) => field_index(schema.fields@, s),
        KeyModel::UnknownIdent(_) => None,
    }
}

/// A simple value, quoted or not, and its text.
pub open spec fn ident_text(v: ValueModel) -> Option<Seq<char>> {
    match v {
        ValueModel::KnownIdent(s) => Some(s),
        ValueModel::UnknownIdent(s) => Some(s),
        ValueModel::Block(_) => None,
    }
}

/// The message for a simple value that is not one of `variants`.
pub open spec fn invalid_value_message(v: Seq<char>, variants: Seq<Seq<char>>) -> Seq<char> {
    "invalid value '"@ + v + "', expected one of ["@ + join(variants, ", "@) + "]"@
}

/// The diagnostics for the entries of a block with the given schema, entry
/// after entry.
pub open spec fn entries_diags(es: Seq<EntryModel>, schema: ObjSchema) -> Seq<DiagnosticModel>
    decreases es,
{
    if es.len() == 0 {
        seq![]
    } else {
        entries_diags(es.drop_last(), schema) + entry_diags(es[es.len() - 1], schema)
    }
}

/// The diagnostics for one entry of a block with the given schema: a key
/// that names a known field is checked against the field's kind; any other
/// key is checked against what the block admits for other keys, or warned
/// about where it admits none.
pub open spec fn entry_diags(e: EntryModel, schema: ObjSchema) -> Seq<DiagnosticModel>
    decreases e,
{
    match field_for_key(schema, e.key) {
        Some(i) => value_diags(e.value, e, schema.fields@[i].kind),
        None => match schema.rest {
            Some(rest) => rest_value_diags(e.value, e, *rest),
            None => seq![diag_at(e, "unknown option '"@ + e.key.text() + "'"@, Severity::Warning)],
        },
    }
}

/// The diagnostics for a value `v` checked against a known field of the
/// given kind, anchored at the key of entry `e`.
pub open spec fn value_diags(v: ValueModel, e: EntryModel, kind: FieldKind) -> Seq<DiagnosticModel>
    decreases v,
{
    match v {
        ValueModel::Block(children) => match kind {
            FieldKind::Object(sub) => entries_diags(children, sub),
            _ => seq![diag_at(e, "expected a simple value, got a block"@, Severity::Error)],
        },
        _ => match kind {
            FieldKind::Str => seq![],
            FieldKind::Enum(variants) => {
                let t = ident_text(v)->Some_0;
                let names = variants@.map_values(|s: String| s@);
                if names.contains(t) {
                    seq![]
                } else {
                    seq![diag_at(e, invalid_value_message(t, names), Severity::Error)]
                }
            },
            FieldKind::Object(_) => seq![
                diag_at(e, "expected a block (indented sub-entries)"@, Severity::Error),
            ],
        },
    }
}

/// The diagnostics for a value `v` under a key that is not a known field, in
/// a block that admits such keys with the given kind, anchored at the key of
/// entry `e`.
pub open spec fn rest_value_diags(v: ValueModel, e: EntryModel, rest: RestKind) -> Seq<DiagnosticModel>
    decreases v,
{
    match v {
        ValueModel::Block(children) => match rest {
            RestKind::Object(sub) => entries_diags(children, sub),
            RestKind::Str => seq![diag_at(e, "expected a simple value, got a block"@, Severity::Error)],
        },
        _ => match rest {
            RestKind::Str => seq![],
            RestKind::Object(_) => seq![
                diag_at(e, "expected a block, got a simple value"@, Severity::Error),
            ],
        },
    }
}

/// A diagnostic at the given position.
pub fn diagnostic(row: usize, col: usize, message: String, severity: Severity) -> (d: Diagnostic)
    ensures
        d@ == (DiagnosticModel { row, column: col, message: message@, severity }),
{
    Diagnostic { row, column: col, message, severity }
}


/// A field named `name` found among the first `k` fields stays the first one.
proof fn lemma_field_index_prefix(fields: Seq<Field>, name: Seq<char>, k: int)
    requires
        0 <= k <= fields.len(),
        field_index(fields.take(k), name) is Some,
    ensures
        field_index(fields, name) == field_index(fields.take(k), name),
    decreases fields.len(),
{
    if k == fields.len() {
        assert(fields.take(k) =~= fields);
    } else {
        assert(fields.drop_last().take(k) =~= fields.take(k));
        lemma_field_index_prefix(fields.drop_last(), name, k);
    }
}

/// A field index that is found lies among the fields.
pub proof fn lemma_field_index_bounds(fields: Seq<Field>, name: Seq<char>)
    ensures
        field_index(fields, name) matches Some(i) ==> 0 <= i < fields.len() && fields[i].name@ == name,
    decreases fields.len(),
{
    if fields.len() > 0 {
        lemma_field_index_bounds(fields.drop_last(), name);
    }
}

/// The first known field of `schema` named `name`.
pub fn find_field<'a>(schema: &'a ObjSchema, name: &str) -> (r: Option<&'a Field>)
    ensures
        match field_index(schema.fields@, name@) {
            Some(i) => r == Some(&schema.fields@[i]),
            None => r is None,
        },
{
    let n = schema.fields.len();
    let mut i: usize = 0;
    while i < n
        invariant
            0 <= i <= n,
            n == schema.fields@.len(),
            field_index(schema.fields@.take(i as int), name@) is None,
        decreases n - i,
    {
        assert(schema.fields@.take(i + 1).drop_last() =~= schema.fields@.take(i as int));
        if same_text(schema.fields[i].name.as_str(), name) {
            proof {
                lemma_field_index_prefix(schema.fields@, name@, i + 1);
            }
            return Some(&schema.fields[i]);
        }
        i = i + 1;
    }
    assert(schema.fields@.take(n as int) =~= schema.fields@);
    None
}

/// The texts of `items` joined with `sep` between each two.
pub fn join_texts(items: &Vec<String>, sep: &str) -> (r: String)
    ensures
        r@ == join(items@.map_values(|s: String| s@), sep@),
{
    let ghost names = items@.map_values(|s: String| s@);
    let mut out = String::new();
    let n = items.len();
    let mut i: usize = 0;
    assert(join(names.take(0), sep@) =~= Seq::<char>::empty());
    while i < n
        invariant
            0 <= i <= n,
            n == items@.len(),
            names == items@.map_values(|s: String| s@),
            out@ == join(names.take(i as int), sep@),
        decreases n - i,
    {
        assert(names.take(i + 1).drop_last() =~= names.take(i as int));
        if i == 0 {
            out = out.concat(items[i].as_str());
            assert(out@ =~= names.take(1)[0]);
        } else {
            out = out.concat(sep).concat(items[i].as_str());
        }
        i = i + 1;
    }
    assert(names.take(n as int) =~= names);
    out
}

/// Whether `v` is one of `variants`.
fn is_variant(variants: &Vec<String>, v: &str) -> (r: bool)
    ensures
        r == variants@.map_values(|s: String| s@).contains(v@),
{
    let ghost names = variants@.map_values(|s: String| s@);
    let n = variants.len();
    let mut i: usize = 0;
    while i < n
        invariant
            0 <= i <= n,
            n == variants@.len(),
            names == variants@.map_values(|s: String| s@),
            forall|j: int| 0 <= j < i ==> #[trigger] names[j] != v@,
        decreases n - i,
    {
        if same_text(variants[i].as_str(), v) {
            assert(names[i as int] == v@);
            return true;
        }
        i = i + 1;
    }
    false
}

/// Checks the entries of a block against `schema`, adding a diagnostic for
/// each problem.
pub fn validate_entries(entries: &Vec<Entry>, schema: &ObjSchema, diags: &mut Vec<Diagnostic>)
    ensures
        diags_model(final(diags)@) == diags_model(old(diags)@) + entries_diags(
            entries_model(entries@),
            *schema,
        ),
    decreases entries,
{
    let ghost ms = entries_model(entries@);
    proof {
        lemma_entries_model_index(entries@);
    }
    let n = entries.len();
    let mut i: usize = 0;
    assert(diags_model(old(diags)@) + entries_diags(ms.take(0), *schema) =~= diags_model(old(diags)@));
    while i < n
        invariant
            0 <= i <= n,
            n == entries@.len(),
            ms == entries_model(entries@),
            ms.len() == n,
            forall|j: int| 0 <= j < n ==> #[trigger] ms[j] == entries@[j]@,
            diags_model(diags@) == diags_model(old(diags)@) + entries_diags(
                ms.take(i as int),
                *schema,
            ),
        decreases n - i,
    {
        let entry = &entries[i];
        proof {
            assert(ms.take(i + 1).drop_last() =~= ms.take(i as int));
            assert(ms.take(i + 1)[i as int] == entry@);
        }
        let ghost before = diags_model(diags@);
        let known = match &entry.key {
            Key::KnownIdent(s) => find_field(schema, s.as_str()),
            Key::UnknownIdent(_) => None,
        };
        proof {
            lemma_field_index_bounds(schema.fields@, entry@.key.text());
        }
        match known {
            Some(field) => validate_value(&entry.value, &field.kind, entry, diags),
            None => match &schema.rest {
                Some(rest) => validate_rest_value(&entry.value, rest, entry, diags),
                None => {
                    let key_text = match &entry.key {
                        Key::KnownIdent(s) => s,
                        Key::UnknownIdent(s) => s,
                    };
                    let message = String::from_str("unknown option '").concat(
                        key_text.as_str(),
                    ).concat("'");
                    diags.push(diagnostic(entry.key_row, entry.key_col, message, Severity::Warning));
                    assert(diags_model(diags@) =~= before + entry_diags(entry@, *schema));
                },
            },
        }
        assert(diags_model(diags@) == before + entry_diags(entry@, *schema));
        assert(diags_model(diags@) =~= diags_model(old(diags)@) + entries_diags(
            ms.take(i + 1),
            *schema,
        ));
        i = i + 1;
    }
    assert(ms.take(n as int) =~= ms);
}

/// Checks the value of `entry`, whose key names a known field of the given
/// kind, adding a diagnostic for each problem.
pub fn validate_value(value: &Value, kind: &FieldKind, entry: &Entry, diags: &mut Vec<Diagnostic>)
    ensures
        diags_model(final(diags)@) == diags_model(old(diags)@) + value_diags(value@, entry@, *kind),
    decreases value,
{
    let ghost before = diags_model(diags@);
    match value {
        Value::Block(children) => match kind {
            FieldKind::Object(sub) => {
                validate_entries(children, sub, diags);
            },
            _ => {
                diags.push(
                    diagnostic(
                        entry.key_row,
                        entry.key_col,
                        String::from_str("expected a simple value, got a block"),
                        Severity::Error,
                    ),
                );
                assert(diags_model(diags@) =~= before + value_diags(value@, entry@, *kind));
            },
        },
        Value::KnownIdent(v) | Value::UnknownIdent(v) => match kind {
            FieldKind::Str => {
                assert(diags_model(diags@) =~= before + value_diags(value@, entry@, *kind));
            },
            FieldKind::Enum(variants) => {
                if !is_variant(variants, v.as_str()) {
                    let message = String::from_str("invalid value '").concat(v.as_str()).concat(
                        "', expected one of [",
                    ).concat(join_texts(variants, ", ").as_str()).concat("]");
                    diags.push(diagnostic(entry.key_row, entry.key_col, message, Severity::Error));
                }
                assert(diags_model(diags@) =~= before + value_diags(value@, entry@, *kind));
            },
            FieldKind::Object(_) => {
                diags.push(
                    diagnostic(
                        entry.key_row,
                        entry.key_col,
                        String::from_str("expected a block (indented sub-entries)"),
                        Severity::Error,
                    ),
                );
                assert(diags_model(diags@) =~= before + value_diags(value@, entry@, *kind));
            },
        },
    }
}

/// Checks the value of `entry`, whose key is not a known field, against what
/// the block admits for such keys, adding a diagnostic for each problem.
pub fn validate_rest_value(value: &Value, rest: &RestKind, entry: &Entry, diags: &mut Vec<Diagnostic>)
    ensures
        diags_model(final(diags)@) == diags_model(old(diags)@) + rest_value_diags(value@, entry@, *rest),
    decreases value,
{
    let ghost before = diags_model(diags@);
    match value {
        Value::Block(children) => match rest {
            RestKind::Object(sub) => {
                validate_entries(children, sub, diags);
            },
            RestKind::Str => {
                diags.push(
                    diagnostic(
                        entry.key_row,
                        entry.key_col,
                        String::from_str("expected a simple value, got a block"),
                        Severity::Error,
                    ),
                );
                assert(diags_model(diags@) =~= before + rest_value_diags(value@, entry@, *rest));
            },
        },
        Value::KnownIdent(_) | Value::UnknownIdent(_) => match rest {
            RestKind::Str => {
                assert(diags_model(diags@) =~= before + rest_value_diags(value@, entry@, *rest));
            },
            RestKind::Object(_) => {
                diags.push(
                    diagnostic(
                        entry.key_row,
                        entry.key_col,
                        String::from_str("expected a block, got a simple value"),
                        Severity::Error,
                    ),
                );
                assert(diags_model(diags@) =~= before + rest_value_diags(value@, entry@, *rest));
            },
        },
    }
}


/// The diagnostic for a syntax error.
pub open spec fn syntax_diag(e: ErrorModel) -> DiagnosticModel {
    DiagnosticModel { row: e.row, column: e.column, message: e.message, severity: Severity::Error }
}

/// The diagnostics for a document: one error per syntax error where it did
/// not parse, else the problems of its entries against `schema`.
pub open spec fn document_diags(
    parsed: Result<Seq<EntryModel>, Seq<ErrorModel>>,
    schema: ObjSchema,
) -> Seq<DiagnosticModel> {
    match parsed {
        Err(errors) => errors.map_values(|e: ErrorModel| syntax_diag(e)),
        Ok(entries) => entries_diags(entries, schema),
    }
}

/// The diagnostics for a document, given the outcome of parsing it.
pub fn validate_document(parsed: &Result<ConfigFile, Vec<ParseError>>, schema: &ObjSchema) -> (r:
    Vec<Diagnostic>)
    ensures
        diags_model(r@) == document_diags(config_result_model(*parsed), *schema),
{
    let mut diags: Vec<Diagnostic> = Vec::new();
    match parsed {
        Err(errors) => {
            let n = errors.len();
            let mut i: usize = 0;
            while i < n
                invariant
                    0 <= i <= n,
                    n == errors@.len(),
                    diags_model(diags@) == errors_model(errors@).take(i as int).map_values(
                        |e: ErrorModel| syntax_diag(e),
                    ),
                decreases n - i,
            {
                let e = &errors[i];
                let ghost before = diags_model(diags@);
                let d = diagnostic(e.row, e.column, e.message.clone(), Severity::Error);
                assert(errors_model(errors@)[i as int] == e@);
                assert(d@ == syntax_diag(e@));
                diags.push(d);
                assert(diags_model(diags@) =~= before.push(d@));
                assert(diags_model(diags@) =~= errors_model(errors@).take(i + 1).map_values(
                    |e: ErrorModel| syntax_diag(e),
                ));
                i = i + 1;
            }
            assert(errors_model(errors@).take(n as int) =~= errors_model(errors@));
        },
        Ok(config) => {
            validate_entries(&config.entries, schema, &mut diags);
            assert(diags_model(diags@) =~= entries_diags(config@, *schema));
        },
    }
    diags
}


/// A character with the Unicode `White_Space` property.
pub open spec fn is_unicode_whitespace(c: char) -> bool {
    let u = c as u32;
    ||| 0x09 <= u <= 0x0D
    ||| u == 0x20
    ||| u == 0x85
    ||| u == 0xA0
    ||| u == 0x1680
    ||| 0x2000 <= u <= 0x200A
    ||| u == 0x2028
    ||| u == 0x2029
    ||| u == 0x202F
    ||| u == 0x205F
    ||| u == 0x3000
}

/// A character that ends a word: white space, `:`, `;` or `"`.
pub open spec fn is_word_break(c: char) -> bool {
    is_unicode_whitespace(c) || c == ':' || c == ';' || c == '"'
}

/// The index of the last word break before index `k`, if any.
pub open spec fn last_break_before(text: Seq<char>, k: int) -> Option<int>
    decreases k,
{
    if k <= 0 {
        None
    } else if is_word_break(text[k - 1]) {
        Some(k - 1)
    } else {
        last_break_before(text, k - 1)
    }
}

/// The index of the first word break at or after index `k`, if any.
pub open spec fn first_break_from(text: Seq<char>, k: int) -> Option<int>
    decreases text.len() - k,
{
    if k < 0 || k >= text.len() {
        None
    } else if is_word_break(text[k]) {
        Some(k)
    } else {
        first_break_from(text, k + 1)
    }
}

/// The index of the first character of the word around index `k`.
pub open spec fn word_start(text: Seq<char>, k: int) -> int {
    match last_break_before(text, k) {
        Some(i) => i + 1,
        None => 0,
    }
}

/// The index just past the last character of the word around index `k`.
pub open spec fn word_end(text: Seq<char>, k: int) -> int {
    match first_break_from(text, k) {
        Some(i) => i,
        None => text.len() as int,
    }
}

/// The byte column `col` lies on a character boundary of `line`, and the word
/// break before it, if any, is a one-byte character, so that the word around
/// it can be cut out of `line` by bytes.
pub open spec fn word_at_column_defined(line: Seq<char>, col: int) -> bool {
    &&& 0 <= col <= utf8_bytes(line).len()
    &&& is_char_boundary(utf8_bytes(line), col)
    &&& (last_break_before(line, char_index_at_byte(line, col)) matches Some(i) ==> char_width(
        line[i],
    ) == 1)
}

/// Whether `c` ends a word.
pub fn is_break_char(c: char) -> (r: bool)
    ensures
        r == is_word_break(c),
{
    let u = c as u32;
    (0x09 <= u && u <= 0x0D) || u == 0x20 || u == 0x85 || u == 0xA0 || u == 0x1680 || (0x2000 <= u
        && u <= 0x200A) || u == 0x2028 || u == 0x2029 || u == 0x202F || u == 0x205F || u == 0x3000
        || c == ':' || c == ';' || c == '"'
}

proof fn lemma_last_break_bounds(text: Seq<char>, k: int)
    requires
        0 <= k <= text.len(),
    ensures
        last_break_before(text, k) matches Some(i) ==> 0 <= i < k && is_word_break(text[i]),
    decreases k,
{
    if k > 0 {
        lemma_last_break_bounds(text, k - 1);
    }
}

proof fn lemma_first_break_bounds(text: Seq<char>, k: int)
    requires
        0 <= k <= text.len(),
    ensures
        first_break_from(text, k) matches Some(i) ==> k <= i < text.len() && is_word_break(text[i]),
    decreases text.len() - k,
{
    if k < text.len() {
        lemma_first_break_bounds(text, k + 1);
    }
}

/// The word of `line` around the byte column `col`, with the byte column at
/// which it starts; `None` where the column sits between two word breaks.
pub fn extract_word<'a>(line: &'a str, col: usize) -> (r: Option<(&'a str, usize)>)
    requires
        word_at_column_defined(line@, col as int),
    ensures
        ({
            let k = char_index_at_byte(line@, col as int);
            match r {
                None => word_start(line@, k) == word_end(line@, k),
                Some((w, start)) => {
                    &&& word_start(line@, k) < word_end(line@, k)
                    &&& w@ == line@.subrange(word_start(line@, k), word_end(line@, k))
                    &&& start == byte_offset(line@, word_start(line@, k))
                },
            }
        }),
{
    let ghost text = line@;
    let chars = chars_of(line);
    let n = chars.len();
    proof {
        lemma_char_index_at_byte(text, col as int);
        lemma_byte_offset_bounds(text, 0, n as int);
    }
    let ghost k0 = char_index_at_byte(text, col as int);
    let offs = char_offsets(line, &chars);
    // The character that starts at `col`.
    let mut k: usize = 0;
    while offs[k] < col
        invariant
            0 <= k <= k0,
            k0 <= n,
            n == text.len(),
            offs@.len() == n + 1,
            forall|m: int| 0 <= m <= n ==> #[trigger] offs@[m] == byte_offset(text, m),
            byte_offset(text, k0) == col,
        decreases k0 - k,
    {
        proof {
            if k == k0 {
                assert(offs@[k as int] == col);
            }
            lemma_byte_offset_bounds(text, k as int, k0);
        }
        k = k + 1;
    }
    proof {
        if k < k0 {
            lemma_byte_offset_bounds(text, k as int, k0);
        }
    }
    assert(k == k0);
    // Back to the last word break before it.
    let mut i: usize = k;
    while i > 0 && !is_break_char(chars[i - 1])
        invariant
            0 <= i <= k0,
            k0 <= n,
            n == text.len(),
            chars@ == text,
            last_break_before(text, k0) == last_break_before(text, i as int),
        decreases i,
    {
        i = i - 1;
    }
    // On to the first word break at or after it.
    let mut e: usize = k;
    while e < n && !is_break_char(chars[e])
        invariant
            k0 <= e <= n,
            n == text.len(),
            chars@ == text,
            first_break_from(text, k0) == first_break_from(text, e as int),
        decreases n - e,
    {
        e = e + 1;
    }
    proof {
        lemma_last_break_bounds(text, k0);
        lemma_first_break_bounds(text, k0);
        if i > 0 {
            lemma_byte_offset_step(text, i - 1);
            assert(offs@[i as int] == byte_offset(text, i as int));
            assert(offs@[i - 1] == byte_offset(text, i - 1));
        }
        lemma_byte_offset_bounds(text, i as int, n as int);
        vstd::utf8::encode_utf8_valid_utf8(text);
    }
    let start: usize = if i > 0 { offs[i - 1] + 1 } else { 0 };
    let end: usize = offs[e];
    assert(word_start(text, k0) == i);
    assert(word_end(text, k0) == e);
    assert(start == byte_offset(text, i as int));
    proof {
        lemma_byte_offset_bounds(text, i as int, e as int);
    }
    if start >= end {
        return None;
    }
    proof {
        lemma_byte_range_text(text, i as int, e as int);
        lemma_boundary_after_drop(utf8_bytes(text), start as int, end as int);
    }
    let (_, tail) = line.split_at(start);
    let ghost b = utf8_bytes(text);
    assert(tail.spec_bytes() =~= b.subrange(start as int, b.len() as int));
    let (word, _) = tail.split_at(end - start);
    assert(word.spec_bytes() =~= b.subrange(start as int, end as int));
    proof {
        vstd::utf8::encode_utf8_decode_utf8(word@);
    }
    Some((word, start))
}


/// Whether the word around byte column `col` of `line` can be cut out.
pub fn word_at_column_ok(line: &str, col: usize) -> (r: bool)
    ensures
        r == word_at_column_defined(line@, col as int),
{
    let ghost text = line@;
    if col > byte_len(line) || !line.is_char_boundary(col) {
        return false;
    }
    let chars = chars_of(line);
    let n = chars.len();
    let offs = char_offsets(line, &chars);
    proof {
        vstd::utf8::encode_utf8_valid_utf8(text);
        lemma_char_index_at_byte(text, col as int);
    }
    let ghost k0 = char_index_at_byte(text, col as int);
    let mut k: usize = 0;
    while offs[k] < col
        invariant
            0 <= k <= k0,
            k0 <= n,
            n == text.len(),
            offs@.len() == n + 1,
            forall|m: int| 0 <= m <= n ==> #[trigger] offs@[m] == byte_offset(text, m),
            byte_offset(text, k0) == col,
        decreases k0 - k,
    {
        proof {
            if k == k0 {
                assert(offs@[k as int] == col);
            }
            lemma_byte_offset_bounds(text, k as int, k0);
        }
        k = k + 1;
    }
    proof {
        if k < k0 {
            lemma_byte_offset_bounds(text, k as int, k0);
        }
    }
    let mut i: usize = k;
    while i > 0 && !is_break_char(chars[i - 1])
        invariant
            0 <= i <= k0,
            k0 <= n,
            n == text.len(),
            chars@ == text,
            last_break_before(text, k0) == last_break_before(text, i as int),
        decreases i,
    {
        i = i - 1;
    }
    proof {
        lemma_last_break_bounds(text, k0);
    }
    i == 0 || utf8_width(chars[i - 1]) == 1
}

/// The word at a position of a document can be cut out of its line, where
/// the line exists.
pub open spec fn hover_defined(content: Seq<char>, line: nat, character: int) -> bool {
    line_of(content, line) matches Some(l) ==> word_at_column_defined(l, character)
}

/// The hover for a position of a document: the word there, where it names a
/// known field of `schema`, with the first such field's documentation.
pub open spec fn hover_spec(content: Seq<char>, line: nat, character: int, schema: ObjSchema) -> Option<
    (Seq<char>, Seq<char>),
> {
    match line_of(content, line) {
        None => None,
        Some(l) => {
            let k = char_index_at_byte(l, character);
            let w = l.subrange(word_start(l, k), word_end(l, k));
            if word_start(l, k) < word_end(l, k) && field_index(schema.fields@, w) is Some {
                Some((w, schema.fields@[field_index(schema.fields@, w)->Some_0].doc@))
            } else {
                None
            }
        },
    }
}

/// The model of a hover.
pub open spec fn hover_model(r: Option<(String, String)>) -> Option<(Seq<char>, Seq<char>)> {
    match r {
        Some((w, d)) => Some((w@, d@)),
        None => None,
    }
}

/// The hover text for the known field named by the word at a position of a
/// document: the word and the field's documentation.
pub fn hover_at_position(content: &str, line: usize, character: usize, schema: &ObjSchema) -> (r:
    Option<(String, String)>)
    requires
        hover_defined(content@, line as nat, character as int),
    ensures
        hover_model(r) == hover_spec(content@, line as nat, character as int, *schema),
{
    let text = match nth_line(content, line) {
        Some(t) => t,
        None => return None,
    };
    let (word, _) = match extract_word(text.as_str(), character) {
        Some(found) => found,
        None => return None,
    };
    match find_field(schema, word) {
        Some(field) => Some((word.to_owned(), field.doc.clone())),
        None => None,
    }
}

/// The Markdown text shown for a hover: the word in bold, then its
/// documentation.
pub fn hover_markdown(word: &str, doc: &str) -> (r: String)
    ensures
        r@ == "**"@ + word@ + "**\n\n"@ + doc@,
{
    String::from_str("**").concat(word).concat("**\n\n").concat(doc)
}

/// Whether a hover at a position of a document can be answered: where the
/// line exists, the word around the column can be cut out of it.
pub fn hover_position_ok(content: &str, line: usize, character: usize) -> (r: bool)
    ensures
        r == hover_defined(content@, line as nat, character as int),
{
    match nth_line(content, line) {
        Some(t) => word_at_column_ok(t.as_str(), character),
        None => true,
    }
}


/// `a` comes no later than `b` in lexicographic order of code points, the
/// order in which `String`s compare.
pub open spec fn text_le(a: Seq<char>, b: Seq<char>) -> bool
    decreases a.len(),
{
    if a.len() == 0 {
        true
    } else if b.len() == 0 {
        false
    } else if a[0] != b[0] {
        (a[0] as u32) < (b[0] as u32)
    } else {
        text_le(a.drop_first(), b.drop_first())
    }
}

/// The order of texts is total and transitive.
pub proof fn lemma_text_le_order(a: Seq<char>, b: Seq<char>, c: Seq<char>)
    ensures
        text_le(a, a),
        text_le(a, b) || text_le(b, a),
        text_le(a, b) && text_le(b, a) ==> a == b,
        text_le(a, b) && text_le(b, c) ==> text_le(a, c),
    decreases a.len(),
{
    if a.len() > 0 && b.len() > 0 {
        vstd::utf8::char_u32_cast(a[0], a[0] as u32);
        vstd::utf8::char_u32_cast(b[0], b[0] as u32);
    }
    if a.len() > 0 && b.len() > 0 && c.len() > 0 {
        lemma_text_le_order(a.drop_first(), b.drop_first(), c.drop_first());
        if text_le(a, b) && text_le(b, a) {
            assert(a =~= seq![a[0]] + a.drop_first());
            assert(b =~= seq![b[0]] + b.drop_first());
        }
    } else if a.len() > 0 && b.len() > 0 {
        lemma_text_le_order(a.drop_first(), b.drop_first(), c);
        if text_le(a, b) && text_le(b, a) {
            assert(a =~= seq![a[0]] + a.drop_first());
            assert(b =~= seq![b[0]] + b.drop_first());
        }
    } else if a.len() > 0 {
        lemma_text_le_order(a.drop_first(), b, c);
    } else if a.len() == 0 && b.len() == 0 {
        assert(a =~= b);
    }
}

/// Whether `a` comes no later than `b`.
pub fn text_le_exec(a: &str, b: &str) -> (r: bool)
    ensures
        r == text_le(a@, b@),
{
    let x = chars_of(a);
    let y = chars_of(b);
    let mut i: usize = 0;
    assert(a@.skip(0) =~= a@);
    assert(b@.skip(0) =~= b@);
    while i < x.len() && i < y.len() && x[i] == y[i]
        invariant
            0 <= i <= x@.len(),
            i <= y@.len(),
            x@ == a@,
            y@ == b@,
            text_le(a@, b@) == text_le(a@.skip(i as int), b@.skip(i as int)),
        decreases x@.len() - i,
    {
        assert(a@.skip(i as int).drop_first() =~= a@.skip(i + 1));
        assert(b@.skip(i as int).drop_first() =~= b@.skip(i + 1));
        i = i + 1;
    }
    if i == x.len() {
        true
    } else if i == y.len() {
        false
    } else {
        (x[i] as u32) < (y[i] as u32)
    }
}

/// A completion offered for a known field: its name, and its documentation as
/// detail.
#[derive(Debug)]
pub struct Completion {
    pub label: String,
    pub detail: String,
}

impl View for Completion {
    type V = (Seq<char>, Seq<char>);

    open spec fn view(&self) -> (Seq<char>, Seq<char>) {
        (self.label@, self.detail@)
    }
}

/// Inserts `x` into `s` after the last item whose label comes no later than
/// its own.
pub open spec fn insert_by_label(s: Seq<(Seq<char>, Seq<char>)>, x: (Seq<char>, Seq<char>)) -> Seq<
    (Seq<char>, Seq<char>),
>
    decreases s.len(),
{
    if s.len() == 0 {
        seq![x]
    } else if text_le(s[s.len() - 1].0, x.0) {
        s.push(x)
    } else {
        insert_by_label(s.drop_last(), x).push(s[s.len() - 1])
    }
}

/// `s` ordered by label, items with equal labels kept in their order.
pub open spec fn sort_by_label(s: Seq<(Seq<char>, Seq<char>)>) -> Seq<(Seq<char>, Seq<char>)>
    decreases s.len(),
{
    if s.len() == 0 {
        seq![]
    } else {
        insert_by_label(sort_by_label(s.drop_last()), s[s.len() - 1])
    }
}

/// The labels of `s` never decrease.
pub open spec fn sorted_by_label(s: Seq<(Seq<char>, Seq<char>)>) -> bool {
    forall|i: int, j: int| 0 <= i < j < s.len() ==> text_le(#[trigger] s[i].0, #[trigger] s[j].0)
}

/// The completion items of a schema's fields, in field order.
pub open spec fn field_items(fields: Seq<Field>) -> Seq<(Seq<char>, Seq<char>)> {
    fields.map_values(|f: Field| (f.name@, f.doc@))
}

/// Inserting at position `j`, where the items before come no later and those
/// after come later, is `insert_by_label`.
proof fn lemma_insert_by_label_at(s: Seq<(Seq<char>, Seq<char>)>, x: (Seq<char>, Seq<char>), j: int)
    requires
        0 <= j <= s.len(),
        j > 0 ==> text_le(s[j - 1].0, x.0),
        forall|m: int| j <= m < s.len() ==> !text_le(#[trigger] s[m].0, x.0),
    ensures
        insert_by_label(s, x) == s.insert(j, x),
    decreases s.len(),
{
    if s.len() == 0 {
        assert(s.insert(j, x) =~= seq![x]);
    } else if j == s.len() {
        assert(s.insert(j, x) =~= s.push(x));
    } else {
        lemma_insert_by_label_at(s.drop_last(), x, j);
        assert(s.drop_last().insert(j, x).push(s[s.len() - 1]) =~= s.insert(j, x));
    }
}

/// The completions for the known fields of `schema`, ordered by label.
pub fn completion_items(schema: &ObjSchema) -> (r: Vec<Completion>)
    ensures
        r@.map_values(|c: Completion| c@) == sort_by_label(field_items(schema.fields@)),
{
    let ghost items = field_items(schema.fields@);
    let mut out: Vec<Completion> = Vec::new();
    let n = schema.fields.len();
    let mut i: usize = 0;
    while i < n
        invariant
            0 <= i <= n,
            n == schema.fields@.len(),
            items == field_items(schema.fields@),
            out@.map_values(|c: Completion| c@) == sort_by_label(items.take(i as int)),
        decreases n - i,
    {
        let f = &schema.fields[i];
        let item = Completion { label: f.name.clone(), detail: f.doc.clone() };
        let ghost cur = out@.map_values(|c: Completion| c@);
        let mut j: usize = out.len();
        while j > 0 && !text_le_exec(out[j - 1].label.as_str(), item.label.as_str())
            invariant
                0 <= j <= out@.len(),
                cur == out@.map_values(|c: Completion| c@),
                forall|m: int| j <= m < cur.len() ==> !text_le(#[trigger] cur[m].0, item@.0),
            decreases j,
        {
            j = j - 1;
        }
        proof {
            if j > 0 {
                assert(cur[j - 1] == out@[j - 1]@);
            }
            lemma_insert_by_label_at(cur, item@, j as int);
            assert(items.take(i + 1).drop_last() =~= items.take(i as int));
            assert(items.take(i + 1)[i as int] == item@);
        }
        out.insert(j, item);
        assert(out@.map_values(|c: Completion| c@) =~= cur.insert(j as int, item@));
        i = i + 1;
    }
    assert(items.take(n as int) =~= items);
    out
}


/// Inserting an item adds it to the items, and takes none away.
pub proof fn lemma_insert_by_label_items(s: Seq<(Seq<char>, Seq<char>)>, x: (Seq<char>, Seq<char>))
    ensures
        insert_by_label(s, x).to_multiset() == s.to_multiset().insert(x),
    decreases s.len(),
{
    broadcast use vstd::seq_lib::to_multiset_build, vstd::multiset::group_multiset_axioms;

    if s.len() == 0 {
        assert(seq![x] =~= s.push(x));
        vstd::seq_lib::to_multiset_build(s, x);
    } else if text_le(s[s.len() - 1].0, x.0) {
        vstd::seq_lib::to_multiset_build(s, x);
    } else {
        let last = s[s.len() - 1];
        lemma_insert_by_label_items(s.drop_last(), x);
        assert(s =~= s.drop_last().push(last));
        vstd::seq_lib::to_multiset_build(s.drop_last(), last);
        vstd::seq_lib::to_multiset_build(insert_by_label(s.drop_last(), x), last);
        assert(insert_by_label(s, x).to_multiset() =~= s.to_multiset().insert(x));
    }
}

/// Inserting an item into a list ordered by label keeps it ordered.
pub proof fn lemma_insert_by_label_sorted(s: Seq<(Seq<char>, Seq<char>)>, x: (Seq<char>, Seq<char>))
    requires
        sorted_by_label(s),
    ensures
        sorted_by_label(insert_by_label(s, x)),
    decreases s.len(),
{
    if s.len() == 0 {
    } else if text_le(s[s.len() - 1].0, x.0) {
        let r = s.push(x);
        assert forall|i: int, j: int| 0 <= i < j < r.len() implies text_le(
            #[trigger] r[i].0,
            #[trigger] r[j].0,
        ) by {
            if j == s.len() && i < s.len() - 1 {
                lemma_text_le_order(s[i].0, s[s.len() - 1].0, x.0);
            }
        }
    } else {
        let last = s[s.len() - 1];
        let t = s.drop_last();
        lemma_insert_by_label_sorted(t, x);
        lemma_insert_by_label_items(t, x);
        lemma_text_le_order(x.0, last.0, x.0);
        let r0 = insert_by_label(t, x);
        let r = r0.push(last);
        assert forall|i: int, j: int| 0 <= i < j < r.len() implies text_le(
            #[trigger] r[i].0,
            #[trigger] r[j].0,
        ) by {
            if j == r0.len() {
                let y = r0[i];
                assert(r0.contains(y));
                vstd::seq_lib::to_multiset_contains(r0, y);
                vstd::seq_lib::to_multiset_contains(t, y);
                if y != x {
                    assert(t.to_multiset().insert(x).count(y) == t.to_multiset().count(y)) by {
                        broadcast use vstd::multiset::group_multiset_axioms;
                    }
                    let k = choose|k: int| 0 <= k < t.len() && t[k] == y;
                    assert(s[k] == y);
                }
            }
        }
    }
}

/// Ordering by label gives the same items, ordered by label: the
/// completions list every field once, in label order.
pub proof fn lemma_sort_by_label(s: Seq<(Seq<char>, Seq<char>)>)
    ensures
        sort_by_label(s).to_multiset() == s.to_multiset(),
        sorted_by_label(sort_by_label(s)),
    decreases s.len(),
{
    broadcast use vstd::seq_lib::to_multiset_build;

    if s.len() == 0 {
        assert(sort_by_label(s) =~= s);
    } else {
        let last = s[s.len() - 1];
        lemma_sort_by_label(s.drop_last());
        lemma_insert_by_label_items(sort_by_label(s.drop_last()), last);
        lemma_insert_by_label_sorted(sort_by_label(s.drop_last()), last);
        assert(s =~= s.drop_last().push(last));
    }
}


proof fn lemma_last_break_none(text: Seq<char>, k: int)
    requires
        0 <= k <= text.len(),
    ensures
        last_break_before(text, k) matches Some(i) ==> forall|j: int| i < j < k ==> !is_word_break(#[trigger] text[j]),
        last_break_before(text, k) is None ==> forall|j: int| 0 <= j < k ==> !is_word_break(#[trigger] text[j]),
    decreases k,
{
    if k > 0 {
        lemma_last_break_none(text, k - 1);
    }
}

proof fn lemma_first_break_none(text: Seq<char>, k: int)
    requires
        0 <= k <= text.len(),
    ensures
        first_break_from(text, k) matches Some(i) ==> forall|j: int| k <= j < i ==> !is_word_break(#[trigger] text[j]),
        first_break_from(text, k) is None ==> forall|j: int| k <= j < text.len() ==> !is_word_break(#[trigger] text[j]),
    decreases text.len() - k,
{
    if k < text.len() {
        lemma_first_break_none(text, k + 1);
    }
}

/// The word around a position is the longest run of characters without a
/// word break that contains the position: it holds no break, and is
/// bounded by a break or by an end of the line on each side.
pub proof fn lemma_word_around(text: Seq<char>, k: int)
    requires
        0 <= k <= text.len(),
    ensures
        0 <= word_start(text, k) <= k <= word_end(text, k) <= text.len(),
        forall|j: int| word_start(text, k) <= j < word_end(text, k) ==> !is_word_break(#[trigger] text[j]),
        word_start(text, k) == 0 || is_word_break(text[word_start(text, k) - 1]),
        word_end(text, k) == text.len() || is_word_break(text[word_end(text, k)]),
{
    lemma_last_break_bounds(text, k);
    lemma_first_break_bounds(text, k);
    lemma_last_break_none(text, k);
    lemma_first_break_none(text, k);
}


/// A simple value, quoted or not, under a field that names variants: it
/// draws nothing where its text is one of the variants, and otherwise
/// exactly one error at the entry's key, naming the value and the variants.
pub proof fn lemma_enum_field_checks_every_simple_value(
    v: ValueModel,
    e: EntryModel,
    variants: Vec<String>,
    t: Seq<char>,
)
    requires
        v == ValueModel::KnownIdent(t) || v == ValueModel::UnknownIdent(t),
    ensures
        ({
            let names = variants@.map_values(|s: String| s@);
            let ds = value_diags(v, e, FieldKind::Enum(variants));
            &&& names.contains(t) ==> ds.len() == 0
            &&& !names.contains(t) ==> {
                &&& ds.len() == 1
                &&& ds[0].severity == Severity::Error
                &&& ds[0].row == e.key_row
                &&& ds[0].column == e.key_col
                &&& ds[0].message == "invalid value '"@ + t + "', expected one of ["@ + join(
                    names,
                    ", "@,
                ) + "]"@
            }
        }),
{
}

/// A simple value, quoted or not, under a field that takes a block draws
/// exactly one error at the entry's key: a block was expected.
pub proof fn lemma_object_field_rejects_simple_values(
    v: ValueModel,
    e: EntryModel,
    sub: ObjSchema,
    t: Seq<char>,
)
    requires
        v == ValueModel::KnownIdent(t) || v == ValueModel::UnknownIdent(t),
    ensures
        ({
            let ds = value_diags(v, e, FieldKind::Object(sub));
            &&& ds.len() == 1
            &&& ds[0].severity == Severity::Error
            &&& ds[0].row == e.key_row
            &&& ds[0].column == e.key_col
            &&& ds[0].message == "expected a block (indented sub-entries)"@
        }),
{
}

/// A block under a field that takes a simple value draws exactly one error
/// at the entry's key, whatever the block holds.
pub proof fn lemma_simple_field_rejects_blocks(
    children: Seq<EntryModel>,
    e: EntryModel,
    kind: FieldKind,
)
    requires
        !(kind is Object),
    ensures
        ({
            let ds = value_diags(ValueModel::Block(children), e, kind);
            &&& ds.len() == 1
            &&& ds[0].severity == Severity::Error
            &&& ds[0].row == e.key_row
            &&& ds[0].column == e.key_col
            &&& ds[0].message == "expected a simple value, got a block"@
        }),
{
}


/// `[a, b)` is the longest run of characters of `text` without a word break
/// that holds index `k`.
pub open spec fn is_word_run_around(text: Seq<char>, k: int, a: int, b: int) -> bool {
    &&& 0 <= a <= k <= b <= text.len()
    &&& forall|j: int| a <= j < b ==> !is_word_break(#[trigger] text[j])
    &&& a == 0 || is_word_break(text[a - 1])
    &&& b == text.len() || is_word_break(text[b])
}

proof fn lemma_last_break_skip(text: Seq<char>, a: int, k: int)
    requires
        0 <= a <= k <= text.len(),
        forall|j: int| a <= j < k ==> !is_word_break(#[trigger] text[j]),
    ensures
        last_break_before(text, k) == last_break_before(text, a),
    decreases k - a,
{
    if a < k {
        lemma_last_break_skip(text, a, k - 1);
    }
}

proof fn lemma_first_break_skip(text: Seq<char>, k: int, b: int)
    requires
        0 <= k <= b <= text.len(),
        forall|j: int| k <= j < b ==> !is_word_break(#[trigger] text[j]),
    ensures
        first_break_from(text, k) == first_break_from(text, b),
    decreases b - k,
{
    if k < b {
        lemma_first_break_skip(text, k + 1, b);
    }
}

/// The longest run without a word break around an index is the word that
/// `word_start` and `word_end` bound.
pub proof fn lemma_word_run_is_unique(text: Seq<char>, k: int, a: int, b: int)
    requires
        is_word_run_around(text, k, a, b),
    ensures
        word_start(text, k) == a,
        word_end(text, k) == b,
{
    lemma_last_break_skip(text, a, k);
    lemma_first_break_skip(text, k, b);
}

/// The hover answers for the word under the cursor: where `[a, b)` is the
/// longest run without a word break around the cursor's character on its
/// line, the hover is that word with the documentation of the first field it
/// names, and nothing where the word is empty or names no field.
pub proof fn lemma_hover_is_for_word_under_cursor(
    content: Seq<char>,
    line: nat,
    character: int,
    schema: ObjSchema,
    a: int,
    b: int,
)
    requires
        line_of(content, line) is Some,
        hover_defined(content, line, character),
        is_word_run_around(
            line_of(content, line)->Some_0,
            char_index_at_byte(line_of(content, line)->Some_0, character),
            a,
            b,
        ),
    ensures
        ({
            let l = line_of(content, line)->Some_0;
            let w = l.subrange(a, b);
            hover_spec(content, line, character, schema) == if a < b && field_index(
                schema.fields@,
                w,
            ) is Some {
                Some((w, schema.fields@[field_index(schema.fields@, w)->Some_0].doc@))
            } else {
                None
            }
        }),
{
    let l = line_of(content, line)->Some_0;
    lemma_word_run_is_unique(l, char_index_at_byte(l, character), a, b);
}

/// Where the line exists, the word around any cursor is such a run.
pub proof fn lemma_cursor_has_word_run(content: Seq<char>, line: nat, character: int)
    requires
        line_of(content, line) is Some,
        hover_defined(content, line, character),
    ensures
        ({
            let l = line_of(content, line)->Some_0;
            let k = char_index_at_byte(l, character);
            is_word_run_around(l, k, word_start(l, k), word_end(l, k))
        }),
{
    let l = line_of(content, line)->Some_0;
    lemma_char_index_at_byte(l, character);
    lemma_word_around(l, char_index_at_byte(l, character));
}

} // verus!
