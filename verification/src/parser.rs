//! Turning the concrete syntax tree of an XY Build source into configuration
//! entries: a key, then either a simple value or a block of nested entries.

use vstd::prelude::*;
use vstd::string::*;
use crate::syntax::{
    SyntaxNode, children_fit, lemma_children_fit_each, line_feeds_before, lemma_line_feeds_monotone,
};
use crate::text::utf8_bytes;
use crate::text::{byte_slice, same_text};

verus! {

/// The value of an entry.
#[derive(Debug, PartialEq)]
pub enum Value {
    /// An unquoted identifier.
    KnownIdent(String),
    /// A quoted identifier, kept as written.
    UnknownIdent(String),
    /// Nested entries.
    Block(Vec<Entry>),
}

/// The key of an entry.
#[derive(Debug, PartialEq, Eq, Hash)]
pub enum Key {
    /// An unquoted identifier.
    KnownIdent(String),
    /// A quoted identifier, kept as written.
    UnknownIdent(String),
}

/// One `key value` entry of a configuration.
#[derive(Debug, PartialEq)]
pub struct Entry {
    pub key: Key,
    pub value: Value,
    /// 0-based line of the key in the source.
    pub key_row: usize,
    /// 0-based column of the key in the source.
    pub key_col: usize,
}

/// A parsed configuration file.
#[derive(Debug, PartialEq)]
pub struct ConfigFile {
    pub entries: Vec<Entry>,
}

/// A syntax error, with the 0-based position it was found at.
#[derive(Debug)]
pub struct ParseError {
    pub message: String,
    pub row: usize,
    pub column: usize,
}

/// The mathematical value of a [`Key`].
pub enum KeyModel {
    KnownIdent(Seq<char>),
    UnknownIdent(Seq<char>),
}

/// The mathematical value of a [`Value`].
pub enum ValueModel {
    KnownIdent(Seq<char>),
    UnknownIdent(Seq<char>),
    Block(Seq<EntryModel>),
}

/// The mathematical value of an [`Entry`].
pub struct EntryModel {
    pub key: KeyModel,
    pub value: ValueModel,
    pub key_row: usize,
    pub key_col: usize,
}

/// The mathematical value of a [`ParseError`].
pub struct ErrorModel {
    pub message: Seq<char>,
    pub row: usize,
    pub column: usize,
}

impl KeyModel {
    /// The identifier that the key is written with.
    pub open spec fn text(self) -> Seq<char> {
        match self {
            KeyModel::KnownIdent(s) => s,
            KeyModel::UnknownIdent(s) => s,
        }
    }
}

pub open spec fn key_model(k: Key) -> KeyModel {
    match k {
        Key::KnownIdent(s) => KeyModel::KnownIdent(s@),
        Key::UnknownIdent(s) => KeyModel::UnknownIdent(s@),
    }
}

pub open spec fn value_model(v: Value) -> ValueModel
    decreases v,
{
    match v {
        Value::KnownIdent(s) => ValueModel::KnownIdent(s@),
        Value::UnknownIdent(s) => ValueModel::UnknownIdent(s@),
        Value::Block(es) => ValueModel::Block(entries_model(es@)),
    }
}

pub open spec fn entry_model(e: Entry) -> EntryModel
    decreases e,
{
    EntryModel {
        key: key_model(e.key),
        value: value_model(e.value),
        key_row: e.key_row,
        key_col: e.key_col,
    }
}

/// The models of a sequence of entries, in order.
pub open spec fn entries_model(es: Seq<Entry>) -> Seq<EntryModel>
    decreases es,
{
    if es.len() == 0 {
        seq![]
    } else {
        entries_model(es.drop_last()).push(entry_model(es[es.len() - 1]))
    }
}

pub open spec fn error_model(e: ParseError) -> ErrorModel {
    ErrorModel { message: e.message@, row: e.row, column: e.column }
}

/// The models of a sequence of errors, in order.
pub open spec fn errors_model(es: Seq<ParseError>) -> Seq<ErrorModel> {
    es.map_values(|e: ParseError| error_model(e))
}

impl View for Key {
    type V = KeyModel;

    open spec fn view(&self) -> KeyModel {
        key_model(*self)
    }
}

impl View for Value {
    type V = ValueModel;

    open spec fn view(&self) -> ValueModel {
        value_model(*self)
    }
}

impl View for Entry {
    type V = EntryModel;

    open spec fn view(&self) -> EntryModel {
        entry_model(*self)
    }
}

impl View for ParseError {
    type V = ErrorModel;

    open spec fn view(&self) -> ErrorModel {
        error_model(*self)
    }
}

impl View for ConfigFile {
    type V = Seq<EntryModel>;

    open spec fn view(&self) -> Seq<EntryModel> {
        entries_model(self.entries@)
    }
}

impl Key {
    /// Whether the key's identifier is empty.
    pub fn is_empty(&self) -> (r: bool)
        ensures
            r == (self@.text().len() == 0),
    {
        match self {
            Key::KnownIdent(s) | Key::UnknownIdent(s) => s.as_str().is_empty(),
        }
    }
}

fn copy_key(k: &Key) -> (r: Key)
    ensures
        r@ == k@,
{
    match k {
        Key::KnownIdent(s) => Key::KnownIdent(s.clone()),
        Key::UnknownIdent(s) => Key::UnknownIdent(s.clone()),
    }
}

fn copy_value(v: &Value) -> (r: Value)
    ensures
        r@ == v@,
    decreases v,
{
    match v {
        Value::KnownIdent(s) => Value::KnownIdent(s.clone()),
        Value::UnknownIdent(s) => Value::UnknownIdent(s.clone()),
        Value::Block(es) => Value::Block(copy_entries(es)),
    }
}

fn copy_entry(e: &Entry) -> (r: Entry)
    ensures
        r@ == e@,
    decreases e,
{
    Entry {
        key: copy_key(&e.key),
        value: copy_value(&e.value),
        key_row: e.key_row,
        key_col: e.key_col,
    }
}

fn copy_entries(es: &Vec<Entry>) -> (r: Vec<Entry>)
    ensures
        entries_model(r@) == entries_model(es@),
    decreases es,
{
    let mut out: Vec<Entry> = Vec::new();
    let n = es.len();
    let mut i: usize = 0;
    while i < n
        invariant
            0 <= i <= n,
            n == es@.len(),
            entries_model(out@) == entries_model(es@.take(i as int)),
        decreases n - i,
    {
        let e = copy_entry(&es[i]);
        proof {
            lemma_entries_model_push(out@, e);
            assert(es@.take(i + 1).drop_last() =~= es@.take(i as int));
        }
        out.push(e);
        i = i + 1;
    }
    assert(es@.take(n as int) =~= es@);
    out
}

impl Clone for Key {
    fn clone(&self) -> (r: Self)
        ensures
            r@ == self@,
    {
        copy_key(self)
    }
}

impl Clone for Value {
    fn clone(&self) -> (r: Self)
        ensures
            r@ == self@,
    {
        copy_value(self)
    }
}

impl Clone for Entry {
    fn clone(&self) -> (r: Self)
        ensures
            r@ == self@,
    {
        copy_entry(self)
    }
}

impl Clone for ConfigFile {
    fn clone(&self) -> (r: Self)
        ensures
            r@ == self@,
    {
        ConfigFile { entries: copy_entries(&self.entries) }
    }
}

/// The model of a sequence of entries has one model per entry, in order.
pub proof fn lemma_entries_model_index(es: Seq<Entry>)
    ensures
        entries_model(es).len() == es.len(),
        forall|i: int| 0 <= i < es.len() ==> #[trigger] entries_model(es)[i] == entry_model(es[i]),
    decreases es.len(),
{
    if es.len() > 0 {
        lemma_entries_model_index(es.drop_last());
    }
}

/// Pushing an entry adds its model at the end.
pub proof fn lemma_entries_model_push(es: Seq<Entry>, e: Entry)
    ensures
        entries_model(es.push(e)) == entries_model(es).push(entry_model(e)),
{
    assert(es.push(e).drop_last() =~= es);
}

/// The state of the scan over an entry node's children.
pub struct EntryScan {
    pub key: Option<KeyModel>,
    pub value: Option<ValueModel>,
    pub row: usize,
    pub col: usize,
}

/// A node for an unquoted identifier.
pub open spec fn is_known_ident(n: SyntaxNode) -> bool {
    n.kind@ == "known_ident"@
}

/// A node for a quoted identifier.
pub open spec fn is_unknown_ident(n: SyntaxNode) -> bool {
    n.kind@ == "unknown_ident"@
}

/// A node for an entry.
pub open spec fn is_entry(n: SyntaxNode) -> bool {
    n.kind@ == "entry"@
}

/// The key slot may still be filled: there is no key yet, or it is empty.
pub open spec fn key_slot_open(key: Option<KeyModel>) -> bool {
    match key {
        None => true,
        Some(k) => k.text().len() == 0,
    }
}

/// The scan of an entry node's children from left to right: the first
/// identifier (or the next one, while the key is empty) becomes the key and
/// records the key's position; a later identifier becomes the value; a child
/// entry gives a block value made of its own child entries. The last value
/// seen wins; the first error ends the scan.
pub open spec fn scan_entry(children: Seq<SyntaxNode>, source: Seq<char>) -> Result<
    EntryScan,
    Seq<ErrorModel>,
>
    decreases children,
{
    if children.len() == 0 {
        Ok(EntryScan { key: None, value: None, row: 0, col: 0 })
    } else {
        let c = children[children.len() - 1];
        match scan_entry(children.drop_last(), source) {
            Err(e) => Err(e),
            Ok(st) => {
                if is_known_ident(c) || is_unknown_ident(c) {
                    let t = c.text_in(source);
                    if key_slot_open(st.key) {
                        let k = if is_known_ident(c) {
                            KeyModel::KnownIdent(t)
                        } else {
                            KeyModel::UnknownIdent(t)
                        };
                        Ok(
                            EntryScan {
                                key: Some(k),
                                value: st.value,
                                row: c.start_row,
                                col: c.start_column,
                            },
                        )
                    } else {
                        let v = if is_known_ident(c) {
                            ValueModel::KnownIdent(t)
                        } else {
                            ValueModel::UnknownIdent(t)
                        };
                        Ok(EntryScan { key: st.key, value: Some(v), row: st.row, col: st.col })
                    }
                } else if is_entry(c) {
                    match block_entries(c, source) {
                        Err(e) => Err(e),
                        Ok(es) => Ok(
                            EntryScan {
                                key: st.key,
                                value: Some(ValueModel::Block(es)),
                                row: st.row,
                                col: st.col,
                            },
                        ),
                    }
                } else {
                    Ok(st)
                }
            },
        }
    }
}

/// The entry that an entry node stands for, or the errors that stop it.
pub open spec fn entry_of(node: SyntaxNode, source: Seq<char>) -> Result<
    EntryModel,
    Seq<ErrorModel>,
>
    decreases node,
{
    match scan_entry(node.children@, source) {
        Err(e) => Err(e),
        Ok(st) => match (st.key, st.value) {
            (Some(k), Some(v)) => Ok(EntryModel { key: k, value: v, key_row: st.row, key_col: st.col }),
            _ => Err(
                seq![ErrorModel { message: "entry must have a key and a value"@, row: st.row, column: st.col }],
            ),
        },
    }
}

/// The entries that the entry nodes among `children` stand for, in order,
/// or the errors of the first one that fails.
pub open spec fn entries_in(children: Seq<SyntaxNode>, source: Seq<char>) -> Result<
    Seq<EntryModel>,
    Seq<ErrorModel>,
>
    decreases children,
{
    if children.len() == 0 {
        Ok(seq![])
    } else {
        let c = children[children.len() - 1];
        match entries_in(children.drop_last(), source) {
            Err(e) => Err(e),
            Ok(es) => if is_entry(c) {
                match entry_of(c, source) {
                    Err(e) => Err(e),
                    Ok(en) => Ok(es.push(en)),
                }
            } else {
                Ok(es)
            },
        }
    }
}

/// The entries that the child entry nodes of `node` stand for.
pub open spec fn block_entries(node: SyntaxNode, source: Seq<char>) -> Result<
    Seq<EntryModel>,
    Seq<ErrorModel>,
>
    decreases node,
{
    entries_in(node.children@, source)
}

/// The model of an optional key.
pub open spec fn opt_key_model(k: Option<Key>) -> Option<KeyModel> {
    match k {
        None => None,
        Some(k) => Some(k@),
    }
}

/// The model of an optional value.
pub open spec fn opt_value_model(v: Option<Value>) -> Option<ValueModel> {
    match v {
        None => None,
        Some(v) => Some(v@),
    }
}

/// The model of the outcome of parsing one entry.
pub open spec fn entry_result_model(r: Result<Entry, Vec<ParseError>>) -> Result<
    EntryModel,
    Seq<ErrorModel>,
> {
    match r {
        Ok(e) => Ok(e@),
        Err(es) => Err(errors_model(es@)),
    }
}

/// The model of the outcome of parsing a configuration.
pub open spec fn config_result_model(r: Result<ConfigFile, Vec<ParseError>>) -> Result<
    Seq<EntryModel>,
    Seq<ErrorModel>,
> {
    match r {
        Ok(c) => Ok(c@),
        Err(es) => Err(errors_model(es@)),
    }
}

/// The text of `source` that `node` spans.
pub fn child_text(node: &SyntaxNode, source: &str) -> (r: String)
    requires
        node.range_fits(source@),
    ensures
        r@ == node.text_in(source@),
{
    byte_slice(source, node.start_byte, node.end_byte)
}

/// Parses one entry node.
pub fn parse_entry(node: &SyntaxNode, source: &str) -> (r: Result<Entry, Vec<ParseError>>)
    requires
        node.fits(source@),
    ensures
        entry_result_model(r) == entry_of(*node, source@),
    decreases node,
{
    let mut key: Option<Key> = None;
    let mut value: Option<Value> = None;
    let mut key_row: usize = 0;
    let mut key_col: usize = 0;
    let n = node.children.len();
    let mut i: usize = 0;
    while i < n
        invariant
            0 <= i <= n,
            n == node.children@.len(),
            node.fits(source@),
            scan_entry(node.children@.take(i as int), source@) == Ok::<EntryScan, Seq<ErrorModel>>(
                EntryScan {
                    key: opt_key_model(key),
                    value: opt_value_model(value),
                    row: key_row,
                    col: key_col,
                },
            ),
        decreases n - i,
    {
        let child = &node.children[i];
        proof {
            lemma_children_fit_each(node.children@, source@, i as int);
            assert(node.children@.take(i + 1).drop_last() =~= node.children@.take(i as int));
            assert(node.children@.take(i + 1)[i as int] == *child);
        }
        let known = same_text(child.kind.as_str(), "known_ident");
        let unknown = same_text(child.kind.as_str(), "unknown_ident");
        if known || unknown {
            let key_open = match &key {
                None => true,
                Some(k) => k.is_empty(),
            };
            let t = child_text(child, source);
            if key_open {
                key = Some(if known { Key::KnownIdent(t) } else { Key::UnknownIdent(t) });
                key_row = child.start_row;
                key_col = child.start_column;
            } else {
                value = Some(if known { Value::KnownIdent(t) } else { Value::UnknownIdent(t) });
            }
        } else if same_text(child.kind.as_str(), "entry") {
            let mut block: Vec<Entry> = Vec::new();
            match collect_block_entries(child, source, &mut block) {
                Ok(()) => {
                    proof {
                        assert(entries_model(Seq::<Entry>::empty()) =~= Seq::<EntryModel>::empty());
                        assert(entries_model(block@) =~= block_entries(*child, source@)->Ok_0);
                    }
                    value = Some(Value::Block(block));
                },
                Err(e) => {
                    proof {
                        lemma_scan_entry_err_extends(node.children@, source@, i + 1);
                    }
                    return Err(e);
                },
            }
        }
        i = i + 1;
    }
    assert(node.children@.take(n as int) =~= node.children@);
    if key.is_none() || value.is_none() {
        let message = String::from_str("entry must have a key and a value");
        let errs = vec![ParseError { message, row: key_row, column: key_col }];
        assert(errors_model(errs@) =~= seq![ErrorModel { message: "entry must have a key and a value"@, row: key_row, column: key_col }]);
        return Err(errs);
    }
    Ok(Entry { key: key.unwrap(), value: value.unwrap(), key_row, key_col })
}

/// Parses the child entry nodes of `node`, appending them to `entries`.
pub fn collect_block_entries(node: &SyntaxNode, source: &str, entries: &mut Vec<Entry>) -> (r:
    Result<(), Vec<ParseError>>)
    requires
        node.fits(source@),
    ensures
        match block_entries(*node, source@) {
            Ok(ms) => r is Ok && entries_model(final(entries)@) == entries_model(old(entries)@) + ms,
            Err(ms) => r matches Err(es) && errors_model(es@) == ms,
        },
        r is Err ==> exists|k: int|
            {
                &&& 0 <= k < node.children@.len()
                &&& entries_in(node.children@.take(k + 1), source@) is Err
                &&& #[trigger] entries_in(node.children@.take(k), source@) matches Ok(ms)
                &&& entries_model(final(entries)@) == entries_model(old(entries)@) + ms
            },
    decreases node,
{
    let n = node.children.len();
    let mut i: usize = 0;
    assert(entries_model(old(entries)@) + Seq::<EntryModel>::empty() =~= entries_model(
        old(entries)@,
    ));
    while i < n
        invariant
            0 <= i <= n,
            n == node.children@.len(),
            node.fits(source@),
            entries_in(node.children@.take(i as int), source@) matches Ok(ms)
                && entries_model(entries@) == entries_model(old(entries)@) + ms,
        decreases n - i,
    {
        let child = &node.children[i];
        proof {
            lemma_children_fit_each(node.children@, source@, i as int);
            assert(node.children@.take(i + 1).drop_last() =~= node.children@.take(i as int));
            assert(node.children@.take(i + 1)[i as int] == *child);
        }
        let ghost before = entries@;
        if same_text(child.kind.as_str(), "entry") {
            match parse_entry(child, source) {
                Ok(e) => {
                    entries.push(e);
                    proof {
                        lemma_entries_model_push(before, e);
                        let ms = entries_in(node.children@.take(i as int), source@)->Ok_0;
                        assert(entries_model(old(entries)@) + ms.push(e@) =~= (entries_model(
                            old(entries)@,
                        ) + ms).push(e@));
                    }
                },
                Err(es) => {
                    proof {
                        lemma_entries_in_err_extends(node.children@, source@, i + 1);
                        assert(entries_in(node.children@.take(i as int), source@) is Ok);
                    }
                    return Err(es);
                },
            }
        }
        i = i + 1;
    }
    assert(node.children@.take(n as int) =~= node.children@);
    Ok(())
}

/// An error met while scanning the first `k` children of an entry is the
/// error of the whole scan.
pub proof fn lemma_scan_entry_err_extends(children: Seq<SyntaxNode>, source: Seq<char>, k: int)
    requires
        0 <= k <= children.len(),
        scan_entry(children.take(k), source) is Err,
    ensures
        scan_entry(children, source) == scan_entry(children.take(k), source),
    decreases children.len(),
{
    if k == children.len() {
        assert(children.take(k) =~= children);
    } else {
        assert(children.drop_last().take(k) =~= children.take(k));
        lemma_scan_entry_err_extends(children.drop_last(), source, k);
    }
}

/// An error met among the first `k` children is the error of all of them.
pub proof fn lemma_entries_in_err_extends(children: Seq<SyntaxNode>, source: Seq<char>, k: int)
    requires
        0 <= k <= children.len(),
        entries_in(children.take(k), source) is Err,
    ensures
        entries_in(children, source) == entries_in(children.take(k), source),
    decreases children.len(),
{
    if k == children.len() {
        assert(children.take(k) =~= children);
    } else {
        assert(children.drop_last().take(k) =~= children.take(k));
        lemma_entries_in_err_extends(children.drop_last(), source, k);
    }
}


/// A node that `collect_errors` reports: an error node, or a missing
/// anonymous token.
pub open spec fn is_reported(n: SyntaxNode) -> bool {
    n.is_error || (n.is_missing && !n.is_named)
}

/// The error reported for a node: where it starts, and the text it spans.
pub open spec fn syntax_error_at(n: SyntaxNode, source: Seq<char>) -> ErrorModel {
    ErrorModel {
        message: "unexpected syntax at '"@ + n.text_in(source) + "'"@,
        row: n.start_row,
        column: n.start_column,
    }
}

/// The errors reported for the tree rooted at `node`, in pre-order.
pub open spec fn syntax_errors(node: SyntaxNode, source: Seq<char>) -> Seq<ErrorModel>
    decreases node,
{
    let own = if is_reported(node) {
        seq![syntax_error_at(node, source)]
    } else {
        seq![]
    };
    own + children_syntax_errors(node.children@, source)
}

/// The errors reported for a sequence of trees, tree after tree.
pub open spec fn children_syntax_errors(children: Seq<SyntaxNode>, source: Seq<char>) -> Seq<
    ErrorModel,
>
    decreases children,
{
    if children.len() == 0 {
        seq![]
    } else {
        children_syntax_errors(children.drop_last(), source) + syntax_errors(
            children[children.len() - 1],
            source,
        )
    }
}

/// Appends to `errors` an error for each error node and each missing
/// anonymous token of the tree rooted at `node`, in pre-order.
pub fn collect_errors(node: &SyntaxNode, source: &str, errors: &mut Vec<ParseError>)
    requires
        node.fits(source@),
    ensures
        errors_model(final(errors)@) == errors_model(old(errors)@) + syntax_errors(*node, source@),
    decreases node,
{
    let ghost start = errors@;
    if node.is_error || (node.is_missing && !node.is_named) {
        let t = child_text(node, source);
        let message = String::from_str("unexpected syntax at '").concat(t.as_str()).concat("'");
        let e = ParseError { message, row: node.start_row, column: node.start_column };
        errors.push(e);
        assert(errors_model(errors@) =~= errors_model(start).push(e@));
    }
    let ghost own = if is_reported(*node) {
        seq![syntax_error_at(*node, source@)]
    } else {
        seq![]
    };
    assert(errors_model(errors@) =~= errors_model(start) + own);
    let n = node.children.len();
    let mut i: usize = 0;
    while i < n
        invariant
            0 <= i <= n,
            n == node.children@.len(),
            node.fits(source@),
            errors_model(errors@) == errors_model(start) + own + children_syntax_errors(
                node.children@.take(i as int),
                source@,
            ),
        decreases n - i,
    {
        let child = &node.children[i];
        proof {
            lemma_children_fit_each(node.children@, source@, i as int);
            assert(node.children@.take(i + 1).drop_last() =~= node.children@.take(i as int));
            assert(node.children@.take(i + 1)[i as int] == *child);
        }
        collect_errors(child, source, errors);
        assert(errors_model(errors@) =~= errors_model(start) + own + children_syntax_errors(
            node.children@.take(i + 1),
            source@,
        ));
        i = i + 1;
    }
    assert(node.children@.take(n as int) =~= node.children@);
    assert(errors_model(errors@) =~= errors_model(start) + syntax_errors(*node, source@));
}

/// Parses the top-level entry nodes among the children of the root node.
pub fn parse_tree(node: &SyntaxNode, source: &str) -> (r: Result<ConfigFile, Vec<ParseError>>)
    requires
        node.fits(source@),
    ensures
        config_result_model(r) == block_entries(*node, source@),
{
    let mut entries: Vec<Entry> = Vec::new();
    match collect_block_entries(node, source, &mut entries) {
        Ok(()) => {
            assert(entries_model(Seq::<Entry>::empty()) =~= Seq::<EntryModel>::empty());
            assert(entries_model(entries@) =~= block_entries(*node, source@)->Ok_0);
            Ok(ConfigFile { entries })
        },
        Err(e) => Err(e),
    }
}

/// The outcome of parsing `source`, given the syntax tree that the grammar
/// built for it (`None` where the grammar gave none): the syntax errors of
/// the tree if it holds any, else its entries.
pub open spec fn parse_outcome(tree: Option<SyntaxNode>, source: Seq<char>) -> Result<
    Seq<EntryModel>,
    Seq<ErrorModel>,
> {
    match tree {
        None => Err(seq![ErrorModel { message: "failed to parse source"@, row: 0, column: 0 }]),
        Some(root) => if root.has_error {
            Err(syntax_errors(root, source))
        } else {
            block_entries(root, source)
        },
    }
}

/// Parses a configuration from the syntax tree that the XY Build grammar
/// built for `source`.
pub fn parse_from_tree(tree: &Option<SyntaxNode>, source: &str) -> (r: Result<
    ConfigFile,
    Vec<ParseError>,
>)
    requires
        tree matches Some(root) ==> root.fits(source@),
    ensures
        config_result_model(r) == parse_outcome(*tree, source@),
{
    match tree {
        None => {
            let message = String::from_str("failed to parse source");
            let errs = vec![ParseError { message, row: 0, column: 0 }];
            assert(errors_model(errs@) =~= seq![ErrorModel { message: "failed to parse source"@, row: 0, column: 0 }]);
            Err(errs)
        },
        Some(root) => {
            if root.has_error {
                let mut errors: Vec<ParseError> = Vec::new();
                collect_errors(root, source, &mut errors);
                assert(errors_model(Seq::<ParseError>::empty()) =~= Seq::<ErrorModel>::empty());
                assert(errors_model(errors@) =~= syntax_errors(*root, source@));
                return Err(errors);
            }
            parse_tree(root, source)
        },
    }
}


/// The key that an identifier node stands for.
pub open spec fn ident_key(n: SyntaxNode, source: Seq<char>) -> KeyModel {
    if is_known_ident(n) {
        KeyModel::KnownIdent(n.text_in(source))
    } else {
        KeyModel::UnknownIdent(n.text_in(source))
    }
}

proof fn lemma_scan_key_position(children: Seq<SyntaxNode>, source: Seq<char>)
    ensures
        scan_entry(children, source) matches Ok(st) ==> (st.key matches Some(k) ==> exists|i: int|
            #![trigger children[i]]
            0 <= i < children.len() && (is_known_ident(children[i]) || is_unknown_ident(
                children[i],
            )) && k == ident_key(children[i], source) && st.row == children[i].start_row
                && st.col == children[i].start_column),
    decreases children.len(),
{
    if children.len() > 0 {
        let t = children.drop_last();
        lemma_scan_key_position(t, source);
        if let Ok(st0) = scan_entry(t, source) {
            if let Some(k0) = st0.key {
                let i = choose|i: int|
                    #![trigger t[i]]
                    0 <= i < t.len() && (is_known_ident(t[i]) || is_unknown_ident(t[i])) && k0
                        == ident_key(t[i], source) && st0.row == t[i].start_row && st0.col
                        == t[i].start_column;
                assert(children[i] == t[i]);
            }
        }
    }
}

/// The key of a parsed entry is the text of one of the entry's identifier
/// nodes, and the entry records that node's position as the key's position.
pub proof fn lemma_entry_key_position(node: SyntaxNode, source: Seq<char>)
    ensures
        entry_of(node, source) matches Ok(e) ==> exists|i: int|
            #![trigger node.children@[i]]
            0 <= i < node.children@.len() && (is_known_ident(node.children@[i])
                || is_unknown_ident(node.children@[i])) && e.key == ident_key(
                node.children@[i],
                source,
            ) && e.key_row == node.children@[i].start_row && e.key_col
                == node.children@[i].start_column,
{
    lemma_scan_key_position(node.children@, source);
}


/// The number of line feeds in `source`.
pub open spec fn source_line_feeds(source: Seq<char>) -> nat {
    line_feeds_before(utf8_bytes(source), utf8_bytes(source).len() as int)
}

/// Every key at any depth of a value lies on a row at most `n`.
pub open spec fn value_rows_within(v: ValueModel, n: nat) -> bool
    decreases v,
{
    match v {
        ValueModel::Block(es) => entries_rows_within(es, n),
        _ => true,
    }
}

/// Every key at any depth of the entries lies on a row at most `n`.
pub open spec fn entries_rows_within(es: Seq<EntryModel>, n: nat) -> bool
    decreases es,
{
    if es.len() == 0 {
        true
    } else {
        &&& entries_rows_within(es.drop_last(), n)
        &&& es[es.len() - 1].key_row <= n
        &&& value_rows_within(es[es.len() - 1].value, n)
    }
}

/// Every error lies on a row at most `n`.
pub open spec fn errors_rows_within(es: Seq<ErrorModel>, n: nat) -> bool {
    forall|i: int| 0 <= i < es.len() ==> (#[trigger] es[i]).row <= n
}

/// A node that fits its source starts on one of its lines.
proof fn lemma_node_row_within(node: SyntaxNode, source: Seq<char>)
    requires
        node.fits(source),
    ensures
        node.start_row <= source_line_feeds(source),
{
    lemma_line_feeds_monotone(
        utf8_bytes(source),
        node.start_byte as int,
        utf8_bytes(source).len() as int,
    );
}

proof fn lemma_scan_entry_rows(children: Seq<SyntaxNode>, source: Seq<char>)
    requires
        children_fit(children, source),
    ensures
        scan_entry(children, source) matches Ok(st) ==> st.row <= source_line_feeds(source) && (
        st.value matches Some(v) ==> value_rows_within(v, source_line_feeds(source))),
        scan_entry(children, source) matches Err(e) ==> errors_rows_within(e, source_line_feeds(source)),
    decreases children,
{
    if children.len() > 0 {
        let c = children[children.len() - 1];
        assert(c.fits(source));
        assert(children_fit(c.children@, source));
        lemma_scan_entry_rows(children.drop_last(), source);
        lemma_node_row_within(c, source);
        if is_entry(c) {
            lemma_entries_in_rows(c.children@, source);
            assert(block_entries(c, source) == entries_in(c.children@, source));
        }
    }
}

proof fn lemma_entries_in_rows(children: Seq<SyntaxNode>, source: Seq<char>)
    requires
        children_fit(children, source),
    ensures
        entries_in(children, source) matches Ok(es) ==> entries_rows_within(es, source_line_feeds(source)),
        entries_in(children, source) matches Err(e) ==> errors_rows_within(e, source_line_feeds(source)),
    decreases children,
{
    if children.len() > 0 {
        let c = children[children.len() - 1];
        assert(c.fits(source));
        assert(children_fit(c.children@, source));
        lemma_entries_in_rows(children.drop_last(), source);
        if is_entry(c) {
            lemma_scan_entry_rows(c.children@, source);
            if let Ok(es) = entries_in(children.drop_last(), source) {
                if let Ok(en) = entry_of(c, source) {
                    assert(es.push(en).drop_last() =~= es);
                }
            }
        }
    }
}

proof fn lemma_syntax_errors_rows(node: SyntaxNode, source: Seq<char>)
    requires
        node.fits(source),
    ensures
        errors_rows_within(syntax_errors(node, source), source_line_feeds(source)),
    decreases node,
{
    lemma_node_row_within(node, source);
    lemma_children_syntax_errors_rows(node.children@, source);
}

proof fn lemma_children_syntax_errors_rows(children: Seq<SyntaxNode>, source: Seq<char>)
    requires
        children_fit(children, source),
    ensures
        errors_rows_within(children_syntax_errors(children, source), source_line_feeds(source)),
    decreases children,
{
    if children.len() > 0 {
        lemma_children_syntax_errors_rows(children.drop_last(), source);
        lemma_syntax_errors_rows(children[children.len() - 1], source);
    }
}

/// Every row that parsing reports, of a key at any depth or of an error, is
/// a line of the source: at most the number of its line feeds.
pub proof fn lemma_parse_rows_within_source(tree: Option<SyntaxNode>, source: Seq<char>)
    requires
        tree matches Some(root) ==> root.fits(source),
    ensures
        parse_outcome(tree, source) matches Ok(es) ==> entries_rows_within(es, source_line_feeds(source)),
        parse_outcome(tree, source) matches Err(e) ==> errors_rows_within(e, source_line_feeds(source)),
{
    if let Some(root) = tree {
        if root.has_error {
            lemma_syntax_errors_rows(root, source);
        } else {
            lemma_entries_in_rows(root.children@, source);
        }
    }
}

/// A tree without errors parses as its entries: one per top-level entry
/// node, in order, or the errors of the first that fails.
pub proof fn lemma_error_free_tree_parses_entries(root: SyntaxNode, source: Seq<char>)
    requires
        !root.has_error,
    ensures
        parse_outcome(Some(root), source) == entries_in(root.children@, source),
{
}


/// The entry nodes among `children`, in order.
pub open spec fn entry_nodes(children: Seq<SyntaxNode>) -> Seq<SyntaxNode>
    decreases children.len(),
{
    if children.len() == 0 {
        seq![]
    } else if is_entry(children[children.len() - 1]) {
        entry_nodes(children.drop_last()).push(children[children.len() - 1])
    } else {
        entry_nodes(children.drop_last())
    }
}

/// Parsing the children of a node gives one entry per entry node among
/// them, in order, each the entry that node parses as; no entry node is
/// dropped and none is added.
pub proof fn lemma_entries_in_one_per_entry_node(children: Seq<SyntaxNode>, source: Seq<char>)
    ensures
        entries_in(children, source) matches Ok(es) ==> {
            &&& es.len() == entry_nodes(children).len()
            &&& forall|j: int|
                0 <= j < es.len() ==> entry_of(#[trigger] entry_nodes(children)[j], source) == Ok::<
                    EntryModel,
                    Seq<ErrorModel>,
                >(es[j])
        },
    decreases children.len(),
{
    if children.len() > 0 {
        let t = children.drop_last();
        let c = children[children.len() - 1];
        lemma_entries_in_one_per_entry_node(t, source);
        if let Ok(es) = entries_in(children, source) {
            let es0 = entries_in(t, source)->Ok_0;
            let ns = entry_nodes(children);
            let ns0 = entry_nodes(t);
            if is_entry(c) {
                assert forall|j: int| 0 <= j < es.len() implies entry_of(#[trigger] ns[j], source)
                    == Ok::<EntryModel, Seq<ErrorModel>>(es[j]) by {
                    if j < es0.len() {
                        assert(ns[j] == ns0[j]);
                        assert(es[j] == es0[j]);
                    }
                }
            }
        }
    }
}

/// An entry whose last child is an entry node (a block) takes as its value
/// every entry of that block, one per entry node of the block, in order.
pub proof fn lemma_block_value_holds_every_entry(node: SyntaxNode, source: Seq<char>)
    requires
        node.children@.len() > 0,
        is_entry(node.children@[node.children@.len() - 1]),
    ensures
        entry_of(node, source) matches Ok(e) ==> ({
            let block = node.children@[node.children@.len() - 1];
            &&& e.value is Block
            &&& e.value->Block_0.len() == entry_nodes(block.children@).len()
            &&& forall|j: int|
                0 <= j < e.value->Block_0.len() ==> entry_of(
                    #[trigger] entry_nodes(block.children@)[j],
                    source,
                ) == Ok::<EntryModel, Seq<ErrorModel>>(e.value->Block_0[j])
        }),
{
    let cs = node.children@;
    let block = cs[cs.len() - 1];
    lemma_entries_in_one_per_entry_node(block.children@, source);
    assert(block_entries(block, source) == entries_in(block.children@, source));
    reveal_strlit("entry");
    reveal_strlit("known_ident");
    reveal_strlit("unknown_ident");
    assert("entry"@.len() != "known_ident"@.len());
    assert("entry"@.len() != "unknown_ident"@.len());
    assert(!is_known_ident(block) && !is_unknown_ident(block));
    if let Ok(e) = entry_of(node, source) {
        let st = scan_entry(cs, source)->Ok_0;
        assert(scan_entry(cs.drop_last(), source) is Ok);
        let es = block_entries(block, source)->Ok_0;
        assert(st.value == Some(ValueModel::Block(es)));
    }
}

} // verus!
