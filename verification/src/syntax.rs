//! The concrete syntax tree that the XY Build grammar produces for a source
//! text, held as plain values: each node's grammar kind, its byte range and
//! start position in the source, its error flags and its children in order.

use vstd::prelude::*;
use vstd::string::*;
use crate::text::{is_byte_range, byte_range_text, byte_len, utf8_bytes};

verus! {

broadcast use vstd::utf8::encode_utf8_valid_utf8;

/// One node of the concrete syntax tree of an XY Build source.
pub struct SyntaxNode {
    /// The grammar symbol of the node, such as `entry` or `known_ident`.
    pub kind: String,
    /// Byte offset in the source where the node starts.
    pub start_byte: usize,
    /// Byte offset in the source where the node ends (exclusive).
    pub end_byte: usize,
    /// 0-based line on which the node starts.
    pub start_row: usize,
    /// 0-based column (in bytes) at which the node starts.
    pub start_column: usize,
    /// The node stands for text that the grammar could not place.
    pub is_error: bool,
    /// The node was inserted by error recovery and spells no text.
    pub is_missing: bool,
    /// The node is a named grammar symbol rather than an anonymous token.
    pub is_named: bool,
    /// The node or some node below it is an error or missing node.
    pub has_error: bool,
    /// The child nodes, in source order.
    pub children: Vec<SyntaxNode>,
}

impl SyntaxNode {
    /// The node's byte range is a valid slice of `source`.
    pub open spec fn range_fits(self, source: Seq<char>) -> bool {
        is_byte_range(source, self.start_byte as int, self.end_byte as int)
    }

    /// The text of `source` that the node spans.
    pub open spec fn text_in(self, source: Seq<char>) -> Seq<char> {
        byte_range_text(source, self.start_byte as int, self.end_byte as int)
    }

    /// The node's row and column are those of its start byte in `source`:
    /// the line feeds before it, and the bytes since the last of them.
    pub open spec fn position_fits(self, source: Seq<char>) -> bool {
        let b = utf8_bytes(source);
        &&& self.start_row == line_feeds_before(b, self.start_byte as int)
        &&& self.start_column == self.start_byte - line_start_before(b, self.start_byte as int)
    }

    /// Every node of the tree rooted here spans a valid slice of `source` and
    /// starts at the row and column of its start byte, as every tree that the
    /// grammar builds from `source` does.
    pub open spec fn fits(self, source: Seq<char>) -> bool
        decreases self,
    {
        &&& self.range_fits(source)
        &&& self.position_fits(source)
        &&& children_fit(self.children@, source)
    }

    /// Checks that every node of the tree spans a valid slice of `source`.
    pub fn fits_source(&self, source: &str) -> (r: bool)
        ensures
            r == self.fits(source@),
        decreases self,
    {
        let ok = self.start_byte <= self.end_byte && self.end_byte <= byte_len(source)
            && source.is_char_boundary(self.start_byte)
            && source.is_char_boundary(self.end_byte);
        if !ok {
            return false;
        }
        let (row, column) = position_at(source.as_bytes(), self.start_byte);
        if row != self.start_row || column != self.start_column {
            return false;
        }
        let n = self.children.len();
        let mut i: usize = 0;
        while i < n
            invariant
                0 <= i <= n,
                n == self.children@.len(),
                children_fit(self.children@.take(i as int), source@),
            decreases n - i,
        {
            let c = &self.children[i];
            let cf = c.fits_source(source);
            assert(self.children@.take(i + 1).drop_last() =~= self.children@.take(i as int));
            if !cf {
                proof {
                    lemma_children_fit_prefix(self.children@, source@, i + 1);
                }
                return false;
            }
            i = i + 1;
        }
        assert(self.children@.take(n as int) =~= self.children@);
        true
    }
}

/// The number of line feeds among the first `k` bytes.
pub open spec fn line_feeds_before(bytes: Seq<u8>, k: int) -> nat
    decreases k,
{
    if k <= 0 {
        0
    } else {
        line_feeds_before(bytes, k - 1) + if bytes[k - 1] == 10u8 {
            1nat
        } else {
            0nat
        }
    }
}

/// The offset of the first byte of the line that holds byte `k`: just past
/// the last line feed before it, or 0.
pub open spec fn line_start_before(bytes: Seq<u8>, k: int) -> int
    decreases k,
{
    if k <= 0 {
        0
    } else if bytes[k - 1] == 10u8 {
        k
    } else {
        line_start_before(bytes, k - 1)
    }
}

/// Line feeds never become fewer further into the bytes.
pub proof fn lemma_line_feeds_monotone(bytes: Seq<u8>, a: int, b: int)
    requires
        0 <= a <= b,
    ensures
        line_feeds_before(bytes, a) <= line_feeds_before(bytes, b),
    decreases b - a,
{
    if a < b {
        lemma_line_feeds_monotone(bytes, a, b - 1);
    }
}

/// The row and column (in bytes) of byte offset `k`.
fn position_at(bytes: &[u8], k: usize) -> (r: (usize, usize))
    requires
        k <= bytes@.len(),
    ensures
        r.0 == line_feeds_before(bytes@, k as int),
        r.1 == k - line_start_before(bytes@, k as int),
{
    let mut i: usize = 0;
    let mut rows: usize = 0;
    let mut start: usize = 0;
    while i < k
        invariant
            0 <= i <= k,
            k <= bytes@.len(),
            rows == line_feeds_before(bytes@, i as int),
            start == line_start_before(bytes@, i as int),
            rows <= i,
            start <= i,
        decreases k - i,
    {
        if bytes[i] == 10u8 {
            rows = rows + 1;
            start = i + 1;
        }
        i = i + 1;
    }
    (rows, k - start)
}

/// Every tree in `nodes` fits `source`.
pub open spec fn children_fit(nodes: Seq<SyntaxNode>, source: Seq<char>) -> bool
    decreases nodes,
{
    if nodes.len() == 0 {
        true
    } else {
        children_fit(nodes.drop_last(), source) && nodes[nodes.len() - 1].fits(source)
    }
}

/// Trees that fit keep fitting when fewer of them are taken, and a prefix
/// that does not fit leaves the whole sequence unfit.
pub proof fn lemma_children_fit_prefix(nodes: Seq<SyntaxNode>, source: Seq<char>, k: int)
    requires
        0 <= k <= nodes.len(),
    ensures
        children_fit(nodes, source) ==> children_fit(nodes.take(k), source),
    decreases nodes.len(),
{
    if k < nodes.len() {
        assert(nodes.drop_last().take(k) =~= nodes.take(k));
        lemma_children_fit_prefix(nodes.drop_last(), source, k);
    } else {
        assert(nodes.take(k) =~= nodes);
    }
}

/// Each tree of a sequence that fits, fits.
pub proof fn lemma_children_fit_each(nodes: Seq<SyntaxNode>, source: Seq<char>, k: int)
    requires
        0 <= k < nodes.len(),
        children_fit(nodes, source),
    ensures
        nodes[k].fits(source),
    decreases nodes.len(),
{
    if k < nodes.len() - 1 {
        lemma_children_fit_each(nodes.drop_last(), source, k);
    }
}

} // verus!
