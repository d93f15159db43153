//! Documents in the KDL language, as far as they are looked at.

use vstd::prelude::*;

use crate::text;

verus! {

/// A value with its name, if it is a property.
#[derive(Debug)]
pub struct Entry {
    /// Name of the property. An argument has none.
    pub name: Option<String>,
    /// The value, if it is a whole number.
    pub integer: Option<i64>,
    /// The value, if it is a text.
    pub text: Option<String>,
    /// The value, if it is a boolean.
    pub flag: Option<bool>,
}

/// A node of a document.
#[derive(Debug)]
pub struct Node {
    /// Its name.
    pub name: String,
    /// Its arguments and properties, in order.
    pub entries: Vec<Entry>,
}

/// A value with its name, if it is a property.
pub ghost struct EntryView {
    pub name: Option<Seq<char>>,
    pub integer: Option<i64>,
    pub text: Option<Seq<char>>,
    pub flag: Option<bool>,
}

/// A node of a document.
pub ghost struct NodeView {
    pub name: Seq<char>,
    pub entries: Seq<EntryView>,
}

impl View for Entry {
    type V = EntryView;

    open spec fn view(&self) -> EntryView {
        EntryView {
            name: match self.name {
                Some(name) => Some(name@),
                None => None,
            },
            integer: self.integer,
            text: match self.text {
                Some(text) => Some(text@),
                None => None,
            },
            flag: self.flag,
        }
    }
}

impl View for Node {
    type V = NodeView;

    open spec fn view(&self) -> NodeView {
        NodeView { name: self.name@, entries: self.entries@.map_values(|entry: Entry| entry@) }
    }
}

/// The nodes of a document.
pub open spec fn node_views(nodes: Seq<Node>) -> Seq<NodeView> {
    nodes.map_values(|node: Node| node@)
}

/// The number of bytes of a character in UTF-8.
pub open spec fn char_width(c: char) -> int {
    if (c as int) < 0x80 {
        1
    } else if (c as int) < 0x800 {
        2
    } else if (c as int) < 0x1_0000 {
        3
    } else {
        4
    }
}

/// The number of bytes of a text in UTF-8.
pub open spec fn width(s: Seq<char>) -> int
    decreases s.len(),
{
    if s.len() == 0 {
        0
    } else {
        width(s.drop_last()) + char_width(s.last())
    }
}

/// Whether a text has a beginning of so many bytes.
pub open spec fn has_beginning(s: Seq<char>, bytes: int) -> bool {
    exists|n: int| 0 <= n <= s.len() && #[trigger] width(s.take(n)) == bytes
}

/// Whether a character can stand in a name that is not quoted.
pub open spec fn in_identifier(c: char) -> bool {
    &&& 0x20 <= c as int
    &&& c as int != 0xfeff
    &&& !text::is_white_space(c)
    &&& c != '\\' && c != '/' && c != '(' && c != ')' && c != '{' && c != '}' && c != '<' && c != '>'
    &&& c != ';' && c != '[' && c != ']' && c != '=' && c != ',' && c != '"'
}

/// Whether a word stands behind an opening bracket, and not just as the beginning of a longer name.
pub open spec fn bracketed_at(s: Seq<char>, word: Seq<char>, at: int) -> bool {
    &&& 0 <= at < s.len()
    &&& s[at] == '('
    &&& text::occurs_at(s, word, at + 1)
    &&& at + 1 + word.len() < s.len() ==> !in_identifier(s[at + 1 + word.len()])
}

/// Whether a word stands behind an opening bracket, and what follows it cannot be cut off after as many bytes as the
/// word has.
pub open spec fn word_cut_at(s: Seq<char>, word: Seq<char>, at: int) -> bool {
    &&& bracketed_at(s, word, at)
    &&& !has_beginning(s.skip(at + 1 + word.len()), word.len() as int)
}

/// Whether a reserved word stands so. The parser refuses it as a type annotation, and fails to show the error.
pub open spec fn reserved_cut_at(s: Seq<char>, at: int) -> bool {
    word_cut_at(s, "true"@, at) || word_cut_at(s, "false"@, at) || word_cut_at(s, "null"@, at)
}

/// A text in which each reserved word that stands so begins with another bracket. In a comment or in quotes that
/// changes nothing but the characters there. In place of a type annotation there is an error where the word began.
pub open spec fn masked(s: Seq<char>) -> Seq<char> {
    Seq::new(
        s.len(),
        |i: int|
            if reserved_cut_at(s, i - 1) {
                '('
            } else {
                s[i]
            },
    )
}

/// Where a reserved word that stands so ends.
pub open spec fn word_end(s: Seq<char>, at: int) -> int {
    at + 1 + (if word_cut_at(s, "false"@, at) {
        5int
    } else {
        4int
    })
}

/// A text up to a reserved word that stands so, with enough behind the word to show the error.
pub open spec fn shown(s: Seq<char>, at: int) -> Seq<char> {
    s.take(word_end(s, at)) + "     "@
}

/// The top-level nodes of a document, or the byte offset of the first error in it, as `kdl::KdlDocument` parses it.
pub uninterp spec fn kdl_document(s: Seq<char>) -> Result<Seq<NodeView>, int>;

/// Whether the parser fails to show an error at a reserved word that stands so. It comes to the word as a type
/// annotation: when the word is masked, the error is where the word begins. And it shows the error there, and not where
/// a part begins that is slashed out with the word in it: when enough is behind the word, the error is where the word
/// ends.
pub open spec fn stops_at(s: Seq<char>, at: int) -> bool {
    &&& reserved_cut_at(s, at)
    &&& kdl_document(masked(s)) == Err::<Seq<NodeView>, int>(width(s.take(at + 1)))
    &&& kdl_document(masked(shown(s, at))) == Err::<Seq<NodeView>, int>(width(s.take(word_end(s, at))))
}

/// Whether the parser gets through a text, be it to the end or to an error that it can show: it does not refuse a
/// reserved word as a type annotation with too little behind it, or with a character across the end of what it would
/// show.
pub open spec fn is_readable(s: Seq<char>) -> bool {
    forall|at: int| !#[trigger] stops_at(s, at)
}

/// A document as it was parsed.
#[verifier::external_type_specification]
#[verifier::external_body]
pub struct ExKdlDocument(kdl::KdlDocument);

/// The top-level nodes that a `kdl::KdlDocument` holds.
pub uninterp spec fn document_nodes(document: kdl::KdlDocument) -> Seq<NodeView>;

/// Calls `parse` of `str` for `kdl::KdlDocument`. An error gives the offset of its span, which lies within the text.
/// The parser panics where it refuses a reserved word as a type annotation and cannot cut off as many bytes behind the
/// word as the word has, which no readable text makes it do. Which nodes or which offset a text has is not stated but
/// for its name, nor how deep blocks and comments can be nested, which it follows on the call stack.
#[verifier::external_body]
fn parse_kdl(text: &str) -> (r: Result<kdl::KdlDocument, usize>)
    requires
        is_readable(text@),
    ensures
        kdl_document(text@) == (match r {
            Ok(document) => Ok::<Seq<NodeView>, int>(document_nodes(document)),
            Err(offset) => Err(offset as int),
        }),
        r matches Err(offset) ==> offset <= vstd::utf8::encode_utf8(text@).len(),
{
    text.parse::<kdl::KdlDocument>().map_err(|error| error.span.offset())
}

/// Calls `nodes` of `kdl::KdlDocument`, and takes name and entries of each node: of an entry the name and the value by
/// `as_i64`, `as_string` and `as_bool`.
#[verifier::external_body]
fn kdl_nodes(document: &kdl::KdlDocument) -> (r: Vec<Node>)
    ensures
        node_views(r@) == document_nodes(*document),
{
    let entry = |entry: &kdl::KdlEntry| Entry {
        name: entry.name().map(|name| name.value().to_owned()),
        integer: entry.value().as_i64(),
        text: entry.value().as_string().map(str::to_owned),
        flag: entry.value().as_bool(),
    };
    let node = |node: &kdl::KdlNode| Node {
        name: node.name().value().to_owned(),
        entries: node.entries().iter().map(entry).collect(),
    };
    document.nodes().iter().map(node).collect()
}

/// A document with its top-level nodes.
#[derive(Debug)]
pub struct Document {
    /// The document as it was parsed.
    pub source: kdl::KdlDocument,
    /// Its top-level nodes.
    pub nodes: Vec<Node>,
}

impl View for Document {
    type V = Seq<NodeView>;

    open spec fn view(&self) -> Seq<NodeView> {
        node_views(self.nodes@)
    }
}

impl Document {
    /// The nodes are those of the document.
    pub open spec fn wf(&self) -> bool {
        document_nodes(self.source) == self@
    }

    /// A document with its top-level nodes.
    pub fn new(source: kdl::KdlDocument) -> (r: Self)
        ensures
            r.wf(),
            r.source == source,
    {
        let nodes: Vec<Node> = kdl_nodes(&source);
        Document { source, nodes }
    }
}

/// The number of bytes of a character in UTF-8.
fn width_of(c: char) -> (r: usize)
    ensures
        r == char_width(c),
        1 <= r <= 4,
{
    let code: u32 = c as u32;
    if code < 0x80 {
        1
    } else if code < 0x800 {
        2
    } else if code < 0x1_0000 {
        3
    } else {
        4
    }
}

/// A longer beginning has more bytes.
proof fn lemma_width_grows(s: Seq<char>, a: int, b: int)
    requires
        0 <= a < b <= s.len(),
    ensures
        width(s.take(a)) < width(s.take(b)),
    decreases b,
{
    assert(s.take(b).drop_last() =~= s.take(b - 1));
    if a < b - 1 {
        lemma_width_grows(s, a, b - 1);
    }
}

/// Whether what follows a position has a beginning of so many bytes.
fn begins(v: &Vec<char>, from: usize, bytes: usize) -> (r: bool)
    requires
        from <= v@.len(),
        bytes < 100,
    ensures
        r == has_beginning(v@.skip(from as int), bytes as int),
{
    let ghost rest = v@.skip(from as int);
    let mut total: usize = 0;
    let mut i: usize = from;
    while i < v.len() && total < bytes
        invariant
            from <= i <= v@.len(),
            rest == v@.skip(from as int),
            bytes < 100,
            total == width(rest.take(i - from)),
            total <= bytes + 4,
            forall|n: int| 0 <= n < i - from ==> #[trigger] width(rest.take(n)) < bytes,
        decreases v@.len() - i,
    {
        proof {
            let part = rest.take(i - from + 1);
            assert(part.drop_last() =~= rest.take(i - from));
            assert(part.last() == v@[i as int]);
        }
        total += width_of(v[i]);
        i += 1;
    }
    proof {
        if total == bytes {
            assert(width(rest.take(i - from)) == bytes);
        } else if has_beginning(rest, bytes as int) {
            let n = choose|n: int| 0 <= n <= rest.len() && #[trigger] width(rest.take(n)) == bytes;
            if i - from < n {
                lemma_width_grows(rest, i - from, n);
            }
        }
    }
    total == bytes
}

/// Whether a character can stand in a name that is not quoted.
fn is_identifier_char(c: char) -> (r: bool)
    ensures
        r == in_identifier(c),
{
    let code: u32 = c as u32;
    0x20 <= code && code != 0xfeff && !text::white_space(c) && c != '\\' && c != '/' && c != '(' && c != ')' && c
        != '{' && c != '}' && c != '<' && c != '>' && c != ';' && c != '[' && c != ']' && c != '=' && c != ',' && c
        != '"'
}

/// Whether a word stands behind an opening bracket, and what follows it cannot be cut off after as many bytes as the
/// word has.
fn is_word_cut(v: &Vec<char>, word: &str, at: usize) -> (r: bool)
    requires
        at < v@.len(),
        word@.len() < 100,
    ensures
        r == word_cut_at(v@, word@, at as int),
{
    let len: usize = v.len();
    if v[at] != '(' {
        return false;
    }
    let word: Vec<char> = text::chars(word);
    if !text::stands_at(v, &word, at + 1) {
        return false;
    }
    let end: usize = at + 1 + word.len();
    (end == len || !is_identifier_char(v[end])) && !begins(v, end, word.len())
}

/// Whether a reserved word stands so.
fn is_reserved_cut(v: &Vec<char>, at: usize) -> (r: bool)
    requires
        at < v@.len(),
    ensures
        r == reserved_cut_at(v@, at as int),
{
    proof {
        reveal_strlit("true");
        reveal_strlit("false");
        reveal_strlit("null");
    }
    is_word_cut(v, "true", at) || is_word_cut(v, "false", at) || is_word_cut(v, "null", at)
}

/// A reserved word has a bracket before it, and letters that tell it from its own end.
proof fn lemma_reserved(s: Seq<char>, at: int)
    requires
        reserved_cut_at(s, at),
    ensures
        0 <= at,
        at + 2 < s.len(),
        s[at] == '(',
        s[at + 1] == 't' || s[at + 1] == 'f' || s[at + 1] == 'n',
        s[at + 2] == 'r' || s[at + 2] == 'a' || s[at + 2] == 'u',
{
    reveal_strlit("true");
    reveal_strlit("false");
    reveal_strlit("null");
    if word_cut_at(s, "true"@, at) {
        lemma_letters(s, "true"@, at);
        assert(s[at + 1 + 0] == "true"@[0] && s[at + 1 + 1] == "true"@[1]);
    } else if word_cut_at(s, "false"@, at) {
        lemma_letters(s, "false"@, at);
        assert(s[at + 1 + 0] == "false"@[0] && s[at + 1 + 1] == "false"@[1]);
    } else {
        lemma_letters(s, "null"@, at);
        assert(s[at + 1 + 0] == "null"@[0] && s[at + 1 + 1] == "null"@[1]);
    }
}

/// The letters of a word that stands behind a bracket.
proof fn lemma_letters(s: Seq<char>, word: Seq<char>, at: int)
    requires
        text::occurs_at(s, word, at + 1),
    ensures
        forall|i: int| 0 <= i < word.len() ==> s[at + 1 + i] == #[trigger] word[i],
{
    assert forall|i: int| 0 <= i < word.len() implies s[at + 1 + i] == #[trigger] word[i] by {
        assert(s.subrange(at + 1, at + 1 + word.len())[i] == word[i]);
    }
}

/// Texts with characters of the same widths have the same width.
proof fn lemma_same_width(a: Seq<char>, b: Seq<char>)
    requires
        a.len() == b.len(),
        forall|i: int| 0 <= i < a.len() ==> char_width(#[trigger] a[i]) == char_width(b[i]),
    ensures
        width(a) == width(b),
    decreases a.len(),
{
    if a.len() > 0 {
        assert forall|i: int| 0 <= i < a.len() - 1 implies char_width(#[trigger] a.drop_last()[i]) == char_width(
            b.drop_last()[i],
        ) by {
            assert(a.drop_last()[i] == a[i]);
        }
        assert(a.last() == a[a.len() - 1]);
        lemma_same_width(a.drop_last(), b.drop_last());
    }
}

/// A word that stands in a masked text stands in the text.
proof fn lemma_word_masked(s: Seq<char>, word: Seq<char>, at: int)
    requires
        word.len() > 0,
        word[0] == 't' || word[0] == 'f' || word[0] == 'n',
        forall|i: int| 0 <= i < word.len() ==> #[trigger] word[i] != '(',
        word_cut_at(masked(s), word, at),
    ensures
        word_cut_at(s, word, at),
{
    let t = masked(s);
    let end = at + 1 + word.len();
    lemma_letters(t, word, at);
    assert(t[at + 1] == word[0]);
    if reserved_cut_at(s, at - 1) {
        lemma_reserved(s, at - 1);
        if reserved_cut_at(s, at) {
            lemma_reserved(s, at);
        }
    }
    assert(s[at] == '(');
    assert forall|i: int| 0 <= i < word.len() implies s[at + 1 + i] == #[trigger] word[i] by {
        assert(t[at + 1 + i] == word[i]);
    }
    assert(s.subrange(at + 1, end) =~= word);
    if end < s.len() && reserved_cut_at(s, end - 1) {
        lemma_reserved(s, end - 1);
        assert(s[at + 1 + (word.len() - 1)] == word[word.len() - 1]);
    }
    if has_beginning(s.skip(end), word.len() as int) {
        let n = choose|n: int| 0 <= n <= s.skip(end).len() && #[trigger] width(s.skip(end).take(n)) == word.len();
        let a = s.skip(end).take(n);
        let b = t.skip(end).take(n);
        assert forall|i: int| 0 <= i < a.len() implies char_width(#[trigger] a[i]) == char_width(b[i]) by {
            assert(a[i] == s[end + i]);
            assert(b[i] == t[end + i]);
            if reserved_cut_at(s, end + i - 1) {
                lemma_reserved(s, end + i - 1);
            }
        }
        lemma_same_width(a, b);
        assert(width(t.skip(end).take(n)) == word.len());
    }
}

/// The parser gets through a masked text.
proof fn lemma_masked_readable(s: Seq<char>)
    ensures
        is_readable(masked(s)),
{
    reveal_strlit("true");
    reveal_strlit("false");
    reveal_strlit("null");
    let t = masked(s);
    assert forall|at: int| !#[trigger] reserved_cut_at(t, at) by {
        if reserved_cut_at(t, at) {
            lemma_reserved(t, at);
            if word_cut_at(t, "true"@, at) {
                lemma_word_masked(s, "true"@, at);
            } else if word_cut_at(t, "false"@, at) {
                lemma_word_masked(s, "false"@, at);
            } else {
                lemma_word_masked(s, "null"@, at);
            }
            assert(reserved_cut_at(s, at));
            assert(t[at + 1] == '(');
        }
    }
}

/// The parser gets through a text in which no reserved word stands behind a bracket with too little behind it, and
/// through one that it accepts when such words are masked. There is nothing to mask without them.
pub proof fn lemma_readable(s: Seq<char>)
    ensures
        (forall|at: int| !#[trigger] reserved_cut_at(s, at)) ==> is_readable(s),
        kdl_document(masked(s)) is Ok ==> is_readable(s),
        masked(s) == s <==> forall|at: int| !#[trigger] reserved_cut_at(s, at),
{
    if masked(s) == s {
        assert forall|at: int| !#[trigger] reserved_cut_at(s, at) by {
            if reserved_cut_at(s, at) {
                lemma_reserved(s, at);
                assert(masked(s)[at + 1] == '(');
            }
        }
    }
    if forall|at: int| !#[trigger] reserved_cut_at(s, at) {
        assert(masked(s) =~= s);
    }
}

/// The masked text.
fn mask(text: &str, v: &Vec<char>) -> (r: String)
    requires
        v@ == text@,
    ensures
        r@ == masked(text@),
{
    let ghost s = text@;
    let mut r: String = String::new();
    let mut from: usize = 0;
    let mut at: usize = 0;
    proof {
        reveal_strlit("(");
        assert(r@ =~= masked(s).take(0));
        if s.len() > 0 && reserved_cut_at(s, -1) {
            lemma_reserved(s, -1);
        }
    }
    while at < v.len()
        invariant
            v@ == s,
            s == text@,
            at <= s.len(),
            from <= at + 1,
            from <= s.len(),
            r@ == masked(s).take(from as int),
            "("@ =~= seq!['('],
            forall|j: int| from <= j <= at && j < s.len() ==> !reserved_cut_at(s, #[trigger] (j - 1)),
        decreases s.len() - at,
    {
        if is_reserved_cut(v, at) {
            proof {
                lemma_reserved(s, at as int);
            }
            let ghost before = r@;
            r.append(text.substring_char(from, at + 1));
            proof {
                assert forall|j: int| from <= j <= at implies masked(s)[j] == s[j] by {
                    assert(!reserved_cut_at(s, j - 1));
                }
                assert(r@ =~= masked(s).take(at + 1));
            }
            r.append("(");
            from = at + 2;
            proof {
                assert(r@ =~= masked(s).take(at + 2));
            }
        }
        at += 1;
    }
    r.append(text.substring_char(from, v.len()));
    proof {
        assert forall|j: int| from <= j < s.len() implies masked(s)[j] == s[j] by {
            assert(!reserved_cut_at(s, j - 1));
        }
        assert(r@ =~= masked(s));
    }
    r
}

/// A reserved word is of single bytes.
proof fn lemma_word_width(s: Seq<char>, at: int)
    requires
        reserved_cut_at(s, at),
    ensures
        at + 1 < word_end(s, at) <= s.len(),
        width(s.take(word_end(s, at))) == width(s.take(at + 1)) + word_end(s, at) - at - 1,
{
    reveal_strlit("true");
    reveal_strlit("false");
    reveal_strlit("null");
    let word = if word_cut_at(s, "false"@, at) {
        "false"@
    } else if word_cut_at(s, "true"@, at) {
        "true"@
    } else {
        "null"@
    };
    lemma_letters(s, word, at);
    let end = word_end(s, at);
    assert(end == at + 1 + word.len());
    assert forall|i: int| at + 1 <= i < end implies char_width(#[trigger] s[i]) == 1 by {
        assert(s[at + 1 + (i - at - 1)] == word[i - at - 1]);
    }
    lemma_single_bytes(s, at + 1, end);
}

/// Characters of single bytes add a byte each.
proof fn lemma_single_bytes(s: Seq<char>, from: int, to: int)
    requires
        0 <= from <= to <= s.len(),
        forall|i: int| from <= i < to ==> char_width(#[trigger] s[i]) == 1,
    ensures
        width(s.take(to)) == width(s.take(from)) + to - from,
    decreases to - from,
{
    if from < to {
        assert(s.take(to).drop_last() =~= s.take(to - 1));
        assert(s.take(to).last() == s[to - 1]);
        lemma_single_bytes(s, from, to - 1);
    }
}

/// In a text up to a reserved word, with enough behind it, the word stands as it does in the text, and is not masked.
pub proof fn lemma_shown(s: Seq<char>, at: int)
    requires
        reserved_cut_at(s, at),
    ensures
        !reserved_cut_at(shown(s, at), at),
        forall|i: int| at < i < word_end(s, at) ==> #[trigger] masked(shown(s, at))[i] == s[i],
{
    reveal_strlit("true");
    reveal_strlit("false");
    reveal_strlit("null");
    reveal_strlit("     ");
    lemma_word_width(s, at);
    let word = if word_cut_at(s, "false"@, at) {
        "false"@
    } else if word_cut_at(s, "true"@, at) {
        "true"@
    } else {
        "null"@
    };
    let end = word_end(s, at);
    let t = shown(s, at);
    lemma_letters(s, word, at);
    assert(s[at + 1 + 0] == word[0]);
    assert(t[at + 1] == word[0]);
    assert(t.skip(end) =~= "     "@);
    lemma_single_bytes("     "@, 0, word.len() as int);
    assert(width(t.skip(end).take(word.len() as int)) == word.len());
    assert(has_beginning(t.skip(end), word.len() as int));
    if reserved_cut_at(t, at) {
        let other = if word_cut_at(t, "false"@, at) {
            "false"@
        } else if word_cut_at(t, "true"@, at) {
            "true"@
        } else {
            "null"@
        };
        lemma_letters(t, other, at);
        assert(t[at + 1 + 0] == other[0]);
    }
    assert forall|i: int| at < i < end implies #[trigger] masked(t)[i] == s[i] by {
        assert(t[i] == s[i]);
        if at + 1 < i && reserved_cut_at(t, i - 1) {
            lemma_reserved(t, i - 1);
            assert(s[at + 1 + (i - at - 2)] == word[i - at - 2]);
        }
    }
}

/// There is one position of a width.
proof fn lemma_one_place(s: Seq<char>, a: int, b: int)
    requires
        0 <= a <= s.len(),
        0 <= b <= s.len(),
        width(s.take(a)) == width(s.take(b)),
    ensures
        a == b,
{
    if a < b {
        lemma_width_grows(s, a, b);
    }
    if b < a {
        lemma_width_grows(s, b, a);
    }
}

/// The reserved word that stands so and begins at an offset.
fn find_word(v: &Vec<char>, offset: usize) -> (r: Option<usize>)
    ensures
        match r {
            Some(at) => reserved_cut_at(v@, at as int) && width(v@.take(at + 1)) == offset,
            None => forall|at: int| #[trigger] reserved_cut_at(v@, at) ==> width(v@.take(at + 1)) != offset,
        },
{
    let ghost s = v@;
    let mut total: usize = 0;
    let mut i: usize = 0;
    while i < v.len()
        invariant
            s == v@,
            i <= s.len(),
            total == width(s.take(i as int)),
            total <= offset,
            i > 0 ==> total < offset,
        decreases s.len() - i,
    {
        let next: usize = width_of(v[i]);
        proof {
            let part = s.take(i + 1);
            assert(part.drop_last() =~= s.take(i as int));
            assert(part.last() == s[i as int]);
        }
        if next >= offset - total {
            if next == offset - total && is_reserved_cut(v, i) {
                return Some(i);
            }
            proof {
                assert forall|at: int| #[trigger] reserved_cut_at(s, at) implies width(s.take(at + 1)) != offset by {
                    lemma_reserved(s, at);
                    if at + 1 < i {
                        lemma_width_grows(s, at + 1, i as int);
                    } else if i < at {
                        lemma_width_grows(s, i + 1, at + 1);
                    }
                }
            }
            return None;
        }
        total += next;
        i += 1;
    }
    proof {
        assert forall|at: int| #[trigger] reserved_cut_at(s, at) implies width(s.take(at + 1)) != offset by {
            lemma_reserved(s, at);
            if at + 1 < s.len() {
                lemma_width_grows(s, at + 1, s.len() as int);
            }
        }
    }
    None
}

/// Whether the parser fails to show the error at a reserved word, to which it comes as a type annotation.
fn is_stop(text: &str, v: &Vec<char>, at: usize, offset: usize) -> (r: bool)
    requires
        v@ == text@,
        reserved_cut_at(text@, at as int),
        width(text@.take(at + 1)) == offset,
        kdl_document(masked(text@)) == Err::<Seq<NodeView>, int>(offset as int),
    ensures
        r == stops_at(text@, at as int),
{
    let ghost s = text@;
    proof {
        lemma_reserved(s, at as int);
        lemma_word_width(s, at as int);
        assert(word_end(s, at as int) <= v.len());
        reveal_strlit("false");
    }
    let len: usize = if is_word_cut(v, "false", at) {
        5
    } else {
        4
    };
    let mut part: String = text.substring_char(0, at + 1 + len).to_owned();
    part.append("     ");
    proof {
        assert(s.subrange(0, at + 1 + len) =~= s.take(word_end(s, at as int)));
        assert(part@ =~= shown(s, at as int));
        lemma_masked_readable(part@);
    }
    let part_chars: Vec<char> = text::chars(part.as_str());
    match parse_kdl(mask(part.as_str(), &part_chars).as_str()) {
        Err(end) => end >= offset && end - offset == len,
        Ok(_) => false,
    }
}

/// The document of a text, or the byte offset of the first error in it. Nothing where the parser does not get through
/// it.
pub fn parse_document(text: &str) -> (r: Option<Result<Document, usize>>)
    ensures
        r is Some <==> is_readable(text@),
        r matches Some(Ok(document)) ==> document.wf() && kdl_document(text@) == Ok::<Seq<NodeView>, int>(document@),
        r matches Some(Err(offset)) ==> kdl_document(text@) == Err::<Seq<NodeView>, int>(offset as int) && offset
            <= vstd::utf8::encode_utf8(text@).len(),
{
    let ghost s = text@;
    let v: Vec<char> = text::chars(text);
    let masked_text: String = mask(text, &v);
    proof {
        lemma_masked_readable(s);
        lemma_readable(s);
    }
    if !text::same(masked_text.as_str(), text) {
        if let Err(offset) = parse_kdl(masked_text.as_str()) {
            let word: Option<usize> = find_word(&v, offset);
            if let Some(at) = word {
                if is_stop(text, &v, at, offset) {
                    return None;
                }
                proof {
                    assert forall|other: int| !#[trigger] stops_at(s, other) by {
                        if stops_at(s, other) {
                            lemma_reserved(s, at as int);
                            lemma_reserved(s, other);
                            lemma_one_place(s, at + 1, other + 1);
                        }
                    }
                }
            }
        }
    }
    match parse_kdl(text) {
        Ok(source) => Some(Ok(Document::new(source))),
        Err(offset) => Some(Err(offset)),
    }
}

} // verus!
