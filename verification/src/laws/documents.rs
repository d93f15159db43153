//! Which texts cannot be read as a document.

use vstd::prelude::*;

use crate::document;
use crate::text;

verus! {

proof fn lemma_width_front(c: char, rest: Seq<char>)
    ensures
        document::width(seq![c] + rest) == document::char_width(c) + document::width(rest),
    decreases rest.len(),
{
    let all = seq![c] + rest;
    if rest.len() > 0 {
        assert(all.drop_last() =~= seq![c] + rest.drop_last());
        lemma_width_front(c, rest.drop_last());
    } else {
        assert(all.drop_last() =~= Seq::empty());
        assert(document::width(all.drop_last()) == 0);
    }
}

proof fn lemma_char_width(c: char)
    ensures
        vstd::utf8::encode_scalar(c as u32).len() == document::char_width(c),
{
    vstd::utf8::char_is_scalar(c);
    assert(c as u32 == c as int);
}

/// The width of a text is how many bytes it takes.
pub proof fn lemma_width(s: Seq<char>)
    ensures
        document::width(s) == vstd::utf8::encode_utf8(s).len(),
    decreases s.len(),
{
    if s.len() > 0 {
        let c = s[0];
        let rest = s.drop_first();
        assert(s =~= seq![c] + rest);
        lemma_width_front(c, rest);
        lemma_width(rest);
        lemma_char_width(c);
    }
}

/// Which characters stand in identifiers: none that has a meaning of its own, no white space and no control character.
/// All other printable ASCII characters do.
pub proof fn lemma_identifier(c: char)
    ensures
        c == '\\' || c == '/' || c == '(' || c == ')' || c == '{' || c == '}' ==> !document::in_identifier(c),
        c == '<' || c == '>' || c == ';' || c == '[' || c == ']' || c == '=' || c == ',' ==> !document::in_identifier(c),
        c == '"' ==> !document::in_identifier(c),
        (c as int) <= 0x20 || text::is_white_space(c) || c as int == 0xfeff ==> !document::in_identifier(c),
        0x20 < (c as int) < 0x7f && !(c == '\\' || c == '/' || c == '(' || c == ')' || c == '{' || c == '}' || c == '<'
            || c == '>' || c == ';' || c == '[' || c == ']' || c == '=' || c == ',' || c == '"')
            ==> document::in_identifier(c),
        (c as int) >= 0x7f && !text::is_white_space(c) && c as int != 0xfeff ==> document::in_identifier(c),
{
}

/// Whether a text has a beginning of a number of bytes.
pub open spec fn has_bytes(s: Seq<char>, bytes: int) -> bool {
    exists|n: int| 0 <= n <= s.len() && vstd::utf8::encode_utf8(#[trigger] s.take(n)).len() == bytes
}

proof fn lemma_has_bytes(s: Seq<char>, bytes: int)
    ensures
        has_bytes(s, bytes) == document::has_beginning(s, bytes),
{
    if has_bytes(s, bytes) {
        let n = choose|n: int| 0 <= n <= s.len() && vstd::utf8::encode_utf8(#[trigger] s.take(n)).len() == bytes;
        lemma_width(s.take(n));
        assert(document::width(s.take(n)) == bytes);
    }
    if document::has_beginning(s, bytes) {
        let n = choose|n: int| 0 <= n <= s.len() && #[trigger] document::width(s.take(n)) == bytes;
        lemma_width(s.take(n));
        assert(vstd::utf8::encode_utf8(s.take(n)).len() == bytes);
    }
}

/// Whether a text is one of the words that stand for values.
pub open spec fn is_value(word: Seq<char>) -> bool {
    word == "true"@ || word == "false"@ || word == "null"@
}

/// A bracket with a word for a value behind it is where a text cannot be read, if the word ends there and what follows
/// cannot be cut after as many bytes as the word has.
pub proof fn lemma_cut(before: Seq<char>, word: Seq<char>, rest: Seq<char>)
    requires
        is_value(word),
    ensures
        ({
            let s = before + seq!['('] + word + rest;
            let ends = rest.len() == 0 || !document::in_identifier(rest[0]);
            document::reserved_cut_at(s, before.len() as int) == (ends && !has_bytes(rest, word.len() as int))
        }),
{
    let s = before + seq!['('] + word + rest;
    let at = before.len() as int;
    reveal_strlit("true");
    reveal_strlit("false");
    reveal_strlit("null");
    lemma_has_bytes(rest, word.len() as int);
    assert(s[at] == '(');
    assert(s.subrange(at + 1, at + 1 + word.len()) =~= word);
    assert(s.skip(at + 1 + word.len()) =~= rest);
    if rest.len() > 0 {
        assert(s[at + 1 + word.len()] == rest[0]);
    }
    assert(s[at + 1] == word[0]);
    lemma_first(s, "true"@, at);
    lemma_first(s, "false"@, at);
    lemma_first(s, "null"@, at);
}

proof fn lemma_first(s: Seq<char>, word: Seq<char>, at: int)
    requires
        word.len() > 0,
    ensures
        document::word_cut_at(s, word, at) ==> s[at + 1] == word[0],
{
    if document::word_cut_at(s, word, at) {
        assert(s.subrange(at + 1, at + 1 + word.len())[0] == s[at + 1]);
    }
}

/// No other place is one where a text cannot be read: there is a bracket, and behind it a word for a value.
pub proof fn lemma_no_cut(s: Seq<char>, at: int)
    requires
        0 <= at < s.len(),
    ensures
        s[at] != '(' ==> !document::reserved_cut_at(s, at),
        !(at + 5 <= s.len() && is_value(s.subrange(at + 1, at + 5))) && !(at + 6 <= s.len() && is_value(
            s.subrange(at + 1, at + 6),
        )) ==> !document::reserved_cut_at(s, at),
{
    reveal_strlit("true");
    reveal_strlit("false");
    reveal_strlit("null");
}

} // verus!
