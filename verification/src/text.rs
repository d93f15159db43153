//! Text as sequences of characters: trimming, splitting, searching and ordering.

use vstd::prelude::*;

verus! {

/// The characters that count as white space.
pub open spec fn is_white_space(c: char) -> bool {
    let code = c as u32;
    ||| 0x9 <= code <= 0xd
    ||| code == 0x20
    ||| code == 0x85
    ||| code == 0xa0
    ||| code == 0x1680
    ||| 0x2000 <= code <= 0x200a
    ||| code == 0x2028
    ||| code == 0x2029
    ||| code == 0x202f
    ||| code == 0x205f
    ||| code == 0x3000
}

/// Text without its leading white space.
pub open spec fn trimmed_start(s: Seq<char>) -> Seq<char>
    decreases s.len(),
{
    if s.len() > 0 && is_white_space(s[0]) {
        trimmed_start(s.skip(1))
    } else {
        s
    }
}

/// Text without its trailing white space.
pub open spec fn trimmed_end(s: Seq<char>) -> Seq<char>
    decreases s.len(),
{
    if s.len() > 0 && is_white_space(s.last()) {
        trimmed_end(s.drop_last())
    } else {
        s
    }
}

/// Text without white space at either end.
pub open spec fn trimmed(s: Seq<char>) -> Seq<char> {
    trimmed_end(trimmed_start(s))
}

/// Text without the given character at its end.
pub open spec fn without_trailing(s: Seq<char>, c: char) -> Seq<char>
    decreases s.len(),
{
    if s.len() > 0 && s.last() == c {
        without_trailing(s.drop_last(), c)
    } else {
        s
    }
}

/// The pieces of a text between the separators: one more than there are separators.
pub open spec fn pieces(s: Seq<char>, separator: char) -> Seq<Seq<char>>
    decreases s.len(),
{
    if s.len() == 0 {
        seq![s]
    } else {
        let before = pieces(s.drop_last(), separator);
        if s.last() == separator {
            before.push(Seq::empty())
        } else {
            before.drop_last().push(before.last().push(s.last()))
        }
    }
}

/// Whether `pattern` stands at position `at` of `s`.
pub open spec fn occurs_at(s: Seq<char>, pattern: Seq<char>, at: int) -> bool {
    &&& 0 <= at
    &&& at + pattern.len() <= s.len()
    &&& s.subrange(at, at + pattern.len()) == pattern
}

/// Whether `pattern` stands somewhere in `s`.
pub open spec fn occurs(s: Seq<char>, pattern: Seq<char>) -> bool {
    exists|at: int| occurs_at(s, pattern, at)
}

/// Whether `pattern` stands at position `at` of `s`, and nowhere before it.
pub open spec fn first_occurs_at(s: Seq<char>, pattern: Seq<char>, at: int) -> bool {
    &&& occurs_at(s, pattern, at)
    &&& forall|i: int| 0 <= i < at ==> !occurs_at(s, pattern, i)
}

/// The position of the first occurrence of `pattern` in `s`.
pub open spec fn first_occurrence(s: Seq<char>, pattern: Seq<char>) -> Option<int> {
    if occurs(s, pattern) {
        Some(choose|at: int| first_occurs_at(s, pattern, at))
    } else {
        None
    }
}

/// There is one first occurrence.
pub proof fn lemma_first_occurrence(s: Seq<char>, pattern: Seq<char>, at: int)
    requires
        first_occurs_at(s, pattern, at),
    ensures
        first_occurrence(s, pattern) == Some(at),
{
    let other = choose|other: int| first_occurs_at(s, pattern, other);
    if at < other {
        assert(!occurs_at(s, pattern, at));
    }
    if other < at {
        assert(!occurs_at(s, pattern, other));
    }
}

/// Lexicographic order of texts by code point.
pub open spec fn text_before(a: Seq<char>, b: Seq<char>) -> bool
    decreases a.len(),
{
    if b.len() == 0 {
        false
    } else if a.len() == 0 {
        true
    } else if a[0] != b[0] {
        (a[0] as int) < (b[0] as int)
    } else {
        text_before(a.skip(1), b.skip(1))
    }
}

/// The characters of a text.
pub fn chars(s: &str) -> (r: Vec<char>)
    ensures
        r@ == s@,
{
    let mut v: Vec<char> = Vec::new();
    for c in it: s.chars()
        invariant
            it.seq() == s@,
            v@ == s@.take(it.index()),
    {
        v.push(c);
        proof {
            assert(s@.take(it.index() + 1) =~= s@.take(it.index()).push(c));
        }
    }
    proof {
        assert(s@.take(s@.len() as int) =~= s@);
    }
    v
}

/// The code point of a character.
fn code_point(c: char) -> (r: u32)
    ensures
        r == c as int,
{
    c as u32
}

/// Whether a character is white space.
pub fn white_space(c: char) -> (r: bool)
    ensures
        r == is_white_space(c),
{
    let code: u32 = c as u32;
    (0x9 <= code && code <= 0xd) || code == 0x20 || code == 0x85 || code == 0xa0 || code == 0x1680
        || (0x2000 <= code && code <= 0x200a) || code == 0x2028 || code == 0x2029 || code == 0x202f
        || code == 0x205f || code == 0x3000
}

/// Whether two texts are the same.
pub fn same(a: &str, b: &str) -> (r: bool)
    ensures
        r == (a@ == b@),
{
    a.to_owned() == b.to_owned()
}

proof fn lemma_trimmed_start(s: Seq<char>, from: int)
    requires
        0 <= from <= s.len(),
        forall|i: int| 0 <= i < from ==> is_white_space(#[trigger] s[i]),
        from < s.len() ==> !is_white_space(s[from]),
    ensures
        trimmed_start(s) == s.skip(from),
    decreases from,
{
    if from > 0 {
        assert(is_white_space(s[0]));
        let rest = s.skip(1);
        assert forall|i: int| 0 <= i < from - 1 implies is_white_space(#[trigger] rest[i]) by {
            assert(rest[i] == s[i + 1]);
        }
        lemma_trimmed_start(rest, from - 1);
        assert(rest.skip(from - 1) =~= s.skip(from));
    } else {
        assert(s.skip(0) =~= s);
    }
}

proof fn lemma_trimmed_end(s: Seq<char>, to: int)
    requires
        0 <= to <= s.len(),
        forall|i: int| to <= i < s.len() ==> is_white_space(#[trigger] s[i]),
        to > 0 ==> !is_white_space(s[to - 1]),
    ensures
        trimmed_end(s) == s.take(to),
    decreases s.len() - to,
{
    if to < s.len() {
        assert(is_white_space(s[s.len() - 1]));
        lemma_trimmed_end(s.drop_last(), to);
        assert(s.drop_last().take(to) =~= s.take(to));
    } else {
        assert(s.take(to) =~= s);
    }
}

/// Text without white space at either end.
pub fn trim(s: &str) -> (r: String)
    ensures
        r@ == trimmed(s@),
{
    let v = chars(s);
    let mut from: usize = 0;
    while from < v.len() && white_space(v[from])
        invariant
            v@ == s@,
            from <= v.len(),
            forall|i: int| 0 <= i < from ==> is_white_space(#[trigger] s@[i]),
        decreases v.len() - from,
    {
        from += 1;
    }
    let ghost head = s@.skip(from as int);
    proof {
        lemma_trimmed_start(s@, from as int);
    }
    let mut to: usize = v.len();
    while from < to && white_space(v[to - 1])
        invariant
            v@ == s@,
            from <= to <= v.len(),
            head == s@.skip(from as int),
            forall|i: int| to - from <= i < head.len() ==> is_white_space(#[trigger] head[i]),
        decreases to,
    {
        to -= 1;
        proof {
            assert(head[to - from] == s@[to as int]);
        }
    }
    proof {
        if to > from {
            assert(head[to - from - 1] == s@[to - 1]);
        }
        lemma_trimmed_end(head, to - from);
        assert(head.take(to - from) =~= s@.subrange(from as int, to as int));
    }
    s.substring_char(from, to).to_owned()
}

proof fn lemma_without_trailing(s: Seq<char>, c: char, to: int)
    requires
        0 <= to <= s.len(),
        forall|i: int| to <= i < s.len() ==> #[trigger] s[i] == c,
        to > 0 ==> s[to - 1] != c,
    ensures
        without_trailing(s, c) == s.take(to),
    decreases s.len() - to,
{
    if to < s.len() {
        assert(s[s.len() - 1] == c);
        lemma_without_trailing(s.drop_last(), c, to);
        assert(s.drop_last().take(to) =~= s.take(to));
    } else {
        assert(s.take(to) =~= s);
    }
}

/// Text without the given character at its end.
pub fn trim_end_matches(s: &str, c: char) -> (r: String)
    ensures
        r@ == without_trailing(s@, c),
{
    let v = chars(s);
    let mut to: usize = v.len();
    while 0 < to && v[to - 1] == c
        invariant
            v@ == s@,
            to <= v.len(),
            forall|i: int| to <= i < s@.len() ==> #[trigger] s@[i] == c,
        decreases to,
    {
        to -= 1;
    }
    proof {
        lemma_without_trailing(s@, c, to as int);
        assert(s@.take(to as int) =~= s@.subrange(0, to as int));
    }
    s.substring_char(0, to).to_owned()
}

/// Whether `pattern` stands at position `at` of the characters `v`.
pub fn stands_at(v: &Vec<char>, pattern: &Vec<char>, at: usize) -> (r: bool)
    ensures
        r == occurs_at(v@, pattern@, at as int),
{
    if at > v.len() || pattern.len() > v.len() - at {
        return false;
    }
    let mut i: usize = 0;
    while i < pattern.len()
        invariant
            i <= pattern.len(),
            at + pattern.len() <= v.len(),
            forall|j: int| 0 <= j < i ==> v@[at + j] == #[trigger] pattern@[j],
        decreases pattern.len() - i,
    {
        if v[at + i] != pattern[i] {
            proof {
                assert(v@.subrange(at as int, at + pattern@.len())[i as int] != pattern@[i as int]);
            }
            return false;
        }
        i += 1;
    }
    proof {
        assert(v@.subrange(at as int, at + pattern@.len()) =~= pattern@);
    }
    true
}

/// Whether a text starts with `prefix`.
pub fn starts_with(s: &str, prefix: &str) -> (r: bool)
    ensures
        r == prefix@.is_prefix_of(s@),
{
    let v = chars(s);
    let p = chars(prefix);
    stands_at(&v, &p, 0)
}

/// Whether a text ends with `suffix`.
pub fn ends_with(s: &str, suffix: &str) -> (r: bool)
    ensures
        r == suffix@.is_suffix_of(s@),
{
    let v = chars(s);
    let p = chars(suffix);
    if p.len() > v.len() {
        return false;
    }
    stands_at(&v, &p, v.len() - p.len())
}

/// Calls `std::str::from_utf8`, which gives the text of bytes that are UTF-8, and an error for others.
#[verifier::external_body]
pub(crate) fn from_utf8(bytes: &[u8]) -> (r: Option<&str>)
    ensures
        r is Some <==> vstd::utf8::valid_utf8(bytes@),
        r matches Some(text) ==> text@ == vstd::utf8::decode_utf8(bytes@),
{
    std::str::from_utf8(bytes).ok()
}

/// What follows `prefix` in a text that starts with it.
pub fn strip_prefix(s: &str, prefix: &str) -> (r: Option<String>)
    ensures
        r is Some <==> prefix@.is_prefix_of(s@),
        r matches Some(rest) ==> rest@ == s@.skip(prefix@.len() as int),
{
    if starts_with(s, prefix) {
        let n: usize = chars(prefix).len();
        let total: usize = chars(s).len();
        proof {
            assert(s@.subrange(n as int, total as int) =~= s@.skip(n as int));
        }
        Some(s.substring_char(n, total).to_owned())
    } else {
        None
    }
}

/// The position of the first occurrence of `pattern` in a text.
pub fn find(s: &str, pattern: &str) -> (r: Option<usize>)
    ensures
        r is Some <==> occurs(s@, pattern@),
        r matches Some(at) ==> {
            &&& first_occurrence(s@, pattern@) == Some(at as int)
            &&& occurs_at(s@, pattern@, at as int)
        },
{
    let v = chars(s);
    let p = chars(pattern);
    let mut at: usize = 0;
    while at < v.len()
        invariant
            v@ == s@,
            p@ == pattern@,
            at <= v.len(),
            forall|i: int| 0 <= i < at ==> !occurs_at(s@, pattern@, i),
        decreases v.len() - at,
    {
        if stands_at(&v, &p, at) {
            proof {
                lemma_first_occurrence(s@, pattern@, at as int);
            }
            return Some(at);
        }
        at += 1;
    }
    if stands_at(&v, &p, at) {
        proof {
            lemma_first_occurrence(s@, pattern@, at as int);
        }
        return Some(at);
    }
    None
}

/// There is one piece at least, and no piece holds a separator.
pub proof fn lemma_pieces(s: Seq<char>, separator: char)
    ensures
        pieces(s, separator).len() > 0,
        forall|i: int| 0 <= i < pieces(s, separator).len() ==> !(#[trigger] pieces(s, separator)[i]).contains(separator),
    decreases s.len(),
{
    if s.len() > 0 {
        let before = pieces(s.drop_last(), separator);
        lemma_pieces(s.drop_last(), separator);
        assert forall|i: int| 0 <= i < pieces(s, separator).len() implies !(#[trigger] pieces(s, separator)[i]).contains(
            separator,
        ) by {
            let piece = pieces(s, separator)[i];
            if s.last() != separator && i == before.len() - 1 {
                if piece.contains(separator) {
                    let j = choose|j: int| 0 <= j < piece.len() && piece[j] == separator;
                    assert(before.last()[j] == separator);
                }
            } else if i < before.len() {
                assert(piece == before[i]);
            }
        }
    }
}

/// A text without the separator is one piece.
pub proof fn lemma_one_piece(s: Seq<char>, separator: char)
    requires
        !s.contains(separator),
    ensures
        pieces(s, separator) == seq![s],
    decreases s.len(),
{
    if s.len() > 0 {
        let head = s.drop_last();
        assert(!head.contains(separator)) by {
            if head.contains(separator) {
                let i = choose|i: int| 0 <= i < head.len() && head[i] == separator;
                assert(s[i] == separator);
            }
        }
        lemma_one_piece(head, separator);
        assert(s[s.len() - 1] != separator);
        assert(head.push(s.last()) =~= s);
        assert(seq![head].drop_last() =~= Seq::empty());
        assert(pieces(s, separator) =~= seq![s]);
    } else {
        assert(pieces(s, separator) =~= seq![s]);
    }
}

/// No piece holds a character that the text does not hold.
pub proof fn lemma_pieces_characters(s: Seq<char>, separator: char, c: char)
    requires
        !s.contains(c),
    ensures
        forall|i: int| 0 <= i < pieces(s, separator).len() ==> !(#[trigger] pieces(s, separator)[i]).contains(c),
    decreases s.len(),
{
    if s.len() > 0 {
        let head = s.drop_last();
        let before = pieces(head, separator);
        assert(!head.contains(c)) by {
            if head.contains(c) {
                let i = choose|i: int| 0 <= i < head.len() && head[i] == c;
                assert(s[i] == c);
            }
        }
        assert(s[s.len() - 1] != c);
        lemma_pieces_characters(head, separator, c);
        lemma_pieces(head, separator);
        assert forall|i: int| 0 <= i < pieces(s, separator).len() implies !(#[trigger] pieces(s, separator)[i]).contains(
            c,
        ) by {
            let piece = pieces(s, separator)[i];
            if s.last() != separator && i == before.len() - 1 {
                if piece.contains(c) {
                    let j = choose|j: int| 0 <= j < piece.len() && piece[j] == c;
                    assert(before.last()[j] == c);
                }
            } else if i < before.len() {
                assert(piece == before[i]);
            }
        }
    }
}

/// The pieces of a text on both sides of a separator.
pub proof fn lemma_pieces_joined(a: Seq<char>, separator: char, b: Seq<char>)
    ensures
        pieces(a + seq![separator] + b, separator) == pieces(a, separator) + pieces(b, separator),
    decreases b.len(),
{
    let all = a + seq![separator] + b;
    if b.len() == 0 {
        assert(all.drop_last() =~= a);
        assert(b =~= Seq::empty());
        assert(pieces(b, separator) =~= seq![Seq::<char>::empty()]);
        assert(pieces(all, separator) =~= pieces(a, separator) + pieces(b, separator));
    } else {
        let head = b.drop_last();
        lemma_pieces_joined(a, separator, head);
        lemma_pieces(head, separator);
        assert(all.drop_last() =~= a + seq![separator] + head);
        assert(pieces(all, separator) =~= pieces(a, separator) + pieces(b, separator));
    }
}

/// A text without white space at its ends stays as it is, and so does one with a line break behind it.
pub proof fn lemma_trimmed_plain(s: Seq<char>)
    requires
        s.len() > 0,
        !is_white_space(s[0]),
        !is_white_space(s.last()),
    ensures
        trimmed(s) == s,
        trimmed(s.push('\n')) == s,
{
    let line = s.push('\n');
    lemma_trimmed_start(s, 0);
    lemma_trimmed_end(s, s.len() as int);
    assert(s.skip(0) =~= s);
    assert(s.take(s.len() as int) =~= s);
    lemma_trimmed_start(line, 0);
    assert(line.skip(0) =~= line);
    lemma_trimmed_end(line, s.len() as int);
    assert(line.take(s.len() as int) =~= s);
}

/// The pieces of a text between the separators, as texts.
pub open spec fn texts(list: Seq<String>) -> Seq<Seq<char>> {
    list.map_values(|t: String| t@)
}

/// The pieces of a text between the separators.
pub fn split(s: &str, separator: char) -> (r: Vec<String>)
    ensures
        texts(r@) == pieces(s@, separator),
        r@.len() > 0,
{
    let v = chars(s);
    let mut out: Vec<String> = Vec::new();
    let mut start: usize = 0;
    let mut i: usize = 0;
    proof {
        assert(texts(out@).push(s@.subrange(0, 0)) =~= pieces(s@.take(0), separator));
    }
    while i < v.len()
        invariant
            v@ == s@,
            start <= i <= v.len(),
            texts(out@).push(s@.subrange(start as int, i as int)) == pieces(s@.take(i as int), separator),
        decreases v.len() - i,
    {
        let ghost done = texts(out@);
        let ghost piece = s@.subrange(start as int, i as int);
        proof {
            let next = s@.take(i + 1);
            assert(next.drop_last() =~= s@.take(i as int));
            assert(next.last() == s@[i as int]);
            assert(done.push(piece).drop_last() =~= done);
        }
        if v[i] == separator {
            out.push(s.substring_char(start, i).to_owned());
            start = i + 1;
            proof {
                assert(texts(out@) =~= done.push(piece));
                assert(s@.subrange(start as int, i + 1) =~= Seq::<char>::empty());
            }
        } else {
            proof {
                assert(s@.subrange(start as int, i + 1) =~= piece.push(s@[i as int]));
            }
        }
        i += 1;
    }
    let ghost done = texts(out@);
    let ghost piece = s@.subrange(start as int, i as int);
    out.push(s.substring_char(start, i).to_owned());
    proof {
        assert(s@.take(i as int) =~= s@);
        assert(texts(out@) =~= done.push(piece));
    }
    out
}

/// Whether a text comes before another in lexicographic order.
pub fn before(a: &str, b: &str) -> (r: bool)
    ensures
        r == text_before(a@, b@),
{
    let v = chars(a);
    let w = chars(b);
    let mut i: usize = 0;
    proof {
        assert(a@.skip(0) =~= a@);
        assert(b@.skip(0) =~= b@);
    }
    loop
        invariant
            v@ == a@,
            w@ == b@,
            i <= v.len(),
            i <= w.len(),
            text_before(a@, b@) == text_before(a@.skip(i as int), b@.skip(i as int)),
        decreases v.len() - i,
    {
        if i == w.len() {
            return false;
        }
        if i == v.len() {
            return true;
        }
        if v[i] != w[i] {
            return code_point(v[i]) < code_point(w[i]);
        }
        proof {
            assert(a@.skip(i as int).skip(1) =~= a@.skip(i + 1));
            assert(b@.skip(i as int).skip(1) =~= b@.skip(i + 1));
        }
        i += 1;
    }
}

/// The order of texts is irreflexive.
pub proof fn lemma_before_irreflexive(a: Seq<char>)
    ensures
        !text_before(a, a),
    decreases a.len(),
{
    if a.len() > 0 {
        lemma_before_irreflexive(a.skip(1));
    }
}

/// The order of texts is transitive.
pub proof fn lemma_before_transitive(a: Seq<char>, b: Seq<char>, c: Seq<char>)
    requires
        text_before(a, b),
        text_before(b, c),
    ensures
        text_before(a, c),
    decreases a.len(),
{
    if a.len() > 0 && b.len() > 0 && c.len() > 0 && a[0] == b[0] && b[0] == c[0] {
        lemma_before_transitive(a.skip(1), b.skip(1), c.skip(1));
    }
}

/// Of two different texts one comes before the other.
pub proof fn lemma_before_total(a: Seq<char>, b: Seq<char>)
    ensures
        text_before(a, b) || a == b || text_before(b, a),
    decreases a.len(),
{
    if a.len() > 0 && b.len() > 0 {
        if a[0] == b[0] {
            lemma_before_total(a.skip(1), b.skip(1));
            if a.skip(1) == b.skip(1) {
                assert(a =~= seq![a[0]] + a.skip(1));
                assert(b =~= seq![b[0]] + b.skip(1));
            }
        }
    } else if a.len() == 0 && b.len() == 0 {
        assert(a =~= b);
    }
}

} // verus!
