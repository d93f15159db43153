//! Byte sequences.

use vstd::prelude::*;

verus! {

/// The pieces of bytes between the separators: one more than there are separators.
pub open spec fn fields(s: Seq<u8>, separator: u8) -> Seq<Seq<u8>>
    decreases s.len(),
{
    if s.len() == 0 {
        seq![s]
    } else {
        let before = fields(s.drop_last(), separator);
        if s.last() == separator {
            before.push(Seq::empty())
        } else {
            before.drop_last().push(before.last().push(s.last()))
        }
    }
}

/// The bytes in each of some vectors.
pub open spec fn views(list: Seq<Vec<u8>>) -> Seq<Seq<u8>> {
    list.map_values(|v: Vec<u8>| v@)
}

/// The pieces of bytes between the separators.
pub fn split(bytes: &[u8], separator: u8) -> (r: Vec<Vec<u8>>)
    ensures
        views(r@) == fields(bytes@, separator),
        r@.len() > 0,
{
    let mut out: Vec<Vec<u8>> = Vec::new();
    let mut current: Vec<u8> = Vec::new();
    let mut i: usize = 0;
    proof {
        assert(bytes@.take(0) =~= current@);
        assert(views(out@).push(current@) =~= fields(bytes@.take(0), separator));
    }
    while i < bytes.len()
        invariant
            i <= bytes@.len(),
            views(out@).push(current@) == fields(bytes@.take(i as int), separator),
        decreases bytes@.len() - i,
    {
        let ghost done = views(out@);
        let ghost piece = current@;
        proof {
            let part = bytes@.take(i + 1);
            assert(part.drop_last() =~= bytes@.take(i as int));
            assert(part.last() == bytes@[i as int]);
            assert(done.push(piece).drop_last() =~= done);
        }
        if bytes[i] == separator {
            out.push(current);
            current = Vec::new();
            proof {
                assert(views(out@) =~= done.push(piece));
                assert(current@ =~= Seq::<u8>::empty());
            }
        } else {
            current.push(bytes[i]);
        }
        i += 1;
    }
    let ghost done = views(out@);
    let ghost piece = current@;
    out.push(current);
    proof {
        assert(bytes@.take(i as int) =~= bytes@);
        assert(views(out@) =~= done.push(piece));
    }
    out
}

/// Whether two byte sequences are the same.
pub fn same(a: &[u8], b: &[u8]) -> (r: bool)
    ensures
        r == (a@ == b@),
{
    if a.len() != b.len() {
        return false;
    }
    let mut i: usize = 0;
    while i < a.len()
        invariant
            a@.len() == b@.len(),
            i <= a@.len(),
            forall|j: int| 0 <= j < i ==> a@[j] == b@[j],
        decreases a@.len() - i,
    {
        if a[i] != b[i] {
            return false;
        }
        i += 1;
    }
    proof {
        assert(a@ =~= b@);
    }
    true
}

/// The number in four bytes, lowest byte first.
pub open spec fn le_u32(s: Seq<u8>, at: int) -> u32 {
    (s[at] + 256 * s[at + 1] + 65536 * s[at + 2] + 16777216 * s[at + 3]) as u32
}

/// The four bytes of a number, lowest byte first.
pub open spec fn le_bytes(n: u32) -> Seq<u8> {
    seq![(n % 256) as u8, (n / 256 % 256) as u8, (n / 65536 % 256) as u8, (n / 16777216) as u8]
}

/// Reads the number in four bytes.
pub fn read_le_u32(bytes: &[u8], at: usize) -> (r: u32)
    requires
        at + 4 <= bytes@.len(),
    ensures
        r == le_u32(bytes@, at as int),
{
    bytes[at] as u32 + 256 * (bytes[at + 1] as u32) + 65536 * (bytes[at + 2] as u32) + 16777216 * (bytes[at + 3] as u32)
}

/// A number is read back from its bytes.
pub proof fn lemma_le_read_back(n: u32, s: Seq<u8>, at: int)
    requires
        0 <= at,
        at + 4 <= s.len(),
        s.subrange(at, at + 4) == le_bytes(n),
    ensures
        le_u32(s, at) == n,
{
    let part = s.subrange(at, at + 4);
    assert(part[0] == s[at] && part[1] == s[at + 1] && part[2] == s[at + 2] && part[3] == s[at + 3]);
    assert(n % 256 + 256 * (n / 256 % 256) + 65536 * (n / 65536 % 256) + 16777216 * (n / 16777216) == n) by (
    nonlinear_arith);
}

/// The position of the first zero byte, or the length where there is none.
pub open spec fn until_nul(s: Seq<u8>) -> int
    decreases s.len(),
{
    if s.len() == 0 || s[0] == 0 {
        0
    } else {
        1 + until_nul(s.skip(1))
    }
}

/// The first zero byte is behind bytes that are not zero.
pub proof fn lemma_until_nul(s: Seq<u8>, at: int)
    requires
        0 <= at <= s.len(),
        forall|i: int| 0 <= i < at ==> s[i] != 0,
        at < s.len() ==> s[at] == 0,
    ensures
        until_nul(s) == at,
    decreases s.len(),
{
    if at > 0 {
        let rest = s.skip(1);
        assert forall|i: int| 0 <= i < at - 1 implies rest[i] != 0 by {
            assert(rest[i] == s[i + 1]);
        }
        lemma_until_nul(rest, at - 1);
    }
}

/// The position of the first zero byte, or the length where there is none.
pub fn nul_or_len(bytes: &[u8]) -> (r: usize)
    ensures
        r == until_nul(bytes@),
        r <= bytes@.len(),
        r < bytes@.len() ==> bytes@[r as int] == 0,
{
    let mut i: usize = 0;
    while i < bytes.len() && bytes[i] != 0
        invariant
            i <= bytes@.len(),
            forall|j: int| 0 <= j < i ==> bytes@[j] != 0,
        decreases bytes@.len() - i,
    {
        i += 1;
    }
    proof {
        lemma_until_nul(bytes@, i as int);
    }
    i
}

/// Bytes without the separator are one piece.
pub proof fn lemma_one_field(s: Seq<u8>, separator: u8)
    requires
        !s.contains(separator),
    ensures
        fields(s, separator) == seq![s],
    decreases s.len(),
{
    if s.len() > 0 {
        let head = s.drop_last();
        assert(!head.contains(separator)) by {
            if head.contains(separator) {
                let i = choose|i: int| 0 <= i < head.len() && head[i] == separator;
                assert(s[i] == separator);
            }
        }
        lemma_one_field(head, separator);
        assert(s[s.len() - 1] != separator);
        assert(head.push(s.last()) =~= s);
        assert(seq![head].drop_last() =~= Seq::empty());
        assert(fields(s, separator) =~= seq![s]);
    } else {
        assert(fields(s, separator) =~= seq![s]);
    }
}

/// The pieces of bytes on both sides of a separator.
pub proof fn lemma_fields_joined(a: Seq<u8>, separator: u8, b: Seq<u8>)
    ensures
        fields(a + seq![separator] + b, separator) == fields(a, separator) + fields(b, separator),
    decreases b.len(),
{
    let all = a + seq![separator] + b;
    if b.len() == 0 {
        assert(all.drop_last() =~= a);
        assert(b =~= Seq::empty());
        assert(fields(b, separator) =~= seq![Seq::<u8>::empty()]);
        assert(fields(all, separator) =~= fields(a, separator) + fields(b, separator));
    } else {
        let head = b.drop_last();
        lemma_fields_joined(a, separator, head);
        lemma_fields_nonempty(head, separator);
        assert(all.drop_last() =~= a + seq![separator] + head);
        assert(fields(all, separator) =~= fields(a, separator) + fields(b, separator));
    }
}

/// There is one piece at least.
pub proof fn lemma_fields_nonempty(s: Seq<u8>, separator: u8)
    ensures
        fields(s, separator).len() > 0,
    decreases s.len(),
{
    if s.len() > 0 {
        lemma_fields_nonempty(s.drop_last(), separator);
    }
}

/// Calls `memchr::memchr`, which finds the first occurrence of a byte.
#[verifier::external_body]
pub(crate) fn memchr(needle: u8, haystack: &[u8]) -> (r: Option<usize>)
    ensures
        match r {
            Some(at) => {
                &&& at < haystack@.len()
                &&& haystack@[at as int] == needle
                &&& forall|i: int| 0 <= i < at ==> haystack@[i] != needle
            },
            None => !haystack@.contains(needle),
        },
{
    memchr::memchr(needle, haystack)
}

/// How often a byte stands in bytes.
pub open spec fn count(s: Seq<u8>, byte: u8) -> int
    decreases s.len(),
{
    if s.len() == 0 {
        0
    } else {
        count(s.drop_last(), byte) + (if s.last() == byte {
            1int
        } else {
            0
        })
    }
}

/// Bytes without the one that is counted do not change the count.
pub proof fn lemma_count_skips(s: Seq<u8>, byte: u8, a: int, b: int)
    requires
        0 <= a <= b <= s.len(),
        forall|i: int| a <= i < b ==> s[i] != byte,
    ensures
        count(s.take(b), byte) == count(s.take(a), byte),
    decreases b - a,
{
    if a < b {
        assert(s.take(b).drop_last() =~= s.take(b - 1));
        lemma_count_skips(s, byte, a, b - 1);
    }
}

/// How often a byte stands in bytes.
pub fn count_byte(bytes: &[u8], byte: u8) -> (r: usize)
    ensures
        r == count(bytes@, byte),
        r <= bytes@.len(),
{
    let mut total: usize = 0;
    let mut start: usize = 0;
    while start < bytes.len()
        invariant
            start <= bytes@.len(),
            total <= start,
            total == count(bytes@.take(start as int), byte),
        decreases bytes@.len() - start,
    {
        let rest: &[u8] = vstd::slice::slice_subrange(bytes, start, bytes.len());
        match memchr(byte, rest) {
            Some(at) => {
                proof {
                    assert forall|i: int| start <= i < start + at implies bytes@[i] != byte by {
                        assert(rest@[i - start] == bytes@[i]);
                    }
                    lemma_count_skips(bytes@, byte, start as int, start + at);
                    let part = bytes@.take(start + at + 1);
                    assert(part.drop_last() =~= bytes@.take(start + at));
                    assert(part.last() == rest@[at as int]);
                }
                total += 1;
                start = start + at + 1;
            },
            None => {
                proof {
                    assert forall|i: int| start <= i < bytes@.len() implies bytes@[i] != byte by {
                        assert(rest@[i - start] == bytes@[i]);
                    }
                    lemma_count_skips(bytes@, byte, start as int, bytes@.len() as int);
                }
                start = bytes.len();
            },
        }
    }
    proof {
        assert(bytes@.take(start as int) =~= bytes@);
    }
    total
}

} // verus!
