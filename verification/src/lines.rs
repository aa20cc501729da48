//! Lines of a byte buffer.
//!
//! Lines are numbered from one and keep their terminator. A newline that ends the
//! buffer starts no further line.

use vstd::prelude::*;

verus! {

/// Where lines start, looking at the bytes before `n` only.
pub open spec fn starts_to(buf: Seq<u8>, n: int) -> Seq<int>
    decreases n,
{
    if n <= 0 {
        seq![0int]
    } else if buf[n - 1] == 10u8 && n < buf.len() {
        starts_to(buf, n - 1).push(n)
    } else {
        starts_to(buf, n - 1)
    }
}

/// Where the lines of a buffer start; an empty buffer counts as one place to start.
pub open spec fn line_starts_of(buf: Seq<u8>) -> Seq<int> {
    starts_to(buf, buf.len() as int)
}

/// Number of lines; an empty buffer has none.
pub open spec fn line_count(buf: Seq<u8>) -> nat {
    if buf.len() == 0 {
        0
    } else {
        line_starts_of(buf).len()
    }
}

/// Where line `n` ends.
pub open spec fn line_end(buf: Seq<u8>, n: int) -> int {
    if n < line_starts_of(buf).len() {
        line_starts_of(buf)[n]
    } else {
        buf.len() as int
    }
}

/// Line `n`, with its terminator.
pub open spec fn line_of(buf: Seq<u8>, n: int) -> Seq<u8> {
    buf.subrange(line_starts_of(buf)[n - 1], line_end(buf, n))
}

/// The positions as integers.
pub open spec fn ints(v: Seq<usize>) -> Seq<int> {
    Seq::new(v.len(), |k: int| v[k] as int)
}

/// The lines up to line `n`, one after the other.
pub open spec fn lines_joined(buf: Seq<u8>, n: int) -> Seq<u8>
    decreases n,
{
    if n <= 0 {
        Seq::empty()
    } else {
        lines_joined(buf, n - 1) + line_of(buf, n)
    }
}

/// Starts ascend from zero and stay within the buffer.
pub proof fn lemma_starts(buf: Seq<u8>, n: int)
    requires
        0 <= n <= buf.len(),
    ensures
        starts_to(buf, n).len() >= 1,
        starts_to(buf, n)[0] == 0,
        forall|i: int, j: int| 0 <= i < j < starts_to(buf, n).len() ==> starts_to(buf, n)[i] < starts_to(buf, n)[j],
        forall|i: int| 0 <= i < starts_to(buf, n).len() ==> 0 <= #[trigger] starts_to(buf, n)[i] <= n,
        forall|i: int|
            0 < i < starts_to(buf, n).len() ==> (#[trigger] starts_to(buf, n)[i]) < buf.len() && buf[starts_to(buf, n)[i]
                - 1] == 10u8,
    decreases n,
{
    if n > 0 {
        lemma_starts(buf, n - 1);
    }
}

/// The lines of a buffer, one after the other, are the buffer.
pub proof fn law_lines_join_to_buffer(buf: Seq<u8>)
    ensures
        buf.len() > 0 ==> line_count(buf) >= 1,
        lines_joined(buf, line_count(buf) as int) == buf,
{
    lemma_starts(buf, buf.len() as int);
    lemma_lines_joined(buf, line_count(buf) as int);
    assert(buf.take(buf.len() as int) =~= buf);
}

proof fn lemma_lines_joined(buf: Seq<u8>, n: int)
    requires
        0 <= n <= line_count(buf),
    ensures
        lines_joined(buf, n) == if n == 0 {
            Seq::empty()
        } else {
            buf.take(line_end(buf, n))
        },
    decreases n,
{
    lemma_starts(buf, buf.len() as int);
    if n > 0 {
        lemma_lines_joined(buf, n - 1);
        let s = line_starts_of(buf);
        if n - 1 > 0 {
            assert(line_end(buf, n - 1) == s[n - 1]);
        }
        if n < s.len() {
            assert(s[n - 1] < s[n]);
        }
        assert(lines_joined(buf, n) =~= buf.take(line_end(buf, n)));
    }
}

/// Where the lines of a buffer start; an empty buffer counts as one place to start.
pub fn find_line_starts(buf: &[u8]) -> (starts: Vec<usize>)
    ensures
        ints(starts@) == line_starts_of(buf@),
{
    let mut starts: Vec<usize> = Vec::new();
    starts.push(0);
    assert(ints(starts@) =~= starts_to(buf@, 0));
    let mut i: usize = 0;
    while i < buf.len()
        invariant
            i <= buf@.len(),
            ints(starts@) == starts_to(buf@, i as int),
        decreases buf@.len() - i,
    {
        let ghost had = ints(starts@);
        if buf[i] == 10 && i + 1 < buf.len() {
            starts.push(i + 1);
            assert(ints(starts@) =~= had.push(i + 1));
        }
        i = i + 1;
    }
    starts
}

/// The buffer begins with the byte order mark of UTF-16.
pub open spec fn has_utf16_mark(buf: Seq<u8>) -> bool {
    buf.len() >= 2 && ((buf[0] == 0xffu8 && buf[1] == 0xfeu8) || (buf[0] == 0xfeu8 && buf[1] == 0xffu8))
}

/// Whether a buffer begins with the byte order mark of UTF-16. Such a buffer is searched
/// decoded, so its own bytes do not tell what it holds.
pub fn is_utf16(bytes: &[u8]) -> (b: bool)
    ensures
        b == has_utf16_mark(bytes@),
{
    bytes.len() >= 2 && ((bytes[0] == 0xff && bytes[1] == 0xfe) || (bytes[0] == 0xfe && bytes[1] == 0xff))
}

/// A NUL among the first 8192 bytes.
pub open spec fn has_early_nul(buf: Seq<u8>) -> bool {
    exists|i: int| 0 <= i < 8192 && i < buf.len() && #[trigger] buf[i] == 0u8
}

/// Whether a buffer counts as binary. Building an index and searching files share
/// this test, so that both see the same files.
pub fn is_binary(bytes: &[u8]) -> (b: bool)
    ensures
        b == has_early_nul(bytes@),
{
    let mut i: usize = 0;
    while i < bytes.len() && i < 8192
        invariant
            i <= bytes@.len(),
            i <= 8192,
            forall|k: int| 0 <= k < i ==> #[trigger] bytes@[k] != 0u8,
        decreases bytes@.len() - i,
    {
        if bytes[i] == 0 {
            return true;
        }
        i = i + 1;
    }
    false
}

/// A line starts at the head of a buffer and behind every newline that is not its last byte,
/// and nowhere else; starts ascend. So only the last byte of a line can be a newline, and of
/// every line but the last it is one.
pub proof fn law_lines_start_behind_newlines(buf: Seq<u8>)
    ensures
        forall|p: int| #[trigger]
            line_starts_of(buf).contains(p) <==> p == 0 || (0 < p < buf.len() && buf[p - 1] == 10u8),
        forall|i: int, j: int|
            0 <= i < j < line_starts_of(buf).len() ==> line_starts_of(buf)[i] < line_starts_of(buf)[j],
        line_count(buf) == (if buf.len() == 0 {
            0
        } else {
            line_starts_of(buf).len()
        }),
        forall|n: int|
            1 <= n <= line_count(buf) ==> (#[trigger] line_of(buf, n)).len() > 0 && (forall|k: int|
                0 <= k < line_of(buf, n).len() - 1 ==> line_of(buf, n)[k] != 10u8) && (n < line_count(buf) ==> line_of(
                buf,
                n,
            ).last() == 10u8),
{
    let s = line_starts_of(buf);
    lemma_starts(buf, buf.len() as int);
    assert forall|p: int| #[trigger] s.contains(p) <==> p == 0 || (0 < p < buf.len() && buf[p - 1] == 10u8) by {
        lemma_start_found(buf, buf.len() as int, p);
        if s.contains(p) {
            let i = choose|i: int| 0 <= i < s.len() && s[i] == p;
            if i > 0 {
                assert(s[0] < s[i]);
            }
        }
        if p == 0 {
            assert(s[0] == 0);
        }
    }
    assert forall|n: int| 1 <= n <= line_count(buf) implies (#[trigger] line_of(buf, n)).len() > 0 && (forall|k: int|
        0 <= k < line_of(buf, n).len() - 1 ==> line_of(buf, n)[k] != 10u8) && (n < line_count(buf) ==> line_of(
        buf,
        n,
    ).last() == 10u8) by {
        let a = s[n - 1];
        let b = line_end(buf, n);
        if n > 1 {
            assert(a < buf.len());
        }
        if n < s.len() {
            assert(s[n - 1] < s[n]);
            assert(buf[s[n] - 1] == 10u8);
        }
        assert(a < b <= buf.len());
        assert forall|k: int| 0 <= k < line_of(buf, n).len() - 1 implies line_of(buf, n)[k] != 10u8 by {
            if buf[a + k] == 10u8 {
                assert(s.contains(a + k + 1));
                let i = choose|i: int| 0 <= i < s.len() && s[i] == a + k + 1;
                if i <= n - 1 {
                    if i < n - 1 {
                        assert(s[i] < s[n - 1]);
                    }
                } else if n < s.len() && i > n {
                    assert(s[n] < s[i]);
                }
            }
        }
    }
}

proof fn lemma_start_found(buf: Seq<u8>, n: int, p: int)
    requires
        0 <= n <= buf.len(),
    ensures
        0 < p <= n && p < buf.len() && buf[p - 1] == 10u8 ==> starts_to(buf, n).contains(p),
    decreases n,
{
    if n > 0 {
        lemma_start_found(buf, n - 1, p);
        let had = starts_to(buf, n - 1);
        let all = starts_to(buf, n);
        if had.contains(p) {
            let i = choose|i: int| 0 <= i < had.len() && had[i] == p;
            assert(all[i] == p);
        }
        if p == n && p < buf.len() && buf[p - 1] == 10u8 {
            assert(all[had.len() as int] == p);
        }
    }
}

/// A buffer is UTF-16 exactly if it opens with the byte order mark of either order.
pub proof fn law_utf16_opens_with_its_mark(rest: Seq<u8>)
    ensures
        has_utf16_mark(seq![0xffu8, 0xfeu8] + rest),
        has_utf16_mark(seq![0xfeu8, 0xffu8] + rest),
        has_utf16_mark(rest) ==> rest.take(2) == seq![0xffu8, 0xfeu8] || rest.take(2) == seq![0xfeu8, 0xffu8],
{
    if has_utf16_mark(rest) {
        assert(rest.take(2) =~= seq![0xffu8, 0xfeu8] || rest.take(2) =~= seq![0xfeu8, 0xffu8]);
    }
}

} // verus!
