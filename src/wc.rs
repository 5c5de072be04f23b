use vstd::prelude::*;

verus! {

/// Unicode `White_Space`, the set that `split_whitespace` splits on.
pub open spec fn white_space(c: char) -> bool {
    let u = c as u32;
    (0x9 <= u <= 0xd) || u == 0x20 || u == 0x85 || u == 0xa0 || u == 0x1680 || (0x2000 <= u
        <= 0x200a) || u == 0x2028 || u == 0x2029 || u == 0x202f || u == 0x205f || u == 0x3000
}

pub fn is_white_space(c: char) -> (r: bool)
    ensures
        r == white_space(c),
{
    let u = c as u32;
    (0x9 <= u && u <= 0xd) || u == 0x20 || u == 0x85 || u == 0xa0 || u == 0x1680 || (0x2000 <= u
        && u <= 0x200a) || u == 0x2028 || u == 0x2029 || u == 0x202f || u == 0x205f || u == 0x3000
}

/// Number of maximal runs of non-white-space characters in `s`.
pub open spec fn words_in(s: Seq<char>) -> nat
    decreases s.len(),
{
    if s.len() == 0 {
        0
    } else {
        let starts = !white_space(s.last()) && (s.len() == 1 || white_space(s[s.len() - 2]));
        words_in(s.drop_last()) + if starts {
            1nat
        } else {
            0nat
        }
    }
}

pub open spec fn total_words(lines: Seq<String>) -> nat
    decreases lines.len(),
{
    if lines.len() == 0 {
        0
    } else {
        total_words(lines.drop_last()) + words_in(lines.last()@)
    }
}

/// Length of a string in UTF-8 bytes.
pub open spec fn byte_len(s: String) -> nat {
    vstd::utf8::encode_utf8(s@).len()
}

pub open spec fn total_byte_len(lines: Seq<String>) -> nat
    decreases lines.len(),
{
    if lines.len() == 0 {
        0
    } else {
        total_byte_len(lines.drop_last()) + byte_len(lines.last())
    }
}

fn words_in_line(line: &str) -> (r: usize)
    ensures
        r == words_in(line@),
{
    let n = line.unicode_len();
    let mut count: usize = 0;
    let mut prev_white = true;
    let mut i: usize = 0;
    while i < n
        invariant
            n == line@.len(),
            i <= n,
            count == words_in(line@.subrange(0, i as int)),
            count <= i,
            prev_white == (i == 0 || white_space(line@[i - 1])),
        decreases n - i,
    {
        let c = line.get_char(i);
        let white = is_white_space(c);
        let ghost pre = line@.subrange(0, i as int);
        let ghost next = line@.subrange(0, i + 1 as int);
        assert(next.drop_last() =~= pre);
        if !white && prev_white {
            count = count + 1;
        }
        prev_white = white;
        i = i + 1;
    }
    assert(line@.subrange(0, n as int) =~= line@);
    count
}

/// Number of white-space separated words over all lines.
pub fn count_words(lines: &Vec<String>) -> (r: usize)
    requires
        total_words(lines@) <= usize::MAX,
    ensures
        r == total_words(lines@),
{
    let mut words: usize = 0;
    let mut i: usize = 0;
    while i < lines.len()
        invariant
            i <= lines@.len(),
            words == total_words(lines@.subrange(0, i as int)),
            total_words(lines@) <= usize::MAX,
        decreases lines@.len() - i,
    {
        let w = words_in_line(lines[i].as_str());
        let ghost next = lines@.subrange(0, i + 1 as int);
        assert(next.drop_last() =~= lines@.subrange(0, i as int));
        proof {
            lemma_total_words_prefix(lines@, i + 1);
        }
        words = words + w;
        i = i + 1;
    }
    assert(lines@.subrange(0, i as int) =~= lines@);
    words
}

proof fn lemma_total_words_prefix(lines: Seq<String>, k: int)
    requires
        0 <= k <= lines.len(),
    ensures
        total_words(lines.subrange(0, k)) <= total_words(lines),
    decreases lines.len() - k,
{
    if k < lines.len() {
        lemma_total_words_prefix(lines, k + 1);
        assert(lines.subrange(0, k + 1).drop_last() =~= lines.subrange(0, k));
    } else {
        assert(lines.subrange(0, k) =~= lines);
    }
}

proof fn lemma_total_bytes_prefix(lines: Seq<String>, k: int)
    requires
        0 <= k <= lines.len(),
    ensures
        total_byte_len(lines.subrange(0, k)) <= total_byte_len(lines),
    decreases lines.len() - k,
{
    if k < lines.len() {
        lemma_total_bytes_prefix(lines, k + 1);
        assert(lines.subrange(0, k + 1).drop_last() =~= lines.subrange(0, k));
    } else {
        assert(lines.subrange(0, k) =~= lines);
    }
}

pub fn count_lines(lines: &Vec<String>) -> (r: usize)
    ensures
        r == lines@.len(),
{
    lines.len()
}

/// Number of bytes over all lines (line breaks excluded).
pub fn count_chars(lines: &Vec<String>) -> (r: usize)
    requires
        total_byte_len(lines@) <= usize::MAX,
    ensures
        r == total_byte_len(lines@),
{
    let mut chars: usize = 0;
    let mut i: usize = 0;
    while i < lines.len()
        invariant
            i <= lines@.len(),
            chars == total_byte_len(lines@.subrange(0, i as int)),
            total_byte_len(lines@) <= usize::MAX,
        decreases lines@.len() - i,
    {
        let b = lines[i].as_str().as_bytes().len();
        let ghost next = lines@.subrange(0, i + 1 as int);
        assert(next.drop_last() =~= lines@.subrange(0, i as int));
        proof {
            lemma_total_bytes_prefix(lines@, i + 1);
        }
        chars = chars + b;
        i = i + 1;
    }
    assert(lines@.subrange(0, i as int) =~= lines@);
    chars
}

} // verus!
