//! A G-code file as a sequence of lines, and the byte offsets at which they end.
use crate::text::{chars_of, string_of};
use vstd::prelude::*;
use vstd::utf8::encode_utf8;

verus! {

/// The number of bytes of the UTF-8 encoding of the first `i` lines.
pub open spec fn prefix_len(lines: Seq<Seq<char>>, i: int) -> nat
    decreases i,
{
    if i <= 0 {
        0
    } else {
        prefix_len(lines, i - 1) + encode_utf8(lines[i - 1]).len()
    }
}

/// The number of bytes of the whole file.
pub open spec fn doc_len(lines: Seq<Seq<char>>) -> nat {
    prefix_len(lines, lines.len() as int)
}

/// The lines, as sequences of characters.
pub open spec fn lines_view(v: Seq<String>) -> Seq<Seq<char>> {
    v.map_values(|l: String| l@)
}

/// Offsets grow with the number of lines.
pub proof fn lemma_prefix_len_mono(lines: Seq<Seq<char>>, i: int, j: int)
    requires
        i <= j,
    ensures
        prefix_len(lines, i) <= prefix_len(lines, j),
    decreases j - i,
{
    if i < j {
        lemma_prefix_len_mono(lines, i, j - 1);
    }
}

/// The byte offset at which line `i` ends, given the offset at which it starts.
pub fn line_end(lines: &Vec<String>, i: usize, start: u64) -> (r: u64)
    requires
        i < lines@.len(),
        start == prefix_len(lines_view(lines@), i as int),
        doc_len(lines_view(lines@)) <= u64::MAX,
    ensures
        r == prefix_len(lines_view(lines@), i + 1),
{
    proof {
        lemma_prefix_len_mono(lines_view(lines@), i + 1, lines@.len() as int);
        assert(lines_view(lines@)[i as int] == lines@[i as int]@);
    }
    let n = lines[i].as_str().as_bytes().len();
    start + n as u64
}

/// The lines put back together.
pub open spec fn concat(lines: Seq<Seq<char>>) -> Seq<char>
    decreases lines.len(),
{
    if lines.len() == 0 {
        seq![]
    } else {
        concat(lines.drop_last()) + lines.last()
    }
}

/// `text` cut into lines as reading it line by line gives them: each line ends with
/// its line feed, the last one may lack it, and no line is empty.
pub open spec fn is_line_split(lines: Seq<Seq<char>>, text: Seq<char>) -> bool {
    &&& concat(lines) == text
    &&& forall|i: int| 0 <= i < lines.len() ==> #[trigger] lines[i].len() > 0
    &&& forall|i: int, j: int|
        0 <= i < lines.len() && 0 <= j < lines[i].len() - 1 ==> #[trigger] lines[i][j] != '\n'
    &&& forall|i: int| 0 <= i < lines.len() - 1 ==> #[trigger] lines[i].last() == '\n'
}

/// Cuts `text` into its lines.
pub fn split_lines(text: &str) -> (r: Vec<String>)
    ensures
        is_line_split(lines_view(r@), text@),
{
    let cs = chars_of(text);
    let mut r: Vec<String> = Vec::new();
    let mut start: usize = 0;
    let mut i: usize = 0;
    while i < cs.len()
        invariant
            start <= i <= cs@.len(),
            cs@ == text@,
            concat(lines_view(r@)) == cs@.take(start as int),
            forall|k: int| start <= k < i ==> cs@[k] != '\n',
            forall|k: int| 0 <= k < r@.len() ==> #[trigger] r@[k]@.len() > 0,
            forall|k: int, j: int|
                0 <= k < r@.len() && 0 <= j < r@[k]@.len() - 1 ==> #[trigger] r@[k]@[j] != '\n',
            forall|k: int| 0 <= k < r@.len() ==> #[trigger] r@[k]@.last() == '\n',
        decreases cs@.len() - i,
    {
        if cs[i] == '\n' {
            let line = string_of(&cs, start, i + 1);
            let ghost before = lines_view(r@);
            r.push(line);
            proof {
                assert(lines_view(r@) =~= before.push(line@));
                assert(lines_view(r@).drop_last() =~= before);
                assert(cs@.take(start as int) + cs@.subrange(start as int, i + 1) =~= cs@.take(
                    i + 1,
                ));
            }
            start = i + 1;
        }
        i = i + 1;
    }
    if start < cs.len() {
        let line = string_of(&cs, start, cs.len());
        let ghost before = lines_view(r@);
        r.push(line);
        proof {
            assert(lines_view(r@) =~= before.push(line@));
            assert(lines_view(r@).drop_last() =~= before);
            assert(cs@.take(start as int) + cs@.subrange(start as int, cs@.len() as int) =~= cs@);
        }
    } else {
        assert(cs@.take(start as int) =~= cs@);
    }
    r
}

} // verus!
