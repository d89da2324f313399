//! The G-code grammar: comments, extrusion moves, numbers.
use crate::text::{
    chars_of, is_digit, is_digit_char, is_space, is_space_char, matches_at, single_line,
    skip_digits, skip_digits_in, skip_spaces, skip_spaces_in, string_of, trim, trim_bounds,
};
use vstd::prelude::*;

verus! {

/// The text of a comment line: blanks, `;`, then the rest of the line, which may end
/// in a line feed but hold no other; the text is that rest without the line feed and
/// without surrounding whitespace.
pub open spec fn comment_text(s: Seq<char>) -> Option<Seq<char>> {
    let i = skip_spaces(s, 0);
    if i < s.len() && s[i] == ';' {
        let rest = s.subrange(i + 1, s.len() as int);
        if single_line(rest) {
            Some(trim(rest))
        } else if rest.last() == '\n' && single_line(rest.drop_last()) {
            Some(trim(rest.drop_last()))
        } else {
            None
        }
    } else {
        None
    }
}

/// The bounds in `line` of the text of its comment, if it is a comment line.
pub fn comment_bounds(line: &Vec<char>) -> (r: Option<(usize, usize)>)
    ensures
        r is None <==> comment_text(line@) is None,
        r matches Some(ab) ==> ab.0 <= ab.1 <= line@.len() && comment_text(line@) == Some(
            line@.subrange(ab.0 as int, ab.1 as int),
        ),
{
    let i = skip_spaces_in(line, 0);
    if i >= line.len() || line[i] != ';' {
        return None;
    }
    let ghost rest = line@.subrange(i + 1, line@.len() as int);
    let mut k = i + 1;
    while k < line.len() && line[k] != '\n'
        invariant
            i + 1 <= k <= line@.len(),
            forall|j: int| i + 1 <= j < k ==> line@[j] != '\n',
        decreases line@.len() - k,
    {
        k = k + 1;
    }
    if k == line.len() {
        assert(rest =~= line@.subrange(i + 1, k as int));
        assert(single_line(rest)) by {
            assert forall|j: int| 0 <= j < rest.len() implies rest[j] != '\n' by {
                assert(rest[j] == line@[i + 1 + j]);
            }
        }
        let (a, b) = trim_bounds(line, i + 1, k);
        return Some((a, b));
    }
    if k + 1 == line.len() {
        assert(rest.drop_last() =~= line@.subrange(i + 1, k as int));
        assert(single_line(rest.drop_last())) by {
            assert forall|j: int| 0 <= j < rest.drop_last().len() implies rest.drop_last()[j]
                != '\n' by {
                assert(rest.drop_last()[j] == line@[i + 1 + j]);
            }
        }
        assert(rest[k - i - 1] == '\n');
        assert(!single_line(rest));
        assert(rest.last() == '\n');
        let (a, b) = trim_bounds(line, i + 1, k);
        return Some((a, b));
    }
    assert(rest[k - i - 1] == '\n');
    assert(rest.drop_last()[k - i - 1] == '\n');
    None
}

/// `c` is `p`, or the upper case of the ASCII lower-case letter `p`.
pub open spec fn caseless_eq(c: char, p: char) -> bool {
    c == p || ('a' <= p <= 'z' && c as u32 == p as u32 - 32)
}

/// The lower-case word `p` stands at `i` in `s`, ignoring ASCII case.
pub open spec fn caseless_at(s: Seq<char>, i: int, p: Seq<char>) -> bool {
    0 <= i && i + p.len() <= s.len() && forall|k: int|
        0 <= k < p.len() ==> #[trigger] caseless_eq(s[i + k], p[k])
}

/// `s[i]` is a sign.
pub open spec fn sign_at(s: Seq<char>, i: int) -> bool {
    0 <= i < s.len() && (s[i] == '+' || s[i] == '-')
}

/// Where the digits of a number (with its fraction) that starts at `a` end.
pub open spec fn mantissa_end(s: Seq<char>, a: int) -> Option<int> {
    let d = skip_digits(s, a);
    if d > a {
        if d < s.len() && s[d] == '.' {
            Some(skip_digits(s, d + 1))
        } else {
            Some(d)
        }
    } else if a < s.len() && s[a] == '.' && skip_digits(s, a + 1) > a + 1 {
        Some(skip_digits(s, a + 1))
    } else {
        None
    }
}

/// Where the float that starts at `i` in `s` ends: an optional sign, digits with an
/// optional fraction (or a fraction alone), an optional exponent that must hold digits
/// once `e` or `E` stands there; or `nan`, or a signed `infinity` or `inf`, in any ASCII case.
pub open spec fn float_end(s: Seq<char>, i: int) -> Option<int> {
    let a = if sign_at(s, i) {
        i + 1
    } else {
        i
    };
    match mantissa_end(s, a) {
        Some(m) => if m < s.len() && (s[m] == 'e' || s[m] == 'E') {
            let b = if sign_at(s, m + 1) {
                m + 2
            } else {
                m + 1
            };
            let ed = skip_digits(s, b);
            if ed > b {
                Some(ed)
            } else {
                None
            }
        } else {
            Some(m)
        },
        None => if caseless_at(s, i, seq!['n', 'a', 'n']) {
            Some(i + 3)
        } else if caseless_at(s, a, seq!['i', 'n', 'f', 'i', 'n', 'i', 't', 'y']) {
            Some(a + 8)
        } else if caseless_at(s, a, seq!['i', 'n', 'f']) {
            Some(a + 3)
        } else {
            None
        },
    }
}

fn sign_at_in(v: &Vec<char>, i: usize) -> (r: bool)
    ensures
        r == sign_at(v@, i as int),
{
    i < v.len() && (v[i] == '+' || v[i] == '-')
}

fn caseless_at_in(v: &Vec<char>, i: usize, p: &Vec<char>) -> (r: bool)
    requires
        forall|k: int| 0 <= k < p@.len() ==> 'a' <= #[trigger] p@[k] <= 'z',
    ensures
        r == caseless_at(v@, i as int, p@),
{
    let n = v.len();
    if i > n || p.len() > n - i {
        return false;
    }
    let mut k: usize = 0;
    while k < p.len()
        invariant
            k <= p@.len(),
            i + p@.len() <= v@.len(),
            n == v@.len(),
            forall|m: int| 0 <= m < p@.len() ==> 'a' <= #[trigger] p@[m] <= 'z',
            forall|m: int| 0 <= m < k ==> #[trigger] caseless_eq(v@[i + m], p@[m]),
        decreases p@.len() - k,
    {
        let c = v[i + k];
        let q = p[k];
        if !(c == q || (c as u32) == (q as u32) - 32) {
            assert(!caseless_eq(v@[i + k], p@[k as int]));
            return false;
        }
        k = k + 1;
    }
    true
}

fn mantissa_end_in(v: &Vec<char>, a: usize) -> (r: Option<usize>)
    requires
        a <= v@.len(),
    ensures
        r is None <==> mantissa_end(v@, a as int) is None,
        r matches Some(m) ==> mantissa_end(v@, a as int) == Some(m as int),
        r matches Some(m) ==> a <= m <= v@.len(),
{
    let n = v.len();
    let d = skip_digits_in(v, a);
    if d > a {
        if d < v.len() && v[d] == '.' {
            Some(skip_digits_in(v, d + 1))
        } else {
            Some(d)
        }
    } else if a < v.len() && v[a] == '.' {
        let e = skip_digits_in(v, a + 1);
        if e > a + 1 {
            Some(e)
        } else {
            None
        }
    } else {
        None
    }
}

/// Where the float that starts at `i` in `v` ends.
pub fn float_end_in(v: &Vec<char>, i: usize) -> (r: Option<usize>)
    requires
        i <= v@.len(),
    ensures
        r is None <==> float_end(v@, i as int) is None,
        r matches Some(m) ==> float_end(v@, i as int) == Some(m as int),
        r matches Some(m) ==> i <= m <= v@.len(),
{
    let n = v.len();
    let a = if sign_at_in(v, i) {
        i + 1
    } else {
        i
    };
    match mantissa_end_in(v, a) {
        Some(m) => {
            if m < v.len() && (v[m] == 'e' || v[m] == 'E') {
                let b = if sign_at_in(v, m + 1) {
                    m + 2
                } else {
                    m + 1
                };
                let ed = skip_digits_in(v, b);
                if ed > b {
                    Some(ed)
                } else {
                    None
                }
            } else {
                Some(m)
            }
        },
        None => {
            let nan = chars_of("nan");
            let infinity = chars_of("infinity");
            let inf = chars_of("inf");
            proof {
                reveal_strlit("nan");
                reveal_strlit("infinity");
                reveal_strlit("inf");
                assert(nan@ == seq!['n', 'a', 'n']);
                assert(infinity@ == seq!['i', 'n', 'f', 'i', 'n', 'i', 't', 'y']);
                assert(inf@ == seq!['i', 'n', 'f']);
            }
            assert(mantissa_end(v@, a as int) is None);
            if caseless_at_in(v, i, &nan) {
                assert(float_end(v@, i as int) == Some(i + 3));
                Some(i + 3)
            } else if caseless_at_in(v, a, &infinity) {
                Some(a + 8)
            } else if caseless_at_in(v, a, &inf) {
                Some(a + 3)
            } else {
                None
            }
        },
    }
}

/// The first index at or after `i` that holds a blank, or the end.
pub open spec fn skip_nonspaces(s: Seq<char>, i: int) -> int
    decreases s.len() - i,
{
    if 0 <= i < s.len() && !is_space(s[i]) {
        skip_nonspaces(s, i + 1)
    } else {
        i
    }
}

/// One coordinate of a move at `p`: blanks, `X`, `Y` or `E`, a float, blanks.
/// Gives the letter, the bounds of the float and where the item ends.
pub open spec fn move_item(s: Seq<char>, p: int) -> Option<(char, int, int, int)> {
    let q = skip_spaces(s, p);
    if 0 <= q < s.len() && (s[q] == 'X' || s[q] == 'Y' || s[q] == 'E') {
        match float_end(s, q + 1) {
            Some(f) => Some((s[q], q + 1, f, skip_spaces(s, f))),
            None => None,
        }
    } else {
        None
    }
}

/// The texts of the three numbers of an extrusion move.
pub struct MoveText {
    pub x: Seq<char>,
    pub y: Seq<char>,
    pub e: Seq<char>,
}

/// The float of the item among `a`, `b`, `c` whose letter is `l`.
pub open spec fn item_text(
    s: Seq<char>,
    a: (char, int, int, int),
    b: (char, int, int, int),
    c: (char, int, int, int),
    l: char,
) -> Seq<char> {
    if a.0 == l {
        s.subrange(a.1, a.2)
    } else if b.0 == l {
        s.subrange(b.1, b.2)
    } else {
        s.subrange(c.1, c.2)
    }
}

/// An extrusion move: `G`, at least one more character up to the first blank, then
/// the coordinates `X`, `Y` and `E`, each once, in any order; whatever follows them is
/// not looked at.
pub open spec fn extrude_text(s: Seq<char>) -> Option<MoveText> {
    if s.len() >= 2 && s[0] == 'G' && !is_space(s[1]) {
        match move_item(s, skip_nonspaces(s, 1)) {
            None => None,
            Some(a) => match move_item(s, a.3) {
                None => None,
                Some(b) => if b.0 == a.0 {
                    None
                } else {
                    match move_item(s, b.3) {
                        None => None,
                        Some(c) => if c.0 == a.0 || c.0 == b.0 {
                            None
                        } else {
                            Some(
                                MoveText {
                                    x: item_text(s, a, b, c, 'X'),
                                    y: item_text(s, a, b, c, 'Y'),
                                    e: item_text(s, a, b, c, 'E'),
                                },
                            )
                        },
                    }
                },
            },
        }
    } else {
        None
    }
}

/// An extrusion move, with the text of each of its numbers.
#[derive(Debug)]
pub struct ExtrudeMove {
    pub x: String,
    pub y: String,
    pub e: String,
}

fn move_item_in(v: &Vec<char>, p: usize) -> (r: Option<(char, usize, usize, usize)>)
    requires
        p <= v@.len(),
    ensures
        r is None <==> move_item(v@, p as int) is None,
        r matches Some(t) ==> move_item(v@, p as int) == Some((t.0, t.1 as int, t.2 as int, t.3 as int))
            && t.1 <= t.2 <= t.3 <= v@.len(),
{
    let q = skip_spaces_in(v, p);
    if q < v.len() && (v[q] == 'X' || v[q] == 'Y' || v[q] == 'E') {
        match float_end_in(v, q + 1) {
            Some(f) => Some((v[q], q + 1, f, skip_spaces_in(v, f))),
            None => None,
        }
    } else {
        None
    }
}

fn item_string(
    v: &Vec<char>,
    a: (char, usize, usize, usize),
    b: (char, usize, usize, usize),
    c: (char, usize, usize, usize),
    l: char,
) -> (r: String)
    requires
        a.1 <= a.2 <= v@.len(),
        b.1 <= b.2 <= v@.len(),
        c.1 <= c.2 <= v@.len(),
    ensures
        r@ == item_text(
            v@,
            (a.0, a.1 as int, a.2 as int, a.3 as int),
            (b.0, b.1 as int, b.2 as int, b.3 as int),
            (c.0, c.1 as int, c.2 as int, c.3 as int),
            l,
        ),
{
    if a.0 == l {
        string_of(v, a.1, a.2)
    } else if b.0 == l {
        string_of(v, b.1, b.2)
    } else {
        string_of(v, c.1, c.2)
    }
}

/// Reads `line` as an extrusion move.
pub fn extrude_move_in(line: &Vec<char>) -> (r: Option<ExtrudeMove>)
    ensures
        r is None <==> extrude_text(line@) is None,
        r matches Some(m) ==> extrude_text(line@) == Some(MoveText { x: m.x@, y: m.y@, e: m.e@ }),
{
    if line.len() < 2 || line[0] != 'G' || is_space_char(line[1]) {
        return None;
    }
    let mut j: usize = 1;
    while j < line.len() && !is_space_char(line[j])
        invariant
            1 <= j <= line@.len(),
            skip_nonspaces(line@, 1) == skip_nonspaces(line@, j as int),
        decreases line@.len() - j,
    {
        j = j + 1;
    }
    let a = match move_item_in(line, j) {
        Some(a) => a,
        None => return None,
    };
    let b = match move_item_in(line, a.3) {
        Some(b) => b,
        None => return None,
    };
    if b.0 == a.0 {
        return None;
    }
    let c = match move_item_in(line, b.3) {
        Some(c) => c,
        None => return None,
    };
    if c.0 == a.0 || c.0 == b.0 {
        return None;
    }
    Some(
        ExtrudeMove {
            x: item_string(line, a, b, c, 'X'),
            y: item_string(line, a, b, c, 'Y'),
            e: item_string(line, a, b, c, 'E'),
        },
    )
}

/// An `M486` command: `S` starts the object with the given number, `T` declares how many
/// objects there are.
#[derive(Clone, Copy, Debug, PartialEq, Eq)]
pub enum M486 {
    S(i32),
    T,
}

/// The value of the decimal digits `s[a..d]`.
pub open spec fn digits_value(s: Seq<char>, a: int, d: int) -> nat
    decreases d - a,
{
    if d <= a {
        0
    } else {
        digits_value(s, a, d - 1) * 10 + ((s[d - 1] as u32 - '0' as u32) as nat)
    }
}

/// A decimal `i32` at `p`: an optional sign and digits that do not start with `0`, or
/// a lone `0`; a value out of the range of `i32` is no match.
pub open spec fn dec_int(s: Seq<char>, p: int) -> Option<i32> {
    let a = if sign_at(s, p) {
        p + 1
    } else {
        p
    };
    if 0 <= a < s.len() && '1' <= s[a] <= '9' {
        let v = digits_value(s, a, skip_digits(s, a));
        let n: int = if a == p + 1 && s[p] == '-' {
            -v
        } else {
            v as int
        };
        if i32::MIN <= n <= i32::MAX {
            Some(n as i32)
        } else {
            None
        }
    } else if 0 <= p < s.len() && s[p] == '0' {
        Some(0)
    } else {
        None
    }
}

/// An `M486` line: blanks, `M486 `, blanks, then `S` and a decimal `i32`, or else `T`;
/// whatever follows is not looked at.
pub open spec fn m486_command(s: Seq<char>) -> Option<M486> {
    let i = skip_spaces(s, 0);
    if i + 5 <= s.len() && s.subrange(i, i + 5) == seq!['M', '4', '8', '6', ' '] {
        let j = skip_spaces(s, i + 5);
        let sv = if 0 <= j < s.len() && s[j] == 'S' {
            dec_int(s, j + 1)
        } else {
            None
        };
        match sv {
            Some(n) => Some(M486::S(n)),
            None => if 0 <= j < s.len() && s[j] == 'T' {
                Some(M486::T)
            } else {
                None
            },
        }
    } else {
        None
    }
}

proof fn lemma_digits_value_grows(s: Seq<char>, a: int, d: int)
    requires
        a < d,
        is_digit(s[d - 1]),
    ensures
        digits_value(s, a, d) >= digits_value(s, a, d - 1),
{
}

fn dec_int_in(v: &Vec<char>, p: usize) -> (r: Option<i32>)
    requires
        p <= v@.len(),
    ensures
        r == dec_int(v@, p as int),
{
    let n = v.len();
    let a = if sign_at_in(v, p) {
        p + 1
    } else {
        p
    };
    if a < n && '1' <= v[a] && v[a] <= '9' {
        let d = skip_digits_in(v, a);
        let bound: u64 = 2147483648;
        let mut acc: u64 = 0;
        let mut big = false;
        let mut k = a;
        while k < d
            invariant
                a <= k <= d <= v@.len(),
                d == skip_digits(v@, a as int),
                forall|m: int| a <= m < d ==> is_digit(#[trigger] v@[m]),
                !big ==> acc == digits_value(v@, a as int, k as int) && acc <= bound,
                big ==> digits_value(v@, a as int, k as int) > bound,
                bound == 2147483648,
            decreases d - k,
        {
            let digit = (v[k] as u32 - '0' as u32) as u64;
            proof {
                lemma_digits_value_grows(v@, a as int, k + 1);
            }
            if !big {
                acc = acc * 10 + digit;
                if acc > bound {
                    big = true;
                }
            }
            k = k + 1;
        }
        let neg = a == p + 1 && v[p] == '-';
        if big {
            return None;
        }
        if neg {
            Some((-(acc as i64)) as i32)
        } else if acc <= 2147483647 {
            Some(acc as i32)
        } else {
            None
        }
    } else if p < n && v[p] == '0' {
        Some(0)
    } else {
        None
    }
}

/// Reads `line` as an `M486` command.
pub fn m486_parse(line: &Vec<char>) -> (r: Option<M486>)
    ensures
        r == m486_command(line@),
{
    let n = line.len();
    let i = skip_spaces_in(line, 0);
    let tag = chars_of("M486 ");
    proof {
        reveal_strlit("M486 ");
        assert(tag@ == seq!['M', '4', '8', '6', ' ']);
    }
    if !matches_at(line, i, &tag) {
        return None;
    }
    let j = skip_spaces_in(line, i + 5);
    let sv = if j < line.len() && line[j] == 'S' {
        dec_int_in(line, j + 1)
    } else {
        None
    };
    match sv {
        Some(n) => Some(M486::S(n)),
        None => if j < line.len() && line[j] == 'T' {
            Some(M486::T)
        } else {
            None
        },
    }
}

impl M486 {
    /// Reads `line` as an `M486` command.
    pub fn parse(line: &str) -> (r: Option<M486>)
        ensures
            r == m486_command(line@),
    {
        let v = chars_of(line);
        m486_parse(&v)
    }
}

/// The text of the comment of `line`, if it is a comment line.
pub fn comment(line: &str) -> (r: Option<String>)
    ensures
        r is None <==> comment_text(line@) is None,
        r matches Some(t) ==> comment_text(line@) == Some(t@),
{
    let v = chars_of(line);
    match comment_bounds(&v) {
        Some((a, b)) => Some(string_of(&v, a, b)),
        None => None,
    }
}

/// Reads `line` as an extrusion move.
pub fn extrude_move(line: &str) -> (r: Option<ExtrudeMove>)
    ensures
        r is None <==> extrude_text(line@) is None,
        r matches Some(m) ==> extrude_text(line@) == Some(MoveText { x: m.x@, y: m.y@, e: m.e@ }),
{
    let v = chars_of(line);
    extrude_move_in(&v)
}

} // verus!
