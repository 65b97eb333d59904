use vstd::prelude::*;

use crate::bits::{on_grid, Position};
use crate::reach::cell;

verus! {

broadcast use vstd::string::group_string_axioms;

/// Why a board's text was rejected.
#[derive(Debug, Clone, Copy, PartialEq, Eq, Structural)]
pub enum ParseError {
    /// The text has no line.
    EmptyBoard,
    /// The widest line has this many bytes, more than 64.
    WidthTooLarge(usize),
    /// The text has this many lines, more than 64.
    HeightTooLarge(usize),
    /// A second player character was found.
    MultiplePlayers,
    /// This character at this column and line is not part of the format.
    InvalidCharacter(char, usize, usize),
    /// No player character was found.
    NoPlayer,
    /// The number of goals and the number of boxes differ.
    CountMismatch(usize, usize),
}

/// The characters of a string, as a vector.
pub fn chars_of(text: &str) -> (r: Vec<char>)
    ensures
        r@ == text@,
{
    let mut v: Vec<char> = Vec::new();
    for c in it: text.chars()
        invariant
            it.seq() == text@,
            v@ == text@.take(it.index() as int),
    {
        v.push(c);
    }
    v
}

/// The string of a sequence of characters, through std's
/// `String::from_iter`; its contract claims that the string holds exactly
/// those characters, in order.
#[verifier::external_body]
pub(crate) fn string_from_chars(chars: &Vec<char>) -> (r: String)
    ensures
        r@ == chars@,
{
    String::from_iter(chars.iter())
}

/// A line without its trailing spaces.
pub open spec fn trim_spaces(s: Seq<char>) -> Seq<char>
    decreases s.len(),
{
    if s.len() > 0 && s.last() == ' ' {
        trim_spaces(s.drop_last())
    } else {
        s
    }
}

/// Unicode's White_Space characters, those that `str::trim_end` removes.
pub open spec fn is_white_space(c: char) -> bool {
    let n = c as u32;
    ||| 0x9 <= n <= 0xD
    ||| n == 0x20
    ||| n == 0x85
    ||| n == 0xA0
    ||| n == 0x1680
    ||| 0x2000 <= n <= 0x200A
    ||| n == 0x2028
    ||| n == 0x2029
    ||| n == 0x202F
    ||| n == 0x205F
    ||| n == 0x3000
}

pub fn is_white_space_exec(c: char) -> (r: bool)
    ensures
        r == is_white_space(c),
{
    let n = c as u32;
    (0x9 <= n && n <= 0xD) || n == 0x20 || n == 0x85 || n == 0xA0 || n == 0x1680 || (0x2000 <= n && n
        <= 0x200A) || n == 0x2028 || n == 0x2029 || n == 0x202F || n == 0x205F || n == 0x3000
}

/// A text without its trailing white space.
pub open spec fn trim_end(s: Seq<char>) -> Seq<char>
    decreases s.len(),
{
    if s.len() > 0 && is_white_space(s.last()) {
        trim_end(s.drop_last())
    } else {
        s
    }
}

/// Removes the trailing white space of a text.
pub fn trim_end_chars(s: &mut Vec<char>)
    ensures
        final(s)@ == trim_end(old(s)@),
{
    while s.len() > 0 && is_white_space_exec(s[s.len() - 1])
        invariant
            trim_end(s@) == trim_end(old(s)@),
        decreases s@.len(),
    {
        let ghost l0 = s@;
        s.pop();
        assert(s@ == l0.drop_last());
    }
}

/// A line whose first character other than white space is `;`.
pub open spec fn comment_line(l: Seq<char>) -> bool
    decreases l.len(),
{
    if l.len() == 0 {
        false
    } else if is_white_space(l[0]) {
        comment_line(l.drop_first())
    } else {
        l[0] == ';'
    }
}

pub fn is_comment_line(l: &Vec<char>) -> (r: bool)
    ensures
        r == comment_line(l@),
{
    let mut i: usize = 0;
    assert(l@.skip(0) =~= l@);
    while i < l.len()
        invariant
            i <= l@.len(),
            comment_line(l@) == comment_line(l@.skip(i as int)),
        decreases l@.len() - i,
    {
        assert(l@.skip(i as int).drop_first() =~= l@.skip(i + 1));
        if !is_white_space_exec(l[i]) {
            return l[i] == ';';
        }
        i = i + 1;
    }
    assert(l@.skip(i as int).len() == 0);
    false
}

/// The first line break at or after `i`, or the end of `s`.
pub open spec fn find_newline(s: Seq<char>, i: int) -> int
    decreases s.len() - i,
{
    if i >= s.len() {
        s.len() as int
    } else if s[i] == '\n' {
        i
    } else {
        find_newline(s, i + 1)
    }
}

/// A line without the carriage return that ends it, if any.
pub open spec fn strip_cr(line: Seq<char>) -> Seq<char> {
    if line.len() > 0 && line.last() == '\r' {
        line.drop_last()
    } else {
        line
    }
}

/// The lines of `s` from index `i` on: split at `\n`, a `\r` before the
/// `\n` dropped, and a final line break not starting a new line.
pub open spec fn lines_from(s: Seq<char>, i: int) -> Seq<Seq<char>>
    decreases s.len() - i,
{
    if i < 0 || i >= s.len() {
        seq![]
    } else {
        let j = find_newline(s, i);
        proof {
            lemma_find_newline(s, i);
        }
        if j < s.len() {
            seq![strip_cr(s.subrange(i, j))] + lines_from(s, j + 1)
        } else {
            seq![s.subrange(i, s.len() as int)]
        }
    }
}

/// The lines of a text.
pub open spec fn lines(s: Seq<char>) -> Seq<Seq<char>> {
    lines_from(s, 0)
}

pub proof fn lemma_find_newline(s: Seq<char>, i: int)
    requires
        0 <= i <= s.len(),
    ensures
        i <= find_newline(s, i) <= s.len(),
        forall|k: int| i <= k < find_newline(s, i) ==> s[k] != '\n',
        find_newline(s, i) < s.len() ==> s[find_newline(s, i)] == '\n',
    decreases s.len() - i,
{
    if i < s.len() && s[i] != '\n' {
        lemma_find_newline(s, i + 1);
    }
}

/// Splits a text into its lines.
pub fn split_lines(s: &Vec<char>) -> (r: Vec<Vec<char>>)
    ensures
        r@.len() == lines(s@).len(),
        forall|k: int| 0 <= k < r@.len() ==> #[trigger] r@[k]@ == lines(s@)[k],
{
    let mut r: Vec<Vec<char>> = Vec::new();
    let mut i: usize = 0;
    let n = s.len();
    let ghost all = lines(s@);
    while i < n
        invariant
            n == s@.len(),
            i <= n,
            lines_from(s@, i as int).len() + r@.len() == all.len(),
            forall|k: int| 0 <= k < r@.len() ==> #[trigger] r@[k]@ == all[k],
            forall|k: int|
                0 <= k < lines_from(s@, i as int).len() ==> #[trigger] lines_from(
                    s@,
                    i as int,
                )[k] == all[r@.len() + k],
        decreases n - i,
    {
        proof {
            lemma_find_newline(s@, i as int);
        }
        let mut line: Vec<char> = Vec::new();
        let mut j = i;
        while j < n && s[j] != '\n'
            invariant
                n == s@.len(),
                i <= j <= n,
                j <= find_newline(s@, i as int),
                line@ == s@.subrange(i as int, j as int),
                forall|k: int| i <= k < find_newline(s@, i as int) ==> s@[k] != '\n',
                find_newline(s@, i as int) < s@.len() ==> s@[find_newline(s@, i as int)] == '\n',
            decreases n - j,
        {
            line.push(s[j]);
            j = j + 1;
        }
        assert(j == find_newline(s@, i as int));
        let ghost rest = lines_from(s@, i as int);
        if j < n {
            if line.len() > 0 && line[line.len() - 1] == '\r' {
                line.pop();
            }
            assert(line@ == rest[0]);
            proof {
                assert(rest == seq![strip_cr(s@.subrange(i as int, j as int))] + lines_from(
                    s@,
                    j + 1,
                ));
                assert forall|k: int| 0 <= k < lines_from(s@, j + 1).len() implies #[trigger] lines_from(
                    s@,
                    j + 1,
                )[k] == all[r@.len() + 1 + k] by {
                    assert(lines_from(s@, j + 1)[k] == rest[k + 1]);
                }
            }
            r.push(line);
            i = j + 1;
        } else {
            assert(line@ == rest[0]);
            assert(rest.len() == 1);
            r.push(line);
            i = n;
            assert(lines_from(s@, i as int).len() == 0);
        }
    }
    r
}

/// The number of bytes that UTF-8 takes for a character.
pub open spec fn char_bytes(c: char) -> nat {
    if (c as u32) < 0x80 {
        1
    } else if (c as u32) < 0x800 {
        2
    } else if (c as u32) < 0x10000 {
        3
    } else {
        4
    }
}

/// The number of bytes that UTF-8 takes for a line.
pub open spec fn byte_len(s: Seq<char>) -> nat
    decreases s.len(),
{
    if s.len() == 0 {
        0
    } else {
        byte_len(s.drop_last()) + char_bytes(s.last())
    }
}

/// The largest byte length among the first `n` lines.
pub open spec fn max_width(ls: Seq<Seq<char>>, n: int) -> nat
    decreases n,
{
    if n <= 0 {
        0
    } else {
        let w = max_width(ls, n - 1);
        let b = byte_len(ls[n - 1]);
        if b > w {
            b
        } else {
            w
        }
    }
}

/// A count kept in a `usize`, held at `usize::MAX` when it would not fit.
pub open spec fn saturate(n: nat) -> usize {
    if n > usize::MAX {
        usize::MAX
    } else {
        n as usize
    }
}

fn char_byte_count(c: char) -> (r: usize)
    ensures
        r == char_bytes(c),
{
    let v = c as u32;
    if v < 0x80 {
        1
    } else if v < 0x800 {
        2
    } else if v < 0x10000 {
        3
    } else {
        4
    }
}

/// The byte length of a line, held at `usize::MAX` when it would not fit.
pub fn line_byte_len(line: &Vec<char>) -> (r: usize)
    ensures
        r == saturate(byte_len(line@)),
{
    let mut total: usize = 0;
    let mut i: usize = 0;
    while i < line.len()
        invariant
            i <= line@.len(),
            total == saturate(byte_len(line@.take(i as int))),
        decreases line@.len() - i,
    {
        assert(line@.take(i + 1).drop_last() == line@.take(i as int));
        total = total.saturating_add(char_byte_count(line[i]));
        i = i + 1;
    }
    assert(line@.take(i as int) == line@);
    total
}

/// The width of a board text: the byte length of its widest line, held at
/// `usize::MAX` when it would not fit.
pub fn board_width(ls: &Vec<Vec<char>>) -> (r: usize)
    ensures
        r == saturate(max_width(ls@.map_values(|l: Vec<char>| l@), ls@.len() as int)),
{
    let ghost v = ls@.map_values(|l: Vec<char>| l@);
    let mut width: usize = 0;
    let mut k: usize = 0;
    while k < ls.len()
        invariant
            k <= ls@.len(),
            v == ls@.map_values(|l: Vec<char>| l@),
            width == saturate(max_width(v, k as int)),
        decreases ls@.len() - k,
    {
        let w = line_byte_len(&ls[k]);
        assert(v[k as int] == ls@[k as int]@);
        if w > width {
            width = w;
        }
        k = k + 1;
    }
    width
}

/// The state of a scan over a board's characters: the first error, the
/// player, the boxes and the goals in reading order, and the number of boxes
/// that stand on goals.
pub type ScanState = (Option<ParseError>, Option<Position>, Seq<Position>, Seq<Position>, nat);

pub open spec fn scan_start() -> ScanState {
    (None, None, Seq::empty(), Seq::empty(), 0)
}

/// The effect of one character at column `x` of line `y`.
pub open spec fn scan_step(st: ScanState, c: char, x: int, y: int) -> ScanState {
    let pos = Position(x as u8, y as u8);
    if st.0 is Some {
        st
    } else if c == '#' || c == ' ' {
        st
    } else if c == '.' {
        (st.0, st.1, st.2, st.3.push(pos), st.4)
    } else if c == '$' {
        (st.0, st.1, st.2.push(pos), st.3, st.4)
    } else if c == '*' {
        (st.0, st.1, st.2.push(pos), st.3.push(pos), st.4 + 1)
    } else if c == '@' || c == '+' {
        if st.1 is Some {
            (Some(ParseError::MultiplePlayers), st.1, st.2, st.3, st.4)
        } else if c == '+' {
            (st.0, Some(pos), st.2, st.3.push(pos), st.4)
        } else {
            (st.0, Some(pos), st.2, st.3, st.4)
        }
    } else {
        (Some(ParseError::InvalidCharacter(c, x as usize, y as usize)), st.1, st.2, st.3, st.4)
    }
}

/// The state after the lines before `y` and the first `x` characters of line `y`.
pub open spec fn scan_upto(ls: Seq<Seq<char>>, y: int, x: int) -> ScanState
    decreases y, x,
{
    if y < 0 || x < 0 {
        scan_start()
    } else if x > 0 {
        scan_step(scan_upto(ls, y, x - 1), ls[y][x - 1], x - 1, y)
    } else if y > 0 {
        scan_upto(ls, y - 1, ls[y - 1].len() as int)
    } else {
        scan_start()
    }
}

/// The state after all the lines.
pub open spec fn scan_all(ls: Seq<Seq<char>>) -> ScanState {
    if ls.len() == 0 {
        scan_start()
    } else {
        scan_upto(ls, ls.len() - 1, ls[ls.len() - 1].len() as int)
    }
}

/// Once the scan has met an error, the error stays.
pub proof fn lemma_error_persists(ls: Seq<Seq<char>>, y: int, x: int, y2: int, x2: int)
    requires
        0 <= y < ls.len(),
        0 <= x <= ls[y].len(),
        y < y2 < ls.len() || (y == y2 && x <= x2),
        x2 <= ls[y2].len(),
        0 <= x2,
        scan_upto(ls, y, x).0 is Some,
    ensures
        scan_upto(ls, y2, x2).0 == scan_upto(ls, y, x).0,
    decreases y2, x2,
{
    if y2 == y && x2 == x {
    } else if x2 > 0 {
        lemma_error_persists(ls, y, x, y2, x2 - 1);
    } else {
        lemma_error_persists(ls, y, x, y2 - 1, ls[y2 - 1].len() as int);
    }
}

/// Once the scan has met an error, its whole state stays.
pub proof fn lemma_state_persists(ls: Seq<Seq<char>>, y: int, x: int, y2: int, x2: int)
    requires
        0 <= y < ls.len(),
        0 <= x <= ls[y].len(),
        y < y2 < ls.len() || (y == y2 && x <= x2),
        x2 <= ls[y2].len(),
        0 <= x2,
        scan_upto(ls, y, x).0 is Some,
    ensures
        scan_upto(ls, y2, x2) == scan_upto(ls, y, x),
    decreases y2, x2,
{
    if y2 == y && x2 == x {
    } else if x2 > 0 {
        lemma_state_persists(ls, y, x, y2, x2 - 1);
    } else {
        lemma_state_persists(ls, y, x, y2 - 1, ls[y2 - 1].len() as int);
    }
}

/// Whether the scan of a board text meets, before its first error, more
/// boxes or more goals than a level can hold.
pub fn too_many_pieces_in(text: &str) -> (r: bool)
    ensures
        r == too_many_pieces(text@, 64),
{
    let ls = match board_lines(text) {
        Ok((v, _)) => v,
        Err(_) => {
            return false;
        },
    };
    let ghost v = ls@.map_values(|l: Vec<char>| l@);
    proof {
        assert(v == lines(text@));
        assert forall|yy: int| 0 <= yy < ls@.len() implies #[trigger] ls@[yy]@.len() <= 64 by {
            assert(ls@[yy]@ == v[yy]);
        }
    }
    let mut has_player = false;
    let mut nb: usize = 0;
    let mut ng: usize = 0;
    let mut y: usize = 0;
    while y < ls.len()
        invariant
            v == ls@.map_values(|l: Vec<char>| l@),
            v == lines(text@),
            0 < ls@.len() <= 64,
            max_width(v, v.len() as int) <= 64,
            forall|yy: int| 0 <= yy < ls@.len() ==> #[trigger] ls@[yy]@.len() <= 64,
            y <= ls@.len(),
            ({
                let st = if y == 0 {
                    scan_start()
                } else {
                    scan_upto(v, y - 1, v[y - 1].len() as int)
                };
                &&& st.0 is None
                &&& has_player == st.1 is Some
                &&& nb == st.2.len()
                &&& ng == st.3.len()
            }),
            nb <= 64 * y,
            ng <= 64 * y,
        decreases ls@.len() - y,
    {
        let line = &ls[y];
        assert(line@ == v[y as int]);
        let mut x: usize = 0;
        while x < line.len()
            invariant
                max_width(v, v.len() as int) <= 64,
                v == lines(text@),
                v == ls@.map_values(|l: Vec<char>| l@),
                y < ls@.len() <= 64,
                line@ == v[y as int],
                line@.len() <= 64,
                x <= line@.len(),
                ({
                    let st = scan_upto(v, y as int, x as int);
                    &&& st.0 is None
                    &&& has_player == st.1 is Some
                    &&& nb == st.2.len()
                    &&& ng == st.3.len()
                }),
                nb <= 64 * y + x,
                ng <= 64 * y + x,
            decreases line@.len() - x,
        {
            let c = line[x];
            proof {
                if y > 0 && x == 0 {
                    assert(scan_upto(v, y as int, 0) == scan_upto(v, y - 1, v[y - 1].len() as int));
                }
            }
            if c == '#' || c == ' ' {
            } else if c == '.' {
                ng = ng + 1;
            } else if c == '$' {
                nb = nb + 1;
            } else if c == '*' {
                nb = nb + 1;
                ng = ng + 1;
            } else if c == '@' || c == '+' {
                if has_player {
                    proof {
                        assert(scan_upto(v, y as int, x + 1) == scan_step(scan_upto(v, y as int, x as int), c, x as int, y as int));
                        lemma_state_persists(v, y as int, x + 1, v.len() - 1, v[v.len() - 1].len() as int);
                        assert(scan_all(v) == scan_upto(v, y as int, x + 1));
                    }
                    return nb > 64 || ng > 64;
                }
                has_player = true;
                if c == '+' {
                    ng = ng + 1;
                }
            } else {
                proof {
                    assert(scan_upto(v, y as int, x + 1) == scan_step(scan_upto(v, y as int, x as int), c, x as int, y as int));
                    lemma_state_persists(v, y as int, x + 1, v.len() - 1, v[v.len() - 1].len() as int);
                    assert(scan_all(v) == scan_upto(v, y as int, x + 1));
                    assert(scan_all(v).2.len() == nb && scan_all(v).3.len() == ng);
                    assert(max_width(v, v.len() as int) <= 64);
                    assert(v.len() <= 64);
                }
                return nb > 64 || ng > 64;
            }
            x = x + 1;
        }
        proof {
            if x == 0 && y > 0 {
                assert(scan_upto(v, y as int, 0) == scan_upto(v, y - 1, v[y - 1].len() as int));
            }
        }
        y = y + 1;
    }
    nb > 64 || ng > 64
}

/// The outcome of a scan, as the exec code holds it.
pub struct Scan {
    pub player: Option<Position>,
    pub boxes: Vec<Position>,
    pub goals: Vec<Position>,
    pub boxes_on_goals: usize,
}

/// Whether the grid cell at `(x, y)` of the text holds character `c`.
pub open spec fn char_at(ls: Seq<Seq<char>>, x: int, y: int) -> Option<char> {
    if 0 <= y < ls.len() && 0 <= x < ls[y].len() {
        Some(ls[y][x])
    } else {
        None
    }
}

/// Scans the characters of a board of at most 64 x 64 characters, stopping at
/// the first error.
pub fn scan_board(ls: &Vec<Vec<char>>) -> (r: Result<Scan, ParseError>)
    requires
        ls@.len() <= 64,
        forall|y: int| 0 <= y < ls@.len() ==> #[trigger] ls@[y]@.len() <= 64,
    ensures
        ({
            let st = scan_all(ls@.map_values(|l: Vec<char>| l@));
            match r {
                Err(e) => st.0 == Some(e),
                Ok(scan) => {
                    &&& st.0 is None
                    &&& scan.player == st.1
                    &&& scan.boxes@ == st.2
                    &&& scan.goals@ == st.3
                    &&& scan.boxes_on_goals == st.4
                },
            }
        }),
{
    let ghost v = ls@.map_values(|l: Vec<char>| l@);
    let mut player: Option<Position> = None;
    let mut boxes: Vec<Position> = Vec::new();
    let mut goals: Vec<Position> = Vec::new();
    let mut stars: usize = 0;
    let mut y: usize = 0;
    while y < ls.len()
        invariant
            v == ls@.map_values(|l: Vec<char>| l@),
            ls@.len() <= 64,
            forall|yy: int| 0 <= yy < ls@.len() ==> #[trigger] ls@[yy]@.len() <= 64,
            y <= ls@.len(),
            ({
                let st = if y == 0 {
                    scan_start()
                } else {
                    scan_upto(v, y - 1, v[y - 1].len() as int)
                };
                &&& st.0 is None
                &&& player == st.1
                &&& boxes@ == st.2
                &&& goals@ == st.3
                &&& stars == st.4
            }),
            stars <= 4096 * y,
        decreases ls@.len() - y,
    {
        let line = &ls[y];
        assert(line@ == v[y as int]);
        let mut x: usize = 0;
        while x < line.len()
            invariant
                v == ls@.map_values(|l: Vec<char>| l@),
                y < ls@.len() <= 64,
                line@ == v[y as int],
                line@.len() <= 64,
                x <= line@.len(),
                ({
                    let st = scan_upto(v, y as int, x as int);
                    &&& st.0 is None
                    &&& player == st.1
                    &&& boxes@ == st.2
                    &&& goals@ == st.3
                    &&& stars == st.4
                }),
                stars <= 4096 * y + x,
            decreases line@.len() - x,
        {
            let c = line[x];
            let pos = Position(x as u8, y as u8);
            proof {
                if y > 0 && x == 0 {
                    assert(scan_upto(v, y as int, 0) == scan_upto(v, y - 1, v[y - 1].len() as int));
                }
            }
            if c == '#' || c == ' ' {
            } else if c == '.' {
                goals.push(pos);
            } else if c == '$' {
                boxes.push(pos);
            } else if c == '*' {
                boxes.push(pos);
                goals.push(pos);
                stars = stars + 1;
            } else if c == '@' || c == '+' {
                if player.is_some() {
                    proof {
                        lemma_error_persists(v, y as int, x + 1, v.len() - 1, v[v.len() - 1].len() as int);
                    }
                    return Err(ParseError::MultiplePlayers);
                }
                player = Some(pos);
                if c == '+' {
                    goals.push(pos);
                }
            } else {
                proof {
                    lemma_error_persists(v, y as int, x + 1, v.len() - 1, v[v.len() - 1].len() as int);
                }
                return Err(ParseError::InvalidCharacter(c, x, y));
            }
            x = x + 1;
        }
        proof {
            if x == 0 && y > 0 {
                assert(scan_upto(v, y as int, 0) == scan_upto(v, y - 1, v[y - 1].len() as int));
            }
        }
        y = y + 1;
    }
    Ok(Scan { player, boxes, goals, boxes_on_goals: stars })
}

/// The positions are in strictly increasing reading order.
pub open spec fn increasing(s: Seq<Position>) -> bool {
    forall|i: int, j: int| 0 <= i < j < s.len() ==> cell(#[trigger] s[i]) < cell(#[trigger] s[j])
}

pub proof fn lemma_increasing_no_dup(s: Seq<Position>)
    requires
        increasing(s),
    ensures
        s.no_duplicates(),
{
    assert forall|i: int, j: int| 0 <= i < s.len() && 0 <= j < s.len() && i != j implies s[i] != s[j] by {
        if i < j {
            assert(cell(s[i]) < cell(s[j]));
        } else {
            assert(cell(s[j]) < cell(s[i]));
        }
    }
}

/// Every listed position lies before `lim` in reading order, on the grid, on a
/// character that `ok` accepts; and the list is in reading order.
pub open spec fn listed_before(
    ls: Seq<Seq<char>>,
    s: Seq<Position>,
    lim: int,
    ok: spec_fn(char) -> bool,
) -> bool {
    &&& increasing(s)
    &&& forall|i: int|
        0 <= i < s.len() ==> {
            let p = #[trigger] s[i];
            &&& on_grid(p)
            &&& cell(p) < lim
            &&& char_at(ls, p.0 as int, p.1 as int) matches Some(c) && ok(c)
        }
}

pub open spec fn is_box_char(c: char) -> bool {
    c == '$' || c == '*'
}

pub open spec fn is_goal_char(c: char) -> bool {
    c == '.' || c == '*' || c == '+'
}

pub open spec fn is_player_char(c: char) -> bool {
    c == '@' || c == '+'
}

/// What a scan has collected lies where the text holds matching characters.
pub proof fn lemma_scan_facts(ls: Seq<Seq<char>>, y: int, x: int)
    requires
        ls.len() <= 64,
        forall|yy: int| 0 <= yy < ls.len() ==> #[trigger] ls[yy].len() <= 64,
        0 <= y < ls.len(),
        0 <= x <= ls[y].len(),
    ensures
        listed_before(ls, scan_upto(ls, y, x).2, 64 * y + x, |c: char| is_box_char(c)),
        listed_before(ls, scan_upto(ls, y, x).3, 64 * y + x, |c: char| is_goal_char(c)),
        scan_upto(ls, y, x).1 matches Some(p) ==> on_grid(p) && cell(p) < 64 * y + x && (char_at(
            ls,
            p.0 as int,
            p.1 as int,
        ) matches Some(c) && is_player_char(c)),
        scan_upto(ls, y, x).4 <= scan_upto(ls, y, x).2.len(),
    decreases y, x,
{
    let st = scan_upto(ls, y, x);
    if x > 0 {
        lemma_scan_facts(ls, y, x - 1);
        let p0 = scan_upto(ls, y, x - 1);
        let pos = Position((x - 1) as u8, y as u8);
        assert(cell(pos) == 64 * y + x - 1);
        assert(char_at(ls, pos.0 as int, pos.1 as int) == Some(ls[y][x - 1]));
        let bf = |c: char| is_box_char(c);
        let gf = |c: char| is_goal_char(c);
        assert(listed_before(ls, st.2, 64 * y + x, bf)) by {
            if st.2 != p0.2 {
                assert(st.2 == p0.2.push(pos));
                assert forall|i: int, j: int| 0 <= i < j < st.2.len() implies cell(#[trigger] st.2[i]) < cell(#[trigger] st.2[j]) by {
                    if j < p0.2.len() {
                        assert(st.2[i] == p0.2[i]);
                        assert(st.2[j] == p0.2[j]);
                    } else {
                        assert(st.2[i] == p0.2[i]);
                    }
                }
                assert forall|i: int| 0 <= i < st.2.len() implies {
                    let p = #[trigger] st.2[i];
                    &&& on_grid(p)
                    &&& cell(p) < 64 * y + x
                    &&& char_at(ls, p.0 as int, p.1 as int) matches Some(c) && bf(c)
                } by {
                    if i < p0.2.len() {
                        assert(st.2[i] == p0.2[i]);
                    }
                }
            }
        }
        assert(listed_before(ls, st.3, 64 * y + x, gf)) by {
            if st.3 != p0.3 {
                assert(st.3 == p0.3.push(pos));
                assert forall|i: int, j: int| 0 <= i < j < st.3.len() implies cell(#[trigger] st.3[i]) < cell(#[trigger] st.3[j]) by {
                    if j < p0.3.len() {
                        assert(st.3[i] == p0.3[i]);
                        assert(st.3[j] == p0.3[j]);
                    } else {
                        assert(st.3[i] == p0.3[i]);
                    }
                }
                assert forall|i: int| 0 <= i < st.3.len() implies {
                    let p = #[trigger] st.3[i];
                    &&& on_grid(p)
                    &&& cell(p) < 64 * y + x
                    &&& char_at(ls, p.0 as int, p.1 as int) matches Some(c) && gf(c)
                } by {
                    if i < p0.3.len() {
                        assert(st.3[i] == p0.3[i]);
                    }
                }
            }
        }
    } else if y > 0 {
        lemma_scan_facts(ls, y - 1, ls[y - 1].len() as int);
    }
}

pub proof fn lemma_byte_len(s: Seq<char>)
    ensures
        byte_len(s) >= s.len(),
    decreases s.len(),
{
    if s.len() > 0 {
        lemma_byte_len(s.drop_last());
    }
}

pub proof fn lemma_max_width(ls: Seq<Seq<char>>, n: int, k: int)
    requires
        0 <= k < n <= ls.len(),
    ensures
        max_width(ls, n) >= byte_len(ls[k]),
        max_width(ls, n) >= ls[k].len(),
    decreases n,
{
    lemma_byte_len(ls[k]);
    if k < n - 1 {
        lemma_max_width(ls, n - 1, k);
    }
}

/// Why a board text is rejected, if it is; in the order in which the checks
/// run: no line, too wide, too tall, a bad character or a second player (the
/// first in reading order), no player, unequal goal and box counts.
pub open spec fn parse_error(t: Seq<char>) -> Option<ParseError> {
    let ls = lines(t);
    let w = max_width(ls, ls.len() as int);
    if ls.len() == 0 {
        Some(ParseError::EmptyBoard)
    } else if w > 64 {
        Some(ParseError::WidthTooLarge(saturate(w)))
    } else if ls.len() > 64 {
        Some(ParseError::HeightTooLarge(ls.len() as usize))
    } else {
        let st = scan_all(ls);
        if st.0 is Some {
            st.0
        } else if st.1 is None {
            Some(ParseError::NoPlayer)
        } else if st.3.len() != st.2.len() {
            Some(ParseError::CountMismatch(st.3.len() as usize, st.2.len() as usize))
        } else {
            None
        }
    }
}

/// A board text whose scan, up to its first error, meets more than `limit`
/// boxes or more than `limit` goals.
pub open spec fn too_many_pieces(t: Seq<char>, limit: nat) -> bool {
    let ls = lines(t);
    let st = scan_all(ls);
    &&& ls.len() > 0
    &&& max_width(ls, ls.len() as int) <= 64
    &&& ls.len() <= 64
    &&& (st.2.len() > limit || st.3.len() > limit)
}

/// The lines of a board text and their checks, shared by the parsers: the
/// lines as vectors, the width, or the error of the first three checks.
pub fn board_lines(text: &str) -> (r: Result<(Vec<Vec<char>>, usize), ParseError>)
    ensures
        ({
            let ls = lines(text@);
            let w = max_width(ls, ls.len() as int);
            match r {
                Err(e) => parse_error(text@) == Some(e) && (ls.len() == 0 || w > 64 || ls.len() > 64),
                Ok((v, width)) => {
                    &&& v@.map_values(|l: Vec<char>| l@) == ls
                    &&& 0 < ls.len() <= 64
                    &&& width == w
                    &&& w <= 64
                    &&& forall|y: int| 0 <= y < ls.len() ==> #[trigger] ls[y].len() <= 64
                },
            }
        }),
{
    let chars = chars_of(text);
    let v = split_lines(&chars);
    let ghost ls = lines(text@);
    proof {
        assert(v@.map_values(|l: Vec<char>| l@) =~= ls);
    }
    if v.len() == 0 {
        return Err(ParseError::EmptyBoard);
    }
    let width = board_width(&v);
    if width > 64 {
        return Err(ParseError::WidthTooLarge(width));
    }
    let height = v.len();
    if height > 64 {
        return Err(ParseError::HeightTooLarge(height));
    }
    proof {
        assert forall|y: int| 0 <= y < ls.len() implies #[trigger] ls[y].len() <= 64 by {
            lemma_max_width(ls, ls.len() as int, y);
        }
    }
    Ok((v, width))
}

/// The characters a board may hold.
pub open spec fn is_board_char(c: char) -> bool {
    c == '#' || c == ' ' || c == '.' || c == '$' || c == '*' || c == '@' || c == '+'
}

/// How many of the characters that the scan reads before column `x` of
/// line `y` satisfy `f`.
pub open spec fn count_upto(ls: Seq<Seq<char>>, y: int, x: int, f: spec_fn(char) -> bool) -> nat
    decreases y, x,
{
    if y < 0 || x < 0 {
        0
    } else if x > 0 {
        count_upto(ls, y, x - 1, f) + if f(ls[y][x - 1]) {
            1nat
        } else {
            0nat
        }
    } else if y > 0 {
        count_upto(ls, y - 1, ls[y - 1].len() as int, f)
    } else {
        0
    }
}

/// Every character that the scan reads before column `x` of line `y`
/// satisfies `f`.
pub open spec fn all_upto(ls: Seq<Seq<char>>, y: int, x: int, f: spec_fn(char) -> bool) -> bool
    decreases y, x,
{
    if y < 0 || x < 0 {
        true
    } else if x > 0 {
        all_upto(ls, y, x - 1, f) && f(ls[y][x - 1])
    } else if y > 0 {
        all_upto(ls, y - 1, ls[y - 1].len() as int, f)
    } else {
        true
    }
}

/// How many characters of the lines satisfy `f`.
pub open spec fn count_chars(ls: Seq<Seq<char>>, f: spec_fn(char) -> bool) -> nat {
    if ls.len() == 0 {
        0
    } else {
        count_upto(ls, ls.len() - 1, ls[ls.len() - 1].len() as int, f)
    }
}

/// Every character of the lines satisfies `f`.
pub open spec fn all_chars(ls: Seq<Seq<char>>, f: spec_fn(char) -> bool) -> bool {
    if ls.len() == 0 {
        true
    } else {
        all_upto(ls, ls.len() - 1, ls[ls.len() - 1].len() as int, f)
    }
}

/// The characters of goals that hold no box.
pub open spec fn is_empty_goal_char(c: char) -> bool {
    c == '.' || c == '+'
}

/// The character of a box off its goal.
pub open spec fn is_loose_box_char(c: char) -> bool {
    c == '$'
}

/// The character of a box on its goal.
pub open spec fn is_full_goal_char(c: char) -> bool {
    c == '*'
}

/// What the scan finds, in counts of characters: it meets no error exactly
/// when every character is a board character and at most one is a player;
/// then it has found the player exactly when there is one, and its boxes,
/// goals and boxes on goals are as many as their characters.
pub proof fn lemma_scan_counts(ls: Seq<Seq<char>>, y: int, x: int)
    ensures
        ({
            let st = scan_upto(ls, y, x);
            let players = count_upto(ls, y, x, |c: char| is_player_char(c));
            &&& st.0 is None <==> (all_upto(ls, y, x, |c: char| is_board_char(c)) && players <= 1)
            &&& st.0 is None ==> {
                &&& (st.1 is Some <==> players == 1)
                &&& st.2.len() == count_upto(ls, y, x, |c: char| is_loose_box_char(c)) + count_upto(
                    ls,
                    y,
                    x,
                    |c: char| is_full_goal_char(c),
                )
                &&& st.3.len() == count_upto(ls, y, x, |c: char| is_empty_goal_char(c)) + count_upto(
                    ls,
                    y,
                    x,
                    |c: char| is_full_goal_char(c),
                )
                &&& st.4 == count_upto(ls, y, x, |c: char| is_full_goal_char(c))
            }
        }),
    decreases y, x,
{
    if y < 0 || x < 0 {
    } else if x > 0 {
        lemma_scan_counts(ls, y, x - 1);
    } else if y > 0 {
        lemma_scan_counts(ls, y - 1, ls[y - 1].len() as int);
    }
}

/// A board text is read without error exactly when it has 1 to 64 lines,
/// none longer than 64 bytes, every character is one of `#`, space, `.`,
/// `$`, `*`, `@` and `+`, exactly one character is a player (`@` or `+`), and
/// the goals without a box (`.`, `+`) are as many as the boxes off a goal
/// (`$`).
pub proof fn lemma_read_ok_counts(t: Seq<char>)
    ensures
        parse_error(t) is None <==> {
            let ls = lines(t);
            &&& 1 <= ls.len() <= 64
            &&& max_width(ls, ls.len() as int) <= 64
            &&& all_chars(ls, |c: char| is_board_char(c))
            &&& count_chars(ls, |c: char| is_player_char(c)) == 1
            &&& count_chars(ls, |c: char| is_empty_goal_char(c)) == count_chars(ls, |c: char| is_loose_box_char(c))
        },
{
    let ls = lines(t);
    if ls.len() > 0 {
        lemma_scan_counts(ls, ls.len() - 1, ls[ls.len() - 1].len() as int);
    }
}

/// Column `x2` of line `y2` comes before column `x` of line `y` in the scan.
pub open spec fn scanned(ls: Seq<Seq<char>>, x2: int, y2: int, x: int, y: int) -> bool {
    ||| (0 <= y2 < y && 0 <= x2 < ls[y2].len())
    ||| (y2 == y && 0 <= x2 < x)
}

/// A scan that has met no error has met only board characters, listed every
/// box it met, and taken the player's square from the one player character.
pub proof fn lemma_scan_complete(ls: Seq<Seq<char>>, y: int, x: int)
    requires
        0 <= y < ls.len(),
        0 <= x <= ls[y].len(),
        scan_upto(ls, y, x).0 is None,
    ensures
        forall|x2: int, y2: int|
            #[trigger] scanned(ls, x2, y2, x, y) ==> {
                &&& is_board_char(ls[y2][x2])
                &&& is_box_char(ls[y2][x2]) ==> scan_upto(ls, y, x).2.contains(Position(x2 as u8, y2 as u8))
                &&& is_player_char(ls[y2][x2]) ==> scan_upto(ls, y, x).1 == Some(Position(x2 as u8, y2 as u8))
            },
    decreases y, x,
{
    if x > 0 {
        let prev = scan_upto(ls, y, x - 1);
        let cur = scan_upto(ls, y, x);
        assert(prev.0 is None);
        lemma_scan_complete(ls, y, x - 1);
        let c = ls[y][x - 1];
        assert(cur == scan_step(prev, c, x - 1, y));
        assert forall|x2: int, y2: int| #[trigger] scanned(ls, x2, y2, x, y) implies {
            &&& is_board_char(ls[y2][x2])
            &&& is_box_char(ls[y2][x2]) ==> cur.2.contains(Position(x2 as u8, y2 as u8))
            &&& is_player_char(ls[y2][x2]) ==> cur.1 == Some(Position(x2 as u8, y2 as u8))
        } by {
            if y2 == y && x2 == x - 1 {
                if is_box_char(c) {
                    assert(cur.2.last() == Position(x2 as u8, y2 as u8));
                }
            } else {
                assert(scanned(ls, x2, y2, x - 1, y));
                if is_box_char(ls[y2][x2]) {
                    let q = Position(x2 as u8, y2 as u8);
                    let i = choose|i: int| 0 <= i < prev.2.len() && prev.2[i] == q;
                    assert(cur.2[i] == q);
                }
            }
        }
    } else if y > 0 {
        lemma_scan_complete(ls, y - 1, ls[y - 1].len() as int);
        assert forall|x2: int, y2: int| #[trigger] scanned(ls, x2, y2, x, y) implies scanned(
            ls,
            x2,
            y2,
            ls[y - 1].len() as int,
            y - 1,
        ) by {
        }
    }
}

} // verus!
