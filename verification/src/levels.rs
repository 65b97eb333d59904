use vstd::prelude::*;

use crate::game::Game;
use crate::text::{
    comment_line, is_comment_line, lines, parse_error, split_lines, string_from_chars, too_many_pieces, too_many_pieces_in,
    trim_end, trim_end_chars, chars_of, ParseError,
};

verus! {

#[verifier::external_type_specification]
#[verifier::external_body]
pub struct ExIoError(std::io::Error);

/// Why a collection of levels could not be read.
#[derive(Debug)]
pub enum LevelError {
    /// The file could not be read.
    Io(std::io::Error),
    /// A level's text is not a valid board.
    InvalidLevel(ParseError),
    /// A level holds, before its first error, more boxes or more goals than
    /// a level can hold.
    TooManyPieces,
}

/// The state of the split of a level file after `n` lines: the text of the
/// level being read, and the texts of the levels read so far.
pub open spec fn split_state(ls: Seq<Seq<char>>, n: int) -> (Seq<char>, Seq<Seq<char>>)
    decreases n,
{
    if n <= 0 {
        (Seq::empty(), Seq::empty())
    } else {
        let st = split_state(ls, n - 1);
        let line = ls[n - 1];
        if comment_line(line) || line.len() == 0 {
            if st.0.len() > 0 {
                (Seq::empty(), st.1.push(trim_end(st.0)))
            } else {
                (Seq::empty(), st.1)
            }
        } else {
            (st.0 + line + seq!['\n'], st.1)
        }
    }
}

/// The texts of the levels in a level file: runs of lines between comment
/// lines (starting with `;`) and empty lines, each without its trailing white
/// space.
pub open spec fn level_texts(t: Seq<char>) -> Seq<Seq<char>> {
    texts_of_lines(lines(t))
}

/// The lines of a run, each ended by a line break.
pub open spec fn joined(ls: Seq<Seq<char>>) -> Seq<char>
    decreases ls.len(),
{
    if ls.len() == 0 {
        Seq::empty()
    } else {
        joined(ls.drop_last()) + ls.last() + seq!['\n']
    }
}

/// Lines `a..b` are all lines of a board: neither empty nor comments.
pub open spec fn board_run(ls: Seq<Seq<char>>, a: int, b: int) -> bool {
    forall|i: int| a <= i < b ==> #[trigger] ls[i].len() > 0 && !comment_line(ls[i])
}

/// The level texts that a file of lines `ls` splits into.
pub open spec fn texts_of_lines(ls: Seq<Seq<char>>) -> Seq<Seq<char>> {
    let st = split_state(ls, ls.len() as int);
    if st.0.len() > 0 {
        st.1.push(trim_end(st.0))
    } else {
        st.1
    }
}

/// A run of board lines adds its lines to the level being read.
proof fn lemma_run(ls: Seq<Seq<char>>, a: int, m: int)
    requires
        0 <= a,
        0 <= m,
        a + m <= ls.len(),
        board_run(ls, a, a + m),
    ensures
        split_state(ls, a + m) == (split_state(ls, a).0 + joined(ls.subrange(a, a + m)), split_state(ls, a).1),
    decreases m,
{
    if m == 0 {
        assert(ls.subrange(a, a) =~= Seq::<Seq<char>>::empty());
        assert(split_state(ls, a).0 + Seq::<char>::empty() =~= split_state(ls, a).0);
    } else {
        lemma_run(ls, a, m - 1);
        let sub = ls.subrange(a, a + m);
        assert(sub.drop_last() =~= ls.subrange(a, a + m - 1));
        assert(sub.last() == ls[a + m - 1]);
        assert(ls[a + m - 1].len() > 0 && !comment_line(ls[a + m - 1]));
        assert(split_state(ls, a).0 + joined(sub) =~= split_state(ls, a).0 + joined(ls.subrange(a, a + m - 1))
            + ls[a + m - 1] + seq!['\n']);
    }
}

/// Past a prefix, a text has the lines of the rest.
proof fn lemma_lines_shift(p: Seq<char>, q: Seq<char>, j: int)
    requires
        0 <= j,
    ensures
        crate::text::lines_from(p + q, p.len() + j) == crate::text::lines_from(q, j),
    decreases q.len() - j,
{
    let s = p + q;
    let i = p.len() + j;
    if j < q.len() {
        lemma_newline_shift(p, q, j);
        let fq = crate::text::find_newline(q, j);
        assert(crate::text::find_newline(s, i) == p.len() + fq);
        crate::text::lemma_find_newline(q, j);
        if fq < q.len() {
            assert(s.subrange(i, p.len() + fq) =~= q.subrange(j, fq));
            lemma_lines_shift(p, q, fq + 1);
        } else {
            assert(s.subrange(i, s.len() as int) =~= q.subrange(j, q.len() as int));
        }
    }
}

proof fn lemma_newline_shift(p: Seq<char>, q: Seq<char>, j: int)
    requires
        0 <= j,
    ensures
        crate::text::find_newline(p + q, p.len() + j) == p.len() + crate::text::find_newline(q, j),
    decreases q.len() - j,
{
    if j < q.len() {
        assert((p + q)[p.len() + j] == q[j]);
        if q[j] != '\n' {
            lemma_newline_shift(p, q, j + 1);
        }
    }
}

/// Before a line break that follows a text not ending a line, the lines are
/// those of the text, then those after the break.
proof fn lemma_lines_join(a: Seq<char>, c: Seq<char>, i: int)
    requires
        0 <= i < a.len(),
        a.last() != '\n',
        a.last() != '\r',
    ensures
        crate::text::lines_from(a + seq!['\n'] + c, i) == crate::text::lines_from(a, i) + crate::text::lines(c),
    decreases a.len() - i,
{
    let s = a + seq!['\n'] + c;
    let fa = crate::text::find_newline(a, i);
    crate::text::lemma_find_newline(a, i);
    assert(s =~= a + (seq!['\n'] + c));
    assert((seq!['\n'] + c)[0] == '\n');
    lemma_newline_prefix(a, seq!['\n'] + c, i);
    assert(crate::text::find_newline(s, i) == fa);
    if fa < a.len() {
        assert(s.subrange(i, fa) =~= a.subrange(i, fa));
        assert(fa + 1 < a.len()) by {
            if fa + 1 == a.len() {
                assert(a[fa] == '\n');
            }
        }
        lemma_lines_join(a, c, fa + 1);
    } else {
        assert(crate::text::find_newline(s, i) == a.len());
        assert(s.subrange(i, a.len() as int) =~= a.subrange(i, a.len() as int));
        assert(a.subrange(i, a.len() as int).last() == a.last());
        assert(crate::text::strip_cr(a.subrange(i, a.len() as int)) == a.subrange(i, a.len() as int));
        assert(s =~= (a + seq!['\n']) + c);
        lemma_lines_shift(a + seq!['\n'], c, 0);
    }
}

/// Within a prefix, the next line break is where the prefix has it, or the
/// prefix's end when it has none from `i` on.
proof fn lemma_newline_prefix(a: Seq<char>, q: Seq<char>, i: int)
    requires
        0 <= i <= a.len(),
        q.len() > 0,
        q[0] == '\n',
    ensures
        crate::text::find_newline(a + q, i) == crate::text::find_newline(a, i),
    decreases a.len() - i,
{
    if i < a.len() {
        assert((a + q)[i] == a[i]);
        if a[i] != '\n' {
            lemma_newline_prefix(a, q, i + 1);
        }
    } else {
        assert((a + q)[i] == q[0]);
    }
}

/// A text, an empty line and another text: the lines of the first, an
/// empty line, and the lines of the second.
pub proof fn lemma_lines_blank_between(a: Seq<char>, b: Seq<char>)
    requires
        a.len() > 0,
        a.last() != '\n',
        a.last() != '\r',
    ensures
        crate::text::lines(a + seq!['\n', '\n'] + b) == crate::text::lines(a) + seq![Seq::<char>::empty()]
            + crate::text::lines(b),
{
    let c = seq!['\n'] + b;
    assert(a + seq!['\n', '\n'] + b =~= a + seq!['\n'] + c);
    lemma_lines_join(a, c, 0);
    crate::text::lemma_find_newline(c, 0);
    assert(crate::text::find_newline(c, 0) == 0);
    assert(c.subrange(0, 0) =~= Seq::<char>::empty());
    lemma_lines_shift(seq!['\n'], b, 0);
    assert(crate::text::lines(c) == seq![Seq::<char>::empty()] + crate::text::lines(b));
    assert(crate::text::lines(a + seq!['\n', '\n'] + b) =~= crate::text::lines(a) + seq![Seq::<char>::empty()]
        + crate::text::lines(b));
}

/// An empty line ends the level being read: a file made of one run of board
/// lines, an empty line, and another run of board lines gives two levels,
/// the two runs.
pub proof fn lemma_empty_line_separates(x: Seq<Seq<char>>, y: Seq<Seq<char>>)
    requires
        x.len() > 0,
        y.len() > 0,
        board_run(x, 0, x.len() as int),
        board_run(y, 0, y.len() as int),
    ensures
        texts_of_lines(x + seq![Seq::<char>::empty()] + y) == seq![trim_end(joined(x)), trim_end(joined(y))],
        texts_of_lines(x) == seq![trim_end(joined(x))],
{
    lemma_line_separates(x, Seq::<char>::empty(), y);
}

/// An empty line or a comment line ends the level being read: a file made
/// of one run of board lines, such a line, and another run of board lines
/// gives two levels, the two runs.
pub proof fn lemma_line_separates(x: Seq<Seq<char>>, sep: Seq<char>, y: Seq<Seq<char>>)
    requires
        x.len() > 0,
        y.len() > 0,
        sep.len() == 0 || comment_line(sep),
        board_run(x, 0, x.len() as int),
        board_run(y, 0, y.len() as int),
    ensures
        texts_of_lines(x + seq![sep] + y) == seq![trim_end(joined(x)), trim_end(joined(y))],
        texts_of_lines(x) == seq![trim_end(joined(x))],
{
    let z = x + seq![sep] + y;
    let nx = x.len() as int;
    let ny = y.len() as int;
    assert(board_run(z, 0, nx)) by {
        assert forall|i: int| 0 <= i < nx implies #[trigger] z[i].len() > 0 && !comment_line(z[i]) by {
            assert(z[i] == x[i]);
        }
    }
    lemma_run(z, 0, nx);
    assert(z.subrange(0, nx) =~= x);
    assert(split_state(z, 0).0 + joined(x) =~= joined(x));
    assert(joined(x).len() > 0);
    assert(z[nx] == sep);
    assert(split_state(z, nx + 1) == (Seq::<char>::empty(), seq![trim_end(joined(x))]));
    assert(board_run(z, nx + 1, nx + 1 + ny)) by {
        assert forall|i: int| nx + 1 <= i < nx + 1 + ny implies #[trigger] z[i].len() > 0 && !comment_line(z[i]) by {
            assert(z[i] == y[i - nx - 1]);
        }
    }
    lemma_run(z, nx + 1, ny);
    assert(z.subrange(nx + 1, nx + 1 + ny) =~= y);
    assert(Seq::<char>::empty() + joined(y) =~= joined(y));
    assert(joined(y).len() > 0);
    assert(z.len() == nx + 1 + ny);
    lemma_run(x, 0, nx);
    assert(x.subrange(0, nx) =~= x);
    assert(Seq::<char>::empty() + joined(x) =~= joined(x));
}

/// An empty line separates levels: two texts of board lines, the first not
/// ending a line, joined by an empty line, read as the levels of the first
/// and then those of the second, one level each.
pub proof fn lemma_blank_line_separates(a: Seq<char>, b: Seq<char>)
    requires
        a.len() > 0,
        a.last() != '\n',
        a.last() != '\r',
        lines(a).len() > 0,
        lines(b).len() > 0,
        board_run(lines(a), 0, lines(a).len() as int),
        board_run(lines(b), 0, lines(b).len() as int),
    ensures
        level_texts(a + seq!['\n', '\n'] + b) == level_texts(a) + level_texts(b),
        level_texts(a).len() == 1,
        level_texts(b).len() == 1,
{
    lemma_lines_blank_between(a, b);
    lemma_empty_line_separates(lines(a), lines(b));
    lemma_empty_line_separates(lines(b), lines(a));
    assert(level_texts(a + seq!['\n', '\n'] + b) =~= level_texts(a) + level_texts(b));
}

/// The first of the first `n` level texts that does not parse, if any.
pub open spec fn first_bad(texts: Seq<Seq<char>>, n: int) -> Option<int>
    decreases n,
{
    if n <= 0 {
        None
    } else {
        match first_bad(texts, n - 1) {
            Some(k) => Some(k),
            None => if too_many_pieces(texts[n - 1], 64) || parse_error(texts[n - 1]) is Some {
                Some(n - 1)
            } else {
                None
            },
        }
    }
}

/// The levels read after fewer lines come first among those read after more.
proof fn lemma_split_prefix(ls: Seq<Seq<char>>, a: int, b: int)
    requires
        0 <= a <= b,
    ensures
        split_state(ls, a).1.len() <= split_state(ls, b).1.len(),
        forall|j: int| 0 <= j < split_state(ls, a).1.len() ==> split_state(ls, a).1[j] == #[trigger] split_state(ls, b).1[j],
    decreases b - a,
{
    if a < b {
        lemma_split_prefix(ls, a, b - 1);
    }
}

/// The levels read after `a` lines are the first level texts.
proof fn lemma_texts_prefix(t: Seq<char>, a: int)
    requires
        0 <= a <= lines(t).len(),
    ensures
        split_state(lines(t), a).1.len() <= level_texts(t).len(),
        forall|j: int| 0 <= j < split_state(lines(t), a).1.len() ==> split_state(lines(t), a).1[j] == #[trigger] level_texts(t)[j],
{
    let ls = lines(t);
    lemma_split_prefix(ls, a, ls.len() as int);
    let st = split_state(ls, ls.len() as int);
    assert forall|j: int| 0 <= j < split_state(ls, a).1.len() implies split_state(ls, a).1[j] == #[trigger] level_texts(t)[j] by {
        assert(split_state(ls, a).1[j] == st.1[j]);
        if st.0.len() > 0 {
            assert(level_texts(t) == st.1.push(trim_end(st.0)));
            assert(level_texts(t)[j] == st.1[j]);
        }
    }
}

/// The first text that does not parse, once met, stays the first.
proof fn lemma_first_bad(texts: Seq<Seq<char>>, m: int, n: int)
    requires
        0 <= m < n,
        first_bad(texts, m) is None,
        too_many_pieces(texts[m], 64) || parse_error(texts[m]) is Some,
    ensures
        first_bad(texts, n) == Some(m),
    decreases n,
{
    if n > m + 1 {
        lemma_first_bad(texts, m, n - 1);
    }
}

#[derive(Debug)]
pub struct Levels {
    levels: Vec<Game>,
}

impl Levels {
    /// The games, in the order of the file.
    pub closed spec fn games(&self) -> Seq<Game> {
        self.levels@
    }

    /// Parses the levels of a file in the XSB format: levels separated by
    /// empty lines and comment lines.
    #[verifier::spinoff_prover]
    pub fn from_text(contents: &str) -> (r: Result<Self, LevelError>)
        ensures
            ({
                let texts = level_texts(contents@);
                match r {
                    Ok(l) => {
                        &&& first_bad(texts, texts.len() as int) is None
                        &&& l.games().len() == texts.len()
                        &&& forall|i: int| 0 <= i < texts.len() ==> #[trigger] l.games()[i].wf() && l.games()[i].matches_text(texts[i])
                            && l.games()[i].grounded() && l.games()[i].box_list().len() == l.games()[i].goal_list().len()
                    },
                    Err(LevelError::InvalidLevel(e)) => {
                        &&& first_bad(texts, texts.len() as int) matches Some(k)
                        &&& !too_many_pieces(texts[k], 64)
                        &&& parse_error(texts[k]) == Some(e)
                    },
                    Err(LevelError::TooManyPieces) => {
                        &&& first_bad(texts, texts.len() as int) matches Some(k)
                        &&& too_many_pieces(texts[k], 64)
                    },
                    Err(LevelError::Io(_)) => false,
                }
            }),
    {
        let chars = chars_of(contents);
        let ls = split_lines(&chars);
        let ghost lsv = lines(contents@);
        let ghost texts = level_texts(contents@);
        let mut levels: Vec<Game> = Vec::new();
        let mut current: Vec<char> = Vec::new();
        let mut i: usize = 0;
        while i < ls.len()
            invariant
                chars@ == contents@,
                lsv == lines(contents@),
                texts == level_texts(contents@),
                ls@.len() == lsv.len(),
                forall|k: int| 0 <= k < ls@.len() ==> #[trigger] ls@[k]@ == lsv[k],
                i <= ls@.len(),
                current@ == split_state(lsv, i as int).0,
                levels@.len() == split_state(lsv, i as int).1.len(),
                split_state(lsv, i as int).1.len() <= texts.len(),
                forall|j: int| 0 <= j < split_state(lsv, i as int).1.len() ==> #[trigger] split_state(lsv, i as int).1[j] == texts[j],
                first_bad(texts, levels@.len() as int) is None,
                forall|j: int| 0 <= j < levels@.len() ==> #[trigger] levels@[j].wf() && levels@[j].matches_text(texts[j])
                    && levels@[j].grounded() && levels@[j].box_list().len() == levels@[j].goal_list().len(),
            decreases ls@.len() - i,
        {
            proof {
                lemma_texts_prefix(contents@, i + 1);
            }
            let line = &ls[i];
            assert(line@ == lsv[i as int]);
            if is_comment_line(line) || line.len() == 0 {
                if current.len() > 0 {
                    proof {
                        let st_i = split_state(lsv, i as int);
                        assert(split_state(lsv, i + 1).1 == st_i.1.push(trim_end(current@)));
                        assert(split_state(lsv, i + 1).1[levels@.len() as int] == trim_end(current@));
                        assert(texts[levels@.len() as int] == trim_end(current@));
                    }
                    let ghost cur0 = current@;
                    let game = match parse_level(&current) {
                        Ok(g) => g,
                        Err(e) => {
                            proof {
                                lemma_first_bad(texts, levels@.len() as int, texts.len() as int);
                            }
                            return Err(e);
                        },
                    };
                    let ghost l0 = levels@;
                    levels.push(game);
                    current = Vec::new();
                    proof {
                        assert(texts[l0.len() as int] == trim_end(cur0));
                        assert(game.wf());
                        assert(game.matches_text(trim_end(cur0)));
                        assert(levels@[l0.len() as int] == game);
                        assert forall|j: int| 0 <= j < levels@.len() implies #[trigger] levels@[j].wf() && levels@[j].matches_text(texts[j]) && levels@[j].grounded() && levels@[j].box_list().len() == levels@[j].goal_list().len() by {
                            if j < l0.len() {
                                assert(levels@[j] == l0[j]);
                            } else {
                                assert(levels@[j] == game);
                            }
                        }
                    }
                }
            } else {
                let mut k: usize = 0;
                let ghost c0 = current@;
                while k < line.len()
                    invariant
                        k <= line@.len(),
                        current@ == c0 + line@.take(k as int),
                    decreases line@.len() - k,
                {
                    current.push(line[k]);
                    k = k + 1;
                    assert(line@.take(k as int) == line@.take(k - 1).push(line@[k - 1]));
                }
                current.push('\n');
                assert(line@.take(line@.len() as int) == line@);
            }
            assert(forall|j: int| 0 <= j < levels@.len() ==> #[trigger] levels@[j].wf() && levels@[j].matches_text(texts[j]) && levels@[j].grounded() && levels@[j].box_list().len() == levels@[j].goal_list().len());
            i = i + 1;
        }
        proof {
            assert(texts == if current@.len() > 0 {
                split_state(lsv, lsv.len() as int).1.push(trim_end(current@))
            } else {
                split_state(lsv, lsv.len() as int).1
            });
        }
        if current.len() > 0 {
            let game = match parse_level(&current) {
                Ok(g) => g,
                Err(e) => {
                    proof {
                        lemma_first_bad(texts, levels@.len() as int, texts.len() as int);
                    }
                    return Err(e);
                },
            };
            let ghost l0 = levels@;
            proof {
                assert(texts[l0.len() as int] == trim_end(current@));
            }
            levels.push(game);
            proof {
                assert forall|j: int| 0 <= j < levels@.len() implies #[trigger] levels@[j].wf() && levels@[j].matches_text(texts[j]) && levels@[j].grounded() && levels@[j].box_list().len() == levels@[j].goal_list().len() by {
                    if j < l0.len() {
                        assert(levels@[j] == l0[j]);
                    } else {
                        assert(levels@[j] == game);
                        assert(texts[j] == trim_end(current@));
                    }
                }
            }
        }
        proof {
            assert(levels@.len() == texts.len());
        }
        Ok(Levels { levels })
    }

    pub fn get(&self, index: usize) -> (r: Option<&Game>)
        ensures
            match r {
                Some(g) => index < self.games().len() && *g == self.games()[index as int],
                None => index >= self.games().len(),
            },
    {
        if index < self.levels.len() {
            Some(&self.levels[index])
        } else {
            None
        }
    }

    pub fn len(&self) -> (r: usize)
        ensures
            r == self.games().len(),
    {
        self.levels.len()
    }
}

/// Parses the text of one level, given with its trailing line break.
fn parse_level(current: &Vec<char>) -> (r: Result<Game, LevelError>)
    ensures
        match r {
            Ok(g) => !too_many_pieces(trim_end(current@), 64) && parse_error(trim_end(current@)) is None && g.wf()
                && g.matches_text(trim_end(current@)) && g.grounded() && g.box_list().len() == g.goal_list().len(),
            Err(LevelError::InvalidLevel(e)) => !too_many_pieces(trim_end(current@), 64) && parse_error(
                trim_end(current@),
            ) == Some(e),
            Err(LevelError::TooManyPieces) => too_many_pieces(trim_end(current@), 64),
            Err(LevelError::Io(_)) => false,
        },
{
    let mut text = current.clone();
    trim_end_chars(&mut text);
    let s = string_from_chars(&text);
    if too_many_pieces_in(s.as_str()) {
        return Err(LevelError::TooManyPieces);
    }
    match Game::from_text(s.as_str()) {
        Ok(g) => Ok(g),
        Err(e) => Err(LevelError::InvalidLevel(e)),
    }
}

} // verus!
