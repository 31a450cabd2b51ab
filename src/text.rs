//! Reading a board from text and showing a grid as text.
use vstd::prelude::*;
use crate::board::{
    allowed, in_unit, index_to_row_column_block, is_digit, peers, unit_of, Board, CELLS,
};

verus! {

/// A character that stands for a cell: a digit, or `.` or a space for an
/// empty cell.
pub open spec fn is_cell_char(c: char) -> bool {
    ('1' <= c && c <= '9') || c == '.' || c == ' '
}

/// A character that separates cells and is skipped.
pub open spec fn is_separator(c: char) -> bool {
    c == '\n' || c == '|' || c == '-'
}

/// The cell value a cell character stands for; 0 for an empty cell.
pub open spec fn cell_value(c: char) -> usize {
    if '1' <= c && c <= '9' {
        (c as u32 - '0' as u32) as usize
    } else {
        0
    }
}

/// The cells that a text describes, in order.
pub open spec fn cells_of(s: Seq<char>) -> Seq<usize>
    decreases s.len(),
{
    if s.len() == 0 {
        Seq::empty()
    } else if is_cell_char(s.last()) {
        cells_of(s.drop_last()).push(cell_value(s.last()))
    } else {
        cells_of(s.drop_last())
    }
}

/// The digit at position `p` of the text repeats a digit given earlier in
/// the same row, column or block (among the first 81 cells).
pub open spec fn repeats_digit(s: Seq<char>, p: int) -> bool {
    let prev = cells_of(s.take(p));
    &&& '1' <= s[p] && s[p] <= '9'
    &&& prev.len() < 81
    &&& exists|j: int|
        0 <= j < prev.len() && peers(j, prev.len() as int) && #[trigger] prev[j] == cell_value(
            s[p],
        )
}

/// Position `p` of the text holds an unknown character or a repeated digit.
pub open spec fn is_bad(s: Seq<char>, p: int) -> bool {
    ||| !(is_cell_char(s[p]) || is_separator(s[p]))
    ||| repeats_digit(s, p)
}

/// Position `p` is the first bad position of the text.
pub open spec fn first_bad(s: Seq<char>, p: int) -> bool {
    &&& 0 <= p < s.len()
    &&& is_bad(s, p)
    &&& forall|q: int| 0 <= q < p ==> !#[trigger] is_bad(s, q)
}

/// Why a text does not describe a board.
#[derive(Clone, Debug, PartialEq, Eq)]
pub enum ParseError {
    /// A digit repeats one given earlier in its row, column or block; `row`
    /// and `column` count from 1.
    IllegalValue { value: usize, row: usize, column: usize },
    /// A character that is neither a cell nor a separator, at char `index`.
    IllegalChar { chr: char, index: usize },
    /// The text describes `count` cells instead of 81.
    WrongCellCount { count: usize },
}

proof fn lemma_conflict(s: Seq<char>, p: int, b: Seq<usize>)
    requires
        0 <= p < s.len(),
        '1' <= s[p] && s[p] <= '9',
        cells_of(s.take(p)).len() < 81,
        b.len() == 81,
        forall|j: int|
            0 <= j < 81 ==> #[trigger] b[j] == if j < cells_of(s.take(p)).len() {
                cells_of(s.take(p))[j]
            } else {
                0
            },
    ensures
        allowed(b, cells_of(s.take(p)).len() as int, cell_value(s[p]) as nat) <==> !repeats_digit(
            s,
            p,
        ),
{
    let prev = cells_of(s.take(p));
    let n = prev.len() as int;
    let v = cell_value(s[p]);
    assert(is_digit(v as nat));
    if repeats_digit(s, p) {
        let j = choose|j: int| 0 <= j < prev.len() && peers(j, n) && #[trigger] prev[j] == v;
        assert(b[j] == v);
        if unit_of(0, j) == unit_of(0, n) {
            assert(in_unit(b, 0, unit_of(0, n), v as nat));
        } else if unit_of(1, j) == unit_of(1, n) {
            assert(in_unit(b, 1, unit_of(1, n), v as nat));
        } else {
            assert(in_unit(b, 2, unit_of(2, n), v as nat));
        }
    }
    assert forall|k: int| 0 <= k < 3 && #[trigger] in_unit(b, k, unit_of(k, n), v as nat) implies repeats_digit(s, p) by {
        let j = choose|j: int| 0 <= j < 81 && unit_of(k, j) == unit_of(k, n) && #[trigger] b[j] == v;
        assert(j < n);
        assert(prev[j] == v);
        assert(peers(j, n));
    }
}

proof fn lemma_cells_of_step(s: Seq<char>, i: int)
    requires
        0 <= i < s.len(),
    ensures
        cells_of(s.take(i + 1)) == if is_cell_char(s[i]) {
            cells_of(s.take(i)).push(cell_value(s[i]))
        } else {
            cells_of(s.take(i))
        },
{
    assert(s.take(i + 1).drop_last() =~= s.take(i));
}

/// The character shown for a cell value: `.` for an empty cell.
pub open spec fn cell_char(v: usize) -> char {
    if v == 0 {
        '.'
    } else {
        ((v + 48) as u8) as char
    }
}

/// What follows cell `i` when a grid is shown: a rule line after every
/// third row, a newline after every row, and `|` after every third column.
pub open spec fn separator_after(i: int) -> Seq<char> {
    if i == 80 {
        seq![]
    } else if (i + 1) % 27 == 0 {
        seq!['\n', '-', '-', '-', '-', '-', '-', '-', '-', '-', '-', '-', '\n']
    } else if (i + 1) % 9 == 0 {
        seq!['\n']
    } else if (i + 1) % 3 == 0 {
        seq!['|']
    } else {
        seq![]
    }
}

/// The text of the first `n` cells of a grid.
pub open spec fn grid_text_of(cells: Seq<usize>, n: nat) -> Seq<char>
    decreases n,
{
    if n == 0 {
        seq![]
    } else {
        let i = n - 1;
        grid_text_of(cells, i as nat).push(cell_char(cells[i])) + separator_after(i)
    }
}

/// Shows a grid as nine lines of digits and dots, with `|` between blocks
/// and a rule line between bands of blocks.
pub fn grid_text(cells: &[usize]) -> (r: Vec<char>)
    requires
        cells@.len() == 81,
        forall|i: int| 0 <= i < 81 ==> #[trigger] cells@[i] <= 9,
    ensures
        r@ == grid_text_of(cells@, 81),
{
    let mut out: Vec<char> = Vec::new();
    let mut i: usize = 0;
    while i < CELLS
        invariant
            cells@.len() == 81,
            forall|j: int| 0 <= j < 81 ==> #[trigger] cells@[j] <= 9,
            i <= 81,
            out@ == grid_text_of(cells@, i as nat),
        decreases 81 - i,
    {
        let v = cells[i];
        let ghost prev = out@;
        if v == 0 {
            out.push('.');
        } else {
            out.push(((v + 48) as u8) as char);
        }
        let ghost mid = out@;
        if i == 80 {
        } else if (i + 1) % 27 == 0 {
            out.push('\n');
            let mut d: usize = 0;
            while d < 11
                invariant
                    d <= 11,
                    out@ == mid + seq!['\n'] + Seq::new(d as nat, |k: int| '-'),
                decreases 11 - d,
            {
                out.push('-');
                d = d + 1;
                assert(out@ =~= mid + seq!['\n'] + Seq::new(d as nat, |k: int| '-'));
            }
            out.push('\n');
        } else if (i + 1) % 9 == 0 {
            out.push('\n');
        } else if (i + 1) % 3 == 0 {
            out.push('|');
        }
        assert(out@ =~= grid_text_of(cells@, (i + 1) as nat));
        i = i + 1;
    }
    out
}

impl Board {
    /// Reads a board from text: digits `1`-`9` fill cells, `.` and space are
    /// empty cells, and newline, `|` and `-` are skipped. Each digit must be
    /// legal where it lands, the text must hold exactly 81 cells, and the
    /// first fault in reading order is reported.
    pub fn parse(s: &str) -> (r: Result<Board, ParseError>)
        ensures
            match r {
                Ok(b) => {
                    &&& b.wf()
                    &&& b@ == cells_of(s@)
                    &&& b.spec_boards_seen() == 0
                    &&& forall|p: int| 0 <= p < s@.len() ==> !#[trigger] is_bad(s@, p)
                },
                Err(ParseError::IllegalChar { chr, index }) => {
                    &&& first_bad(s@, index as int)
                    &&& chr == s@[index as int]
                    &&& !(is_cell_char(chr) || is_separator(chr))
                },
                Err(ParseError::IllegalValue { value, row, column }) => exists|p: int|
                    {
                        let n = cells_of(s@.take(p)).len() as int;
                        &&& #[trigger] first_bad(s@, p)
                        &&& repeats_digit(s@, p)
                        &&& value == cell_value(s@[p])
                        &&& row == unit_of(0, n) + 1
                        &&& column == unit_of(1, n) + 1
                    },
                Err(ParseError::WrongCellCount { count }) => {
                    &&& forall|p: int| 0 <= p < s@.len() ==> !#[trigger] is_bad(s@, p)
                    &&& count == cells_of(s@).len()
                    &&& count != 81
                },
            },
    {
        let mut board = Board::new();
        let mut board_idx: usize = 0;
        let len = s.unicode_len();
        let mut i: usize = 0;
        while i < len
            invariant
                len == s@.len(),
                i <= len,
                board.wf(),
                board@.len() == 81,
                board.spec_boards_seen() == 0,
                board_idx as int == cells_of(s@.take(i as int)).len(),
                board_idx <= i,
                forall|j: int|
                    0 <= j < 81 ==> #[trigger] board@[j] == if j < board_idx {
                        cells_of(s@.take(i as int))[j]
                    } else {
                        0
                    },
                forall|q: int| 0 <= q < i ==> !#[trigger] is_bad(s@, q),
            decreases len - i,
        {
            let chr = s.get_char(i);
            proof {
                board.lemma_wf_valid();
                lemma_cells_of_step(s@, i as int);
            }
            if '1' <= chr && chr <= '9' {
                let value = (chr as u32 - '0' as u32) as usize;
                if board_idx < CELLS {
                    proof {
                        lemma_conflict(s@, i as int, board@);
                    }
                    if !board.legal_at_index(board_idx, value) {
                        let (r, c, _) = index_to_row_column_block(board_idx);
                        proof {
                            assert(is_bad(s@, i as int));
                            assert(first_bad(s@, i as int));
                        }
                        return Err(ParseError::IllegalValue { value, row: r + 1, column: c + 1 });
                    }
                    board.set_at_index(board_idx, value);
                }
                board_idx = board_idx + 1;
            } else if chr == '.' || chr == ' ' {
                board_idx = board_idx + 1;
            } else if chr == '\n' || chr == '|' || chr == '-' {
            } else {
                return Err(ParseError::IllegalChar { chr, index: i });
            }
            i = i + 1;
        }
        proof {
            assert(s@.take(len as int) =~= s@);
        }
        if board_idx != CELLS {
            return Err(ParseError::WrongCellCount { count: board_idx });
        }
        proof {
            board.lemma_wf_valid();
            assert(board@ =~= cells_of(s@));
        }
        Ok(board)
    }
}

} // verus!
