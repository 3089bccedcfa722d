//! Reading grids from text: the line format and the two block formats.
//!
//! In every format `'_'`, `'.'` and `'0'` stand for an empty cell and `'1'`
//! to `'9'` for a clue.

use vstd::prelude::*;
use vstd::std_specs::iter::IteratorSpec;
use crate::sudoku::Sudoku;
use crate::types::{BlockFormatParseError, LineFormatParseError, NotEnoughRows, PubEntry};

verus! {

/// The character stands for an empty cell.
pub open spec fn is_empty_char(c: char) -> bool {
    c == '_' || c == '.' || c == '0'
}

/// The character stands for a clue.
pub open spec fn is_digit_char(c: char) -> bool {
    '1' <= c <= '9'
}

/// The character stands for a cell.
pub open spec fn is_cell_char(c: char) -> bool {
    is_empty_char(c) || is_digit_char(c)
}

/// The value of the cell that the character stands for.
pub open spec fn cell_value(c: char) -> u8 {
    if is_digit_char(c) {
        (c as u32 - 48) as u8
    } else {
        0
    }
}

/// The first `n` characters all stand for cells.
pub open spec fn cells_upto(s: Seq<char>, n: int) -> bool {
    n <= s.len() && forall|i: int| 0 <= i < n ==> is_cell_char(#[trigger] s[i])
}

/// The grid that the first 81 characters stand for.
pub open spec fn line_grid(s: Seq<char>) -> Seq<u8> {
    Seq::new(81, |i: int| cell_value(s[i]))
}

/// The text holds a grid in line format: 81 cell characters, then nothing
/// more, or a blank or a line end that sets off a comment.
pub open spec fn is_line(s: Seq<char>) -> bool {
    cells_upto(s, 81) && (s.len() > 81 ==> s[81] == ' ' || s[81] == '\r' || s[81] == '\n')
}

/// What reading a text in line format gives. The first character that
/// does not stand for a cell decides: before the 81st cell it is an error,
/// a blank meaning that cells are missing; after the 81st cell a blank or
/// line end closes the grid, and anything else is an error.
pub open spec fn parse_line(s: Seq<char>, r: Result<Seq<u8>, LineFormatParseError>) -> bool {
    match r {
        Ok(grid) => is_line(s) && grid == line_grid(s),
        Err(LineFormatParseError::NotEnoughCells(n)) => n < 81 && cells_upto(s, n as int) && (n
            == s.len() || s[n as int] == ' ' || s[n as int] == '\t'),
        Err(LineFormatParseError::InvalidEntry(e)) => e.cell < 81 && cells_upto(s, e.cell as int)
            && e.cell < s.len() && s[e.cell as int] == e.ch && !is_cell_char(e.ch) && e.ch != ' '
            && e.ch != '\t',
        Err(LineFormatParseError::TooManyCells) => cells_upto(s, 81) && s.len() > 81
            && is_cell_char(s[81]),
        Err(LineFormatParseError::MissingCommentDelimiter) => cells_upto(s, 81) && s.len() > 81
            && !is_cell_char(s[81]) && s[81] != ' ' && s[81] != '\r' && s[81] != '\n',
    }
}

/// The characters of a string, in order.
pub fn chars_of(s: &str) -> (v: Vec<char>)
    ensures
        v@ == s@,
{
    let mut v: Vec<char> = Vec::new();
    for c in it: s.chars()
        invariant
            v@.len() == it.index(),
            forall|j: int| 0 <= j < v@.len() ==> v@[j] == it.seq()[j],
            it.seq() == s@,
    {
        v.push(c);
    }
    proof {
        assert(v@ =~= s@);
    }
    v
}

/// The value of a cell character, or `None` for any other character.
pub fn cell_of_char(ch: char) -> (r: Option<u8>)
    ensures
        r is Some <==> is_cell_char(ch),
        r matches Some(v) ==> v == cell_value(ch) && v <= 9,
{
    if ch == '_' || ch == '.' || ch == '0' {
        Some(0)
    } else if '1' <= ch && ch <= '9' {
        Some((ch as u32 - 48) as u8)
    } else {
        None
    }
}

/// The view of a parse result: the grid of a sudoku, or the error.
pub open spec fn grid_of<E>(r: Result<Sudoku, E>) -> Result<Seq<u8>, E> {
    match r {
        Ok(s) => Ok(s@),
        Err(e) => Err(e),
    }
}

impl Sudoku {
    /// Reads a sudoku in line format from characters.
    fn from_chars_line(chars: &Vec<char>) -> (r: Result<Sudoku, LineFormatParseError>)
        ensures
            parse_line(chars@, grid_of(r)),
            r is Ok <==> is_line(chars@),
    {
        let mut grid: [u8; 81] = [0u8;81];
        let mut i: usize = 0;
        while i < 81
            invariant
                i <= 81,
                i <= chars@.len() || i == 0,
                cells_upto(chars@, i as int),
                forall|c: int| 0 <= c < i ==> #[trigger] grid@[c] == cell_value(chars@[c]),
                forall|c: int| 0 <= c < 81 ==> #[trigger] grid@[c] <= 9,
            decreases 81 - i,
        {
            if i >= chars.len() {
                return Err(LineFormatParseError::NotEnoughCells(i as u8));
            }
            let ch = chars[i];
            match cell_of_char(ch) {
                Some(v) => {
                    grid[i] = v;
                },
                None => {
                    // space ends sudoku before grid is filled
                    if ch == ' ' || ch == '\t' {
                        return Err(LineFormatParseError::NotEnoughCells(i as u8));
                    }
                    return Err(
                        LineFormatParseError::InvalidEntry(PubEntry { cell: i as u8, ch: ch }),
                    );
                },
            }
            i += 1;
        }
        // if more than 81 elements, sudoku must be delimited
        if chars.len() > 81 {
            let ch = chars[81];
            if ch == ' ' || ch == '\r' || ch == '\n' {
                // delimiters, end of sudoku
            } else if cell_of_char(ch).is_some() {
                // valid cell entry => too long
                return Err(LineFormatParseError::TooManyCells);
            } else {
                // any other char can not be part of sudoku
                // treat like comment, but with missing delimiter
                return Err(LineFormatParseError::MissingCommentDelimiter);
            }
        }
        proof {
            assert(grid@ =~= line_grid(chars@));
        }
        Ok(Sudoku(grid))
    }

    /// Reads a sudoku in the line format: 81 cell characters, then the end
    /// of the text or a blank and a comment.
    /// Stops parsing after the first sudoku.
    pub fn from_str_line(s: &str) -> (r: Result<Sudoku, LineFormatParseError>)
        ensures
            parse_line(s@, grid_of(r)),
            r is Ok <==> is_line(s@),
    {
        let chars = chars_of(s);
        Sudoku::from_chars_line(&chars)
    }
}

/// How the boxes of a block are set apart: not known before the fourth
/// character of the first row; by `|` and rules of dashes; by `|` and rules
/// with `+`; or not at all.
#[derive(Clone, Copy, Debug, PartialEq, Eq, Structural)]
pub enum Format {
    /// Not decided yet.
    Unknown,
    /// Boxes are set apart by `|` and by rules of dashes.
    Delimited,
    /// Boxes are set apart by `|` and by rules of dashes with `+`.
    DelimitedPlus,
    /// Boxes are not set apart.
    Bare,
}

/// White space, as `char::is_whitespace` has it.
pub open spec fn is_blank(c: char) -> bool {
    let u = c as u32;
    (0x09 <= u <= 0x0d) || u == 0x20 || u == 0x85 || u == 0xa0 || u == 0x1680 || (0x2000 <= u
        <= 0x200a) || u == 0x2028 || u == 0x2029 || u == 0x202f || u == 0x205f || u == 0x3000
}

/// Number of characters from `from` up to the next line feed, or to the
/// end of the text if none follows.
pub open spec fn line_len(s: Seq<char>, from: int) -> nat
    decreases s.len() - from,
{
    if from >= s.len() || s[from] == '\n' {
        0
    } else {
        1 + line_len(s, from + 1)
    }
}

/// Position of the line feed that ends the line starting at `from`, or
/// the length of the text if none follows.
pub open spec fn line_end(s: Seq<char>, from: int) -> int {
    from + line_len(s, from) as int
}

/// Position at which the line after the one starting at `from` starts, or
/// the length of the text if there is none.
pub open spec fn line_after(s: Seq<char>, from: int) -> int {
    if line_end(s, from) + 1 < s.len() {
        line_end(s, from) + 1
    } else {
        s.len() as int
    }
}

/// The line that starts at `from`: up to the next line feed, without the
/// carriage return that may stand before it.
pub open spec fn line_at(s: Seq<char>, from: int) -> Seq<char> {
    let end = line_end(s, from);
    if end < s.len() && from < end && s[end - 1] == '\r' {
        s.subrange(from, end - 1)
    } else {
        s.subrange(from, end)
    }
}

/// The line consists of white space only.
pub open spec fn is_blank_line(line: Seq<char>) -> bool {
    forall|i: int| 0 <= i < line.len() ==> is_blank(#[trigger] line[i])
}

/// The line begins with a rule of eleven characters: dashes, with `cross`
/// at the two places where the boxes meet.
pub open spec fn is_rule(line: Seq<char>, cross: char) -> bool {
    line.len() >= 11 && forall|i: int|
        0 <= i < 11 ==> #[trigger] line[i] == if i == 3 || i == 7 {
            cross
        } else {
            '-'
        }
}

/// What reading one row of a block gives, from column `col` of the line
/// on, when `row` holds the cells read so far: the nine cells and the
/// format, or an error. `n_sud` is the number of the row.
pub open spec fn row_from(line: Seq<char>, col: int, format: Format, row: Seq<u8>, n_sud: int)
    -> Result<(Seq<u8>, Format), BlockFormatParseError>
    decreases line.len() - col,
{
    if col >= line.len() {
        if row.len() == 9 {
            Ok((row, format))
        } else {
            Err(BlockFormatParseError::InvalidLineLength(n_sud as u8))
        }
    } else if row.len() == 9 {
        if line[col] == ' ' || line[col] == '\t' {
            Ok((row, format))
        } else if is_cell_char(line[col]) {
            Err(BlockFormatParseError::InvalidLineLength(n_sud as u8))
        } else {
            Err(BlockFormatParseError::MissingCommentDelimiter(n_sud as u8))
        }
    } else {
        let at_bar = col == 3 || col == 7;
        let format = if at_bar && format == Format::Unknown {
            if line[col] == '|' {
                Format::Delimited
            } else {
                Format::Bare
            }
        } else {
            format
        };
        if at_bar && (format == Format::Delimited || format == Format::DelimitedPlus) {
            if line[col] == '|' {
                row_from(line, col + 1, format, row, n_sud)
            } else {
                Err(BlockFormatParseError::IncorrectFieldDelimiter)
            }
        } else if is_cell_char(line[col]) {
            row_from(line, col + 1, format, row.push(cell_value(line[col])), n_sud)
        } else {
            Err(
                BlockFormatParseError::InvalidEntry(
                    PubEntry { cell: (n_sud * 9 + row.len()) as u8, ch: line[col] },
                ),
            )
        }
    }
}

/// What reading a block gives, from position `pos` of the text on, where
/// line number `idx` begins, when `grid` holds the `n_sud` rows read so
/// far. After nine rows a blank line or the end of the text closes the
/// grid. In a delimited block lines 3 and 7 are rules.
pub open spec fn block_from(
    s: Seq<char>,
    pos: int,
    idx: int,
    format: Format,
    n_sud: int,
    grid: Seq<u8>,
) -> Result<Seq<u8>, BlockFormatParseError>
    decreases s.len() - pos,
{
    if pos >= s.len() {
        if n_sud == 9 {
            Ok(grid)
        } else {
            Err(BlockFormatParseError::NotEnoughRows((n_sud + 1) as u8))
        }
    } else {
        let line = line_at(s, pos);
        let next = line_after(s, pos);
        if n_sud == 9 {
            if is_blank_line(line) {
                Ok(grid)
            } else {
                Err(BlockFormatParseError::TooManyRows)
            }
        } else if (format == Format::Delimited || format == Format::DelimitedPlus) && (idx == 3
            || idx == 7) {
            let format = if idx == 3 && is_rule(line, '+') {
                Format::DelimitedPlus
            } else {
                format
            };
            let cross = if format == Format::Delimited {
                '-'
            } else {
                '+'
            };
            if is_rule(line, cross) {
                block_from(s, next, idx + 1, format, n_sud, grid)
            } else {
                Err(BlockFormatParseError::IncorrectFieldDelimiter)
            }
        } else {
            match row_from(line, 0, format, Seq::<u8>::empty(), n_sud) {
                Ok((row, format)) => block_from(s, next, idx + 1, format, n_sud + 1, grid + row),
                Err(e) => Err(e),
            }
        }
    }
}

/// What reading a text in block format gives.
pub open spec fn parse_block(s: Seq<char>) -> Result<Seq<u8>, BlockFormatParseError> {
    block_from(s, 0, 0, Format::Unknown, 0, Seq::<u8>::empty())
}

/// The values of the cell characters of a line, from column `col` on.
pub open spec fn cells_from(line: Seq<char>, col: int) -> Seq<u8>
    decreases line.len() - col,
{
    if col >= line.len() {
        Seq::<u8>::empty()
    } else if is_cell_char(line[col]) {
        seq![cell_value(line[col])] + cells_from(line, col + 1)
    } else {
        cells_from(line, col + 1)
    }
}

/// The rows gathered from position `pos` of the text on, added to `grid`:
/// of every line that holds nine or more cell characters the first nine,
/// until nine rows are there.
pub open spec fn rows_from(s: Seq<char>, pos: int, grid: Seq<u8>) -> Seq<u8>
    decreases s.len() - pos,
{
    if pos >= s.len() || grid.len() >= 81 {
        grid
    } else {
        let cells = cells_from(line_at(s, pos), 0);
        rows_from(
            s,
            line_after(s, pos),
            if cells.len() >= 9 {
                grid + cells.take(9)
            } else {
                grid
            },
        )
    }
}

/// What reading a text in the permissive block format gives: the first
/// nine lines that hold nine cells, or the number of such lines if they
/// are fewer.
pub open spec fn parse_permissive(s: Seq<char>) -> Result<Seq<u8>, NotEnoughRows> {
    let grid = rows_from(s, 0, Seq::<u8>::empty());
    if grid.len() == 81 {
        Ok(grid)
    } else {
        Err(NotEnoughRows((grid.len() / 9) as u8))
    }
}

/// Whether the character is white space.
pub fn is_whitespace(ch: char) -> (r: bool)
    ensures
        r == is_blank(ch),
{
    let u = ch as u32;
    (0x09 <= u && u <= 0x0d) || u == 0x20 || u == 0x85 || u == 0xa0 || u == 0x1680 || (0x2000 <= u
        && u <= 0x200a) || u == 0x2028 || u == 0x2029 || u == 0x202f || u == 0x205f || u == 0x3000
}

/// Finds the end of the line that starts at `from`: where the line's own
/// characters end, and where the next line starts.
fn next_line(chars: &Vec<char>, from: usize) -> (r: (usize, usize))
    requires
        from < chars@.len(),
    ensures
        from <= r.0 <= r.1 <= chars@.len(),
        chars@.subrange(from as int, r.0 as int) == line_at(chars@, from as int),
        r.1 == line_after(chars@, from as int),
        from < r.1,
{
    let mut end: usize = from;
    while end < chars.len() && chars[end] != '\n'
        invariant
            from <= end <= chars@.len(),
            line_end(chars@, from as int) == line_end(chars@, end as int),
        decreases chars@.len() - end,
    {
        end += 1;
    }
    if end < chars.len() {
        if from < end && chars[end - 1] == '\r' {
            (end - 1, end + 1)
        } else {
            (end, end + 1)
        }
    } else {
        (end, end)
    }
}

/// Whether the line `chars[from..to]` consists of white space only.
fn blank_between(chars: &Vec<char>, from: usize, to: usize) -> (r: bool)
    requires
        from <= to <= chars@.len(),
    ensures
        r == is_blank_line(chars@.subrange(from as int, to as int)),
{
    let ghost line = chars@.subrange(from as int, to as int);
    let mut i: usize = from;
    while i < to
        invariant
            from <= i <= to <= chars@.len(),
            line == chars@.subrange(from as int, to as int),
            forall|k: int| 0 <= k < i - from ==> is_blank(#[trigger] line[k]),
        decreases to - i,
    {
        if !is_whitespace(chars[i]) {
            proof {
                assert(line[i - from] == chars@[i as int]);
            }
            return false;
        }
        proof {
            assert(line[i - from] == chars@[i as int]);
        }
        i += 1;
    }
    true
}

/// Whether the line `chars[from..to]` begins with a rule.
fn rule_between(chars: &Vec<char>, from: usize, to: usize, cross: char) -> (r: bool)
    requires
        from <= to <= chars@.len(),
    ensures
        r == is_rule(chars@.subrange(from as int, to as int), cross),
{
    let ghost line = chars@.subrange(from as int, to as int);
    if to - from < 11 {
        return false;
    }
    let mut i: usize = 0;
    while i < 11
        invariant
            i <= 11,
            from + 11 <= to <= chars@.len(),
            line == chars@.subrange(from as int, to as int),
            forall|k: int|
                0 <= k < i ==> #[trigger] line[k] == if k == 3 || k == 7 {
                    cross
                } else {
                    '-'
                },
        decreases 11 - i,
    {
        let want = if i == 3 || i == 7 {
            cross
        } else {
            '-'
        };
        proof {
            assert(line[i as int] == chars@[from + i]);
        }
        if chars[from + i] != want {
            return false;
        }
        i += 1;
    }
    true
}

/// Reads one row of a block from the line `chars[from..to]` into row
/// `n_line_sud` of the grid. Gives the format, which the fourth character
/// of the first row decides.
fn read_row(
    chars: &Vec<char>,
    from: usize,
    to: usize,
    format: Format,
    n_line_sud: u8,
    grid: &mut [u8; 81],
) -> (r: Result<Format, BlockFormatParseError>)
    requires
        from <= to <= chars@.len(),
        n_line_sud < 9,
        forall|c: int| 0 <= c < 81 ==> #[trigger] old(grid)@[c] <= 9,
    ensures
        forall|c: int| 0 <= c < 81 ==> #[trigger] final(grid)@[c] <= 9,
        final(grid)@.take(9 * n_line_sud) == old(grid)@.take(9 * n_line_sud),
        match row_from(
            chars@.subrange(from as int, to as int),
            0,
            format,
            Seq::<u8>::empty(),
            n_line_sud as int,
        ) {
            Ok((row, f)) => r == Ok::<Format, BlockFormatParseError>(f) && final(grid)@.subrange(
                9 * n_line_sud,
                9 * n_line_sud + 9,
            ) == row,
            Err(e) => r == Err::<Format, BlockFormatParseError>(e),
        },
{
    let ghost line = chars@.subrange(from as int, to as int);
    let ghost grid0 = grid@;
    let ghost whole = row_from(line, 0, format, Seq::<u8>::empty(), n_line_sud as int);
    let mut fmt = format;
    let mut n_col_sud: u8 = 0;
    let mut col: usize = from;
    let ghost mut row = Seq::<u8>::empty();
    while col < to
        invariant
            from <= col <= to <= chars@.len(),
            line == chars@.subrange(from as int, to as int),
            n_line_sud < 9,
            n_col_sud <= 9,
            row.len() == n_col_sud,
            forall|c: int| 0 <= c < 81 ==> #[trigger] grid@[c] <= 9,
            grid0 == old(grid)@,
            grid@.take(9 * n_line_sud) == grid0.take(9 * n_line_sud),
            grid@.subrange(9 * n_line_sud, 9 * n_line_sud + n_col_sud) == row,
            whole == row_from(line, 0, format, Seq::<u8>::empty(), n_line_sud as int),
            whole == row_from(line, col - from, fmt, row, n_line_sud as int),
        decreases to - col,
    {
        let ch = chars[col];
        let str_col = col - from;
        proof {
            assert(line[col - from] == ch);
        }
        // if line complete
        if n_col_sud == 9 {
            if ch == ' ' || ch == '\t' {
                // comment separator
                return Ok(fmt);
            } else if cell_of_char(ch).is_some() {
                // valid entry, line too long
                return Err(BlockFormatParseError::InvalidLineLength(n_line_sud));
            } else {
                // invalid entry, interpret as comment but enforce separation
                return Err(BlockFormatParseError::MissingCommentDelimiter(n_line_sud));
            }
        }
        let mut skip = false;
        // if in place of vertical field delimiters
        if str_col == 3 || str_col == 7 {
            // set parse mode on 4th char in 1st line
            if fmt == Format::Unknown {
                fmt = if ch == '|' {
                    Format::Delimited
                } else {
                    Format::Bare
                };
            }
            // check and skip over delimiters
            if fmt == Format::Delimited || fmt == Format::DelimitedPlus {
                if ch == '|' {
                    skip = true;
                } else {
                    return Err(BlockFormatParseError::IncorrectFieldDelimiter);
                }
            }
        }
        if !skip {
            let cell = n_line_sud * 9 + n_col_sud;
            match cell_of_char(ch) {
                Some(v) => {
                    let ghost before = grid@;
                    grid[cell as usize] = v;
                    proof {
                        assert(grid@.take(9 * n_line_sud) =~= before.take(9 * n_line_sud));
                        assert(grid@.subrange(9 * n_line_sud, 9 * n_line_sud + n_col_sud + 1)
                            =~= row.push(v)) by {
                            assert forall|k: int| 0 <= k < n_col_sud implies grid@[9 * n_line_sud
                                + k] == row[k] by {
                                assert(before.subrange(
                                    9 * n_line_sud,
                                    9 * n_line_sud + n_col_sud,
                                )[k] == row[k]);
                            }
                        }
                        row = row.push(v);
                    }
                },
                None => {
                    return Err(
                        BlockFormatParseError::InvalidEntry(PubEntry { cell: cell, ch: ch }),
                    );
                },
            }
            n_col_sud += 1;
        }
        col += 1;
    }
    if n_col_sud != 9 {
        return Err(BlockFormatParseError::InvalidLineLength(n_line_sud));
    }
    Ok(fmt)
}

/// Gathers the first nine cells of the line `chars[from..to]`, skipping
/// every character that does not stand for a cell. Gives the cells and
/// their number, which is nine or all there are.
fn read_cells(chars: &Vec<char>, from: usize, to: usize) -> (r: ([u8; 9], usize))
    requires
        from <= to <= chars@.len(),
    ensures
        forall|k: int| 0 <= k < 9 ==> #[trigger] r.0@[k] <= 9,
        r.1 <= 9,
        r.1 == 9 <==> cells_from(chars@.subrange(from as int, to as int), 0).len() >= 9,
        r.0@.take(r.1 as int) == cells_from(chars@.subrange(from as int, to as int), 0).take(
            r.1 as int,
        ),
        r.1 < 9 ==> r.1 == cells_from(chars@.subrange(from as int, to as int), 0).len(),
{
    let ghost line = chars@.subrange(from as int, to as int);
    let mut row_vals: [u8; 9] = [0u8;9];
    let mut nums_in_row: usize = 0;
    let mut col: usize = from;
    while col < to && nums_in_row < 9
        invariant
            from <= col <= to <= chars@.len(),
            line == chars@.subrange(from as int, to as int),
            nums_in_row <= 9,
            forall|k: int| 0 <= k < 9 ==> #[trigger] row_vals@[k] <= 9,
            cells_from(line, 0) == row_vals@.take(nums_in_row as int) + cells_from(
                line,
                col - from,
            ),
        decreases to - col,
    {
        let ch = chars[col];
        proof {
            assert(line[col - from] == ch);
        }
        match cell_of_char(ch) {
            Some(v) => {
                let ghost before = row_vals@.take(nums_in_row as int);
                row_vals[nums_in_row] = v;
                nums_in_row += 1;
                proof {
                    assert(row_vals@.take(nums_in_row as int) =~= before.push(v));
                    assert(before.push(v) + cells_from(line, col - from + 1) =~= before + (seq![v]
                        + cells_from(line, col - from + 1)));
                }
            },
            None => {},
        }
        col += 1;
    }
    proof {
        let cells = cells_from(line, 0);
        let got = row_vals@.take(nums_in_row as int);
        if nums_in_row == 9 {
            assert(cells.take(9) =~= got);
        } else {
            assert(cells_from(line, col - from) =~= Seq::<u8>::empty());
            assert(cells =~= got);
            assert(cells.take(nums_in_row as int) =~= cells);
        }
    }
    (row_vals, nums_in_row)
}

impl Sudoku {
    /// Reads a sudoku in the block format with or without field delimiters:
    /// nine rows of nine cells, one row per line; with delimiters, a `|`
    /// after every third cell and a rule after every third row.
    /// Stops parsing after the first sudoku.
    pub fn from_str_block(s: &str) -> (r: Result<Sudoku, BlockFormatParseError>)
        ensures
            grid_of(r) == parse_block(s@),
    {
        let chars = chars_of(s);
        let mut grid: [u8; 81] = [0u8;81];
        let mut format = Format::Unknown;
        let mut n_line_sud: u8 = 0;
        let mut n_line_str: usize = 0;
        let mut pos: usize = 0;
        proof {
            assert(grid@.take(0) =~= Seq::<u8>::empty());
        }
        // read a row per line
        while pos < chars.len()
            invariant
                chars@ == s@,
                n_line_sud <= 9,
                n_line_str <= pos,
                pos <= chars@.len(),
                forall|c: int| 0 <= c < 81 ==> #[trigger] grid@[c] <= 9,
                parse_block(s@) == block_from(
                    s@,
                    pos as int,
                    n_line_str as int,
                    format,
                    n_line_sud as int,
                    grid@.take(9 * n_line_sud),
                ),
            decreases chars@.len() - pos,
        {
            let (end, next) = next_line(&chars, pos);
            let ghost line = line_at(s@, pos as int);
            let ghost prefix = grid@.take(9 * n_line_sud);
            // if sudoku complete
            // enforce empty line (whitespace ignored)
            if n_line_sud == 9 {
                if blank_between(&chars, pos, end) {
                    proof {
                        assert(grid@.take(81) =~= grid@);
                    }
                    return Ok(Sudoku(grid));
                } else {
                    return Err(BlockFormatParseError::TooManyRows);
                }
            }
            // if delimited, check horizontal field delimiters and skip over line
            if (format == Format::Delimited || format == Format::DelimitedPlus) && (n_line_str == 3
                || n_line_str == 7) {
                if n_line_str == 3 && rule_between(&chars, pos, end, '+') {
                    format = Format::DelimitedPlus;
                }
                let cross = if format == Format::Delimited {
                    '-'
                } else {
                    '+'
                };
                if !rule_between(&chars, pos, end, cross) {
                    return Err(BlockFormatParseError::IncorrectFieldDelimiter);
                }
                pos = next;
                n_line_str += 1;
                continue ;
            }
            match read_row(&chars, pos, end, format, n_line_sud, &mut grid) {
                Ok(f) => {
                    format = f;
                },
                Err(e) => {
                    return Err(e);
                },
            }
            proof {
                let row = grid@.subrange(9 * n_line_sud, 9 * n_line_sud + 9);
                assert(grid@.take(9 * (n_line_sud + 1)) =~= prefix + row);
            }
            n_line_sud += 1;
            pos = next;
            n_line_str += 1;
        }
        if n_line_sud != 9 {
            // number of rows = index of last + 1
            return Err(BlockFormatParseError::NotEnoughRows(n_line_sud + 1));
        }
        proof {
            assert(grid@.take(81) =~= grid@);
        }
        Ok(Sudoku(grid))
    }

    /// Reads a sudoku in a variety of block formats, applying few constraints.
    /// Each line needs to have 9 valid cells; lines that do not are ignored,
    /// and so is whatever follows the ninth cell of a line.
    /// Stops parsing after the first sudoku. The only failure that can occur
    /// is that there are not enough rows.
    pub fn from_str_block_permissive(s: &str) -> (r: Result<Sudoku, NotEnoughRows>)
        ensures
            grid_of(r) == parse_permissive(s@),
    {
        let chars = chars_of(s);
        let mut grid: [u8; 81] = [0u8;81];
        let mut valid_rows: u8 = 0;
        let mut pos: usize = 0;
        proof {
            assert(grid@.take(0) =~= Seq::<u8>::empty());
        }
        while pos < chars.len()
            invariant
                chars@ == s@,
                valid_rows < 9,
                pos <= chars@.len(),
                forall|c: int| 0 <= c < 81 ==> #[trigger] grid@[c] <= 9,
                rows_from(s@, 0, Seq::<u8>::empty()) == rows_from(
                    s@,
                    pos as int,
                    grid@.take(9 * valid_rows),
                ),
            decreases chars@.len() - pos,
        {
            let (end, next) = next_line(&chars, pos);
            let ghost prefix = grid@.take(9 * valid_rows);
            let (row_vals, nums_in_row) = read_cells(&chars, pos, end);
            // full sudoku row, write to grid
            // ignore anything after in same row
            if nums_in_row == 9 {
                let mut k: usize = 0;
                while k < 9
                    invariant
                        k <= 9,
                        valid_rows < 9,
                        forall|c: int| 0 <= c < 81 ==> #[trigger] grid@[c] <= 9,
                        forall|j: int| 0 <= j < 9 ==> #[trigger] row_vals@[j] <= 9,
                        grid@.take(9 * valid_rows) == prefix,
                        grid@.subrange(9 * valid_rows, 9 * valid_rows + k) == row_vals@.take(
                            k as int,
                        ),
                    decreases 9 - k,
                {
                    let ghost before = grid@;
                    grid[valid_rows as usize * 9 + k] = row_vals[k];
                    proof {
                        assert(grid@.take(9 * valid_rows) =~= before.take(9 * valid_rows));
                        assert(grid@.subrange(9 * valid_rows, 9 * valid_rows + k + 1)
                            =~= row_vals@.take(k + 1)) by {
                            assert forall|j: int| 0 <= j < k implies grid@[9 * valid_rows + j]
                                == row_vals@[j] by {
                                assert(before.subrange(9 * valid_rows, 9 * valid_rows + k)[j]
                                    == row_vals@.take(k as int)[j]);
                            }
                        }
                    }
                    k += 1;
                }
                proof {
                    assert(row_vals@.take(9) =~= row_vals@);
                    assert(grid@.take(9 * (valid_rows + 1)) =~= prefix + row_vals@.take(9));
                }
                valid_rows += 1;
                if valid_rows == 9 {
                    proof {
                        assert(grid@.take(81) =~= grid@);
                        assert(rows_from(s@, next as int, grid@) == grid@);
                    }
                    return Ok(Sudoku(grid));
                }
            }
            pos = next;
        }
        proof {
            assert(grid@.take(9 * valid_rows).len() == 9 * valid_rows);
        }
        Err(NotEnoughRows(valid_rows))
    }
}

} // verus!
