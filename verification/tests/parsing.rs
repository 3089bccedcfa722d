use sudoku::{BlockFormatParseError, LineFormatParseError, NotEnoughRows, PubEntry, Sudoku};

const LINE: &str =
    "..3.2.6..9..3.5..1..18.64....81.29..7.......8..67.82....26.95..8..2.3..9..5.1.3..";

fn expected() -> [u8; 81] {
    let rows: [[u8; 9]; 9] = [
        [0, 0, 3, 0, 2, 0, 6, 0, 0],
        [9, 0, 0, 3, 0, 5, 0, 0, 1],
        [0, 0, 1, 8, 0, 6, 4, 0, 0],
        [0, 0, 8, 1, 0, 2, 9, 0, 0],
        [7, 0, 0, 0, 0, 0, 0, 0, 8],
        [0, 0, 6, 7, 0, 8, 2, 0, 0],
        [0, 0, 2, 6, 0, 9, 5, 0, 0],
        [8, 0, 0, 2, 0, 3, 0, 0, 9],
        [0, 0, 5, 0, 1, 0, 3, 0, 0],
    ];
    let mut grid = [0u8; 81];
    for r in 0..9 {
        for c in 0..9 {
            grid[r * 9 + c] = rows[r][c];
        }
    }
    grid
}

#[test]
fn line_format_reads_81_cells() {
    let sudoku = Sudoku::from_str_line(LINE).unwrap();
    assert_eq!(sudoku.to_bytes(), expected());
}

#[test]
fn line_format_takes_all_empty_cell_characters() {
    let line = LINE.replace('.', "_");
    assert_eq!(Sudoku::from_str_line(&line).unwrap().to_bytes(), expected());
    let line = LINE.replace('.', "0");
    assert_eq!(Sudoku::from_str_line(&line).unwrap().to_bytes(), expected());
}

#[test]
fn line_format_allows_a_comment_after_a_blank() {
    let line = format!("{} optional comment", LINE);
    assert_eq!(Sudoku::from_str_line(&line).unwrap().to_bytes(), expected());
    let line = format!("{}\n{}", LINE, LINE);
    assert_eq!(Sudoku::from_str_line(&line).unwrap().to_bytes(), expected());
    let line = format!("{}\r\n", LINE);
    assert_eq!(Sudoku::from_str_line(&line).unwrap().to_bytes(), expected());
}

#[test]
fn line_format_not_enough_cells() {
    assert_eq!(
        Sudoku::from_str_line("").unwrap_err(),
        LineFormatParseError::NotEnoughCells(0)
    );
    assert_eq!(
        Sudoku::from_str_line(&LINE[..80]).unwrap_err(),
        LineFormatParseError::NotEnoughCells(80)
    );
    let cut = format!("{} {}", &LINE[..40], &LINE[40..]);
    assert_eq!(
        Sudoku::from_str_line(&cut).unwrap_err(),
        LineFormatParseError::NotEnoughCells(40)
    );
    let tab = format!("{}\t", &LINE[..7]);
    assert_eq!(
        Sudoku::from_str_line(&tab).unwrap_err(),
        LineFormatParseError::NotEnoughCells(7)
    );
}

#[test]
fn line_format_invalid_entry() {
    let mut line = String::from(&LINE[..10]);
    line.push('x');
    line.push_str(&LINE[11..]);
    assert_eq!(
        Sudoku::from_str_line(&line).unwrap_err(),
        LineFormatParseError::InvalidEntry(PubEntry { cell: 10, ch: 'x' })
    );
    let umlaut = format!("{}ä{}", &LINE[..3], &LINE[4..]);
    assert_eq!(
        Sudoku::from_str_line(&umlaut).unwrap_err(),
        LineFormatParseError::InvalidEntry(PubEntry { cell: 3, ch: 'ä' })
    );
    let newline = format!("{}\n", &LINE[..20]);
    assert_eq!(
        Sudoku::from_str_line(&newline).unwrap_err(),
        LineFormatParseError::InvalidEntry(PubEntry { cell: 20, ch: '\n' })
    );
}

#[test]
fn line_format_too_many_cells() {
    let line = format!("{}1", LINE);
    assert_eq!(Sudoku::from_str_line(&line).unwrap_err(), LineFormatParseError::TooManyCells);
    let line = format!("{}.", LINE);
    assert_eq!(Sudoku::from_str_line(&line).unwrap_err(), LineFormatParseError::TooManyCells);
}

#[test]
fn line_format_missing_comment_delimiter() {
    let line = format!("{}comment", LINE);
    assert_eq!(
        Sudoku::from_str_line(&line).unwrap_err(),
        LineFormatParseError::MissingCommentDelimiter
    );
    let line = format!("{}\tcomment", LINE);
    assert_eq!(
        Sudoku::from_str_line(&line).unwrap_err(),
        LineFormatParseError::MissingCommentDelimiter
    );
}

const BARE: &str = "\
__3_2_6__ optional comment
9__3_5__1 another comment
__18_64__
__81_29__
7_______8
__67_82__
__26_95__
8__2_3__9
__5_1_3__
";

const DELIMITED: &str = "\
__3|_2_|6__ optional comment
9__|3_5|__1 another comment
__1|8_6|4__
-----------
__8|1_2|9__
7__|___|__8
__6|7_8|2__
-----------
__2|6_9|5__
8__|2_3|__9
__5|_1_|3__
";

const DELIMITED_PLUS: &str = "\
__3|_2_|6__ optional comment
9__|3_5|__1 another comment
__1|8_6|4__
---+---+--- comment
__8|1_2|9__
7__|___|__8
__6|7_8|2__
---+---+---
__2|6_9|5__
8__|2_3|__9
__5|_1_|3__
";

#[test]
fn block_format_without_delimiters() {
    assert_eq!(Sudoku::from_str_block(BARE).unwrap().to_bytes(), expected());
}

#[test]
fn block_format_with_delimiters() {
    assert_eq!(Sudoku::from_str_block(DELIMITED).unwrap().to_bytes(), expected());
    assert_eq!(Sudoku::from_str_block(DELIMITED_PLUS).unwrap().to_bytes(), expected());
}

#[test]
fn block_format_with_carriage_returns() {
    let text = BARE.replace('\n', "\r\n");
    assert_eq!(Sudoku::from_str_block(&text).unwrap().to_bytes(), expected());
    let text = DELIMITED_PLUS.replace('\n', "\r\n");
    assert_eq!(Sudoku::from_str_block(&text).unwrap().to_bytes(), expected());
}

#[test]
fn block_format_without_final_line_end() {
    let text = BARE.trim_end();
    assert_eq!(Sudoku::from_str_block(text).unwrap().to_bytes(), expected());
}

#[test]
fn block_format_stops_at_a_blank_line() {
    let text = format!("{}  \t\nanything at all", BARE);
    assert_eq!(Sudoku::from_str_block(&text).unwrap().to_bytes(), expected());
}

#[test]
fn block_format_too_many_rows() {
    let text = format!("{}__5_1_3__\n", BARE);
    assert_eq!(Sudoku::from_str_block(&text).unwrap_err(), BlockFormatParseError::TooManyRows);
    let text = format!("{}comment\n", BARE);
    assert_eq!(Sudoku::from_str_block(&text).unwrap_err(), BlockFormatParseError::TooManyRows);
}

#[test]
fn block_format_not_enough_rows() {
    assert_eq!(
        Sudoku::from_str_block("").unwrap_err(),
        BlockFormatParseError::NotEnoughRows(1)
    );
    let three: String = BARE.lines().take(3).map(|l| format!("{}\n", l)).collect();
    assert_eq!(
        Sudoku::from_str_block(&three).unwrap_err(),
        BlockFormatParseError::NotEnoughRows(4)
    );
    let eight: String = BARE.lines().take(8).map(|l| format!("{}\n", l)).collect();
    assert_eq!(
        Sudoku::from_str_block(&eight).unwrap_err(),
        BlockFormatParseError::NotEnoughRows(9)
    );
}

#[test]
fn block_format_invalid_line_length() {
    let short = BARE.replacen("__18_64__", "__18_64_", 1);
    assert_eq!(
        Sudoku::from_str_block(&short).unwrap_err(),
        BlockFormatParseError::InvalidLineLength(2)
    );
    let long = BARE.replacen("__18_64__", "__18_64__1", 1);
    assert_eq!(
        Sudoku::from_str_block(&long).unwrap_err(),
        BlockFormatParseError::InvalidLineLength(2)
    );
    let empty_line = format!("\n{}", BARE);
    assert_eq!(
        Sudoku::from_str_block(&empty_line).unwrap_err(),
        BlockFormatParseError::InvalidLineLength(0)
    );
}

#[test]
fn block_format_missing_comment_delimiter() {
    let text = BARE.replacen("__81_29__", "__81_29__comment", 1);
    assert_eq!(
        Sudoku::from_str_block(&text).unwrap_err(),
        BlockFormatParseError::MissingCommentDelimiter(3)
    );
}

#[test]
fn block_format_invalid_entry() {
    let text = BARE.replacen("7_______8", "7___x___8", 1);
    assert_eq!(
        Sudoku::from_str_block(&text).unwrap_err(),
        BlockFormatParseError::InvalidEntry(PubEntry { cell: 40, ch: 'x' })
    );
    let text = DELIMITED.replacen("7__|___|__8", "7__|___|_ 8", 1);
    assert_eq!(
        Sudoku::from_str_block(&text).unwrap_err(),
        BlockFormatParseError::InvalidEntry(PubEntry { cell: 43, ch: ' ' })
    );
}

#[test]
fn block_format_incorrect_field_delimiter() {
    // a cell where a bar belongs
    let text = DELIMITED.replacen("9__|3_5|__1", "9__|3_5___1", 1);
    assert_eq!(
        Sudoku::from_str_block(&text).unwrap_err(),
        BlockFormatParseError::IncorrectFieldDelimiter
    );
    // a row where a rule belongs
    let text = DELIMITED.replacen("-----------\n", "", 1);
    assert_eq!(
        Sudoku::from_str_block(&text).unwrap_err(),
        BlockFormatParseError::IncorrectFieldDelimiter
    );
    // the second rule has to be of the kind of the first
    let text = DELIMITED_PLUS.replacen("---+---+---\n", "-----------\n", 1);
    assert_eq!(
        Sudoku::from_str_block(&text).unwrap_err(),
        BlockFormatParseError::IncorrectFieldDelimiter
    );
    let text = DELIMITED.replacen("-----------\n__2", "---+---+---\n__2", 1);
    assert_eq!(
        Sudoku::from_str_block(&text).unwrap_err(),
        BlockFormatParseError::IncorrectFieldDelimiter
    );
    // a rule too short
    let text = DELIMITED.replacen("-----------", "----------", 1);
    assert_eq!(
        Sudoku::from_str_block(&text).unwrap_err(),
        BlockFormatParseError::IncorrectFieldDelimiter
    );
}

#[test]
fn permissive_block_format_skips_what_is_no_row() {
    let text = "\
a sudoku, with some noise
+---+---+---+
|..3|.2.|6..| first
|9..|3.5|..1|
|..1|8.6|4..|
+---+---+---+
|..8|1.2|9..|
|7..|...|..8|
|..6|7.8|2..|
+---+---+---+
|..2|6.9|5..|
|8..|2.3|..9|
|..5|.1.|3..| 123456789
+---+---+---+
";
    assert_eq!(Sudoku::from_str_block_permissive(text).unwrap().to_bytes(), expected());
    assert_eq!(Sudoku::from_str_block_permissive(BARE).unwrap().to_bytes(), expected());
    assert_eq!(Sudoku::from_str_block_permissive(DELIMITED_PLUS).unwrap().to_bytes(), expected());
}

#[test]
fn permissive_block_format_takes_the_first_nine_cells_of_a_line() {
    let mut text = String::new();
    for _ in 0..9 {
        text.push_str("1.2.3.4.5.6.7.8.9\n");
    }
    let grid = Sudoku::from_str_block_permissive(&text).unwrap().to_bytes();
    for r in 0..9 {
        assert_eq!(&grid[r * 9..r * 9 + 9], &[1, 0, 2, 0, 3, 0, 4, 0, 5]);
    }
}

#[test]
fn permissive_block_format_not_enough_rows() {
    assert_eq!(Sudoku::from_str_block_permissive("").unwrap_err(), NotEnoughRows(0));
    assert_eq!(
        Sudoku::from_str_block_permissive("no row here\n12345678\n").unwrap_err(),
        NotEnoughRows(0)
    );
    let eight: String = BARE.lines().take(8).map(|l| format!("{}\n", l)).collect();
    assert_eq!(Sudoku::from_str_block_permissive(&eight).unwrap_err(), NotEnoughRows(8));
    assert_eq!(Sudoku::from_str_block_permissive(LINE).unwrap_err(), NotEnoughRows(1));
}

#[test]
fn bytes_round_trip() {
    let grid = expected();
    assert_eq!(Sudoku::from_bytes(grid).unwrap().to_bytes(), grid);
    assert_eq!(Sudoku::from_bytes_slice(&grid).unwrap().to_bytes(), grid);
    assert_eq!(Sudoku::from_bytes([0u8; 81]).unwrap().to_bytes(), [0u8; 81]);
    assert_eq!(Sudoku::from_bytes([9u8; 81]).unwrap().to_bytes(), [9u8; 81]);
}

#[test]
fn bytes_out_of_range_are_rejected() {
    let mut grid = expected();
    grid[80] = 10;
    assert_eq!(Sudoku::from_bytes(grid), Err(()));
    assert_eq!(Sudoku::from_bytes_slice(&grid), Err(()));
    grid[80] = 255;
    assert_eq!(Sudoku::from_bytes(grid), Err(()));
}

#[test]
fn byte_slices_of_other_lengths_are_rejected() {
    let grid = expected();
    assert_eq!(Sudoku::from_bytes_slice(&grid[..80]), Err(()));
    assert_eq!(Sudoku::from_bytes_slice(&[]), Err(()));
    let mut long = grid.to_vec();
    long.push(0);
    assert_eq!(Sudoku::from_bytes_slice(&long), Err(()));
}

#[test]
fn cells_come_out_as_options() {
    let sudoku = Sudoku::from_str_line(LINE).unwrap();
    let cells = sudoku.iter();
    assert_eq!(cells.len(), 81);
    let grid = expected();
    for c in 0..81 {
        assert_eq!(cells[c], if grid[c] == 0 { None } else { Some(grid[c]) });
    }
}

#[test]
fn line_format_is_written_as_it_is_read() {
    let sudoku = Sudoku::from_str_line(LINE).unwrap();
    let line = sudoku.to_str_line();
    assert_eq!(line.to_string(), LINE);
    assert_eq!(&line.as_bytes()[..], LINE.as_bytes());
    assert_eq!(Sudoku::from_str_line(&line.to_string()).unwrap(), sudoku);
    let mut grid = [0u8; 81];
    grid[3] = 5;
    let line = Sudoku::from_bytes(grid).unwrap().to_str_line();
    assert_eq!(
        line.to_string(),
        "...5............................................................................."
    );
}

#[test]
fn block_format_is_written_with_blanks_between_boxes() {
    let sudoku = Sudoku::from_str_line(LINE).unwrap();
    let text = sudoku.to_string();
    let want = "
__3 _2_ 6__
9__ 3_5 __1
__1 8_6 4__

__8 1_2 9__
7__ ___ __8
__6 7_8 2__

__2 6_9 5__
8__ 2_3 __9
__5 _1_ 3__";
    assert_eq!(text, want);
}
