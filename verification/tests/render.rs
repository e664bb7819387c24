use twenty48::Board;

const BORDER: &str = "+----+----+----+----+\r\n";

#[test]
fn empty_board_is_a_blank_frame() {
    let row = "|    |    |    |    |\r\n";
    let expected = format!("{BORDER}{row}{BORDER}{row}{BORDER}{row}{BORDER}{row}{BORDER}");
    assert_eq!(Board::empty().render(), expected);
}

#[test]
fn values_are_centred() {
    let board = Board { tiles: [[0, 1, 2, 3], [4, 5, 6, 7], [8, 9, 10, 11], [12, 13, 14, 0]] };
    let expected = [
        BORDER,
        "|    | 2  | 4  | 8  |\r\n",
        BORDER,
        "| 16 | 32 | 64 |128 |\r\n",
        BORDER,
        "|256 |512 |1024|2048|\r\n",
        BORDER,
        "|4096|8192|16384|    |\r\n",
        BORDER,
    ]
    .concat();
    assert_eq!(board.render(), expected);
}

#[test]
fn large_values_are_written_in_full() {
    let mut board = Board::empty();
    board.tiles[0][0] = 31;
    board.tiles[3][3] = 63;
    let text = board.render();
    let lines: Vec<&str> = text.split("\r\n").collect();
    assert_eq!(lines.len(), 10);
    assert_eq!(lines[1], "|2147483648|    |    |    |");
    assert_eq!(lines[7], "|    |    |    |9223372036854775808|");
    assert_eq!(lines[9], "");
}

#[test]
fn rendering_matches_the_formatter() {
    for v in 1..64u8 {
        let mut board = Board::empty();
        board.tiles[1][2] = v;
        let cell = format!("{:^4}", (1u64 << v).to_string());
        let row = format!("|    |    |{cell}|    |");
        let text = board.render();
        let lines: Vec<&str> = text.split("\r\n").collect();
        assert_eq!(lines[3], row);
    }
}
