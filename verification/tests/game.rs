use twenty48::{Board, Input, Key, Move, TurnOutcome};

const ALL_MOVES: [Move; 4] = [Move::Left, Move::Right, Move::Up, Move::Down];

const STUCK: [[u8; 4]; 4] = [[1, 2, 1, 2], [2, 1, 2, 1], [1, 2, 1, 2], [2, 1, 2, 1]];

fn tile_count(board: &Board) -> usize {
    board.tiles.iter().flatten().filter(|v| **v != 0).count()
}

/// The cells in which `after` differs from `before`.
fn changes(before: &Board, after: &Board) -> Vec<(usize, usize)> {
    let mut found = Vec::new();
    for r in 0..4 {
        for c in 0..4 {
            if before.tiles[r][c] != after.tiles[r][c] {
                found.push((r, c));
            }
        }
    }
    found
}

fn assert_one_new_tile(before: &Board, after: &Board) {
    let changed = changes(before, after);
    assert_eq!(changed.len(), 1);
    let (r, c) = changed[0];
    assert_eq!(before.tiles[r][c], 0);
    assert!(after.tiles[r][c] == 1 || after.tiles[r][c] == 2);
    assert_eq!(tile_count(after), tile_count(before) + 1);
}

#[test]
fn roll_of_ten_gives_a_four() {
    for roll in 1..=9 {
        assert_eq!(Board::tile_for_roll(roll), 1);
    }
    assert_eq!(Board::tile_for_roll(10), 2);
}

#[test]
fn random_tile_is_mostly_a_two() {
    let mut fours = 0;
    let draws = 20000;
    for _ in 0..draws {
        match Board::random_tile() {
            1 => {}
            2 => fours += 1,
            other => panic!("unexpected exponent {other}"),
        }
    }
    assert!(fours > draws / 20);
    assert!(fours < draws * 3 / 20);
}

#[test]
fn count_empty_counts_zero_cells() {
    assert_eq!(Board::empty().count_empty(), 16);
    assert_eq!(Board { tiles: STUCK }.count_empty(), 0);
    assert_eq!(Board { tiles: [[1, 0, 0, 2], [0, 0, 0, 0], [0, 3, 0, 0], [0, 0, 0, 1]] }.count_empty(), 12);
}

#[test]
fn place_tile_fills_the_empty_cell_of_that_rank() {
    let start = Board { tiles: [[1, 0, 0, 2], [1, 1, 1, 1], [0, 3, 0, 0], [0, 0, 0, 1]] };
    let cells = [(0, 1), (0, 2), (2, 0), (2, 2), (2, 3), (3, 0), (3, 1), (3, 2)];
    assert_eq!(start.count_empty(), cells.len());
    for (rank, (r, c)) in cells.into_iter().enumerate() {
        let mut board = start;
        board.place_tile(rank, 2);
        let mut expected = start;
        expected.tiles[r][c] = 2;
        assert_eq!(board, expected);
    }
}

#[test]
fn place_tile_on_an_empty_board() {
    for rank in 0..16 {
        let mut board = Board::empty();
        board.place_tile(rank, 1);
        let mut expected = Board::empty();
        expected.tiles[rank / 4][rank % 4] = 1;
        assert_eq!(board, expected);
    }
}

#[test]
fn place_random_tile_adds_one_tile() {
    let start = Board { tiles: [[1, 0, 0, 2], [1, 1, 1, 1], [0, 3, 0, 0], [0, 0, 0, 1]] };
    for _ in 0..200 {
        let mut board = start;
        board.place_random_tile();
        assert_one_new_tile(&start, &board);
    }
}

#[test]
fn place_random_tile_finds_the_last_empty_cell() {
    let mut tiles = STUCK;
    tiles[2][1] = 0;
    let start = Board { tiles };
    for _ in 0..50 {
        let mut board = start;
        board.place_random_tile();
        assert_eq!(changes(&start, &board), vec![(2, 1)]);
        assert_one_new_tile(&start, &board);
    }
}

#[test]
fn place_random_tile_reaches_every_empty_cell() {
    let start = Board { tiles: [[1, 0, 0, 2], [1, 1, 1, 1], [0, 3, 0, 0], [0, 0, 0, 1]] };
    let mut hits = [[0usize; 4]; 4];
    let mut fours = 0;
    let draws = 8000;
    for _ in 0..draws {
        let mut board = start;
        board.place_random_tile();
        let (r, c) = changes(&start, &board)[0];
        hits[r][c] += 1;
        if board.tiles[r][c] == 2 {
            fours += 1;
        }
    }
    for r in 0..4 {
        for c in 0..4 {
            if start.tiles[r][c] == 0 {
                assert!(hits[r][c] > draws / 16);
                assert!(hits[r][c] < draws * 3 / 16);
            } else {
                assert_eq!(hits[r][c], 0);
            }
        }
    }
    assert!(fours > 0);
    assert!(fours < draws / 4);
}

#[test]
fn init_sets_two_tiles() {
    for _ in 0..200 {
        let board = Board::init();
        assert_eq!(tile_count(&board), 2);
        assert!(board.tiles.iter().flatten().all(|v| *v <= 2));
        assert_eq!(board.outcome(), TurnOutcome::Continue);
    }
}

#[test]
fn winning_tile_wins_whatever_else_is_there() {
    let mut board = Board::empty();
    board.tiles[2][3] = 11;
    assert_eq!(board.outcome(), TurnOutcome::Win);
    board.tiles[2][3] = 13;
    assert_eq!(board.outcome(), TurnOutcome::Win);
    let mut stuck = Board { tiles: STUCK };
    stuck.tiles[0][0] = 11;
    assert_eq!(stuck.valid_moves(), vec![]);
    assert_eq!(stuck.outcome(), TurnOutcome::Win);
    let mut tiles = [[11u8; 4]; 4];
    tiles[1][1] = 0;
    assert_eq!(Board { tiles }.outcome(), TurnOutcome::Win);
}

#[test]
fn full_board_without_pairs_is_lost() {
    assert_eq!(Board { tiles: STUCK }.outcome(), TurnOutcome::Loss);
    let tiles = [[1, 2, 3, 4], [5, 6, 7, 8], [1, 2, 3, 4], [5, 6, 7, 8]];
    assert_eq!(Board { tiles }.outcome(), TurnOutcome::Loss);
}

#[test]
fn full_board_with_a_pair_goes_on() {
    let across = [[1, 1, 3, 4], [2, 3, 4, 5], [3, 4, 5, 6], [4, 5, 6, 7]];
    assert_eq!(Board { tiles: across }.outcome(), TurnOutcome::Continue);
    assert_eq!(Board { tiles: across }.valid_moves(), vec![Move::Left, Move::Right]);
    let along = [[1, 2, 3, 4], [1, 3, 4, 5], [3, 4, 5, 6], [4, 5, 6, 7]];
    assert_eq!(Board { tiles: along }.outcome(), TurnOutcome::Continue);
    assert_eq!(Board { tiles: along }.valid_moves(), vec![Move::Up, Move::Down]);
    let mut corner = STUCK;
    corner[3][3] = 2;
    assert_eq!(Board { tiles: corner }.outcome(), TurnOutcome::Continue);
    assert_eq!(Board { tiles: corner }.valid_moves().len(), 4);
}

#[test]
fn board_with_room_goes_on() {
    let mut board = Board::empty();
    board.tiles[0][0] = 1;
    assert_eq!(board.outcome(), TurnOutcome::Continue);
    assert_eq!(Board { tiles: [[10; 4]; 4] }.outcome(), TurnOutcome::Continue);
}

#[test]
fn empty_board_has_no_move() {
    assert_eq!(Board::empty().outcome(), TurnOutcome::Loss);
}

#[test]
fn quit_ends_a_running_game() {
    let start = Board { tiles: [[1, 0, 0, 0], [0; 4], [0; 4], [0; 4]] };
    let mut board = start;
    assert_eq!(board.play_turn(Input::Quit), TurnOutcome::Quit);
    assert_eq!(board, start);
}

#[test]
fn redraw_leaves_the_board() {
    let start = Board { tiles: [[1, 0, 0, 0], [0; 4], [0; 4], [0; 4]] };
    let mut board = start;
    assert_eq!(board.play_turn(Input::Redraw), TurnOutcome::Continue);
    assert_eq!(board, start);
}

#[test]
fn illegal_direction_is_ignored() {
    let start = Board { tiles: [[1, 0, 0, 0], [0; 4], [0; 4], [0; 4]] };
    for mov in [Move::Left, Move::Up] {
        let mut board = start;
        assert_eq!(board.play_turn(Input::Direction(mov)), TurnOutcome::Continue);
        assert_eq!(board, start);
    }
}

#[test]
fn legal_direction_moves_and_spawns() {
    let start = Board { tiles: [[1, 1, 0, 0], [0, 2, 0, 2], [1, 0, 3, 0], [0, 0, 3, 1]] };
    for _ in 0..50 {
        for mov in ALL_MOVES {
            let mut slid = start;
            slid.make_move(mov);
            let mut board = start;
            let outcome = board.play_turn(Input::Direction(mov));
            assert_eq!(outcome, TurnOutcome::Continue);
            assert_one_new_tile(&slid, &board);
        }
    }
}

#[test]
fn finished_game_stays_finished() {
    let inputs = [
        Input::Quit,
        Input::Redraw,
        Input::Direction(Move::Left),
        Input::Direction(Move::Right),
        Input::Direction(Move::Up),
        Input::Direction(Move::Down),
    ];
    let mut won = Board { tiles: [[1, 1, 0, 0], [0; 4], [0, 0, 11, 0], [0; 4]] };
    let lost = Board { tiles: STUCK };
    for input in inputs {
        let mut board = won;
        assert_eq!(board.play_turn(input), TurnOutcome::Win);
        assert_eq!(board, won);
        let mut board = lost;
        assert_eq!(board.play_turn(input), TurnOutcome::Loss);
        assert_eq!(board, lost);
    }
    won.tiles[2][2] = 12;
    assert_eq!(won.play_turn(Input::Direction(Move::Left)), TurnOutcome::Win);
}

#[test]
fn move_that_makes_the_winning_tile_wins() {
    let start = Board { tiles: [[10, 10, 0, 0], [0; 4], [0; 4], [0; 4]] };
    let mut board = start;
    assert_eq!(board.play_turn(Input::Direction(Move::Left)), TurnOutcome::Win);
    assert_eq!(board.tiles[0][0], 11);
    assert_eq!(tile_count(&board), 2);
}

#[test]
fn move_that_blocks_the_board_loses() {
    // after the slide to the left only the top right cell is empty, and no
    // tile that may appear there finds an equal neighbour
    let start = Board { tiles: [[3, 4, 4, 6], [4, 3, 4, 7], [3, 4, 3, 4], [4, 3, 4, 3]] };
    let mut board = start;
    assert_eq!(board.play_turn(Input::Direction(Move::Left)), TurnOutcome::Loss);
    assert_eq!(board.tiles[0][..3], [3, 5, 6]);
    assert!(board.tiles[0][3] == 1 || board.tiles[0][3] == 2);
}

#[test]
fn a_whole_game_ends() {
    let mut board = Board::init();
    let mut outcome = board.outcome();
    let mut turns = 0;
    while outcome == TurnOutcome::Continue {
        let moves = board.valid_moves();
        assert!(!moves.is_empty());
        let before = tile_count(&board);
        let mut slid = board;
        slid.make_move(moves[0]);
        outcome = board.play_turn(Input::Direction(moves[0]));
        assert_one_new_tile(&slid, &board);
        assert!(tile_count(&board) <= before + 1);
        assert_eq!(outcome, board.outcome());
        turns += 1;
        assert!(turns < 100000);
    }
    assert!(outcome == TurnOutcome::Win || outcome == TurnOutcome::Loss);
}

#[test]
fn keys_stand_for_directions() {
    assert_eq!(Move::try_from(Key::Left), Ok(Move::Left));
    assert_eq!(Move::try_from(Key::Right), Ok(Move::Right));
    assert_eq!(Move::try_from(Key::Up), Ok(Move::Up));
    assert_eq!(Move::try_from(Key::Down), Ok(Move::Down));
    assert_eq!(Move::try_from(Key::Char('a')), Ok(Move::Left));
    assert_eq!(Move::try_from(Key::Char('d')), Ok(Move::Right));
    assert_eq!(Move::try_from(Key::Char('w')), Ok(Move::Up));
    assert_eq!(Move::try_from(Key::Char('s')), Ok(Move::Down));
    assert_eq!(Move::try_from(Key::Char('q')), Err(()));
    assert_eq!(Move::try_from(Key::Char('A')), Err(()));
    assert_eq!(Move::try_from(Key::Char(' ')), Err(()));
    assert_eq!(Move::try_from(Key::Other), Err(()));
}

#[test]
fn keys_stand_for_inputs() {
    assert_eq!(Input::from_key(Key::Char('q')), Some(Input::Quit));
    assert_eq!(Input::from_key(Key::Left), Some(Input::Direction(Move::Left)));
    assert_eq!(Input::from_key(Key::Char('d')), Some(Input::Direction(Move::Right)));
    assert_eq!(Input::from_key(Key::Char('w')), Some(Input::Direction(Move::Up)));
    assert_eq!(Input::from_key(Key::Down), Some(Input::Direction(Move::Down)));
    assert_eq!(Input::from_key(Key::Char('Q')), None);
    assert_eq!(Input::from_key(Key::Char('x')), None);
    assert_eq!(Input::from_key(Key::Other), None);
}
