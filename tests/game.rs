use colorguess::{strategy_greedy, Board, BoardRow, GameError, Pegs, Score};

fn play(secret: [u8; 4]) -> usize {
    let secret = Pegs::new(&secret).unwrap();
    let mut board = Board::new();
    let mut turns = 0;
    while !board.is_complete() {
        assert!(turns < 10);
        let before = board.possible().len();
        let guess = strategy_greedy(&board);
        let score = secret.score_against(&guess);
        board.add_guess(BoardRow { guess, score }).unwrap();
        turns += 1;
        assert!(board.possible().len() <= before);
        assert!(board.possible().iter().any(|p| p.values() == secret.values()));
        assert_eq!(board.guesses().len(), turns);
    }
    turns
}

#[test]
fn simulation_finds_secret_1234() {
    assert!(play([1, 2, 3, 4]) <= 10);
}

#[test]
fn simulation_finds_secret_7707() {
    assert!(play([7, 7, 0, 7]) <= 10);
}

#[test]
fn new_board_holds_every_code() {
    let board = Board::new();
    assert_eq!(board.possible().len(), 4096);
    assert!(board.guesses().is_empty());
    assert!(!board.is_complete());
}

#[test]
fn add_guess_keeps_consistent_codes() {
    let mut board = Board::new();
    let guess = Pegs::new(&[1, 2, 3, 4]).unwrap();
    let score = Score { b: 4, w: 0 };
    board.add_guess(BoardRow { guess, score }).unwrap();
    assert_eq!(board.possible().len(), 1);
    assert_eq!(board.possible()[0].values(), &[1, 2, 3, 4]);
    assert!(board.is_complete());
}

#[test]
fn add_guess_with_no_match_leaves_other_colors() {
    let mut board = Board::new();
    let guess = Pegs::new(&[0, 1, 2, 3]).unwrap();
    board.add_guess(BoardRow { guess, score: Score { b: 0, w: 0 } }).unwrap();
    assert_eq!(board.possible().len(), 256);
    assert!(!board.is_complete());
    let g = board.guesses();
    assert_eq!(g.len(), 1);
    assert_eq!(g[0].score, Score { b: 0, w: 0 });
}

#[test]
fn single_candidate_is_not_complete_before_all_black() {
    let mut board = Board::new();
    let secret = Pegs::new(&[1, 2, 3, 4]).unwrap();
    for v in [[1, 2, 3, 5], [1, 2, 5, 4], [1, 5, 3, 4], [5, 2, 3, 4], [2, 1, 3, 4]] {
        let guess = Pegs::new(&v).unwrap();
        let score = secret.score_against(&guess);
        board.add_guess(BoardRow { guess, score }).unwrap();
    }
    assert_eq!(board.possible().len(), 1);
    assert!(!board.is_complete());
    let next = strategy_greedy(&board);
    assert_eq!(next.values(), &[1, 2, 3, 4]);
}

#[test]
fn add_guess_after_completion_is_refused() {
    let mut board = Board::new();
    let guess = Pegs::new(&[5, 5, 6, 6]).unwrap();
    let score = Score { b: 4, w: 0 };
    board.add_guess(BoardRow { guess, score }).unwrap();
    assert!(board.is_complete());
    let again = board.add_guess(BoardRow { guess, score });
    assert_eq!(again, Err(GameError::InvalidState));
    assert_eq!(board.guesses().len(), 1);
    assert_eq!(board.possible().len(), 1);
}

#[test]
fn simulation_finds_secret_0000() {
    assert!(play([0, 0, 0, 0]) <= 10);
}
