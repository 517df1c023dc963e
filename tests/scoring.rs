use colorguess::{GameError, Pegs, Score};

fn code(v: [u8; 4]) -> Pegs {
    Pegs::new(&v).unwrap()
}

#[test]
fn test_score() {
    let s = Pegs::new(&[1, 2, 3, 4]).unwrap().score_against(&Pegs::new(&[1, 4, 3, 3]).unwrap());
    assert_eq!((s.b, s.w), (2, 1));

    let s = Pegs::new(&[1, 2, 3, 4]).unwrap().score_against(&Pegs::new(&[4, 3, 2, 1]).unwrap());
    assert_eq!((s.b, s.w), (0, 4));

    let s = Pegs::new(&[1, 1, 1, 1]).unwrap().score_against(&Pegs::new(&[1, 4, 3, 3]).unwrap());
    assert_eq!((s.b, s.w), (1, 0));
}

#[test]
fn score_repeated_color_against_permutation() {
    let s = code([1, 1, 1, 1]).score_against(&code([4, 3, 2, 1]));
    assert_eq!(s, Score { b: 1, w: 0 });
}

#[test]
fn score_against_itself_is_all_black() {
    for v in [[0, 0, 0, 0], [1, 2, 3, 4], [7, 7, 0, 7], [5, 6, 5, 6]] {
        let a = code(v);
        assert_eq!(a.score_against(&a), Score { b: 4, w: 0 });
    }
}

#[test]
fn score_is_symmetric() {
    let codes = [[0, 0, 1, 1], [1, 2, 3, 4], [4, 3, 2, 1], [1, 1, 7, 2], [2, 7, 7, 1]];
    for a in codes {
        for b in codes {
            assert_eq!(code(a).score_against(&code(b)), code(b).score_against(&code(a)));
        }
    }
}

#[test]
fn score_pegs_never_exceed_positions() {
    let codes = [[0, 0, 1, 1], [1, 0, 1, 0], [1, 1, 0, 0], [0, 1, 2, 3], [3, 3, 3, 0]];
    for a in codes {
        for b in codes {
            let s = code(a).score_against(&code(b));
            assert!(s.b <= 4);
            assert!(s.b + s.w <= 4);
        }
    }
    assert_eq!(code([0, 0, 1, 1]).score_against(&code([1, 1, 0, 0])), Score { b: 0, w: 4 });
    assert_eq!(code([0, 0, 1, 1]).score_against(&code([1, 0, 1, 0])), Score { b: 2, w: 2 });
    assert_eq!(code([3, 3, 3, 0]).score_against(&code([0, 1, 2, 3])), Score { b: 0, w: 2 });
}

#[test]
fn new_keeps_values() {
    assert_eq!(code([7, 0, 3, 5]).values(), &[7, 0, 3, 5]);
}

#[test]
fn new_refuses_color_outside_palette() {
    assert_eq!(Pegs::new(&[1, 2, 8, 3]).unwrap_err(), GameError::InvalidColorValue);
    assert_eq!(Pegs::new(&[255, 0, 0, 0]).unwrap_err(), GameError::InvalidColorValue);
    assert!(Pegs::new(&[7, 7, 7, 7]).is_ok());
}

#[test]
fn random_codes_stay_in_palette() {
    for _ in 0..200 {
        let p = Pegs::random();
        for v in p.values() {
            assert!(*v < 8);
        }
    }
}
