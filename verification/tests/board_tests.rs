use hexserver::board::AxialPoint;
use hexserver::board::CellState;
use hexserver::board::GameState;

#[test]
fn bounds_accepts_radius() {
    assert!(GameState::is_in_bounds(&AxialPoint { q: 0, r: 0 }));
    assert!(GameState::is_in_bounds(&AxialPoint { q: 3, r: 3 }));
    assert!(GameState::is_in_bounds(&AxialPoint { q: -3, r: -3 }));
    assert!(GameState::is_in_bounds(&AxialPoint { q: 3, r: -3 }));
}

#[test]
fn bounds_rejects_outside_radius() {
    assert!(!GameState::is_in_bounds(&AxialPoint { q: 4, r: 0 }));
    assert!(!GameState::is_in_bounds(&AxialPoint { q: 0, r: 4 }));
    assert!(!GameState::is_in_bounds(&AxialPoint { q: -4, r: 0 }));
    assert!(!GameState::is_in_bounds(&AxialPoint { q: 0, r: -4 }));
    assert!(!GameState::is_in_bounds(&AxialPoint { q: i64::MAX, r: 0 }));
}

#[test]
fn flatten_maps_to_expected_indices() {
    assert_eq!(GameState::flatten_point(&AxialPoint { q: -3, r: -3 }), Ok(0));
    assert_eq!(GameState::flatten_point(&AxialPoint { q: 0, r: 0 }), Ok(24));
    assert_eq!(GameState::flatten_point(&AxialPoint { q: 3, r: 3 }), Ok(48));
    assert_eq!(GameState::flatten_point(&AxialPoint { q: 1, r: 0 }), Ok(25));
    assert_eq!(GameState::flatten_point(&AxialPoint { q: 0, r: 1 }), Ok(31));
}

#[test]
fn flatten_rejects_out_of_bounds() {
    assert_eq!(GameState::flatten_point(&AxialPoint { q: 4, r: 0 }), Err(()));
    assert_eq!(GameState::flatten_point(&AxialPoint { q: 0, r: -4 }), Err(()));
}

#[test]
fn flatten_is_injective_over_the_board() {
    let mut seen = [false; 49];
    let mut q: i64 = -3;
    while q <= 3 {
        let mut r: i64 = -3;
        while r <= 3 {
            let i = GameState::flatten_point(&AxialPoint { q, r }).unwrap();
            assert!(i < 49);
            assert!(!seen[i], "index {} hit twice", i);
            seen[i] = true;
            r += 1;
        }
        q += 1;
    }
    assert!(seen.iter().all(|&s| s));
}

#[test]
fn new_board_is_all_empty() {
    let game = GameState::new();
    assert_eq!(game.get(&AxialPoint { q: 0, r: 0 }), Ok(CellState::Empty));
    assert_eq!(game.get(&AxialPoint { q: -3, r: 3 }), Ok(CellState::Empty));
}

#[test]
fn set_then_get_returns_value() {
    let mut game = GameState::new();
    let p = AxialPoint { q: 2, r: -1 };
    assert_eq!(game.set(&p, CellState::Red), Ok(()));
    assert_eq!(game.get(&p), Ok(CellState::Red));
    assert_eq!(game.get(&AxialPoint { q: -1, r: 2 }), Ok(CellState::Empty));
}

#[test]
fn set_out_of_bounds_changes_nothing() {
    let mut game = GameState::new();
    assert_eq!(game.set(&AxialPoint { q: 5, r: 5 }, CellState::Blue), Err(()));
    assert_eq!(game.get(&AxialPoint { q: 0, r: 0 }), Ok(CellState::Empty));
}

#[test]
fn get_mut_allows_in_place_update() {
    let mut game = GameState::new();
    let p = AxialPoint { q: -2, r: 0 };
    match game.get_mut(&p) {
        Ok(cell) => *cell = CellState::Blue,
        Err(_) => panic!("in-bounds point refused"),
    }
    assert_eq!(game.get(&p), Ok(CellState::Blue));
    assert!(game.get_mut(&AxialPoint { q: 4, r: 4 }).is_err());
}
