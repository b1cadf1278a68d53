use mini_risk::clear_neighbors;
use mini_risk::gameboard::Gameboard;
use mini_risk::graph::{is_connected, is_symmetric};
use mini_risk::model::Territory;

fn check_fairness(board: &Gameboard, num_players: u32, territories_each: u32, dice_each: u32) {
    for player in 0..num_players {
        let mut owned: u32 = 0;
        let mut dice: u32 = 0;
        for terr in board.territories.iter() {
            if terr.owner_id == player {
                owned += 1;
                dice += terr.num_dice;
            }
        }
        assert_eq!(territories_each, owned);
        assert_eq!(dice_each, dice);
    }
}

#[test]
fn generated_board_is_fair_connected_and_symmetric() {
    let board = Gameboard::new(2, 2, 10);
    check_fairness(&board, 2, 2, 10);
    assert_eq!(true, is_connected(&board.territories));
    assert_eq!(true, is_symmetric(&board.territories));
}

#[test]
fn larger_generated_board_is_fair_connected_and_symmetric() {
    let board = Gameboard::new(3, 4, 9);
    assert_eq!(12, board.territories.len());
    check_fairness(&board, 3, 4, 9);
    assert_eq!(true, is_connected(&board.territories));
    assert_eq!(true, is_symmetric(&board.territories));
}

#[test]
fn single_territory_board_is_trivially_connected() {
    let board = Gameboard::new(1, 1, 5);
    assert_eq!(1, board.territories.len());
    assert_eq!(5, board.territories[0].num_dice);
    assert_eq!(0, board.territories[0].owner_id);
    assert_eq!(true, is_connected(&board.territories));
    assert_eq!(true, is_symmetric(&board.territories));
}

#[test]
fn generated_board_has_no_self_loops_or_duplicate_neighbors() {
    let board = Gameboard::new(2, 3, 8);
    for terr in board.territories.iter() {
        for (pos, nb) in terr.neighbors.iter().enumerate() {
            assert_ne!(terr.id, *nb);
            for other in terr.neighbors.iter().skip(pos + 1) {
                assert_ne!(*nb, *other);
            }
        }
    }
}

#[test]
fn revalidation_gives_the_same_answer_twice() {
    let board = Gameboard::new(2, 2, 10);
    let first = is_connected(&board.territories);
    let second = is_connected(&board.territories);
    assert_eq!(first, second);
    let first_sym = is_symmetric(&board.territories);
    let second_sym = is_symmetric(&board.territories);
    assert_eq!(first_sym, second_sym);
}

#[test]
fn symmetry_validator_rejects_one_way_edges() {
    let terr_one = Territory {
        id: 1,
        num_dice: 1,
        owner_id: 0,
        neighbors: vec![2],
    };
    let terr_two = Territory {
        id: 2,
        num_dice: 1,
        owner_id: 0,
        neighbors: Vec::new(),
    };
    let territories = vec![terr_one, terr_two];
    assert_eq!(false, is_symmetric(&territories));
}

#[test]
fn symmetry_validator_accepts_mutual_edges() {
    let terr_one = Territory {
        id: 1,
        num_dice: 1,
        owner_id: 0,
        neighbors: vec![2],
    };
    let terr_two = Territory {
        id: 2,
        num_dice: 1,
        owner_id: 0,
        neighbors: vec![1],
    };
    let territories = vec![terr_one, terr_two];
    assert_eq!(true, is_symmetric(&territories));
}

#[test]
fn symmetry_validator_ignores_entries_for_absent_territories() {
    // A neighbor entry that names no territory on the board constrains
    // nothing.
    let terr_one = Territory {
        id: 1,
        num_dice: 1,
        owner_id: 0,
        neighbors: vec![7],
    };
    let territories = vec![terr_one];
    assert_eq!(true, is_symmetric(&territories));
}

#[test]
fn clear_neighbors_empties_every_list_and_keeps_the_rest() {
    let terr_one = Territory {
        id: 1,
        num_dice: 4,
        owner_id: 0,
        neighbors: vec![2],
    };
    let terr_two = Territory {
        id: 2,
        num_dice: 2,
        owner_id: 1,
        neighbors: vec![1],
    };
    let mut territories = vec![terr_one, terr_two];
    clear_neighbors(&mut territories);
    assert_eq!(2, territories.len());
    assert_eq!(1, territories[0].id);
    assert_eq!(4, territories[0].num_dice);
    assert_eq!(0, territories[0].owner_id);
    assert!(territories[0].neighbors.is_empty());
    assert_eq!(2, territories[1].id);
    assert_eq!(2, territories[1].num_dice);
    assert_eq!(1, territories[1].owner_id);
    assert!(territories[1].neighbors.is_empty());
}

#[test]
fn empty_board_is_trivially_connected() {
    let territories: Vec<Territory> = Vec::new();
    assert_eq!(true, is_connected(&territories));
    assert_eq!(true, is_symmetric(&territories));
}
