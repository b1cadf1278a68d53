use mini_risk::combat::AttackCheck;
use mini_risk::gameboard::Gameboard;
use mini_risk::model::Territory;

fn two_territory_board(attacker_dice: u32, defender_dice: u32, defender_owner: u32) -> Gameboard {
    let terr_one = Territory {
        id: 1,
        num_dice: attacker_dice,
        owner_id: 0,
        neighbors: vec![2],
    };
    let terr_two = Territory {
        id: 2,
        num_dice: defender_dice,
        owner_id: defender_owner,
        neighbors: vec![1],
    };
    Gameboard {
        territories: vec![terr_one, terr_two],
    }
}

#[test]
fn winning_attack_moves_ownership_and_dice() {
    let mut board = two_territory_board(5, 3, 1);
    let attacker_rolls: Vec<u32> = vec![6, 6, 1, 1];
    let defender_rolls: Vec<u32> = vec![2, 2];

    let won = board.attack_with_rolls(1, 2, &attacker_rolls, &defender_rolls);

    assert!(won);
    assert_eq!(0, board.territories[1].owner_id);
    assert_eq!(4, board.territories[1].num_dice);
    assert_eq!(1, board.territories[0].num_dice);
    assert_eq!(0, board.territories[0].owner_id);
    assert_eq!(2, board.territories[1].id);
    assert_eq!(vec![1], board.territories[1].neighbors);
}

#[test]
fn losing_attack_leaves_defender_untouched() {
    let mut board = two_territory_board(5, 3, 1);
    let attacker_rolls: Vec<u32> = vec![1, 1, 1, 1];
    let defender_rolls: Vec<u32> = vec![6, 3];

    let won = board.attack_with_rolls(1, 2, &attacker_rolls, &defender_rolls);

    assert!(!won);
    assert_eq!(1, board.territories[1].owner_id);
    assert_eq!(3, board.territories[1].num_dice);
    assert_eq!(1, board.territories[0].num_dice);
    assert_eq!(0, board.territories[0].owner_id);
}

#[test]
fn random_attack_ends_in_one_of_the_two_outcomes() {
    let mut board = two_territory_board(5, 3, 1);

    let won = board.attack(1, 2);

    assert_eq!(1, board.territories[0].num_dice);
    assert_eq!(0, board.territories[0].owner_id);
    if won {
        assert_eq!(0, board.territories[1].owner_id);
        assert_eq!(4, board.territories[1].num_dice);
    } else {
        assert_eq!(1, board.territories[1].owner_id);
        assert_eq!(3, board.territories[1].num_dice);
    }
}

#[test]
fn can_attack_false_for_same_owner() {
    let board = two_territory_board(5, 3, 0);
    assert_eq!(false, board.can_attack(1, 2));
    assert_eq!(AttackCheck::SameOwner, board.check_attack(1, 2));
}

#[test]
fn can_attack_false_for_single_die_attacker() {
    let board = two_territory_board(1, 3, 1);
    assert_eq!(false, board.can_attack(1, 2));
    assert_eq!(AttackCheck::InsufficientDice, board.check_attack(1, 2));
}

#[test]
fn can_attack_false_for_non_neighbors() {
    let terr_one = Territory {
        id: 1,
        num_dice: 5,
        owner_id: 0,
        neighbors: Vec::new(),
    };
    let terr_two = Territory {
        id: 2,
        num_dice: 3,
        owner_id: 1,
        neighbors: Vec::new(),
    };
    let board = Gameboard {
        territories: vec![terr_one, terr_two],
    };
    assert_eq!(false, board.can_attack(1, 2));
    assert_eq!(AttackCheck::NotNeighbors, board.check_attack(1, 2));
}

#[test]
fn can_attack_reports_missing_territories() {
    let board = two_territory_board(5, 3, 1);
    assert_eq!(false, board.can_attack(9, 2));
    assert_eq!(AttackCheck::AttackerNotFound, board.check_attack(9, 2));
    assert_eq!(false, board.can_attack(1, 9));
    assert_eq!(AttackCheck::DefenderNotFound, board.check_attack(1, 9));
}

#[test]
fn can_attack_true_for_legal_attack() {
    let board = two_territory_board(5, 3, 1);
    assert_eq!(true, board.can_attack(1, 2));
    assert_eq!(AttackCheck::Allowed, board.check_attack(1, 2));
}

#[test]
fn battle_with_rolls_compares_sums() {
    assert_eq!(true, mini_risk::battle_with_rolls(&vec![4, 6], &vec![2, 3]));
    assert_eq!(false, mini_risk::battle_with_rolls(&vec![1, 1, 1], &vec![6, 3]));
}

#[test]
fn battle_tie_favors_defender() {
    assert_eq!(false, mini_risk::battle_with_rolls(&vec![2, 3], &vec![4, 1]));
}

#[test]
fn battle_with_single_dice_is_decided_by_garrison_rule() {
    // Each side holds one die, each rolls none: sums are 0 and 0, and the
    // tie goes to the defender.
    assert_eq!(false, mini_risk::battle(1, 1));
}

#[test]
fn single_die_attacker_never_wins_a_battle() {
    // The attacker rolls no dice at all, so its sum of 0 can never
    // strictly exceed the defender's.
    assert_eq!(false, mini_risk::battle(1, 5));
}

#[test]
fn single_die_defender_always_loses_to_a_larger_force() {
    // The defender rolls no dice while the attacker rolls at least one,
    // and every die shows at least one pip.
    assert_eq!(true, mini_risk::battle(5, 1));
}
