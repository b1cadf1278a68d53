use mini_risk::gameboard::Gameboard;
use mini_risk::graph::is_connected;
use mini_risk::model::Territory;

#[test]
fn new_gameboard() {
    let num_players: u32 = 2;
    let num_territories_per_player: u32 = 2;
    let num_dice_per_player: u32 = 10;

    let sut_gameboard: Gameboard =
        Gameboard::new(num_players, num_territories_per_player, num_dice_per_player);

    for curr_player in 0..num_players {
        let mut sum_dice: u32 = 0;
        let mut sum_terr: u32 = 0;

        for cur_terr in sut_gameboard.territories.iter() {
            if cur_terr.owner_id == curr_player {
                sum_dice += cur_terr.num_dice;
                sum_terr += 1;
            }
        }

        assert_eq!(num_territories_per_player, sum_terr);
        assert_eq!(num_dice_per_player, sum_dice);
    }
}

#[test]
fn is_connected_one_node() {
    let terr_one = Territory {
        id: 1,
        num_dice: 1,
        owner_id: 0,
        neighbors: Vec::new(),
    };

    let mut territories: Vec<Territory> = Vec::new();
    territories.push(terr_one);

    assert_eq!(true, is_connected(&territories));
}

#[test]
fn is_connected_two_nodes() {
    let terr_one = Territory {
        id: 1,
        num_dice: 1,
        owner_id: 0,
        neighbors: vec![2],
    };

    let terr_two = Territory {
        id: 2,
        num_dice: 1,
        owner_id: 0,
        neighbors: vec![1],
    };

    let mut territories: Vec<Territory> = Vec::new();
    territories.push(terr_one);
    territories.push(terr_two);

    assert_eq!(true, is_connected(&territories));
}

#[test]
fn is_connected_two_nodes_not_connected() {
    let terr_one = Territory {
        id: 1,
        num_dice: 1,
        owner_id: 0,
        neighbors: Vec::new(),
    };

    let terr_two = Territory {
        id: 2,
        num_dice: 1,
        owner_id: 0,
        neighbors: Vec::new(),
    };

    let mut territories: Vec<Territory> = Vec::new();
    territories.push(terr_one);
    territories.push(terr_two);

    assert_eq!(false, is_connected(&territories));
}

#[test]
fn is_connected_three_nodes_none_connected() {
    let terr_one = Territory {
        id: 1,
        num_dice: 1,
        owner_id: 0,
        neighbors: Vec::new(),
    };

    let terr_two = Territory {
        id: 2,
        num_dice: 1,
        owner_id: 0,
        neighbors: Vec::new(),
    };

    let terr_three = Territory {
        id: 3,
        num_dice: 1,
        owner_id: 0,
        neighbors: Vec::new(),
    };

    let mut territories: Vec<Territory> = Vec::new();
    territories.push(terr_one);
    territories.push(terr_two);
    territories.push(terr_three);

    assert_eq!(false, is_connected(&territories));
}

#[test]
fn is_connected_three_nodes_one_island() {
    let terr_one = Territory {
        id: 1,
        num_dice: 1,
        owner_id: 0,
        neighbors: vec![2],
    };

    let terr_two = Territory {
        id: 2,
        num_dice: 1,
        owner_id: 0,
        neighbors: vec![1],
    };

    let terr_three = Territory {
        id: 3,
        num_dice: 1,
        owner_id: 0,
        neighbors: Vec::new(),
    };

    let mut territories: Vec<Territory> = Vec::new();
    territories.push(terr_one);
    territories.push(terr_two);
    territories.push(terr_three);

    assert_eq!(false, is_connected(&territories));
}

#[test]
fn is_connected_three_nodes() {
    let terr_one = Territory {
        id: 1,
        num_dice: 1,
        owner_id: 0,
        neighbors: vec![2, 3],
    };

    let terr_two = Territory {
        id: 2,
        num_dice: 1,
        owner_id: 0,
        neighbors: vec![1, 3],
    };

    let terr_three = Territory {
        id: 3,
        num_dice: 1,
        owner_id: 0,
        neighbors: vec![1, 2],
    };

    let mut territories: Vec<Territory> = Vec::new();
    territories.push(terr_one);
    territories.push(terr_two);
    territories.push(terr_three);

    assert_eq!(true, is_connected(&territories));
}
