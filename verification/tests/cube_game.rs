use daily_puzzles::cube_game::{Bag, CubeSet, Game};

// Game 1: 3 blue, 4 red; 1 red, 2 green, 6 blue; 2 green
// Game 2: 1 blue, 2 green; 3 green, 4 blue, 1 red; 1 green, 1 blue
// Game 3: 8 green, 6 blue, 20 red; 5 blue, 4 red, 13 green; 5 green, 1 red
// Game 4: 1 green, 3 red, 6 blue; 3 green, 6 red; 3 green, 15 blue, 14 red
// Game 5: 6 red, 1 blue, 3 green; 2 blue, 1 red, 2 green
//
// Bag contains 12 red, 13 green, 14 blue
// Only game 1, 2, 5 are possible

#[test]
fn test_load_game() {
    let game = Game::new(
        "Game 2: 1 blue, 2 green; 3 green, 4 blue, 1 red; 1 green, 1 blue".to_string(),
    );
    assert_eq!(game.id, 2);
    assert_eq!(game.sets.len(), 3);
    assert_eq!(game.sets[0].red, None);
    assert_eq!(game.sets[0].green, Some(2));
    assert_eq!(game.sets[0].blue, Some(1));
    assert_eq!(game.sets[1].red, Some(1));
    assert_eq!(game.sets[1].green, Some(3));
    assert_eq!(game.sets[1].blue, Some(4));
    assert_eq!(game.sets[2].red, None);
    assert_eq!(game.sets[2].green, Some(1));
    assert_eq!(game.sets[2].blue, Some(1));
}

#[test]
fn test_find() {
    let games = vec![
        Game::new("Game 1: 3 blue, 4 red; 1 red, 2 green, 6 blue; 2 green".to_string()),
        Game::new(
            "Game 2: 1 blue, 2 green; 3 green, 4 blue, 1 red; 1 green, 1 blue".to_string(),
        ),
        Game::new(
            "Game 3: 8 green, 6 blue, 20 red; 5 blue, 4 red, 13 green; 5 green, 1 red"
                .to_string(),
        ),
        Game::new(
            "Game 4: 1 green, 3 red, 6 blue; 3 green, 6 red; 3 green, 15 blue, 14 red"
                .to_string(),
        ),
        Game::new("Game 5: 6 red, 1 blue, 3 green; 2 blue, 1 red, 2 green".to_string()),
        Game::new("Game 5: 6 red, 14 blue, 3 green; 2 blue, 6 red, 12 green".to_string()),
    ];

    let bag = Bag {
        red: 12,
        green: 13,
        blue: 14,
    };

    assert_eq!(bag.is_game_possible(&games[0]), true);
    assert_eq!(bag.is_game_possible(&games[1]), true);
    assert_eq!(bag.is_game_possible(&games[2]), false);
    assert_eq!(bag.is_game_possible(&games[3]), false);
    assert_eq!(bag.is_game_possible(&games[4]), true);
    assert_eq!(bag.is_game_possible(&games[5]), true);
}

#[test]
fn test_fewest_cubes_needed() {
    let games = vec![
        Game::new("Game 1: 3 blue, 4 red; 1 red, 2 green, 6 blue; 2 green".to_string()),
        Game::new(
            "Game 2: 1 blue, 2 green; 3 green, 4 blue, 1 red; 1 green, 1 blue".to_string(),
        ),
        Game::new(
            "Game 3: 8 green, 6 blue, 20 red; 5 blue, 4 red, 13 green; 5 green, 1 red"
                .to_string(),
        ),
        Game::new(
            "Game 4: 1 green, 3 red, 6 blue; 3 green, 6 red; 3 green, 15 blue, 14 red"
                .to_string(),
        ),
        Game::new("Game 5: 6 red, 1 blue, 3 green; 2 blue, 1 red, 2 green".to_string()),
        Game::new("Game 5: 6 red, 14 blue, 3 green; 2 blue, 6 red, 12 green".to_string()),
    ];

    assert_eq!(
        Bag::find_smallest(&games[0]),
        Bag {
            red: 4,
            green: 2,
            blue: 6
        }
    );
    assert_eq!(
        Bag::find_smallest(&games[1]),
        Bag {
            red: 1,
            green: 3,
            blue: 4
        }
    );
    assert_eq!(
        Bag::find_smallest(&games[2]),
        Bag {
            red: 20,
            green: 13,
            blue: 6
        }
    );
    assert_eq!(
        Bag::find_smallest(&games[3]),
        Bag {
            red: 14,
            green: 3,
            blue: 15
        }
    );
    assert_eq!(
        Bag::find_smallest(&games[4]),
        Bag {
            red: 6,
            green: 3,
            blue: 2
        }
    );

    assert_eq!(Bag::find_smallest(&games[0]).power(), 48);
    assert_eq!(Bag::find_smallest(&games[1]).power(), 12);
    assert_eq!(Bag::find_smallest(&games[2]).power(), 1560);
    assert_eq!(Bag::find_smallest(&games[3]).power(), 630);
    assert_eq!(Bag::find_smallest(&games[4]).power(), 36);
}

#[test]
fn test_cube_set_unparsable_count_defaults_to_zero() {
    let set = CubeSet::new("x red, 3 blue");
    assert_eq!(set.red, Some(0));
    assert_eq!(set.green, None);
    assert_eq!(set.blue, Some(3));
}

#[test]
fn test_cube_set_later_entry_overrides_earlier() {
    let set = CubeSet::new("2 red, 7 red");
    assert_eq!(set.red, Some(7));
}

#[test]
fn test_power_with_zero_count() {
    let bag = Bag {
        red: 0,
        green: 9,
        blue: 4,
    };
    assert_eq!(bag.power(), 0);
}

#[test]
fn test_find_smallest_no_sets() {
    let game = Game {
        id: 1,
        sets: Vec::new(),
    };
    assert_eq!(
        Bag::find_smallest(&game),
        Bag {
            red: 0,
            green: 0,
            blue: 0
        }
    );
    let bag = Bag {
        red: 0,
        green: 0,
        blue: 0,
    };
    assert_eq!(bag.is_game_possible(&game), true);
}
