use digit_scan::{parse_game, max_for_color, possible_id_sum, power_sum, Game};

#[test]
fn test_parse_game() {
    let cases = vec![
        (
            "Game 1: 3 blue, 4 red; 1 red, 2 green, 6 blue; 2 green",
            Game {
                id: 1,
                max_colors: vec![("blue", 6), ("red", 4), ("green", 2)]
                    .iter()
                    .map(|(k, v)| (k.to_string(), *v))
                    .collect(),
            },
        ),
    ];

    for (input, expected) in cases {
        assert_eq!(parse_game(input), expected);
    }
}

#[test]
fn parse_game_single_draw() {
    let g = parse_game("Game 42: 7 cyan");
    assert_eq!(g.id, 42);
    assert_eq!(g.max_colors, vec![("cyan".to_string(), 7)]);
}

#[test]
fn max_for_missing_color_is_zero() {
    let g = parse_game("Game 3: 2 red");
    assert_eq!(max_for_color(&g, "red"), 2);
    assert_eq!(max_for_color(&g, "blue"), 0);
}

fn example_games() -> Vec<Game> {
    let records = [
        "Game 1: 3 blue, 4 red; 1 red, 2 green, 6 blue; 2 green",
        "Game 2: 1 blue, 2 green; 3 green, 4 blue, 1 red; 1 green, 1 blue",
        "Game 3: 8 green, 6 blue, 20 red; 5 blue, 4 red, 13 green; 5 green, 1 red",
        "Game 4: 1 green, 3 red, 6 blue; 3 green, 6 red; 3 green, 15 blue, 14 red",
        "Game 5: 6 red, 1 blue, 3 green; 2 blue, 1 red, 2 green",
    ];
    records.iter().map(|r| parse_game(r)).collect()
}

#[test]
fn possible_games_id_total() {
    let games = example_games();
    // games 1, 2 and 5 fit in 12 red, 13 green and 14 blue
    assert_eq!(possible_id_sum(&games), 8);
}

#[test]
fn power_total() {
    let games = example_games();
    // 48 + 12 + 1560 + 630 + 36
    assert_eq!(power_sum(&games), 2286);
}

#[test]
fn power_of_empty_game_is_one() {
    let games = vec![Game { id: 9, max_colors: Vec::new() }];
    assert_eq!(power_sum(&games), 1);
}
