use dominoes::components::{parse_index, AILvl, Player, PlayerType, Stone};
use dominoes::game::{calc_amount_stones, new_domino_set, take_remaining, Game, GameError};

fn hand(tiles: &[(u8, u8)]) -> Vec<Option<Stone>> {
    tiles.iter().map(|&(a, b)| Some(Stone(a, b))).collect()
}

fn ai(stones: Vec<Option<Stone>>) -> Player {
    Player::new(PlayerType::AI(AILvl::Easy), stones)
}

fn all_tiles(game: &Game) -> Vec<Stone> {
    let mut all: Vec<Stone> = game.domino_set.iter().flatten().copied().collect();
    for p in game.players.iter() {
        all.extend(p.stones.iter().flatten().copied());
    }
    all
}

#[test]
fn amount_of_stones_is_28() {
    assert_eq!(calc_amount_stones(), 28);
}

#[test]
fn full_set_has_every_pair_once_in_order() {
    let set = new_domino_set(28);
    assert_eq!(set.len(), 28);
    assert_eq!(set[0], Some(Stone(6, 6)));
    assert_eq!(set[1], Some(Stone(6, 5)));
    assert_eq!(set[6], Some(Stone(6, 0)));
    assert_eq!(set[7], Some(Stone(5, 5)));
    assert_eq!(set[27], Some(Stone(0, 0)));
    for a in 0..=6u8 {
        for b in 0..=a {
            let n = set.iter().filter(|s| **s == Some(Stone(a, b))).count();
            assert_eq!(n, 1, "tile ({}, {})", a, b);
        }
    }
    assert!(set.iter().all(|s| matches!(s, Some(Stone(a, b)) if b <= a && *a <= 6)));
}

#[test]
fn deal_gives_seven_each_for_every_valid_count() {
    for n in 2..=4u8 {
        for h in 0..=n {
            let game = Game::start(n, Some(h)).unwrap();
            assert_eq!(game.players.len(), n as usize);
            assert_eq!(game.remaining(), 28 - 7 * n as usize);
            assert_eq!(game.domino_set.len(), 28);
            assert_eq!(game.domino_set.iter().filter(|s| s.is_none()).count(), 7 * n as usize);
            for (i, p) in game.players.iter().enumerate() {
                assert_eq!(p.stones.len(), 7);
                assert_eq!(p.count_stones(), 7);
                assert_eq!(p.is_human(), i < h as usize);
            }
            assert!(game.started());
        }
    }
}

#[test]
fn no_tile_is_dealt_twice() {
    for n in 2..=4u8 {
        let game = Game::start(n, None).unwrap();
        let mut all = all_tiles(&game);
        assert_eq!(all.len(), 28);
        all.sort_by_key(|s| (s.0, s.1));
        all.dedup();
        assert_eq!(all.len(), 28);
    }
}

#[test]
fn start_rejects_bad_counts() {
    assert_eq!(Game::start(1, None).unwrap_err(), GameError::Config);
    assert_eq!(Game::start(5, Some(0)).unwrap_err(), GameError::Config);
    assert_eq!(Game::start(2, Some(3)).unwrap_err(), GameError::Config);
    assert!(Game::start(2, Some(1)).is_ok());
    assert!(Game::start(4, None).is_ok());
}

#[test]
fn start_opens_with_highest_double() {
    let game = Game::start(4, None).unwrap();
    // With four players every tile is dealt, so (6,6) is in some hand.
    let j = game.priority().unwrap();
    assert_eq!(game.players[game.playing()].stones[j], Some(Stone(6, 6)));
}

#[test]
fn draw_from_empty_set_fails() {
    let mut game = Game::with_players(vec![None, None], vec![ai(vec![]), ai(vec![])]).unwrap();
    assert_eq!(game.draw(), Err(GameError::DrawFromEmptySet));
    assert_eq!(game.draw_nth(0), Err(GameError::DrawFromEmptySet));
}

#[test]
fn draw_takes_the_nth_remaining_tile() {
    let set = vec![None, Some(Stone(3, 1)), None, Some(Stone(2, 2)), Some(Stone(1, 0))];
    let mut game = Game::with_players(set, vec![ai(vec![]), ai(vec![])]).unwrap();
    assert_eq!(game.draw_nth(1), Ok(Stone(2, 2)));
    assert_eq!(game.domino_set[3], None);
    assert_eq!(game.remaining(), 2);
    assert_eq!(game.draw_nth(2), Err(GameError::DrawFromEmptySet));
    let t = game.draw().unwrap();
    assert!(t == Stone(3, 1) || t == Stone(1, 0));
    assert_eq!(game.remaining(), 1);
}

#[test]
fn take_remaining_skips_empty_slots() {
    let mut set = vec![None, Some(Stone(4, 0)), None, Some(Stone(5, 5))];
    assert_eq!(take_remaining(&mut set, 0), Stone(4, 0));
    assert_eq!(set, vec![None, None, None, Some(Stone(5, 5))]);
}

#[test]
fn with_players_checks_count() {
    assert_eq!(Game::with_players(vec![], vec![ai(vec![])]).unwrap_err(), GameError::Config);
    let five = (0..5).map(|_| ai(vec![])).collect();
    assert_eq!(Game::with_players(vec![], five).unwrap_err(), GameError::Config);
}

#[test]
fn priority_picks_highest_double_then_player_then_slot() {
    let players = vec![
        ai(hand(&[(1, 0), (3, 3), (4, 4)])),
        ai(hand(&[(2, 1), (5, 0), (4, 4)])),
        ai(vec![None, Some(Stone(5, 5)), Some(Stone(5, 5))]),
    ];
    let mut game = Game::with_players(vec![], players).unwrap();
    game.create_priority();
    assert_eq!(game.playing(), 2);
    assert_eq!(game.priority(), Some(1));
}

#[test]
fn priority_ties_go_to_first_player() {
    let players = vec![ai(hand(&[(2, 0), (4, 4)])), ai(hand(&[(4, 4), (1, 1)]))];
    let mut game = Game::with_players(vec![], players).unwrap();
    game.create_priority();
    assert_eq!(game.playing(), 0);
    assert_eq!(game.priority(), Some(1));
}

#[test]
fn no_double_leaves_priority_unset() {
    let players = vec![ai(hand(&[(6, 5), (3, 1)])), ai(hand(&[(2, 0), (4, 3)]))];
    let mut game = Game::with_players(vec![], players).unwrap();
    game.create_priority();
    assert_eq!(game.playing(), 0);
    assert_eq!(game.priority(), None);
}

#[test]
fn run_rotates_turn_by_one() {
    let players = vec![ai(hand(&[(1, 0)])), ai(hand(&[(2, 0)])), ai(hand(&[(3, 0)]))];
    let mut game = Game::with_players(vec![], players).unwrap();
    game.create_priority();
    for expected in [1usize, 2, 0, 1] {
        game.run(0);
        assert_eq!(game.playing(), expected);
    }
}

#[test]
fn scenario_priority_turn_then_normal_turn() {
    let players = vec![
        ai(hand(&[(3, 1), (6, 6), (2, 0)])),
        ai(hand(&[(5, 4), (4, 1), (1, 0)])),
    ];
    let mut game = Game::with_players(vec![], players).unwrap();
    game.create_priority();
    assert_eq!(game.playing(), 0);
    assert_eq!(game.priority(), Some(1));

    game.run(0);
    assert_eq!(game.players[0].stones, vec![Some(Stone(3, 1)), None, Some(Stone(2, 0))]);
    assert!(game.started());
    assert_eq!(game.playing(), 1);
    assert_eq!(game.priority(), None);

    game.run(0);
    assert_eq!(game.players[1].stones, vec![None, Some(Stone(4, 1)), Some(Stone(1, 0))]);
    assert!(!game.started());
    assert_eq!(game.playing(), 0);
}

#[test]
fn scenario_no_double_normal_turn_ends_match() {
    let players = vec![ai(hand(&[(6, 5), (3, 1)])), ai(hand(&[(2, 0), (4, 3)]))];
    let mut game = Game::with_players(vec![], players).unwrap();
    game.create_priority();
    assert_eq!(game.priority(), None);
    game.run(0);
    assert_eq!(game.players[0].stones, vec![None, Some(Stone(3, 1))]);
    assert_eq!(game.players[1].stones, vec![Some(Stone(2, 0)), Some(Stone(4, 3))]);
    assert!(!game.started());
    assert_eq!(game.playing(), 1);
}

#[test]
fn human_input_retries_until_valid() {
    let mut p = Player::new(PlayerType::Human, vec![None, Some(Stone(5, 2)), None, Some(Stone(3, 3))]);
    p.sort_stones();
    assert_eq!(p.human_choice("abc\n".as_bytes()), None);
    assert_eq!(p.human_choice("9\n".as_bytes()), None);
    let choice = p.human_choice("2\n".as_bytes()).unwrap();
    assert_eq!(choice, 1);
    assert_eq!(p.play(choice), Some(Stone(3, 3)));
    assert_eq!(p.stones, vec![Some(Stone(5, 2)), None, None, None]);
}

#[test]
fn human_input_zero_and_past_count_refused() {
    let p = Player::new(PlayerType::Human, hand(&[(1, 1), (2, 1)]));
    assert_eq!(p.human_choice(b"0"), None);
    assert_eq!(p.human_choice(b"3"), None);
    assert_eq!(p.human_choice(b" 1 "), Some(0));
}

#[test]
fn automated_player_plays_first_occupied() {
    let stones = vec![
        Some(Stone(2, 1)),
        None,
        Some(Stone(6, 6)),
        None,
        None,
        Some(Stone(4, 0)),
    ];
    let mut p = ai(stones);
    assert_eq!(p.play(4), Some(Stone(2, 1)));
    assert_eq!(p.stones, vec![None, Some(Stone(6, 6)), Some(Stone(4, 0)), None, None, None]);
    assert_eq!(p.play(0), Some(Stone(6, 6)));
}

#[test]
fn play_on_empty_hand_gives_nothing() {
    let mut p = ai(vec![]);
    assert_eq!(p.play(0), None);
    let mut h = Player::new(PlayerType::Human, vec![None]);
    assert_eq!(h.play(0), None);
}

#[test]
fn sort_moves_occupied_first_stably() {
    let mut p = ai(vec![None, Some(Stone(1, 0)), None, Some(Stone(6, 2)), Some(Stone(3, 3))]);
    p.sort_stones();
    assert_eq!(
        p.stones,
        vec![Some(Stone(1, 0)), Some(Stone(6, 2)), Some(Stone(3, 3)), None, None]
    );
    assert_eq!(p.count_stones(), 3);
}

#[test]
fn parse_index_reads_numbers_between_spaces() {
    assert_eq!(parse_index(b" 12\n"), Some(12));
    assert_eq!(parse_index(b"0"), Some(0));
    assert_eq!(parse_index(b"\t7\r\n"), Some(7));
    assert_eq!(parse_index(b""), None);
    assert_eq!(parse_index(b"  \n"), None);
    assert_eq!(parse_index(b"1a"), None);
    assert_eq!(parse_index(b"1 2"), None);
    assert_eq!(parse_index(b"-1"), None);
    assert_eq!(parse_index(b"18446744073709551615"), Some(usize::MAX));
    assert_eq!(parse_index(b"18446744073709551616"), None);
    assert_eq!(parse_index(b"99999999999999999999999x"), None);
    assert_eq!(parse_index(b" +2\n"), Some(2));
    assert_eq!(parse_index(b"+"), None);
    assert_eq!(parse_index(b"++1"), None);
    assert_eq!(parse_index(b"1+"), None);
}

#[test]
fn listing_numbers_held_tiles_from_one() {
    let p = Player::new(PlayerType::Human, vec![None, Some(Stone(6, 2)), None, Some(Stone(10, 0))]);
    let text = String::from_utf8(p.listing()).unwrap();
    assert_eq!(text, "Your Stones:\n\t1: [6|2]\n\t2: [10|0]\n");
    let empty = Player::new(PlayerType::Human, vec![None]);
    assert_eq!(String::from_utf8(empty.listing()).unwrap(), "Your Stones:\n");
}

#[test]
fn listing_numbers_past_nine() {
    let tiles: Vec<(u8, u8)> = (0..12u8).map(|i| (i, 0)).collect();
    let p = Player::new(PlayerType::Human, hand(&tiles));
    let text = String::from_utf8(p.listing()).unwrap();
    assert!(text.ends_with("\t11: [10|0]\n\t12: [11|0]\n"));
}
