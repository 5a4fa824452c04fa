use bitdefenders::bot::{valid_moves, Bot, ClientMessage, MatchInfo};
use bitdefenders::cli::{parse_my_id, Mode};
use bitdefenders::evaluator::{best_score, eval_position, predict_enemy_pos};
use bitdefenders::protocol::{
    EndMatchArgs, ErrorArgs, GameConfig, GameState, HelloArgs, Hero, Projectile, ServerMessage,
    StartMatchArgs, StartTurnArgs, Wall,
};

fn hero(id: i32, owner_id: i32, x: i32, y: i32, hp: i32, cooldown: i32) -> Hero {
    Hero { id, owner_id, x, y, hp, cooldown }
}

fn state(heroes: Vec<Hero>, projectiles: Vec<Projectile>, walls: Vec<Wall>) -> GameState {
    GameState { heroes, projectiles, walls }
}

fn started_bot(me: i32, width: i32, height: i32) -> Bot {
    let mut bot = Bot::new("tester".to_string(), Mode::Practice, Some(7), 1, None, false);
    let orders = bot.on_start_match(StartMatchArgs {
        your_player_id: me,
        config: GameConfig { width, height },
    });
    assert!(orders.is_empty());
    bot
}

#[test]
fn ready_weapon_rewards_sight_at_ideal_range() {
    let me = hero(1, 0, 10, 10, 100, 0);
    let st = state(vec![me, hero(2, 1, 22, 10, 100, 0)], vec![], vec![]);
    assert_eq!(eval_position((10, 10), &me, &st, 0, (-1, -1), 100, 100), 650);
}

#[test]
fn reloading_hero_avoids_sight() {
    let me = hero(1, 0, 10, 10, 100, 2);
    let st = state(vec![me, hero(2, 1, 22, 10, 100, 0)], vec![], vec![]);
    assert_eq!(eval_position((10, 10), &me, &st, 0, (-1, -1), 100, 100), -2060);
}

#[test]
fn enemy_projectile_nearby_costs() {
    let me = hero(1, 0, 10, 10, 100, 0);
    let st = state(
        vec![me, hero(2, 1, 22, 10, 100, 0)],
        vec![Projectile { x: 12, y: 10, owner_id: 1 }, Projectile { x: 11, y: 10, owner_id: 0 }],
        vec![],
    );
    assert_eq!(eval_position((10, 10), &me, &st, 0, (-1, -1), 100, 100), 650 - 3000);
}

#[test]
fn border_ally_and_overlap_penalties() {
    let me = hero(1, 0, 2, 40, 100, 0);
    let st = state(vec![me, hero(2, 1, 14, 40, 100, 0)], vec![], vec![]);
    // edge distance 2: -(10 - 2) * 30; ally at distance 0 overlaps: -400
    assert_eq!(eval_position((2, 40), &me, &st, 0, (2, 40), 100, 100), 650 - 240 - 400);
    // ally 30 cells away: -(30 - 15) * 20
    assert_eq!(eval_position((2, 40), &me, &st, 0, (32, 40), 100, 100), 650 - 240 - 300);
}

#[test]
fn no_live_enemy_scores_zero() {
    let me = hero(1, 0, 10, 10, 100, 0);
    let st = state(vec![me, hero(2, 1, 22, 10, 0, 0)], vec![], vec![]);
    assert_eq!(eval_position((10, 10), &me, &st, 0, (-1, -1), 100, 100), 0);
}

#[test]
fn depth_zero_is_position_score() {
    let me = hero(1, 0, 10, 10, 100, 0);
    let st = state(
        vec![me, hero(2, 1, 22, 10, 100, 0)],
        vec![Projectile { x: 12, y: 10, owner_id: 1 }],
        vec![],
    );
    assert_eq!(
        best_score((10, 10), &me, &st, 0, (-1, -1), &st.walls, 100, 100, 0),
        eval_position((10, 10), &me, &st, 0, (-1, -1), 100, 100)
    );
}

#[test]
fn look_ahead_adds_projectile_penalty() {
    // depth 1 from a cell with no moves: penalty at the cell plus its own score
    let me = hero(1, 0, 1, 1, 100, 0);
    let walls: Vec<Wall> = vec![];
    let st = state(
        vec![me, hero(2, 1, 1, 2, 100, 0)],
        vec![Projectile { x: 1, y: 1, owner_id: 1 }],
        walls.clone(),
    );
    let here = eval_position((1, 1), &me, &st, 0, (-1, -1), 2, 2);
    // valid moves from (1, 1) on a 2 x 2 board: only staying put
    assert_eq!(valid_moves((1, 1), &walls, 2, 2), vec![(1, 1)]);
    assert_eq!(best_score((1, 1), &me, &st, 0, (-1, -1), &walls, 2, 2, 1), -4000 + here);
}

#[test]
fn ready_enemy_is_predicted_to_stay() {
    let e = hero(2, 1, 30, 30, 100, 0);
    let st = state(vec![hero(1, 0, 10, 10, 100, 0), e], vec![], vec![]);
    assert_eq!(predict_enemy_pos(&e, &st, 0, &st.walls, 100, 100), (30, 30));
}

#[test]
fn reloading_enemy_is_predicted_to_move_validly() {
    let e = hero(2, 1, 30, 30, 100, 3);
    let st = state(vec![hero(1, 0, 28, 30, 100, 0), e], vec![], vec![]);
    let p = predict_enemy_pos(&e, &st, 0, &st.walls, 100, 100);
    assert!(valid_moves((30, 30), &st.walls, 100, 100).contains(&p));
}

#[test]
fn match_info_starts_empty() {
    let info = MatchInfo::new();
    assert_eq!((info.my_player_id, info.width, info.height), (0, 0, 0));
}

#[test]
fn hello_answers_with_login() {
    let mut bot = Bot::new("Pop-Iuliu".to_string(), Mode::Practice, None, 0, None, false);
    let orders = bot.on_hello(HelloArgs { version: "3".to_string() });
    assert_eq!(orders.len(), 1);
    match &orders[0] {
        ClientMessage::Login(l) => {
            assert_eq!(l.name, "Pop-Iuliu");
            assert_eq!(l.version, "3");
        }
        _ => panic!("expected a login"),
    }
}

#[test]
fn ready_asks_for_practice() {
    let mut bot = Bot::new("a".to_string(), Mode::Practice, Some(42), 1, None, true);
    let orders = bot.on_ready();
    assert_eq!(orders.len(), 1);
    match &orders[0] {
        ClientMessage::Practice(p) => {
            assert_eq!(p.seed, Some(42));
            assert_eq!(p.my_id, 1);
        }
        _ => panic!("expected a practice request"),
    }
}

#[test]
fn ready_asks_for_challenge() {
    let mut bot = Bot::new("a".to_string(), Mode::Challenge, None, 0, Some("rival".to_string()), true);
    let orders = bot.on_ready();
    assert_eq!(orders.len(), 1);
    match &orders[0] {
        ClientMessage::Challenge(c) => {
            assert_eq!(c.name.as_deref(), Some("rival"));
            assert_eq!(c.seed, None);
            assert_eq!(c.ranked, Some(true));
        }
        _ => panic!("expected a challenge request"),
    }
}

#[test]
fn start_match_records_board() {
    let bot = started_bot(1, 40, 30);
    assert_eq!((bot.info.my_player_id, bot.info.width, bot.info.height), (1, 40, 30));
}

#[test]
fn turn_shoots_visible_ready_enemy() {
    let mut bot = started_bot(0, 30, 30);
    let args = StartTurnArgs {
        turn: 5,
        state: state(vec![hero(1, 0, 10, 10, 100, 0), hero(2, 1, 15, 10, 50, 0)], vec![], vec![]),
    };
    let orders = bot.on_start_turn(args);
    assert_eq!(bot.current_turn, 5);
    assert_eq!(orders.len(), 1);
    match &orders[0] {
        ClientMessage::Shoot(s) => assert_eq!((s.hero_id, s.x, s.y), (1, 15, 10)),
        _ => panic!("expected a shot"),
    }
}

#[test]
fn turn_searches_when_no_enemy_in_view() {
    let mut bot = started_bot(0, 20, 20);
    let args = StartTurnArgs { turn: 1, state: state(vec![hero(7, 0, 1, 1, 100, 0)], vec![], vec![]) };
    let orders = bot.on_start_turn(args);
    assert_eq!(orders.len(), 1);
    match &orders[0] {
        ClientMessage::Move(m) => {
            assert_eq!((m.hero_id, m.x, m.y), (7, 4, 4));
            assert_eq!(m.comment, "\u{1f441}\u{fe0f}\u{1f441}\u{fe0f}");
        }
        _ => panic!("expected a move"),
    }
}

#[test]
fn turn_stays_when_at_center() {
    let mut bot = started_bot(0, 20, 20);
    let args = StartTurnArgs { turn: 1, state: state(vec![hero(7, 0, 10, 10, 100, 0)], vec![], vec![]) };
    let orders = bot.on_start_turn(args);
    match &orders[0] {
        ClientMessage::Move(m) => assert_eq!((m.x, m.y), (10, 10)),
        _ => panic!("expected a move"),
    }
}

#[test]
fn turn_moves_reloading_hero() {
    let mut bot = started_bot(0, 40, 40);
    let walls = vec![Wall { x: 20, y: 25 }];
    let args = StartTurnArgs {
        turn: 2,
        state: state(
            vec![hero(1, 0, 19, 19, 100, 2), hero(3, 1, 25, 19, 100, 1), hero(4, 0, 13, 19, 100, 0)],
            vec![],
            walls.clone(),
        ),
    };
    let orders = bot.on_start_turn(args);
    assert_eq!(orders.len(), 2);
    match &orders[0] {
        ClientMessage::Move(m) => {
            assert_eq!(m.hero_id, 1);
            assert_eq!(m.comment, "\u{1f440}");
            assert!(valid_moves((19, 19), &walls, 40, 40).contains(&(m.x, m.y)));
        }
        _ => panic!("expected a move for the reloading hero"),
    }
    match &orders[1] {
        ClientMessage::Shoot(s) => assert_eq!(s.hero_id, 4),
        ClientMessage::Move(m) => assert_eq!(m.hero_id, 4),
        _ => panic!("expected an order for the second hero"),
    }
}

#[test]
fn fatal_error_stops() {
    let mut bot = started_bot(0, 20, 20);
    let (orders, stop) = bot.on_message(ServerMessage::Error(ErrorArgs {
        code: "E1".to_string(),
        message: "bad".to_string(),
        fatal: true,
    }));
    assert!(orders.is_empty());
    assert!(stop);
    let (orders, stop) = bot.on_message(ServerMessage::Error(ErrorArgs {
        code: "E2".to_string(),
        message: "meh".to_string(),
        fatal: false,
    }));
    assert!(orders.is_empty());
    assert!(!stop);
}

#[test]
fn end_match_sends_nothing() {
    let mut bot = started_bot(0, 20, 20);
    assert!(bot.on_end_match(EndMatchArgs {}).is_empty());
}

#[test]
fn player_slot_parsing() {
    assert_eq!(parse_my_id("0"), Ok(0));
    assert_eq!(parse_my_id("1"), Ok(1));
    assert_eq!(parse_my_id("+1"), Ok(1));
    assert_eq!(parse_my_id("2"), Err("must be 0 or 1".to_string()));
    assert_eq!(parse_my_id("-1"), Err("must be 0 or 1".to_string()));
    assert_eq!(parse_my_id("x1"), Err("`x1`: not a valid integer".to_string()));
    assert_eq!(parse_my_id(""), Err("``: not a valid integer".to_string()));
    assert_eq!(parse_my_id("99999999999"), Err("`99999999999`: not a valid integer".to_string()));
}

#[test]
fn default_mode_is_practice() {
    assert_eq!(Mode::default(), Mode::Practice);
}

#[test]
fn negative_depth_without_moves_scores_cell() {
    // (-5, -5) is off the board: there is no move, so the look-ahead stops at once
    let me = hero(1, 0, -5, -5, 100, 0);
    let st = state(
        vec![me, hero(2, 1, 7, -5, 100, 0)],
        vec![Projectile { x: -4, y: -5, owner_id: 1 }],
        vec![],
    );
    assert_eq!(valid_moves((-5, -5), &st.walls, 20, 20), Vec::<(i32, i32)>::new());
    let here = eval_position((-5, -5), &me, &st, 0, (-1, -1), 20, 20);
    assert_eq!(best_score((-5, -5), &me, &st, 0, (-1, -1), &st.walls, 20, 20, -1), -3500 + here);
    assert_eq!(best_score((-5, -5), &me, &st, 0, (-1, -1), &st.walls, 20, 20, 2), -3500 + here);
}

#[test]
fn look_ahead_never_lowers_without_enemy_fire() {
    let me = hero(1, 0, 10, 10, 100, 0);
    let st = state(vec![me, hero(2, 1, 22, 13, 100, 1)], vec![Projectile { x: 11, y: 10, owner_id: 0 }], vec![]);
    let walls: Vec<Wall> = vec![Wall { x: 13, y: 13 }];
    let mut last = best_score((10, 10), &me, &st, 0, (-1, -1), &walls, 30, 30, 0);
    for depth in 1..3 {
        let next = best_score((10, 10), &me, &st, 0, (-1, -1), &walls, 30, 30, depth);
        assert!(next >= last);
        last = next;
    }
}

#[test]
fn extra_wall_removes_only_its_cell() {
    let walls = vec![Wall { x: 6, y: 3 }];
    let before = valid_moves((3, 3), &walls, 10, 10);
    let mut more = walls.clone();
    more.push(Wall { x: 0, y: 6 });
    let after = valid_moves((3, 3), &more, 10, 10);
    let expected: Vec<(i32, i32)> = before.into_iter().filter(|p| *p != (0, 6)).collect();
    assert_eq!(after, expected);
}

#[test]
fn bot_fields_follow_messages() {
    let mut bot = started_bot(1, 33, 44);
    let _ = bot.on_start_turn(StartTurnArgs { turn: 9, state: state(vec![], vec![], vec![]) });
    assert_eq!((bot.current_turn, bot.info.width, bot.info.height), (9, 33, 44));
    let hello = bot.on_hello(HelloArgs { version: "4".to_string() });
    assert!(matches!(&hello[..], [ClientMessage::Login(a)] if a.name == "tester" && a.version == "4"));
    let ready = bot.on_ready();
    assert!(matches!(&ready[..], [ClientMessage::Practice(a)] if a.seed == Some(7) && a.my_id == 1));
}
