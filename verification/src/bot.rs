use vstd::prelude::*;

use crate::cli::Mode;
use crate::evaluator::{best_spec, best_wide, hpos, is_live_enemy, predict_enemy_pos, predict_spec};
use crate::geometry::{cheb, cheb_wide, has_line_of_sight, line_of_sight, pt, pts};
use crate::pathfinding::{find_next_step, next_step, opt_pt};
use crate::protocol::{
    ChallengeArgs, EndMatchArgs, ErrorArgs, GameState, HelloArgs, Hero, LoginArgs, MoveArgs, PracticeArgs,
    Projectile, ServerMessage, ShootArgs, StartMatchArgs, StartTurnArgs, StateView, Wall,
};

verus! {

/// The nine moves a hero may make in a turn, in the order they are tried:
/// staying put, then the four straight and the four diagonal jumps of three cells.
pub open spec fn move_deltas() -> Seq<(int, int)> {
    seq![(0, 0), (3, 0), (-3, 0), (0, 3), (0, -3), (3, 3), (3, -3), (-3, 3), (-3, -3)]
}

/// Whether a wall stands exactly on `p`.
pub open spec fn wall_at(p: (int, int), walls: Seq<Wall>) -> bool {
    exists|j: int| 0 <= j < walls.len() && (#[trigger] walls[j]).x == p.0 && walls[j].y == p.1
}

/// Whether a hero may stand on `p`: inside the `width` x `height` board and not on a wall.
pub open spec fn free_cell(p: (int, int), walls: Seq<Wall>, width: int, height: int) -> bool {
    &&& 0 <= p.0 < width
    &&& 0 <= p.1 < height
    &&& !wall_at(p, walls)
}

/// The destinations among the first `k` moves from `pos` that land on a free cell, in order.
pub open spec fn moves_upto(pos: (int, int), walls: Seq<Wall>, width: int, height: int, k: int) -> Seq<(int, int)>
    decreases k,
{
    if k <= 0 {
        seq![]
    } else {
        let prev = moves_upto(pos, walls, width, height, k - 1);
        let d = move_deltas()[k - 1];
        let p = (pos.0 + d.0, pos.1 + d.1);
        if free_cell(p, walls, width, height) {
            prev.push(p)
        } else {
            prev
        }
    }
}

/// All destinations a hero at `pos` may move to this turn, in the order of `move_deltas`.
pub open spec fn valid_moves_spec(pos: (int, int), walls: Seq<Wall>, width: int, height: int) -> Seq<(int, int)> {
    moves_upto(pos, walls, width, height, 9)
}

fn move_delta(k: usize) -> (d: (i64, i64))
    requires
        k < 9,
    ensures
        (d.0 as int, d.1 as int) == move_deltas()[k as int],
{
    match k {
        0 => (0, 0),
        1 => (3, 0),
        2 => (-3, 0),
        3 => (0, 3),
        4 => (0, -3),
        5 => (3, 3),
        6 => (3, -3),
        7 => (-3, 3),
        _ => (-3, -3),
    }
}

/// Whether a wall stands exactly on `(x, y)`.
pub(crate) fn is_wall(x: i64, y: i64, walls: &[Wall]) -> (r: bool)
    ensures
        r == wall_at((x as int, y as int), walls@),
{
    let n = walls.len();
    let mut j: usize = 0;
    while j < n
        invariant
            n == walls@.len(),
            0 <= j <= n,
            forall|k: int| 0 <= k < j ==> !((#[trigger] walls@[k]).x == x && walls@[k].y == y),
        decreases n - j,
    {
        if walls[j].x as i64 == x && walls[j].y as i64 == y {
            return true;
        }
        j += 1;
    }
    false
}

/// The cells a hero at `pos` may move to this turn.
pub fn valid_moves(pos: (i32, i32), walls: &[Wall], width: i32, height: i32) -> (moves: Vec<(i32, i32)>)
    ensures
        pts(moves@) == valid_moves_spec(pt(pos), walls@, width as int, height as int),
{
    let mut moves: Vec<(i32, i32)> = Vec::new();
    let mut k: usize = 0;
    assert(pts(moves@) =~= moves_upto(pt(pos), walls@, width as int, height as int, 0));
    while k < 9
        invariant
            0 <= k <= 9,
            pts(moves@) == moves_upto(pt(pos), walls@, width as int, height as int, k as int),
        decreases 9 - k,
    {
        let d = move_delta(k);
        let nx = pos.0 as i64 + d.0;
        let ny = pos.1 as i64 + d.1;
        let ghost old_moves = moves@;
        if nx < 0 || ny < 0 || nx >= width as i64 || ny >= height as i64 {
        } else if is_wall(nx, ny, walls) {
        } else {
            moves.push((nx as i32, ny as i32));
            assert(pts(moves@) =~= pts(old_moves).push((nx as int, ny as int)));
        }
        k += 1;
    }
    moves
}

/// A message sent to the game server.
pub enum ClientMessage {
    Login(LoginArgs),
    Practice(PracticeArgs),
    Challenge(ChallengeArgs),
    Move(MoveArgs),
    Shoot(ShootArgs),
}

/// Whether `al_meu` has a clear shot at `inamic`.
fn shootable(al_meu: &Hero, inamic: &Hero, walls: &[Wall]) -> (r: bool)
    ensures
        r == line_of_sight(hpos(*al_meu), hpos(*inamic), walls@),
{
    has_line_of_sight((al_meu.x, al_meu.y), (inamic.x, inamic.y), walls)
}

/// What the bot knows about the current match.
pub struct MatchInfo {
    pub my_player_id: i32,
    pub width: i32,
    pub height: i32,
}

impl MatchInfo {
    pub fn new() -> (m: Self)
        ensures
            m.my_player_id == 0,
            m.width == 0,
            m.height == 0,
    {
        Self { my_player_id: 0, width: 0, height: 0 }
    }
}

/// The bot's state as seen by its contracts.
pub struct BotView {
    pub my_player_id: i32,
    pub width: i32,
    pub height: i32,
    pub current_turn: i32,
    pub name: Seq<char>,
    pub mode: Mode,
    pub seed: Option<u32>,
    pub my_id: i32,
    pub challenge_target: Option<Seq<char>>,
    pub ranked: bool,
}

pub open spec fn opt_str(o: Option<String>) -> Option<Seq<char>> {
    match o {
        Some(s) => Some(s@),
        None => None,
    }
}

/// A client that plays Bitdefenders matches.
pub struct Bot {
    pub info: MatchInfo,
    pub current_turn: i32,
    name: String,
    mode: Mode,
    seed: Option<u32>,
    my_id: i32,
    challenge_target: Option<String>,
    ranked: bool,
}

impl View for Bot {
    type V = BotView;

    closed spec fn view(&self) -> BotView {
        BotView {
            my_player_id: self.info.my_player_id,
            width: self.info.width,
            height: self.info.height,
            current_turn: self.current_turn,
            name: self.name@,
            mode: self.mode,
            seed: self.seed,
            my_id: self.my_id,
            challenge_target: opt_str(self.challenge_target),
            ranked: self.ranked,
        }
    }
}

fn clone_opt_string(o: &Option<String>) -> (r: Option<String>)
    ensures
        opt_str(r) == opt_str(*o),
{
    match o {
        Some(s) => Some(s.clone()),
        None => None,
    }
}

fn copy_vec<T: Copy>(v: &Vec<T>) -> (r: Vec<T>)
    ensures
        r@ == v@,
{
    let mut r: Vec<T> = Vec::new();
    let n = v.len();
    let mut i: usize = 0;
    while i < n
        invariant
            n == v@.len(),
            0 <= i <= n,
            r@ == v@.take(i as int),
        decreases n - i,
    {
        r.push(v[i]);
        assert(r@ =~= v@.take(i + 1));
        i += 1;
    }
    assert(v@.take(n as int) =~= v@);
    r
}

/// The heroes among the first `n` that belong to player `me`, in board order.
pub open spec fn own_heroes(heroes: Seq<Hero>, me: int, n: int) -> Seq<Hero>
    decreases n,
{
    if n <= 0 {
        seq![]
    } else if heroes[n - 1].owner_id == me {
        own_heroes(heroes, me, n - 1).push(heroes[n - 1])
    } else {
        own_heroes(heroes, me, n - 1)
    }
}

/// Whether target `a` is preferred to target `b` by `hero`: nearer, or as near and weaker.
pub open spec fn closer_target(hero: Hero, a: Hero, b: Hero) -> bool {
    let da = cheb(hpos(hero), hpos(a));
    let db = cheb(hpos(hero), hpos(b));
    da < db || (da == db && a.hp < b.hp)
}

/// The preferred live enemy among the first `n` heroes; the earlier one among equals.
pub open spec fn target_upto(hero: Hero, heroes: Seq<Hero>, me: int, n: int) -> Option<Hero>
    decreases n,
{
    if n <= 0 {
        None
    } else {
        let prev = target_upto(hero, heroes, me, n - 1);
        let e = heroes[n - 1];
        if is_live_enemy(e, me) {
            match prev {
                Some(t) => if closer_target(hero, e, t) {
                    Some(e)
                } else {
                    prev
                },
                None => Some(e),
            }
        } else {
            prev
        }
    }
}

/// Whether a projectile of any player is within Chebyshev distance 6 of `hero`.
pub open spec fn under_fire(hero: Hero, projectiles: Seq<Projectile>) -> bool {
    exists|i: int|
        0 <= i < projectiles.len() && cheb(hpos(hero), ((#[trigger] projectiles[i]).x as int, projectiles[i].y as int))
            < 7
}

/// Where `hero` shoots this turn, if it shoots: at the preferred target when its
/// weapon is ready, no projectile is close and the target is in sight; it aims at
/// the target's predicted cell when that is in sight too, else at the target.
pub open spec fn shot_of(hero: Hero, st: StateView, me: int, width: int, height: int) -> Option<(int, int)> {
    match target_upto(hero, st.heroes, me, st.heroes.len() as int) {
        Some(t) => if hero.cooldown == 0 && !under_fire(hero, st.projectiles) && line_of_sight(
            hpos(hero),
            hpos(t),
            st.walls,
        ) {
            let predicted = predict_spec(t, st, st.walls, width, height);
            Some(
                if line_of_sight(hpos(hero), predicted, st.walls) {
                    predicted
                } else {
                    hpos(t)
                },
            )
        } else {
            None
        },
        None => None,
    }
}

/// Whether any hero of another player is on the board, alive or not.
pub open spec fn sees_enemy(heroes: Seq<Hero>, me: int) -> bool {
    exists|i: int| 0 <= i < heroes.len() && (#[trigger] heroes[i]).owner_id != me
}

/// Integer division rounding towards zero.
pub open spec fn div_trunc(a: int, b: int) -> int {
    if a >= 0 {
        a / b
    } else {
        -((-a) / b)
    }
}

/// The cell a hero heads for when no enemy is in view: the middle of the board,
/// on the grid of cells that are 1 modulo 3.
pub open spec fn board_center(width: int, height: int) -> (int, int) {
    (div_trunc(div_trunc(width, 2), 3) * 3 + 1, div_trunc(div_trunc(height, 2), 3) * 3 + 1)
}

/// The position of the first other hero of player `me` from index `i` on, or `(-1, -1)`.
pub open spec fn ally_from(hero: Hero, heroes: Seq<Hero>, me: int, i: int) -> (int, int)
    decreases heroes.len() - i,
{
    if i < 0 || i >= heroes.len() {
        (-1, -1)
    } else if heroes[i].owner_id == me && heroes[i].id != hero.id {
        hpos(heroes[i])
    } else {
        ally_from(hero, heroes, me, i + 1)
    }
}

/// The board with every live enemy moved to its predicted cell.
pub open spec fn predicted_view(st: StateView, me: int, width: int, height: int) -> StateView {
    StateView {
        heroes: Seq::new(
            st.heroes.len(),
            |i: int|
                {
                    let e = st.heroes[i];
                    if is_live_enemy(e, me) {
                        let p = predict_spec(e, st, st.walls, width, height);
                        Hero { id: e.id, owner_id: e.owner_id, x: p.0 as i32, y: p.1 as i32, hp: e.hp, cooldown: e.cooldown }
                    } else {
                        e
                    }
                },
        ),
        projectiles: st.projectiles,
        walls: st.walls,
    }
}

/// The best-scoring of the first `k` of `moves` for `hero` after a three-move
/// look-ahead on the predicted board, with its score; among equals the later wins.
pub open spec fn best_move_upto(
    moves: Seq<(int, int)>,
    hero: Hero,
    pst: StateView,
    me: int,
    ally: (int, int),
    walls: Seq<Wall>,
    width: int,
    height: int,
    k: int,
) -> Option<((int, int), int)>
    decreases k,
{
    if k <= 0 {
        None
    } else {
        let prev = best_move_upto(moves, hero, pst, me, ally, walls, width, height, k - 1);
        let p = moves[k - 1];
        let v = best_spec(p, hero, pst, me, ally, walls, width, height, 3);
        match prev {
            Some((q, qv)) => if v >= qv {
                Some((p, v))
            } else {
                prev
            },
            None => Some((p, v)),
        }
    }
}

/// Where `hero` moves when it neither shoots nor searches: the best-scoring valid
/// move, or its own cell when it has none.
pub open spec fn best_move(hero: Hero, st: StateView, me: int, width: int, height: int) -> (int, int) {
    let pst = predicted_view(st, me, width, height);
    let ally = ally_from(hero, st.heroes, me, 0);
    let moves = valid_moves_spec(hpos(hero), st.walls, width, height);
    match best_move_upto(moves, hero, pst, me, ally, st.walls, width, height, moves.len() as int) {
        Some((p, _)) => p,
        None => hpos(hero),
    }
}

pub open spec fn search_comment() -> Seq<char> {
    "\u{1f441}\u{fe0f}\u{1f441}\u{fe0f}"@
}

pub open spec fn fight_comment() -> Seq<char> {
    "\u{1f440}"@
}

/// The order the bot gives `hero` this turn.
pub open spec fn order_ok(hero: Hero, st: StateView, me: int, width: int, height: int, msg: ClientMessage) -> bool {
    match shot_of(hero, st, me, width, height) {
        Some(p) => msg matches ClientMessage::Shoot(a) && a.hero_id == hero.id && a.x == p.0 && a.y == p.1,
        None => if !sees_enemy(st.heroes, me) {
            &&& msg matches ClientMessage::Move(a)
            &&& a.hero_id == hero.id
            &&& a.comment@ == search_comment()
            &&& (a.x as int, a.y as int) == match next_step(hpos(hero), board_center(width, height), st.walls, width, height) {
                Some(d) => (hero.x + d.0, hero.y + d.1),
                None => hpos(hero),
            }
        } else {
            &&& msg matches ClientMessage::Move(a)
            &&& a.hero_id == hero.id
            &&& a.comment@ == fight_comment()
            &&& (a.x as int, a.y as int) == best_move(hero, st, me, width, height)
        },
    }
}

/// The orders for a whole turn: one per hero of player `me`, in board order.
pub open spec fn turn_orders_ok(st: StateView, me: int, width: int, height: int, orders: Seq<ClientMessage>) -> bool {
    let own = own_heroes(st.heroes, me, st.heroes.len() as int);
    &&& orders.len() == own.len()
    &&& forall|k: int| 0 <= k < own.len() ==> #[trigger] order_ok(own[k], st, me, width, height, orders[k])
}

/// The reply to the server's greeting: a login with the bot's name and the
/// server's protocol version.
pub open spec fn login_reply(v: BotView, version: Seq<char>, orders: Seq<ClientMessage>) -> bool {
    &&& orders.len() == 1
    &&& orders[0] matches ClientMessage::Login(l)
    &&& l.name@ == v.name
    &&& l.version@ == version
}

/// The reply once the server is ready: a practice or a challenge request, after
/// the bot's mode.
pub open spec fn ready_reply(v: BotView, orders: Seq<ClientMessage>) -> bool {
    &&& orders.len() == 1
    &&& match v.mode {
        Mode::Practice => orders[0] matches ClientMessage::Practice(a) && a.seed == v.seed && a.my_id == v.my_id,
        Mode::Challenge => orders[0] matches ClientMessage::Challenge(a) && opt_str(a.name) == v.challenge_target
            && a.seed == v.seed && a.ranked == Some(v.ranked),
    }
}

/// The bot's state once a match has started with the given player id and board size.
pub open spec fn started(v: BotView, args: StartMatchArgs) -> BotView {
    BotView {
        my_player_id: args.your_player_id,
        width: args.config.width,
        height: args.config.height,
        ..v
    }
}

/// The bot's state once turn `turn` has begun.
pub open spec fn in_turn(v: BotView, turn: i32) -> BotView {
    BotView { current_turn: turn, ..v }
}

/// What the bot does on one message from the server: the orders it sends back and
/// whether it stops listening.
pub open spec fn message_ok(v: BotView, msg: ServerMessage, v2: BotView, orders: Seq<ClientMessage>, stop: bool) -> bool {
    match msg {
        ServerMessage::Hello(a) => v2 == v && login_reply(v, a.version@, orders) && !stop,
        ServerMessage::Ready(_) => v2 == v && ready_reply(v, orders) && !stop,
        ServerMessage::StartMatch(a) => v2 == started(v, a) && orders.len() == 0 && !stop,
        ServerMessage::StartTurn(a) => v2 == in_turn(v, a.turn) && turn_orders_ok(
            a.state@,
            v.my_player_id as int,
            v.width as int,
            v.height as int,
            orders,
        ) && !stop,
        ServerMessage::EndMatch(_) => v2 == v && orders.len() == 0 && !stop,
        ServerMessage::Error(a) => v2 == v && orders.len() == 0 && stop == a.fatal,
    }
}

fn pick_target(hero: &Hero, heroes: &Vec<Hero>, me: i32) -> (r: Option<Hero>)
    ensures
        r == target_upto(*hero, heroes@, me as int, heroes@.len() as int),
{
    let n = heroes.len();
    let mut best: Option<Hero> = None;
    let mut i: usize = 0;
    while i < n
        invariant
            n == heroes@.len(),
            0 <= i <= n,
            best == target_upto(*hero, heroes@, me as int, i as int),
        decreases n - i,
    {
        let e = heroes[i];
        if e.owner_id != me && e.hp > 0 {
            best = match best {
                Some(t) => {
                    let de = cheb_wide((hero.x, hero.y), (e.x, e.y));
                    let dt = cheb_wide((hero.x, hero.y), (t.x, t.y));
                    if de < dt || (de == dt && e.hp < t.hp) {
                        Some(e)
                    } else {
                        Some(t)
                    }
                },
                None => Some(e),
            };
        }
        i += 1;
    }
    best
}

fn projectile_close(hero: &Hero, projectiles: &Vec<Projectile>) -> (r: bool)
    ensures
        r == under_fire(*hero, projectiles@),
{
    let n = projectiles.len();
    let mut i: usize = 0;
    while i < n
        invariant
            n == projectiles@.len(),
            0 <= i <= n,
            forall|k: int|
                0 <= k < i ==> cheb(hpos(*hero), ((#[trigger] projectiles@[k]).x as int, projectiles@[k].y as int)) >= 7,
        decreases n - i,
    {
        let p = projectiles[i];
        if cheb_wide((hero.x, hero.y), (p.x, p.y)) < 7 {
            return true;
        }
        i += 1;
    }
    false
}

fn any_enemy(heroes: &Vec<Hero>, me: i32) -> (r: bool)
    ensures
        r == sees_enemy(heroes@, me as int),
{
    let n = heroes.len();
    let mut i: usize = 0;
    while i < n
        invariant
            n == heroes@.len(),
            0 <= i <= n,
            forall|k: int| 0 <= k < i ==> (#[trigger] heroes@[k]).owner_id == me,
        decreases n - i,
    {
        if heroes[i].owner_id != me {
            return true;
        }
        i += 1;
    }
    false
}

fn ally_of(hero: &Hero, heroes: &Vec<Hero>, me: i32) -> (r: (i32, i32))
    ensures
        pt(r) == ally_from(*hero, heroes@, me as int, 0),
{
    let n = heroes.len();
    let mut i: usize = 0;
    while i < n
        invariant
            n == heroes@.len(),
            0 <= i <= n,
            ally_from(*hero, heroes@, me as int, 0) == ally_from(*hero, heroes@, me as int, i as int),
        decreases n - i,
    {
        let a = heroes[i];
        if a.owner_id == me && a.id != hero.id {
            return (a.x, a.y);
        }
        i += 1;
    }
    (-1, -1)
}

/// The board with every live enemy moved to its predicted cell.
fn predicted_state(state: &GameState, me: i32, width: i32, height: i32) -> (r: GameState)
    ensures
        r@ == predicted_view(state@, me as int, width as int, height as int),
{
    let ghost pv = predicted_view(state@, me as int, width as int, height as int);
    let n = state.heroes.len();
    let mut heroes: Vec<Hero> = Vec::new();
    let mut i: usize = 0;
    while i < n
        invariant
            n == state.heroes@.len(),
            0 <= i <= n,
            pv == predicted_view(state@, me as int, width as int, height as int),
            heroes@.len() == i,
            forall|k: int| 0 <= k < i ==> heroes@[k] == #[trigger] pv.heroes[k],
        decreases n - i,
    {
        let e = state.heroes[i];
        if e.owner_id != me && e.hp > 0 {
            let p = predict_enemy_pos(&e, state, me, state.walls.as_slice(), width, height);
            heroes.push(Hero { id: e.id, owner_id: e.owner_id, x: p.0, y: p.1, hp: e.hp, cooldown: e.cooldown });
        } else {
            heroes.push(e);
        }
        i += 1;
    }
    assert(heroes@ =~= pv.heroes);
    GameState {
        heroes,
        projectiles: copy_vec(&state.projectiles),
        walls: copy_vec(&state.walls),
    }
}

/// The best-scoring move for `hero` (see `best_move`).
fn best_move_exec(
    hero: &Hero,
    state: &GameState,
    pstate: &GameState,
    me: i32,
    ally: (i32, i32),
    width: i32,
    height: i32,
) -> (r: (i32, i32))
    requires
        pstate@ == predicted_view(state@, me as int, width as int, height as int),
        pt(ally) == ally_from(*hero, state@.heroes, me as int, 0),
    ensures
        pt(r) == best_move(*hero, state@, me as int, width as int, height as int),
{
    let moves = valid_moves((hero.x, hero.y), state.walls.as_slice(), width, height);
    let ghost ms = valid_moves_spec(hpos(*hero), state@.walls, width as int, height as int);
    let n = moves.len();
    let mut best: Option<((i32, i32), i128)> = None;
    let mut k: usize = 0;
    while k < n
        invariant
            n == moves@.len(),
            pts(moves@) == ms,
            ms == valid_moves_spec(hpos(*hero), state@.walls, width as int, height as int),
            0 <= k <= n,
            ({
                let sb = best_move_upto(
                    ms,
                    *hero,
                    pstate@,
                    me as int,
                    pt(ally),
                    state@.walls,
                    width as int,
                    height as int,
                    k as int,
                );
                match best {
                    Some((p, v)) => sb == Some((pt(p), v as int)),
                    None => sb is None,
                }
            }),
        decreases n - k,
    {
        let p = moves[k];
        assert(pt(p) == ms[k as int]);
        let v = best_wide(p, hero, pstate, me, ally, state.walls.as_slice(), width, height, 3);
        best = match best {
            Some((q, qv)) => if v >= qv {
                Some((p, v))
            } else {
                Some((q, qv))
            },
            None => Some((p, v)),
        };
        k += 1;
    }
    match best {
        Some((p, _)) => p,
        None => (hero.x, hero.y),
    }
}

/// The cell a hero heads for when no enemy is in view.
fn center_of(width: i32, height: i32) -> (c: (i32, i32))
    ensures
        pt(c) == board_center(width as int, height as int),
{
    let w = width as i64;
    let h = height as i64;
    let hw = if w >= 0 {
        w / 2
    } else {
        -((-w) / 2)
    };
    let hh = if h >= 0 {
        h / 2
    } else {
        -((-h) / 2)
    };
    let cw = if hw >= 0 {
        hw / 3
    } else {
        -((-hw) / 3)
    };
    let ch = if hh >= 0 {
        hh / 3
    } else {
        -((-hh) / 3)
    };
    ((cw * 3 + 1) as i32, (ch * 3 + 1) as i32)
}

/// The order for one of the bot's heroes.
fn plan_hero(hero: &Hero, state: &GameState, pstate: &GameState, me: i32, width: i32, height: i32) -> (msg: ClientMessage)
    requires
        pstate@ == predicted_view(state@, me as int, width as int, height as int),
    ensures
        order_ok(*hero, state@, me as int, width as int, height as int, msg),
{
    let walls = state.walls.as_slice();
    let target = pick_target(hero, &state.heroes, me);
    let imminent = projectile_close(hero, &state.projectiles);
    match target {
        Some(t) => {
            if hero.cooldown == 0 && !imminent && shootable(hero, &t, walls) {
                let predicted = predict_enemy_pos(&t, state, me, walls, width, height);
                let aim = if has_line_of_sight((hero.x, hero.y), predicted, walls) {
                    predicted
                } else {
                    (t.x, t.y)
                };
                return ClientMessage::Shoot(ShootArgs { hero_id: hero.id, x: aim.0, y: aim.1 });
            }
        },
        None => {},
    }
    if !any_enemy(&state.heroes, me) {
        let center = center_of(width, height);
        let step = find_next_step((hero.x, hero.y), center, walls, width, height);
        let dest = match step {
            Some(d) => {
                proof {
                    crate::pathfinding::lemma_next_step_is_move(
                        hpos(*hero),
                        pt(center),
                        walls@,
                        width as int,
                        height as int,
                        pt(d),
                    );
                }
                (hero.x + d.0, hero.y + d.1)
            },
            None => (hero.x, hero.y),
        };
        proof {
            assert(opt_pt(step) == next_step(hpos(*hero), board_center(width as int, height as int), state@.walls, width as int, height as int));
        }
        return ClientMessage::Move(
            MoveArgs {
                hero_id: hero.id,
                x: dest.0,
                y: dest.1,
                comment: String::from_str("\u{1f441}\u{fe0f}\u{1f441}\u{fe0f}"),
            },
        );
    }
    let ally = ally_of(hero, &state.heroes, me);
    let best = best_move_exec(hero, state, pstate, me, ally, width, height);
    ClientMessage::Move(MoveArgs { hero_id: hero.id, x: best.0, y: best.1, comment: String::from_str("\u{1f440}") })
}

impl Bot {
    pub fn new(
        name: String,
        mode: Mode,
        seed: Option<u32>,
        my_id: i32,
        challenge_target: Option<String>,
        ranked: bool,
    ) -> (bot: Self)
        ensures
            bot@ == (BotView {
                my_player_id: 0,
                width: 0,
                height: 0,
                current_turn: 0,
                name: name@,
                mode,
                seed,
                my_id,
                challenge_target: opt_str(challenge_target),
                ranked,
            }),
    {
        Self { info: MatchInfo::new(), current_turn: 0, name, mode, seed, my_id, challenge_target, ranked }
    }

    /// Answers the server's greeting with a login.
    pub fn on_hello(&mut self, args: HelloArgs) -> (orders: Vec<ClientMessage>)
        ensures
            final(self)@ == old(self)@,
            login_reply(old(self)@, args.version@, orders@),
    {
        let mut orders: Vec<ClientMessage> = Vec::new();
        orders.push(ClientMessage::Login(LoginArgs { name: self.name.clone(), version: args.version }));
        orders
    }

    /// Asks for a practice game or a challenge, after the bot's mode.
    pub fn on_ready(&mut self) -> (orders: Vec<ClientMessage>)
        ensures
            final(self)@ == old(self)@,
            ready_reply(old(self)@, orders@),
    {
        let mut orders: Vec<ClientMessage> = Vec::new();
        match self.mode {
            Mode::Practice => {
                orders.push(ClientMessage::Practice(PracticeArgs { seed: self.seed, my_id: self.my_id }));
            },
            Mode::Challenge => {
                orders.push(
                    ClientMessage::Challenge(
                        ChallengeArgs {
                            name: clone_opt_string(&self.challenge_target),
                            seed: self.seed,
                            ranked: Some(self.ranked),
                        },
                    ),
                );
            },
        }
        orders
    }

    /// The end of a match calls for no orders.
    pub fn on_end_match(&mut self, args: EndMatchArgs) -> (orders: Vec<ClientMessage>)
        ensures
            final(self)@ == old(self)@,
            orders@.len() == 0,
    {
        Vec::new()
    }

    /// Records the player id and the board size of the new match.
    pub fn on_start_match(&mut self, args: StartMatchArgs) -> (orders: Vec<ClientMessage>)
        ensures
            final(self)@ == started(old(self)@, args),
            orders@.len() == 0,
    {
        self.info.my_player_id = args.your_player_id;
        self.info.height = args.config.height;
        self.info.width = args.config.width;
        Vec::new()
    }

    /// The orders for this turn: one for each of the bot's heroes (see `order_ok`).
    pub fn on_start_turn(&mut self, args: StartTurnArgs) -> (orders: Vec<ClientMessage>)
        ensures
            final(self)@ == in_turn(old(self)@, args.turn),
            turn_orders_ok(
                args.state@,
                old(self)@.my_player_id as int,
                old(self)@.width as int,
                old(self)@.height as int,
                orders@,
            ),
    {
        self.current_turn = args.turn;
        let me = self.info.my_player_id;
        let width = self.info.width;
        let height = self.info.height;
        let state = &args.state;
        let pstate = predicted_state(state, me, width, height);
        let n = state.heroes.len();
        let mut orders: Vec<ClientMessage> = Vec::new();
        let mut i: usize = 0;
        while i < n
            invariant
                n == state.heroes@.len(),
                0 <= i <= n,
                pstate@ == predicted_view(state@, me as int, width as int, height as int),
                orders@.len() == own_heroes(state@.heroes, me as int, i as int).len(),
                forall|k: int|
                    0 <= k < orders@.len() ==> #[trigger] order_ok(
                        own_heroes(state@.heroes, me as int, i as int)[k],
                        state@,
                        me as int,
                        width as int,
                        height as int,
                        orders@[k],
                    ),
            decreases n - i,
        {
            let hero = state.heroes[i];
            if hero.owner_id == me {
                let msg = plan_hero(&hero, state, &pstate, me, width, height);
                orders.push(msg);
            }
            i += 1;
        }
        orders
    }

    /// An error from the server calls for no orders.
    pub fn on_error(&mut self, args: &ErrorArgs) -> (orders: Vec<ClientMessage>)
        ensures
            final(self)@ == old(self)@,
            orders@.len() == 0,
    {
        Vec::new()
    }

    /// Handles one message from the server: the orders to send back, and whether to
    /// stop listening (after a fatal error).
    pub fn on_message(&mut self, msg: ServerMessage) -> (r: (Vec<ClientMessage>, bool))
        ensures
            message_ok(old(self)@, msg, final(self)@, r.0@, r.1),
    {
        match msg {
            ServerMessage::Hello(args) => (self.on_hello(args), false),
            ServerMessage::Ready(_) => (self.on_ready(), false),
            ServerMessage::StartMatch(args) => (self.on_start_match(args), false),
            ServerMessage::StartTurn(args) => (self.on_start_turn(args), false),
            ServerMessage::EndMatch(args) => (self.on_end_match(args), false),
            ServerMessage::Error(args) => {
                let orders = self.on_error(&args);
                (orders, args.fatal)
            },
        }
    }
}

proof fn lemma_moves_upto(pos: (int, int), walls: Seq<Wall>, width: int, height: int, k: int)
    requires
        0 <= k <= 9,
    ensures
        ({
            let ms = moves_upto(pos, walls, width, height, k);
            &&& ms.len() <= k
            &&& ms.no_duplicates()
            &&& forall|i: int|
                0 <= i < ms.len() ==> exists|j: int|
                    0 <= j < k && #[trigger] ms[i] == (pos.0 + move_deltas()[j].0, pos.1 + move_deltas()[j].1)
            &&& forall|i: int| 0 <= i < ms.len() ==> free_cell(#[trigger] ms[i], walls, width, height)
            &&& (k >= 1 ==> (ms.contains(pos) <==> free_cell(pos, walls, width, height)))
        }),
    decreases k,
{
    if k > 0 {
        lemma_moves_upto(pos, walls, width, height, k - 1);
        let prev = moves_upto(pos, walls, width, height, k - 1);
        let ms = moves_upto(pos, walls, width, height, k);
        let d = move_deltas()[k - 1];
        let p = (pos.0 + d.0, pos.1 + d.1);
        assert(move_deltas() =~= seq![(0int, 0int), (3int, 0int), (-3int, 0int), (0int, 3int), (0int, -3int), (3int, 3int), (3int, -3int), (-3int, 3int), (-3int, -3int)]);
        if free_cell(p, walls, width, height) {
            assert(ms == prev.push(p));
            assert forall|i: int|
                0 <= i < ms.len() implies exists|j: int|
                0 <= j < k && #[trigger] ms[i] == (pos.0 + move_deltas()[j].0, pos.1 + move_deltas()[j].1) by {
                if i < prev.len() {
                    assert(ms[i] == prev[i]);
                } else {
                    assert(ms[i] == (pos.0 + move_deltas()[k - 1].0, pos.1 + move_deltas()[k - 1].1));
                }
            }
            assert(!prev.contains(p)) by {
                if prev.contains(p) {
                    let i = choose|i: int| 0 <= i < prev.len() && prev[i] == p;
                    let j = choose|j: int|
                        0 <= j < k - 1 && #[trigger] prev[i] == (pos.0 + move_deltas()[j].0, pos.1 + move_deltas()[j].1);
                }
            }
            assert forall|a: int, b: int| 0 <= a < ms.len() && 0 <= b < ms.len() && a != b implies ms[a] != ms[b] by {
                if a < prev.len() && b < prev.len() {
                    assert(ms[a] == prev[a] && ms[b] == prev[b]);
                } else if a < prev.len() {
                    assert(ms[a] == prev[a]);
                } else {
                    assert(ms[b] == prev[b]);
                }
            }
            if k >= 2 {
                assert(p != pos);
                if ms.contains(pos) {
                    let i = choose|i: int| 0 <= i < ms.len() && ms[i] == pos;
                    if i < prev.len() {
                        assert(prev[i] == pos);
                    }
                }
                if prev.contains(pos) {
                    let i = choose|i: int| 0 <= i < prev.len() && prev[i] == pos;
                    assert(ms[i] == pos);
                }
            } else {
                assert(ms[0] == pos);
            }
        } else {
            assert(ms == prev);
            if k == 1 {
                assert(prev.len() == 0);
            }
        }
    }
}

/// The target a hero picks among the first `n` heroes is one of them and a live
/// enemy; no live enemy among them is nearer to the hero (Chebyshev distance), or
/// as near with fewer hit points; and of equally good ones it is the first listed.
/// There is no target exactly when none of them is a live enemy.
pub proof fn lemma_target_is_nearest(hero: Hero, heroes: Seq<Hero>, me: int, n: int)
    requires
        0 <= n <= heroes.len(),
    ensures
        match target_upto(hero, heroes, me, n) {
            None => forall|i: int| 0 <= i < n ==> !is_live_enemy(#[trigger] heroes[i], me),
            Some(t) => exists|j: int|
                #![trigger heroes[j]]
                {
                    &&& 0 <= j < n
                    &&& heroes[j] == t
                    &&& is_live_enemy(t, me)
                    &&& forall|i: int|
                        0 <= i < n && is_live_enemy(#[trigger] heroes[i], me) ==> {
                            let dt = cheb(hpos(hero), hpos(t));
                            let di = cheb(hpos(hero), hpos(heroes[i]));
                            dt < di || (dt == di && t.hp <= heroes[i].hp)
                        }
                    &&& forall|i: int|
                        0 <= i < j && is_live_enemy(#[trigger] heroes[i], me) ==> {
                            let dt = cheb(hpos(hero), hpos(t));
                            let di = cheb(hpos(hero), hpos(heroes[i]));
                            dt < di || (dt == di && t.hp < heroes[i].hp)
                        }
                },
        },
    decreases n,
{
    if n > 0 {
        lemma_target_is_nearest(hero, heroes, me, n - 1);
        let e = heroes[n - 1];
        if is_live_enemy(e, me) {
            match target_upto(hero, heroes, me, n - 1) {
                Some(t) => {
                    let j = choose|j: int|
                        #![trigger heroes[j]]
                        {
                            &&& 0 <= j < n - 1
                            &&& heroes[j] == t
                            &&& is_live_enemy(t, me)
                            &&& forall|i: int|
                                0 <= i < n - 1 && is_live_enemy(#[trigger] heroes[i], me) ==> {
                                    let dt = cheb(hpos(hero), hpos(t));
                                    let di = cheb(hpos(hero), hpos(heroes[i]));
                                    dt < di || (dt == di && t.hp <= heroes[i].hp)
                                }
                            &&& forall|i: int|
                                0 <= i < j && is_live_enemy(#[trigger] heroes[i], me) ==> {
                                    let dt = cheb(hpos(hero), hpos(t));
                                    let di = cheb(hpos(hero), hpos(heroes[i]));
                                    dt < di || (dt == di && t.hp < heroes[i].hp)
                                }
                        };
                    if closer_target(hero, e, t) {
                        let k = n - 1;
                        assert(heroes[k] == e);
                    } else {
                        assert(heroes[j] == t);
                    }
                },
                None => {
                    let k = n - 1;
                    assert(heroes[k] == e);
                },
            }
        }
    }
}

/// The moves offered to a hero: at most nine, all different, all on free cells at
/// most three cells away, and staying put is among them exactly when the hero's
/// own cell is free.
pub proof fn lemma_valid_moves_sound(pos: (int, int), walls: Seq<Wall>, width: int, height: int)
    ensures
        ({
            let ms = valid_moves_spec(pos, walls, width, height);
            &&& ms.len() <= 9
            &&& ms.no_duplicates()
            &&& forall|i: int|
                0 <= i < ms.len() ==> free_cell(#[trigger] ms[i], walls, width, height) && crate::geometry::cheb(
                    ms[i],
                    pos,
                ) <= 3
            &&& (ms.contains(pos) <==> free_cell(pos, walls, width, height))
        }),
{
    lemma_moves_upto(pos, walls, width, height, 9);
    let ms = valid_moves_spec(pos, walls, width, height);
    assert forall|i: int| 0 <= i < ms.len() implies crate::geometry::cheb(#[trigger] ms[i], pos) <= 3 by {
        let j = choose|j: int| 0 <= j < 9 && #[trigger] ms[i] == (pos.0 + move_deltas()[j].0, pos.1 + move_deltas()[j].1);
        assert(move_deltas() =~= seq![(0int, 0int), (3int, 0int), (-3int, 0int), (0int, 3int), (0int, -3int), (3int, 3int), (3int, -3int), (-3int, 3int), (-3int, -3int)]);
    }
}

proof fn lemma_moves_upto_complete(pos: (int, int), walls: Seq<Wall>, width: int, height: int, k: int)
    requires
        0 <= k <= 9,
    ensures
        forall|j: int|
            0 <= j < k && free_cell(
                (pos.0 + (#[trigger] move_deltas()[j]).0, pos.1 + move_deltas()[j].1),
                walls,
                width,
                height,
            ) ==> moves_upto(pos, walls, width, height, k).contains((pos.0 + move_deltas()[j].0, pos.1 + move_deltas()[j].1)),
    decreases k,
{
    if k > 0 {
        lemma_moves_upto_complete(pos, walls, width, height, k - 1);
        let prev = moves_upto(pos, walls, width, height, k - 1);
        let ms = moves_upto(pos, walls, width, height, k);
        let d = move_deltas()[k - 1];
        let p = (pos.0 + d.0, pos.1 + d.1);
        if free_cell(p, walls, width, height) {
            assert(ms == prev.push(p));
            assert(ms[prev.len() as int] == p);
            assert forall|j: int|
                0 <= j < k - 1 && free_cell(
                    (pos.0 + (#[trigger] move_deltas()[j]).0, pos.1 + move_deltas()[j].1),
                    walls,
                    width,
                    height,
                ) implies ms.contains((pos.0 + move_deltas()[j].0, pos.1 + move_deltas()[j].1)) by {
                let q = (pos.0 + move_deltas()[j].0, pos.1 + move_deltas()[j].1);
                assert(prev.contains(q));
                let i = choose|i: int| 0 <= i < prev.len() && prev[i] == q;
                assert(ms[i] == q);
            }
        }
    }
}

/// The valid moves from `pos` are exactly the free cells among `pos` and the cells
/// three steps away along a row, a column or a diagonal.
pub proof fn lemma_valid_moves_exact(pos: (int, int), walls: Seq<Wall>, width: int, height: int)
    ensures
        forall|dx: int, dy: int|
            (dx == -3 || dx == 0 || dx == 3) && (dy == -3 || dy == 0 || dy == 3) ==> (valid_moves_spec(
                pos,
                walls,
                width,
                height,
            ).contains((pos.0 + dx, pos.1 + dy)) <==> #[trigger] free_cell((pos.0 + dx, pos.1 + dy), walls, width, height)),
        forall|q: (int, int)|
            #[trigger] valid_moves_spec(pos, walls, width, height).contains(q) ==> {
                let dx = q.0 - pos.0;
                let dy = q.1 - pos.1;
                &&& dx == -3 || dx == 0 || dx == 3
                &&& dy == -3 || dy == 0 || dy == 3
            },
{
    let ms = valid_moves_spec(pos, walls, width, height);
    lemma_moves_upto(pos, walls, width, height, 9);
    lemma_moves_upto_complete(pos, walls, width, height, 9);
    assert(move_deltas() =~= seq![(0int, 0int), (3int, 0int), (-3int, 0int), (0int, 3int), (0int, -3int), (3int, 3int), (3int, -3int), (-3int, 3int), (-3int, -3int)]);
    assert forall|dx: int, dy: int|
        (dx == -3 || dx == 0 || dx == 3) && (dy == -3 || dy == 0 || dy == 3) implies (ms.contains((pos.0 + dx, pos.1 + dy))
        <==> #[trigger] free_cell((pos.0 + dx, pos.1 + dy), walls, width, height)) by {
        let q = (pos.0 + dx, pos.1 + dy);
        if ms.contains(q) {
            let i = choose|i: int| 0 <= i < ms.len() && ms[i] == q;
            assert(free_cell(ms[i], walls, width, height));
        }
        let j: int = if dx == 0 && dy == 0 {
            0
        } else if dx == 3 && dy == 0 {
            1
        } else if dx == -3 && dy == 0 {
            2
        } else if dx == 0 && dy == 3 {
            3
        } else if dx == 0 && dy == -3 {
            4
        } else if dx == 3 && dy == 3 {
            5
        } else if dx == 3 && dy == -3 {
            6
        } else if dx == -3 && dy == 3 {
            7
        } else {
            8
        };
        assert(move_deltas()[j] == (dx, dy));
    }
    assert forall|q: (int, int)| #[trigger] ms.contains(q) implies {
        let dx = q.0 - pos.0;
        let dy = q.1 - pos.1;
        &&& dx == -3 || dx == 0 || dx == 3
        &&& dy == -3 || dy == 0 || dy == 3
    } by {
        let i = choose|i: int| 0 <= i < ms.len() && ms[i] == q;
        let j = choose|j: int|
            0 <= j < 9 && #[trigger] ms[i] == (pos.0 + move_deltas()[j].0, pos.1 + move_deltas()[j].1);
    }
}

/// The best move among the first `k` is one of them with its look-ahead score; no
/// move among them scores more, and every later one scores less.
proof fn lemma_best_move_is_max(
    moves: Seq<(int, int)>,
    hero: Hero,
    pst: StateView,
    me: int,
    ally: (int, int),
    walls: Seq<Wall>,
    width: int,
    height: int,
    k: int,
)
    requires
        0 <= k <= moves.len(),
    ensures
        match best_move_upto(moves, hero, pst, me, ally, walls, width, height, k) {
            None => k == 0,
            Some((p, v)) => {
                &&& v == best_spec(p, hero, pst, me, ally, walls, width, height, 3)
                &&& exists|j: int|
                    #![trigger moves[j]]
                    {
                        &&& 0 <= j < k
                        &&& moves[j] == p
                        &&& forall|i: int|
                            j < i < k ==> best_spec(#[trigger] moves[i], hero, pst, me, ally, walls, width, height, 3) < v
                    }
                &&& forall|i: int| 0 <= i < k ==> best_spec(#[trigger] moves[i], hero, pst, me, ally, walls, width, height, 3) <= v
            },
        },
    decreases k,
{
    if k > 0 {
        lemma_best_move_is_max(moves, hero, pst, me, ally, walls, width, height, k - 1);
        let i0 = k - 1;
        let p = moves[i0];
        let v = best_spec(p, hero, pst, me, ally, walls, width, height, 3);
        match best_move_upto(moves, hero, pst, me, ally, walls, width, height, k - 1) {
            Some((q, qv)) => {
                if v < qv {
                    let j = choose|j: int|
                        #![trigger moves[j]]
                        {
                            &&& 0 <= j < k - 1
                            &&& moves[j] == q
                            &&& forall|i: int|
                                j < i < k - 1 ==> best_spec(#[trigger] moves[i], hero, pst, me, ally, walls, width, height, 3) < qv
                        };
                    assert(moves[j] == q);
                } else {
                    assert(moves[i0] == p);
                }
            },
            None => {
                assert(moves[i0] == p);
            },
        }
    }
}

/// A hero that fights by moving goes to one of its valid moves whose three-move
/// look-ahead score on the predicted board (with its team mate as ally) is the
/// highest; of several such moves, the last listed. Without a valid move it stays.
pub proof fn lemma_best_move_is_best(hero: Hero, st: StateView, me: int, width: int, height: int)
    ensures
        ({
            let p = best_move(hero, st, me, width, height);
            let pst = predicted_view(st, me, width, height);
            let ally = ally_from(hero, st.heroes, me, 0);
            let moves = valid_moves_spec(hpos(hero), st.walls, width, height);
            &&& moves.len() == 0 ==> p == hpos(hero)
            &&& moves.len() > 0 ==> {
                &&& exists|j: int|
                    #![trigger moves[j]]
                    {
                        &&& 0 <= j < moves.len()
                        &&& moves[j] == p
                        &&& forall|i: int|
                            j < i < moves.len() ==> best_spec(#[trigger] moves[i], hero, pst, me, ally, st.walls, width, height, 3)
                                < best_spec(p, hero, pst, me, ally, st.walls, width, height, 3)
                    }
                &&& forall|i: int|
                    0 <= i < moves.len() ==> best_spec(#[trigger] moves[i], hero, pst, me, ally, st.walls, width, height, 3)
                        <= best_spec(p, hero, pst, me, ally, st.walls, width, height, 3)
            }
        }),
{
    let pst = predicted_view(st, me, width, height);
    let ally = ally_from(hero, st.heroes, me, 0);
    let moves = valid_moves_spec(hpos(hero), st.walls, width, height);
    lemma_best_move_is_max(moves, hero, pst, me, ally, st.walls, width, height, moves.len() as int);
}

proof fn lemma_best_move_in(
    moves: Seq<(int, int)>,
    hero: Hero,
    pst: StateView,
    me: int,
    ally: (int, int),
    walls: Seq<Wall>,
    width: int,
    height: int,
    k: int,
)
    requires
        0 <= k <= moves.len(),
    ensures
        best_move_upto(moves, hero, pst, me, ally, walls, width, height, k) matches Some((p, _)) ==> exists|j: int|
            0 <= j < k && moves[j] == p,
    decreases k,
{
    if k > 0 {
        lemma_best_move_in(moves, hero, pst, me, ally, walls, width, height, k - 1);
    }
}

/// Whether a hero belongs to player `me`.
pub open spec fn owned_by(me: int) -> spec_fn(Hero) -> bool {
    |h: Hero| h.owner_id == me
}

proof fn lemma_own_heroes_take(heroes: Seq<Hero>, me: int, n: int)
    requires
        0 <= n <= heroes.len(),
    ensures
        own_heroes(heroes, me, n) == heroes.take(n).filter(owned_by(me)),
    decreases n,
{
    reveal(Seq::filter);
    if n > 0 {
        lemma_own_heroes_take(heroes, me, n - 1);
        assert(heroes.take(n).drop_last() =~= heroes.take(n - 1));
        assert(heroes.take(n).last() == heroes[n - 1]);
    } else {
        assert(heroes.take(0) =~= Seq::<Hero>::empty());
        assert(heroes.take(0).filter(owned_by(me)) =~= Seq::<Hero>::empty());
    }
}

/// The heroes the bot gives orders to are exactly its own, in board order.
pub proof fn lemma_own_heroes_in_order(heroes: Seq<Hero>, me: int)
    ensures
        own_heroes(heroes, me, heroes.len() as int) == heroes.filter(owned_by(me)),
{
    lemma_own_heroes_take(heroes, me, heroes.len() as int);
    assert(heroes.take(heroes.len() as int) =~= heroes);
}

/// The ally of `hero` is where the first other hero of player `me` from index `i`
/// on stands, or `(-1, -1)` when there is none.
pub proof fn lemma_ally_is_first_mate(hero: Hero, heroes: Seq<Hero>, me: int, i: int)
    requires
        0 <= i <= heroes.len(),
    ensures
        ({
            let r = ally_from(hero, heroes, me, i);
            ||| (r == (-1int, -1int) && forall|k: int|
                i <= k < heroes.len() ==> !((#[trigger] heroes[k]).owner_id == me && heroes[k].id != hero.id))
            ||| exists|j: int|
                #![trigger heroes[j]]
                i <= j < heroes.len() && heroes[j].owner_id == me && heroes[j].id != hero.id && r == hpos(heroes[j])
                    && forall|k: int|
                    i <= k < j ==> !((#[trigger] heroes[k]).owner_id == me && heroes[k].id != hero.id)
        }),
    decreases heroes.len() - i,
{
    if i < heroes.len() {
        lemma_ally_is_first_mate(hero, heroes, me, i + 1);
        assert(heroes[i] == heroes[i]);
    }
}

proof fn lemma_own_heroes(heroes: Seq<Hero>, me: int, n: int)
    requires
        0 <= n <= heroes.len(),
    ensures
        forall|k: int| 0 <= k < own_heroes(heroes, me, n).len() ==> (#[trigger] own_heroes(heroes, me, n)[k]).owner_id == me,
    decreases n,
{
    if n > 0 {
        lemma_own_heroes(heroes, me, n - 1);
        let prev = own_heroes(heroes, me, n - 1);
        let cur = own_heroes(heroes, me, n);
        assert forall|k: int| 0 <= k < cur.len() implies (#[trigger] cur[k]).owner_id == me by {
            if k < prev.len() {
                assert(cur[k] == prev[k]);
            }
        }
    }
}

/// A cell a hero may be sent to: its own cell, or a cell on the board (borders
/// included) that is no wall and at most three cells away.
pub open spec fn safe_destination(hero: Hero, dest: (int, int), walls: Seq<Wall>, width: int, height: int) -> bool {
    ||| dest == hpos(hero)
    ||| {
        &&& cheb(dest, hpos(hero)) <= 3
        &&& 0 <= dest.0 <= width
        &&& 0 <= dest.1 <= height
        &&& !wall_at(dest, walls)
    }
}

/// What every order says about its hero: it names that hero, it shoots only with
/// a ready weapon, and it never sends the hero into a wall, off the board or
/// further than one move.
pub open spec fn order_safe(hero: Hero, st: StateView, width: int, height: int, msg: ClientMessage) -> bool {
    match msg {
        ClientMessage::Shoot(a) => a.hero_id == hero.id && hero.cooldown == 0,
        ClientMessage::Move(a) => a.hero_id == hero.id && safe_destination(
            hero,
            (a.x as int, a.y as int),
            st.walls,
            width,
            height,
        ),
        _ => false,
    }
}

proof fn lemma_order_safe(hero: Hero, st: StateView, me: int, width: int, height: int, msg: ClientMessage)
    requires
        order_ok(hero, st, me, width, height, msg),
    ensures
        order_safe(hero, st, width, height, msg),
{
    match shot_of(hero, st, me, width, height) {
        Some(_) => {},
        None => {
            if !sees_enemy(st.heroes, me) {
                if let Some(d) = next_step(hpos(hero), board_center(width, height), st.walls, width, height) {
                    crate::pathfinding::lemma_next_step_is_move(
                        hpos(hero),
                        board_center(width, height),
                        st.walls,
                        width,
                        height,
                        d,
                    );
                }
            } else {
                let pst = predicted_view(st, me, width, height);
                let ally = ally_from(hero, st.heroes, me, 0);
                let moves = valid_moves_spec(hpos(hero), st.walls, width, height);
                lemma_best_move_in(moves, hero, pst, me, ally, st.walls, width, height, moves.len() as int);
                lemma_valid_moves_sound(hpos(hero), st.walls, width, height);
            }
        },
    }
}

/// Every order of a turn goes to one of the bot's own heroes, in board order, and
/// is safe for it (see `order_safe`).
pub proof fn lemma_turn_orders_safe(st: StateView, me: int, width: int, height: int, orders: Seq<ClientMessage>)
    requires
        turn_orders_ok(st, me, width, height, orders),
    ensures
        forall|k: int|
            0 <= k < orders.len() ==> {
                let hero = #[trigger] own_heroes(st.heroes, me, st.heroes.len() as int)[k];
                &&& hero.owner_id == me
                &&& order_safe(hero, st, width, height, orders[k])
            },
{
    let own = own_heroes(st.heroes, me, st.heroes.len() as int);
    lemma_own_heroes(st.heroes, me, st.heroes.len() as int);
    assert forall|k: int| 0 <= k < orders.len() implies {
        let hero = #[trigger] own[k];
        &&& hero.owner_id == me
        &&& order_safe(hero, st, width, height, orders[k])
    } by {
        assert(order_ok(own[k], st, me, width, height, orders[k]));
        lemma_order_safe(own[k], st, me, width, height, orders[k]);
    }
}

/// The filter that drops the cell `c`.
pub open spec fn other_than(c: (int, int)) -> spec_fn((int, int)) -> bool {
    |p: (int, int)| p != c
}

proof fn lemma_wall_at_push(p: (int, int), walls: Seq<Wall>, w: Wall)
    ensures
        wall_at(p, walls.push(w)) <==> (wall_at(p, walls) || p == (w.x as int, w.y as int)),
{
    let walls2 = walls.push(w);
    if wall_at(p, walls) {
        let j = choose|j: int| 0 <= j < walls.len() && (#[trigger] walls[j]).x == p.0 && walls[j].y == p.1;
        assert(walls2[j] == walls[j]);
    }
    if p == (w.x as int, w.y as int) {
        assert(walls2[walls.len() as int] == w);
    }
    if wall_at(p, walls2) {
        let j = choose|j: int| 0 <= j < walls2.len() && (#[trigger] walls2[j]).x == p.0 && walls2[j].y == p.1;
        if j < walls.len() {
            assert(walls2[j] == walls[j]);
        }
    }
}

proof fn lemma_extra_wall_upto(pos: (int, int), walls: Seq<Wall>, w: Wall, width: int, height: int, k: int)
    requires
        0 <= k <= 9,
    ensures
        moves_upto(pos, walls.push(w), width, height, k) == moves_upto(pos, walls, width, height, k).filter(
            other_than((w.x as int, w.y as int)),
        ),
    decreases k,
{
    reveal(Seq::filter);
    let c = (w.x as int, w.y as int);
    let prev = moves_upto(pos, walls, width, height, k);
    if k <= 0 {
        assert(prev.filter(other_than(c)) =~= prev);
    } else {
        lemma_extra_wall_upto(pos, walls, w, width, height, k - 1);
        let before = moves_upto(pos, walls, width, height, k - 1);
        let d = move_deltas()[k - 1];
        let p = (pos.0 + d.0, pos.1 + d.1);
        lemma_wall_at_push(p, walls, w);
        if free_cell(p, walls, width, height) {
            assert(prev == before.push(p));
            assert(prev.drop_last() =~= before);
            assert(prev.last() == p);
        } else {
            assert(prev == before);
        }
    }
}

/// One more wall removes only its own cell from the moves offered, keeping their
/// order.
pub proof fn lemma_extra_wall(pos: (int, int), walls: Seq<Wall>, w: Wall, width: int, height: int)
    ensures
        valid_moves_spec(pos, walls.push(w), width, height) == valid_moves_spec(pos, walls, width, height).filter(
            other_than((w.x as int, w.y as int)),
        ),
{
    lemma_extra_wall_upto(pos, walls, w, width, height, 9);
}

} // verus!
