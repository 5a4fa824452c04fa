use vstd::prelude::*;

use crate::bot::{free_cell, lemma_valid_moves_sound, valid_moves, valid_moves_spec};
use crate::geometry::{abs, cheb, cheb_wide, has_line_of_sight, line_of_sight, pt, pts};
use crate::protocol::{GameState, Hero, Projectile, StateView, Wall};

verus! {

/// Where a hero stands.
pub open spec fn hpos(h: Hero) -> (int, int) {
    (h.x as int, h.y as int)
}

/// A hero that belongs to another player than `me` and is still alive.
pub open spec fn is_live_enemy(h: Hero, me: int) -> bool {
    h.owner_id != me && h.hp > 0
}

/// The Chebyshev distance from `pos` to the nearest live enemy among the first
/// `n` heroes, if there is one.
pub open spec fn nearest_enemy(pos: (int, int), heroes: Seq<Hero>, me: int, n: int) -> Option<int>
    decreases n,
{
    if n <= 0 {
        None
    } else {
        let prev = nearest_enemy(pos, heroes, me, n - 1);
        let h = heroes[n - 1];
        if is_live_enemy(h, me) {
            let d = cheb(pos, hpos(h));
            match prev {
                Some(m) => Some(
                    if d < m {
                        d
                    } else {
                        m
                    },
                ),
                None => Some(d),
            }
        } else {
            prev
        }
    }
}

/// Reward for the live enemies among the first `n` heroes that `pos` can see:
/// 400 each, and 250 more for each that the ally at `ally` sees as well.
pub open spec fn sight_bonus(
    pos: (int, int),
    ally: (int, int),
    heroes: Seq<Hero>,
    me: int,
    walls: Seq<Wall>,
    n: int,
) -> int
    decreases n,
{
    if n <= 0 {
        0
    } else {
        let h = heroes[n - 1];
        let term = if is_live_enemy(h, me) && line_of_sight(pos, hpos(h), walls) {
            400 + if line_of_sight(ally, hpos(h), walls) {
                250int
            } else {
                0int
            }
        } else {
            0
        };
        sight_bonus(pos, ally, heroes, me, walls, n - 1) + term
    }
}

/// Penalty of 2000 for each live enemy among the first `n` heroes that can see `pos`.
pub open spec fn exposure_penalty(pos: (int, int), heroes: Seq<Hero>, me: int, walls: Seq<Wall>, n: int) -> int
    decreases n,
{
    if n <= 0 {
        0
    } else {
        let h = heroes[n - 1];
        let term = if is_live_enemy(h, me) && line_of_sight(pos, hpos(h), walls) {
            -2000
        } else {
            0
        };
        exposure_penalty(pos, heroes, me, walls, n - 1) + term
    }
}

/// Penalty for standing near the first `n` projectiles of other players:
/// `(8 - d) * 500` for each such projectile at distance `d < 8`.
pub open spec fn projectile_penalty(pos: (int, int), projectiles: Seq<Projectile>, me: int, n: int) -> int
    decreases n,
{
    if n <= 0 {
        0
    } else {
        let p = projectiles[n - 1];
        let d = cheb(pos, (p.x as int, p.y as int));
        let term = if d < 8 && p.owner_id != me {
            -(8 - d) * 500
        } else {
            0
        };
        projectile_penalty(pos, projectiles, me, n - 1) + term
    }
}

pub open spec fn min_int(a: int, b: int) -> int {
    if a <= b {
        a
    } else {
        b
    }
}

/// Distance from `pos` to the nearest border of a `width` x `height` board.
pub open spec fn edge_distance(pos: (int, int), width: int, height: int) -> int {
    min_int(min_int(min_int(pos.0, pos.1), width - 1 - pos.0), height - 1 - pos.1)
}

/// Penalty for standing on the ally's cell.
pub open spec fn overlap_term(pos: (int, int), ally: (int, int)) -> int {
    if pos == ally {
        -400
    } else {
        0
    }
}

/// Penalty for straying more than 15 cells from the ally, if there is one.
pub open spec fn spread_term(pos: (int, int), ally: (int, int)) -> int {
    if ally != (-1int, -1int) && cheb(pos, ally) > 15 {
        -(cheb(pos, ally) - 15) * 20
    } else {
        0
    }
}

/// Penalty for standing closer than 10 cells to a border.
pub open spec fn border_term(pos: (int, int), width: int, height: int) -> int {
    let edge = edge_distance(pos, width, height);
    if edge < 10 {
        -(10 - edge) * 30
    } else {
        0
    }
}

/// With the weapon ready: reward for enemies in sight, and a penalty for being far
/// from the ideal shooting distance of 12 to the nearest enemy.
pub open spec fn attack_term(
    pos: (int, int),
    hero: Hero,
    ally: (int, int),
    heroes: Seq<Hero>,
    me: int,
    walls: Seq<Wall>,
    nearest: int,
) -> int {
    if hero.cooldown == 0 {
        sight_bonus(pos, ally, heroes, me, walls, heroes.len() as int) - abs(nearest - 12) * 10
    } else {
        0
    }
}

/// While reloading: penalty for enemies in sight, and for being far from the safe
/// distance of 18 to the nearest enemy.
pub open spec fn retreat_term(
    pos: (int, int),
    hero: Hero,
    heroes: Seq<Hero>,
    me: int,
    walls: Seq<Wall>,
    nearest: int,
) -> int {
    if hero.cooldown > 0 {
        exposure_penalty(pos, heroes, me, walls, heroes.len() as int) - abs(nearest - 18) * 10
    } else {
        0
    }
}

/// The score of standing on `pos` for `hero`, whose owner is `me` and whose team
/// mate stands on `ally` (`(-1, -1)` when there is none). Higher is better; it is 0
/// when no live enemy is left.
pub open spec fn eval_spec(
    pos: (int, int),
    hero: Hero,
    st: StateView,
    me: int,
    ally: (int, int),
    width: int,
    height: int,
) -> int {
    let heroes = st.heroes;
    let walls = st.walls;
    match nearest_enemy(pos, heroes, me, heroes.len() as int) {
        None => 0,
        Some(nearest) => overlap_term(pos, ally) + spread_term(pos, ally) + border_term(pos, width, height)
            + attack_term(pos, hero, ally, heroes, me, walls, nearest) + projectile_penalty(
            pos,
            st.projectiles,
            me,
            st.projectiles.len() as int,
        ) + retreat_term(pos, hero, heroes, me, walls, nearest),
    }
}

/// A bound on the size of any position score in `state`.
pub open spec fn eval_bound(st: StateView) -> int {
    0x100_0000_0000int + 2650 * st.heroes.len() + 4000 * st.projectiles.len()
}

pub open spec fn opt_wide(o: Option<i64>) -> Option<int> {
    match o {
        Some(v) => Some(v as int),
        None => None,
    }
}

/// The projectile penalty at `pos`, computed without overflow.
pub(crate) fn projectile_penalty_wide(pos: (i32, i32), projectiles: &Vec<Projectile>, me: i32) -> (r: i128)
    ensures
        r == projectile_penalty(pt(pos), projectiles@, me as int, projectiles@.len() as int),
        -4000 * projectiles@.len() <= r <= 0,
{
    let n = projectiles.len();
    let mut acc: i128 = 0;
    let mut i: usize = 0;
    while i < n
        invariant
            n == projectiles@.len(),
            0 <= i <= n,
            acc == projectile_penalty(pt(pos), projectiles@, me as int, i as int),
            -4000 * i <= acc <= 0,
        decreases n - i,
    {
        let p = projectiles[i];
        let d = cheb_wide(pos, (p.x, p.y));
        if d < 8 && p.owner_id != me {
            acc = acc - (8 - d as i128) * 500;
        }
        i += 1;
    }
    acc
}

fn nearest_enemy_wide(pos: (i32, i32), heroes: &Vec<Hero>, me: i32) -> (r: Option<i64>)
    ensures
        opt_wide(r) == nearest_enemy(pt(pos), heroes@, me as int, heroes@.len() as int),
        r matches Some(v) ==> 0 <= v <= 0x1_0000_0000,
{
    let n = heroes.len();
    let mut best: Option<i64> = None;
    let mut i: usize = 0;
    while i < n
        invariant
            n == heroes@.len(),
            0 <= i <= n,
            opt_wide(best) == nearest_enemy(pt(pos), heroes@, me as int, i as int),
            best matches Some(v) ==> 0 <= v <= 0x1_0000_0000,
        decreases n - i,
    {
        let h = heroes[i];
        if h.owner_id != me && h.hp > 0 {
            let d = cheb_wide(pos, (h.x, h.y));
            best = match best {
                Some(m) => Some(
                    if d < m {
                        d
                    } else {
                        m
                    },
                ),
                None => Some(d),
            };
        }
        i += 1;
    }
    best
}

fn sight_bonus_wide(pos: (i32, i32), ally: (i32, i32), heroes: &Vec<Hero>, me: i32, walls: &Vec<Wall>) -> (r: i128)
    ensures
        r == sight_bonus(pt(pos), pt(ally), heroes@, me as int, walls@, heroes@.len() as int),
        0 <= r <= 650 * heroes@.len(),
{
    let n = heroes.len();
    let mut acc: i128 = 0;
    let mut i: usize = 0;
    while i < n
        invariant
            n == heroes@.len(),
            0 <= i <= n,
            acc == sight_bonus(pt(pos), pt(ally), heroes@, me as int, walls@, i as int),
            0 <= acc <= 650 * i,
        decreases n - i,
    {
        let h = heroes[i];
        if h.owner_id != me && h.hp > 0 && has_line_of_sight(pos, (h.x, h.y), walls.as_slice()) {
            acc = acc + 400;
            if has_line_of_sight(ally, (h.x, h.y), walls.as_slice()) {
                acc = acc + 250;
            }
        }
        i += 1;
    }
    acc
}

fn exposure_penalty_wide(pos: (i32, i32), heroes: &Vec<Hero>, me: i32, walls: &Vec<Wall>) -> (r: i128)
    ensures
        r == exposure_penalty(pt(pos), heroes@, me as int, walls@, heroes@.len() as int),
        -2000 * heroes@.len() <= r <= 0,
{
    let n = heroes.len();
    let mut acc: i128 = 0;
    let mut i: usize = 0;
    while i < n
        invariant
            n == heroes@.len(),
            0 <= i <= n,
            acc == exposure_penalty(pt(pos), heroes@, me as int, walls@, i as int),
            -2000 * i <= acc <= 0,
        decreases n - i,
    {
        let h = heroes[i];
        if h.owner_id != me && h.hp > 0 && has_line_of_sight(pos, (h.x, h.y), walls.as_slice()) {
            acc = acc - 2000;
        }
        i += 1;
    }
    acc
}

fn spread_wide(pos: (i32, i32), ally: (i32, i32)) -> (r: i128)
    ensures
        r == spread_term(pt(pos), pt(ally)),
        -0x40_0000_0000 <= r <= 0,
{
    if !(ally.0 == -1 && ally.1 == -1) {
        let ally_dist = cheb_wide(pos, ally);
        if ally_dist > 15 {
            return -(ally_dist as i128 - 15) * 20;
        }
    }
    0
}

fn border_wide(pos: (i32, i32), width: i32, height: i32) -> (r: i128)
    ensures
        r == border_term(pt(pos), width as int, height as int),
        -0x40_0000_0000 <= r <= 0,
{
    let x = pos.0 as i64;
    let y = pos.1 as i64;
    let m1 = if x <= y {
        x
    } else {
        y
    };
    let right = width as i64 - 1 - x;
    let m2 = if m1 <= right {
        m1
    } else {
        right
    };
    let bottom = height as i64 - 1 - y;
    let edge = if m2 <= bottom {
        m2
    } else {
        bottom
    };
    assert(edge == edge_distance(pt(pos), width as int, height as int));
    if edge < 10 {
        -(10 - edge as i128) * 30
    } else {
        0
    }
}

fn attack_wide(
    pos: (i32, i32),
    hero: &Hero,
    ally: (i32, i32),
    heroes: &Vec<Hero>,
    me: i32,
    walls: &Vec<Wall>,
    nearest: i64,
) -> (r: i128)
    requires
        0 <= nearest <= 0x1_0000_0000,
    ensures
        r == attack_term(pt(pos), *hero, pt(ally), heroes@, me as int, walls@, nearest as int),
        -0x40_0000_0000 <= r <= 650 * heroes@.len(),
{
    assert(heroes@.len() == heroes.len());
    if hero.cooldown == 0 {
        let bonus = sight_bonus_wide(pos, ally, heroes, me, walls);
        let gap = nearest as i128 - 12;
        let gap_abs = if gap < 0 {
            -gap
        } else {
            gap
        };
        bonus - gap_abs * 10
    } else {
        0
    }
}

fn retreat_wide(pos: (i32, i32), hero: &Hero, heroes: &Vec<Hero>, me: i32, walls: &Vec<Wall>, nearest: i64) -> (r: i128)
    requires
        0 <= nearest <= 0x1_0000_0000,
    ensures
        r == retreat_term(pt(pos), *hero, heroes@, me as int, walls@, nearest as int),
        -0x40_0000_0000 - 2000 * heroes@.len() <= r <= 0,
{
    assert(heroes@.len() == heroes.len());
    if hero.cooldown > 0 {
        let pen = exposure_penalty_wide(pos, heroes, me, walls);
        let gap = nearest as i128 - 18;
        let gap_abs = if gap < 0 {
            -gap
        } else {
            gap
        };
        pen - gap_abs * 10
    } else {
        0
    }
}

/// The position score, computed without overflow.
pub(crate) fn eval_wide(
    pos: (i32, i32),
    hero: &Hero,
    state: &GameState,
    me: i32,
    ally: (i32, i32),
    width: i32,
    height: i32,
) -> (r: i128)
    ensures
        r == eval_spec(pt(pos), *hero, state@, me as int, pt(ally), width as int, height as int),
        -eval_bound(state@) <= r <= eval_bound(state@),
{
    let nearest = match nearest_enemy_wide(pos, &state.heroes, me) {
        None => {
            return 0;
        },
        Some(d) => d,
    };
    assert(state.projectiles@.len() == state.projectiles.len());
    assert(state.heroes@.len() == state.heroes.len());
    let overlap: i128 = if pos.0 == ally.0 && pos.1 == ally.1 {
        -400
    } else {
        0
    };
    let spread = spread_wide(pos, ally);
    let border = border_wide(pos, width, height);
    let attack = attack_wide(pos, hero, ally, &state.heroes, me, &state.walls, nearest);
    let dodge = projectile_penalty_wide(pos, &state.projectiles, me);
    let retreat = retreat_wide(pos, hero, &state.heroes, me, &state.walls, nearest);
    overlap + spread + border + attack + dodge + retreat
}

/// The score of standing on `pos` for `hero` (see `eval_spec`).
pub fn eval_position(
    pos: (i32, i32),
    hero: &Hero,
    state: &GameState,
    my_player_id: i32,
    ally_pos: (i32, i32),
    width: i32,
    height: i32,
) -> (score: i32)
    requires
        i32::MIN <= eval_spec(pt(pos), *hero, state@, my_player_id as int, pt(ally_pos), width as int, height as int)
            <= i32::MAX,
    ensures
        score == eval_spec(pt(pos), *hero, state@, my_player_id as int, pt(ally_pos), width as int, height as int),
{
    let s = eval_wide(pos, hero, state, my_player_id, ally_pos, width, height);
    s as i32
}

/// The score of `pos` after looking `depth` moves ahead. At depth 0 it is the score
/// of `pos` alone. Otherwise it is the projectile penalty at `pos` plus the best
/// look-ahead score, one level shallower, among the moves from `pos`, or plus the
/// score of `pos` itself when there is no move. (A negative depth only ends when
/// there is no move: then it is the projectile penalty plus the score of `pos`.)
pub open spec fn best_spec(
    pos: (int, int),
    hero: Hero,
    st: StateView,
    me: int,
    ally: (int, int),
    walls: Seq<Wall>,
    width: int,
    height: int,
    depth: int,
) -> int
    decreases depth, 0int,
{
    if depth == 0 {
        eval_spec(pos, hero, st, me, ally, width, height)
    } else if depth < 0 {
        projectile_penalty(pos, st.projectiles, me, st.projectiles.len() as int) + eval_spec(
            pos,
            hero,
            st,
            me,
            ally,
            width,
            height,
        )
    } else {
        let moves = valid_moves_spec(pos, walls, width, height);
        let future = match max_children(moves, hero, st, me, ally, walls, width, height, depth - 1, moves.len() as int) {
            Some(m) => m,
            None => eval_spec(pos, hero, st, me, ally, width, height),
        };
        projectile_penalty(pos, st.projectiles, me, st.projectiles.len() as int) + future
    }
}

/// The largest depth-`depth` look-ahead score among the first `k` of `moves`.
pub open spec fn max_children(
    moves: Seq<(int, int)>,
    hero: Hero,
    st: StateView,
    me: int,
    ally: (int, int),
    walls: Seq<Wall>,
    width: int,
    height: int,
    depth: int,
    k: int,
) -> Option<int>
    decreases depth, k,
{
    if k <= 0 || depth < 0 {
        None
    } else {
        let prev = max_children(moves, hero, st, me, ally, walls, width, height, depth, k - 1);
        let v = best_spec(moves[k - 1], hero, st, me, ally, walls, width, height, depth);
        match prev {
            Some(m) => Some(
                if v > m {
                    v
                } else {
                    m
                },
            ),
            None => Some(v),
        }
    }
}

pub open spec fn opt_i128(o: Option<i128>) -> Option<int> {
    match o {
        Some(v) => Some(v as int),
        None => None,
    }
}

/// The look-ahead score, computed without overflow.
pub(crate) fn best_wide(
    pos: (i32, i32),
    hero: &Hero,
    state: &GameState,
    me: i32,
    ally: (i32, i32),
    walls: &[Wall],
    width: i32,
    height: i32,
    depth: i32,
) -> (r: i128)
    requires
        0 <= depth || valid_moves_spec(pt(pos), walls@, width as int, height as int).len() == 0,
    ensures
        r == best_spec(pt(pos), *hero, state@, me as int, pt(ally), walls@, width as int, height as int, depth as int),
        -(eval_bound(state@) + (if depth >= 0 {
            depth as int
        } else {
            1int
        }) * (4000 * state.projectiles@.len())) <= r <= eval_bound(state@),
    decreases depth,
{
    let ghost e = eval_bound(state@);
    let ghost pen = 4000 * state.projectiles@.len();
    let ghost dd: int = if depth >= 0 {
        depth as int
    } else {
        1int
    };
    assert(state.projectiles@.len() == state.projectiles.len());
    assert(state.heroes@.len() == state.heroes.len());
    assert(0 <= dd * pen <= 0x8000_0000 * (4000 * 0x1_0000_0000_0000_0000)) by (nonlinear_arith)
        requires
            0 <= dd <= 0x8000_0000,
            0 <= pen <= 4000 * 0x1_0000_0000_0000_0000,
    ;
    let penalty = projectile_penalty_wide(pos, &state.projectiles, me);
    if depth == 0 {
        return eval_wide(pos, hero, state, me, ally, width, height);
    }
    let moves = valid_moves(pos, walls, width, height);
    let ghost ms = valid_moves_spec(pt(pos), walls@, width as int, height as int);
    let n = moves.len();
    let mut best: Option<i128> = None;
    let mut k: usize = 0;
    assert((dd - 1) * pen == dd * pen - pen) by (nonlinear_arith);
    while k < n
        invariant
            n == moves@.len(),
            pts(moves@) == ms,
            0 <= k <= n,
            1 <= depth || n == 0,
            depth >= 1 ==> dd == depth,
            1 <= dd,
            e == eval_bound(state@),
            pen == 4000 * state.projectiles@.len(),
            0 <= (dd - 1) * pen <= 0x8000_0000 * (4000 * 0x1_0000_0000_0000_0000),
            opt_i128(best) == max_children(ms, *hero, state@, me as int, pt(ally), walls@, width as int, height as int, depth - 1, k as int),
            best matches Some(v) ==> -(e + (dd - 1) * pen) <= v <= e,
        decreases n - k,
    {
        let v = best_wide(moves[k], hero, state, me, ally, walls, width, height, depth - 1);
        assert(pt(moves@[k as int]) == ms[k as int]);
        best = match best {
            Some(m) => Some(
                if v > m {
                    v
                } else {
                    m
                },
            ),
            None => Some(v),
        };
        k += 1;
    }
    let future = match best {
        Some(m) => m,
        None => eval_wide(pos, hero, state, me, ally, width, height),
    };
    penalty + future
}

/// The score of `pos` after looking `depth` moves ahead (see `best_spec`).
pub fn best_score(
    pos: (i32, i32),
    hero: &Hero,
    state: &GameState,
    my_player_id: i32,
    ally_pos: (i32, i32),
    walls: &[Wall],
    width: i32,
    height: i32,
    depth: i32,
) -> (score: i32)
    requires
        0 <= depth || valid_moves_spec(pt(pos), walls@, width as int, height as int).len() == 0,
        i32::MIN <= best_spec(pt(pos), *hero, state@, my_player_id as int, pt(ally_pos), walls@, width as int, height as int, depth as int)
            <= i32::MAX,
    ensures
        score == best_spec(pt(pos), *hero, state@, my_player_id as int, pt(ally_pos), walls@, width as int, height as int, depth as int),
{
    let s = best_wide(pos, hero, state, my_player_id, ally_pos, walls, width, height, depth);
    s as i32
}

/// The position of the first other live hero of the same owner as `enemy`, from
/// index `i` on; `(-1, -1)` when there is none.
pub open spec fn team_mate_from(heroes: Seq<Hero>, enemy: Hero, i: int) -> (int, int)
    decreases heroes.len() - i,
{
    if i < 0 || i >= heroes.len() {
        (-1, -1)
    } else if heroes[i].owner_id == enemy.owner_id && heroes[i].id != enemy.id && heroes[i].hp > 0 {
        hpos(heroes[i])
    } else {
        team_mate_from(heroes, enemy, i + 1)
    }
}

/// The best-scoring of the first `k` moves for `enemy` with its score; among equal
/// scores the later move wins.
pub open spec fn best_reply(
    moves: Seq<(int, int)>,
    enemy: Hero,
    st: StateView,
    ally: (int, int),
    width: int,
    height: int,
    k: int,
) -> Option<((int, int), int)>
    decreases k,
{
    if k <= 0 {
        None
    } else {
        let prev = best_reply(moves, enemy, st, ally, width, height, k - 1);
        let p = moves[k - 1];
        let v = eval_spec(p, enemy, st, enemy.owner_id as int, ally, width, height);
        match prev {
            Some((q, qv)) => if v >= qv {
                Some((p, v))
            } else {
                prev
            },
            None => Some((p, v)),
        }
    }
}

/// Where `enemy` is expected to be next turn: it stays while its weapon is ready;
/// otherwise it takes the move that scores best for it.
pub open spec fn predict_spec(enemy: Hero, st: StateView, walls: Seq<Wall>, width: int, height: int) -> (int, int) {
    if enemy.cooldown == 0 {
        hpos(enemy)
    } else {
        let ally = team_mate_from(st.heroes, enemy, 0);
        let moves = valid_moves_spec(hpos(enemy), walls, width, height);
        match best_reply(moves, enemy, st, ally, width, height, moves.len() as int) {
            Some((p, _)) => p,
            None => hpos(enemy),
        }
    }
}

fn team_mate(heroes: &Vec<Hero>, enemy: &Hero) -> (r: (i32, i32))
    ensures
        pt(r) == team_mate_from(heroes@, *enemy, 0),
{
    let n = heroes.len();
    let mut i: usize = 0;
    while i < n
        invariant
            n == heroes@.len(),
            0 <= i <= n,
            team_mate_from(heroes@, *enemy, 0) == team_mate_from(heroes@, *enemy, i as int),
        decreases n - i,
    {
        let h = heroes[i];
        if h.owner_id == enemy.owner_id && h.id != enemy.id && h.hp > 0 {
            return (h.x, h.y);
        }
        i += 1;
    }
    (-1, -1)
}

/// Where `enemy` is expected to stand next turn (see `predict_spec`).
pub fn predict_enemy_pos(
    enemy: &Hero,
    state: &GameState,
    _my_player_id: i32,
    walls: &[Wall],
    width: i32,
    height: i32,
) -> (r: (i32, i32))
    ensures
        pt(r) == predict_spec(*enemy, state@, walls@, width as int, height as int),
{
    if enemy.cooldown == 0 {
        return (enemy.x, enemy.y);
    }
    let ally = team_mate(&state.heroes, enemy);
    let moves = valid_moves((enemy.x, enemy.y), walls, width, height);
    let ghost ms = valid_moves_spec(hpos(*enemy), walls@, width as int, height as int);
    let n = moves.len();
    let mut best: Option<((i32, i32), i128)> = None;
    let mut k: usize = 0;
    while k < n
        invariant
            n == moves@.len(),
            pts(moves@) == ms,
            0 <= k <= n,
            ({
                let spec_best = best_reply(ms, *enemy, state@, pt(ally), width as int, height as int, k as int);
                match best {
                    Some((p, v)) => spec_best == Some((pt(p), v as int)),
                    None => spec_best is None,
                }
            }),
        decreases n - k,
    {
        let p = moves[k];
        assert(pt(p) == ms[k as int]);
        let v = eval_wide(p, enemy, state, enemy.owner_id, ally, width, height);
        best = match best {
            Some((q, qv)) => if v >= qv {
                Some((p, v))
            } else {
                Some((q, qv))
            },
            None => Some((p, v)),
        };
        k += 1;
    }
    match best {
        Some((p, _)) => p,
        None => (enemy.x, enemy.y),
    }
}

/// The team mate of `enemy` is where the first other live hero of the same owner
/// from index `i` on stands, or `(-1, -1)` when there is none.
pub proof fn lemma_team_mate_is_first(heroes: Seq<Hero>, enemy: Hero, i: int)
    requires
        0 <= i <= heroes.len(),
    ensures
        ({
            let r = team_mate_from(heroes, enemy, i);
            ||| (r == (-1int, -1int) && forall|k: int|
                i <= k < heroes.len() ==> !((#[trigger] heroes[k]).owner_id == enemy.owner_id && heroes[k].id != enemy.id
                    && heroes[k].hp > 0))
            ||| exists|j: int|
                #![trigger heroes[j]]
                i <= j < heroes.len() && heroes[j].owner_id == enemy.owner_id && heroes[j].id != enemy.id && heroes[j].hp
                    > 0 && r == hpos(heroes[j]) && forall|k: int|
                    i <= k < j ==> !((#[trigger] heroes[k]).owner_id == enemy.owner_id && heroes[k].id != enemy.id
                        && heroes[k].hp > 0)
        }),
    decreases heroes.len() - i,
{
    if i < heroes.len() {
        lemma_team_mate_is_first(heroes, enemy, i + 1);
        assert(heroes[i] == heroes[i]);
    }
}

proof fn lemma_best_reply_in(
    moves: Seq<(int, int)>,
    enemy: Hero,
    st: StateView,
    ally: (int, int),
    width: int,
    height: int,
    k: int,
)
    requires
        0 <= k <= moves.len(),
    ensures
        best_reply(moves, enemy, st, ally, width, height, k) matches Some((p, _)) ==> exists|j: int|
            0 <= j < k && moves[j] == p,
    decreases k,
{
    if k > 0 {
        lemma_best_reply_in(moves, enemy, st, ally, width, height, k - 1);
    }
}

/// An enemy is predicted to stay put or to take one of its valid moves.
pub proof fn lemma_prediction_is_move(enemy: Hero, st: StateView, walls: Seq<Wall>, width: int, height: int)
    ensures
        ({
            let p = predict_spec(enemy, st, walls, width, height);
            p == hpos(enemy) || valid_moves_spec(hpos(enemy), walls, width, height).contains(p)
        }),
{
    let moves = valid_moves_spec(hpos(enemy), walls, width, height);
    let ally = team_mate_from(st.heroes, enemy, 0);
    lemma_best_reply_in(moves, enemy, st, ally, width, height, moves.len() as int);
}

/// The nearest-enemy distance from `pos` over the first `n` heroes is the
/// Chebyshev distance to one of their live enemies, and no live enemy among them
/// is nearer; there is none exactly when none of them is a live enemy.
pub proof fn lemma_nearest_enemy_is_min(pos: (int, int), heroes: Seq<Hero>, me: int, n: int)
    requires
        0 <= n <= heroes.len(),
    ensures
        match nearest_enemy(pos, heroes, me, n) {
            None => forall|i: int| 0 <= i < n ==> !is_live_enemy(#[trigger] heroes[i], me),
            Some(d) => {
                &&& exists|j: int|
                    0 <= j < n && is_live_enemy(#[trigger] heroes[j], me) && d == cheb(pos, hpos(heroes[j]))
                &&& forall|i: int| 0 <= i < n && is_live_enemy(#[trigger] heroes[i], me) ==> d <= cheb(pos, hpos(heroes[i]))
            },
        },
    decreases n,
{
    if n > 0 {
        lemma_nearest_enemy_is_min(pos, heroes, me, n - 1);
        let k = n - 1;
        let h = heroes[k];
        if is_live_enemy(h, me) {
            match nearest_enemy(pos, heroes, me, n - 1) {
                Some(m) => {
                    let j = choose|j: int|
                        0 <= j < n - 1 && is_live_enemy(#[trigger] heroes[j], me) && m == cheb(pos, hpos(heroes[j]));
                    assert(is_live_enemy(heroes[j], me));
                    assert(is_live_enemy(heroes[k], me));
                },
                None => {
                    assert(is_live_enemy(heroes[k], me));
                },
            }
        }
    }
}

/// The best reply among the first `k` moves is one of them with its score; no move
/// among them scores more, and every later one scores less.
proof fn lemma_best_reply_is_max(
    moves: Seq<(int, int)>,
    enemy: Hero,
    st: StateView,
    ally: (int, int),
    width: int,
    height: int,
    k: int,
)
    requires
        0 <= k <= moves.len(),
    ensures
        match best_reply(moves, enemy, st, ally, width, height, k) {
            None => k == 0,
            Some((p, v)) => {
                &&& v == eval_spec(p, enemy, st, enemy.owner_id as int, ally, width, height)
                &&& exists|j: int|
                    #![trigger moves[j]]
                    {
                        &&& 0 <= j < k
                        &&& moves[j] == p
                        &&& forall|i: int|
                            j < i < k ==> eval_spec(#[trigger] moves[i], enemy, st, enemy.owner_id as int, ally, width, height) < v
                    }
                &&& forall|i: int|
                    0 <= i < k ==> eval_spec(#[trigger] moves[i], enemy, st, enemy.owner_id as int, ally, width, height) <= v
            },
        },
    decreases k,
{
    if k > 0 {
        lemma_best_reply_is_max(moves, enemy, st, ally, width, height, k - 1);
        let i0 = k - 1;
        let p = moves[i0];
        let v = eval_spec(p, enemy, st, enemy.owner_id as int, ally, width, height);
        match best_reply(moves, enemy, st, ally, width, height, k - 1) {
            Some((q, qv)) => {
                if v < qv {
                    let j = choose|j: int|
                        #![trigger moves[j]]
                        {
                            &&& 0 <= j < k - 1
                            &&& moves[j] == q
                            &&& forall|i: int|
                                j < i < k - 1 ==> eval_spec(#[trigger] moves[i], enemy, st, enemy.owner_id as int, ally, width, height) < qv
                        };
                    assert(moves[j] == q);
                } else {
                    assert(moves[i0] == p);
                }
            },
            None => {
                assert(moves[i0] == p);
            },
        }
    }
}

/// A reloading enemy with somewhere to go is predicted on one of its valid moves
/// that scores best for it (the position score from its owner's side, with its team
/// mate as ally); of several best moves, on the last listed. An enemy whose weapon
/// is ready, or that has no valid move, is predicted to stay.
pub proof fn lemma_prediction_is_best_reply(enemy: Hero, st: StateView, walls: Seq<Wall>, width: int, height: int)
    ensures
        ({
            let p = predict_spec(enemy, st, walls, width, height);
            let moves = valid_moves_spec(hpos(enemy), walls, width, height);
            let ally = team_mate_from(st.heroes, enemy, 0);
            let me = enemy.owner_id as int;
            &&& (enemy.cooldown == 0 || moves.len() == 0) ==> p == hpos(enemy)
            &&& (enemy.cooldown != 0 && moves.len() > 0) ==> {
                &&& exists|j: int|
                    #![trigger moves[j]]
                    {
                        &&& 0 <= j < moves.len()
                        &&& moves[j] == p
                        &&& forall|i: int|
                            j < i < moves.len() ==> eval_spec(#[trigger] moves[i], enemy, st, me, ally, width, height)
                                < eval_spec(p, enemy, st, me, ally, width, height)
                    }
                &&& forall|i: int|
                    0 <= i < moves.len() ==> eval_spec(#[trigger] moves[i], enemy, st, me, ally, width, height)
                        <= eval_spec(p, enemy, st, me, ally, width, height)
            }
        }),
{
    let moves = valid_moves_spec(hpos(enemy), walls, width, height);
    let ally = team_mate_from(st.heroes, enemy, 0);
    lemma_best_reply_is_max(moves, enemy, st, ally, width, height, moves.len() as int);
}

/// With no look-ahead left, the look-ahead score is the position score.
pub proof fn lemma_depth_zero(
    pos: (int, int),
    hero: Hero,
    st: StateView,
    me: int,
    ally: (int, int),
    walls: Seq<Wall>,
    width: int,
    height: int,
)
    ensures
        best_spec(pos, hero, st, me, ally, walls, width, height, 0) == eval_spec(pos, hero, st, me, ally, width, height),
{
}

proof fn lemma_nearest_none(pos: (int, int), heroes: Seq<Hero>, me: int, n: int)
    requires
        0 <= n <= heroes.len(),
    ensures
        (nearest_enemy(pos, heroes, me, n) is None) <==> (forall|i: int| 0 <= i < n ==> !is_live_enemy(#[trigger] heroes[i], me)),
    decreases n,
{
    if n > 0 {
        lemma_nearest_none(pos, heroes, me, n - 1);
    }
}

/// Once no live enemy is left, every position scores 0.
pub proof fn lemma_no_enemy_no_score(
    pos: (int, int),
    hero: Hero,
    st: StateView,
    me: int,
    ally: (int, int),
    width: int,
    height: int,
)
    requires
        forall|i: int| 0 <= i < st.heroes.len() ==> !is_live_enemy(#[trigger] st.heroes[i], me),
    ensures
        eval_spec(pos, hero, st, me, ally, width, height) == 0,
{
    lemma_nearest_none(pos, st.heroes, me, st.heroes.len() as int);
}

proof fn lemma_no_enemy_projectile(pos: (int, int), projectiles: Seq<Projectile>, me: int, n: int)
    requires
        0 <= n <= projectiles.len(),
        forall|i: int| 0 <= i < projectiles.len() ==> (#[trigger] projectiles[i]).owner_id == me,
    ensures
        projectile_penalty(pos, projectiles, me, n) == 0,
    decreases n,
{
    if n > 0 {
        lemma_no_enemy_projectile(pos, projectiles, me, n - 1);
        assert(projectiles[n - 1].owner_id == me);
    }
}

proof fn lemma_max_children_bounds(
    moves: Seq<(int, int)>,
    hero: Hero,
    st: StateView,
    me: int,
    ally: (int, int),
    walls: Seq<Wall>,
    width: int,
    height: int,
    depth: int,
    k: int,
)
    requires
        0 <= depth,
        1 <= k <= moves.len(),
    ensures
        max_children(moves, hero, st, me, ally, walls, width, height, depth, k) matches Some(m) && forall|j: int|
            0 <= j < k ==> m >= best_spec(#[trigger] moves[j], hero, st, me, ally, walls, width, height, depth),
    decreases k,
{
    if k > 1 {
        lemma_max_children_bounds(moves, hero, st, me, ally, walls, width, height, depth, k - 1);
    }
}

/// One more move of look-ahead never lowers the score of a free cell when no
/// projectile of another player is in flight: staying put is always among the
/// moves looked at.
pub proof fn lemma_look_ahead_never_lowers(
    pos: (int, int),
    hero: Hero,
    st: StateView,
    me: int,
    ally: (int, int),
    walls: Seq<Wall>,
    width: int,
    height: int,
    depth: int,
)
    requires
        0 <= depth,
        forall|i: int| 0 <= i < st.projectiles.len() ==> (#[trigger] st.projectiles[i]).owner_id == me,
        free_cell(pos, walls, width, height),
    ensures
        best_spec(pos, hero, st, me, ally, walls, width, height, depth + 1) >= best_spec(
            pos,
            hero,
            st,
            me,
            ally,
            walls,
            width,
            height,
            depth,
        ),
{
    let moves = valid_moves_spec(pos, walls, width, height);
    lemma_valid_moves_sound(pos, walls, width, height);
    lemma_no_enemy_projectile(pos, st.projectiles, me, st.projectiles.len() as int);
    assert(moves.contains(pos));
    let j = choose|j: int| 0 <= j < moves.len() && moves[j] == pos;
    lemma_max_children_bounds(moves, hero, st, me, ally, walls, width, height, depth, moves.len() as int);
    assert(best_spec(moves[j], hero, st, me, ally, walls, width, height, depth) == best_spec(
        pos,
        hero,
        st,
        me,
        ally,
        walls,
        width,
        height,
        depth,
    ));
}

/// A sequence of cells in which each cell is a valid move from the one before.
pub open spec fn is_move_path(path: Seq<(int, int)>, walls: Seq<Wall>, width: int, height: int) -> bool {
    forall|i: int|
        0 <= i < path.len() - 1 ==> #[trigger] valid_moves_spec(path[i], walls, width, height).contains(path[i + 1])
}

/// The largest look-ahead score among the first `k` moves is the score of one of them.
proof fn lemma_max_children_attained(
    moves: Seq<(int, int)>,
    hero: Hero,
    st: StateView,
    me: int,
    ally: (int, int),
    walls: Seq<Wall>,
    width: int,
    height: int,
    depth: int,
    k: int,
)
    requires
        0 <= depth,
        1 <= k <= moves.len(),
    ensures
        exists|j: int|
            0 <= j < k && max_children(moves, hero, st, me, ally, walls, width, height, depth, k) == Some(
                best_spec(#[trigger] moves[j], hero, st, me, ally, walls, width, height, depth),
            ),
    decreases k,
{
    let i0 = k - 1;
    let v = best_spec(moves[i0], hero, st, me, ally, walls, width, height, depth);
    if k > 1 {
        lemma_max_children_attained(moves, hero, st, me, ally, walls, width, height, depth, k - 1);
        let j = choose|j: int|
            0 <= j < k - 1 && max_children(moves, hero, st, me, ally, walls, width, height, depth, k - 1) == Some(
                best_spec(#[trigger] moves[j], hero, st, me, ally, walls, width, height, depth),
            );
        let m = best_spec(moves[j], hero, st, me, ally, walls, width, height, depth);
        if v <= m {
            assert(max_children(moves, hero, st, me, ally, walls, width, height, depth, k) == Some(m));
        }
    }
}

/// When no projectile of another player is in flight, the look-ahead score of a
/// free cell `pos` at depth `depth` is the best position score among the cells
/// that `depth` valid moves from `pos` can reach: it is at least the score of every
/// such cell, and equal to the score of one of them.
pub proof fn lemma_look_ahead_is_best_reachable(
    pos: (int, int),
    hero: Hero,
    st: StateView,
    me: int,
    ally: (int, int),
    walls: Seq<Wall>,
    width: int,
    height: int,
    depth: int,
)
    requires
        0 <= depth,
        forall|i: int| 0 <= i < st.projectiles.len() ==> (#[trigger] st.projectiles[i]).owner_id == me,
        free_cell(pos, walls, width, height),
    ensures
        forall|path: Seq<(int, int)>|
            #[trigger] is_move_path(path, walls, width, height) && path.len() == depth + 1 && path[0] == pos
                ==> best_spec(pos, hero, st, me, ally, walls, width, height, depth) >= eval_spec(
                path.last(),
                hero,
                st,
                me,
                ally,
                width,
                height,
            ),
        exists|path: Seq<(int, int)>|
            #[trigger] is_move_path(path, walls, width, height) && path.len() == depth + 1 && path[0] == pos
                && best_spec(pos, hero, st, me, ally, walls, width, height, depth) == eval_spec(
                path.last(),
                hero,
                st,
                me,
                ally,
                width,
                height,
            ),
    decreases depth,
{
    if depth == 0 {
        let path = seq![pos];
        assert(is_move_path(path, walls, width, height));
        assert forall|path: Seq<(int, int)>|
            #[trigger] is_move_path(path, walls, width, height) && path.len() == depth + 1 && path[0] == pos implies best_spec(
            pos,
            hero,
            st,
            me,
            ally,
            walls,
            width,
            height,
            depth,
        ) >= eval_spec(path.last(), hero, st, me, ally, width, height) by {
            assert(path.last() == path[0]);
        }
    } else {
        let moves = valid_moves_spec(pos, walls, width, height);
        lemma_valid_moves_sound(pos, walls, width, height);
        lemma_no_enemy_projectile(pos, st.projectiles, me, st.projectiles.len() as int);
        assert(moves.contains(pos));
        let n = moves.len() as int;
        lemma_max_children_bounds(moves, hero, st, me, ally, walls, width, height, depth - 1, n);
        lemma_max_children_attained(moves, hero, st, me, ally, walls, width, height, depth - 1, n);
        let m = best_spec(pos, hero, st, me, ally, walls, width, height, depth);
        assert(max_children(moves, hero, st, me, ally, walls, width, height, depth - 1, n) == Some(m));
        assert forall|path: Seq<(int, int)>|
            #[trigger] is_move_path(path, walls, width, height) && path.len() == depth + 1 && path[0] == pos implies m
            >= eval_spec(path.last(), hero, st, me, ally, width, height) by {
            let i0 = 0int;
            assert(valid_moves_spec(path[i0], walls, width, height).contains(path[i0 + 1]));
            let q = path[1];
            let j = choose|j: int| 0 <= j < n && moves[j] == q;
            assert(free_cell(moves[j], walls, width, height));
            lemma_look_ahead_is_best_reachable(q, hero, st, me, ally, walls, width, height, depth - 1);
            let rest = path.skip(1);
            assert forall|i: int| 0 <= i < rest.len() - 1 implies #[trigger] valid_moves_spec(
                rest[i],
                walls,
                width,
                height,
            ).contains(rest[i + 1]) by {
                let k = i + 1;
                assert(valid_moves_spec(path[k], walls, width, height).contains(path[k + 1]));
            }
            assert(is_move_path(rest, walls, width, height));
            assert(rest.last() == path.last());
            assert(m >= best_spec(moves[j], hero, st, me, ally, walls, width, height, depth - 1));
        }
        let j = choose|j: int|
            0 <= j < n && max_children(moves, hero, st, me, ally, walls, width, height, depth - 1, n) == Some(
                best_spec(#[trigger] moves[j], hero, st, me, ally, walls, width, height, depth - 1),
            );
        let q = moves[j];
        assert(free_cell(moves[j], walls, width, height));
        lemma_look_ahead_is_best_reachable(q, hero, st, me, ally, walls, width, height, depth - 1);
        let tail = choose|path: Seq<(int, int)>|
            #[trigger] is_move_path(path, walls, width, height) && path.len() == depth && path[0] == q
                && best_spec(q, hero, st, me, ally, walls, width, height, depth - 1) == eval_spec(
                path.last(),
                hero,
                st,
                me,
                ally,
                width,
                height,
            );
        let path = seq![pos] + tail;
        assert forall|i: int| 0 <= i < path.len() - 1 implies #[trigger] valid_moves_spec(
            path[i],
            walls,
            width,
            height,
        ).contains(path[i + 1]) by {
            if i == 0 {
                assert(path[1] == tail[0]);
                assert(moves.contains(q));
            } else {
                let k = i - 1;
                assert(path[i] == tail[k] && path[i + 1] == tail[k + 1]);
                assert(valid_moves_spec(tail[k], walls, width, height).contains(tail[k + 1]));
            }
        }
        assert(is_move_path(path, walls, width, height));
        assert(path.last() == tail.last());
    }
}

} // verus!
