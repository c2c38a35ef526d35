use breakout::ball::{Ball, Collider, Hit};
use breakout::collision::{Collision, Heading, Reflection};
use breakout::direction::Direction;
use breakout::scoreboard::Scoreboard;

const WALL: Collider = Collider { block: false };
const BLOCK: Collider = Collider { block: true };
const NONE: Reflection = Reflection { x: false, y: false };
const TURN_X: Reflection = Reflection { x: true, y: false };
const TURN_Y: Reflection = Reflection { x: false, y: true };

fn falling_right() -> Ball {
    Ball::new(Heading::new(Direction::Positive, Direction::Negative))
}

fn rising_right() -> Ball {
    Ball::new(Heading::new(Direction::Positive, Direction::Positive))
}

/// One ball's tick over a field given as pairs of collider and finding.
fn one_ball(
    ball: Ball,
    score: usize,
    field: &[(Collider, Option<Collision>)],
) -> (Ball, usize, Vec<Hit>) {
    let colliders: Vec<Collider> = field.iter().map(|f| f.0).collect();
    let row: Vec<Option<Collision>> = field.iter().map(|f| f.1).collect();
    let mut balls = vec![ball];
    let mut board = Scoreboard { score };
    let mut hits = Ball::ball_collision(&mut balls, &mut board, &colliders, &vec![row]);
    assert_eq!(balls.len(), 1);
    assert_eq!(hits.len(), 1);
    (balls[0], board.score, hits.remove(0))
}

#[test]
fn new_ball_keeps_its_heading() {
    let h = Heading::new(Direction::Negative, Direction::Still);
    assert_eq!(Ball::new(h).heading, h);
}

#[test]
fn a_tick_without_balls_changes_nothing() {
    let mut balls: Vec<Ball> = Vec::new();
    let mut board = Scoreboard { score: 3 };
    let hits = Ball::ball_collision(&mut balls, &mut board, &vec![BLOCK, WALL], &Vec::new());
    assert!(hits.is_empty());
    assert!(balls.is_empty());
    assert_eq!(board.score, 3);
}

#[test]
fn a_pass_over_an_empty_field_changes_nothing() {
    let (ball, score, hits) = one_ball(falling_right(), 3, &[]);
    assert!(hits.is_empty());
    assert_eq!(ball, falling_right());
    assert_eq!(score, 3);
}

#[test]
fn a_pass_without_contact_changes_nothing() {
    let field = [(WALL, None), (BLOCK, None), (BLOCK, None), (WALL, None)];
    let (ball, score, hits) = one_ball(falling_right(), 3, &field);
    assert!(hits.is_empty());
    assert_eq!(ball, falling_right());
    assert_eq!(score, 3);
}

#[test]
fn a_block_met_from_above_is_destroyed_and_scores_one() {
    let field = [(WALL, None), (BLOCK, Some(Collision::Top)), (BLOCK, None)];
    let (ball, score, hits) = one_ball(falling_right(), 0, &field);
    assert_eq!(hits, vec![Hit { collider: 1, reflection: TURN_Y, despawn: true }]);
    assert_eq!(ball.heading, Heading::new(Direction::Positive, Direction::Positive));
    assert_eq!(score, 1);
}

#[test]
fn a_wall_turns_the_ball_and_scores_nothing() {
    let field = [(WALL, Some(Collision::Left)), (BLOCK, None)];
    let (ball, score, hits) = one_ball(falling_right(), 5, &field);
    assert_eq!(hits, vec![Hit { collider: 0, reflection: TURN_X, despawn: false }]);
    assert_eq!(ball.heading, Heading::new(Direction::Negative, Direction::Negative));
    assert_eq!(score, 5);
}

#[test]
fn a_block_met_while_moving_away_is_still_destroyed() {
    let field = [(BLOCK, Some(Collision::Top))];
    let (ball, score, hits) = one_ball(rising_right(), 9, &field);
    assert_eq!(hits, vec![Hit { collider: 0, reflection: NONE, despawn: true }]);
    assert_eq!(ball, rising_right());
    assert_eq!(score, 10);
}

#[test]
fn a_block_met_inside_is_destroyed_without_a_turn() {
    let field = [(BLOCK, Some(Collision::Inside))];
    let (ball, score, hits) = one_ball(falling_right(), 0, &field);
    assert_eq!(hits, vec![Hit { collider: 0, reflection: NONE, despawn: true }]);
    assert_eq!(ball, falling_right());
    assert_eq!(score, 1);
}

#[test]
fn later_bounces_start_from_the_heading_that_earlier_ones_left() {
    // Moving right: the first collider turns the ball to the left, so that
    // the second that it meets, on its right side, turns it back, and the
    // third, met on its left side like the first, turns it once more.
    let field = [
        (BLOCK, Some(Collision::Left)),
        (WALL, None),
        (BLOCK, Some(Collision::Right)),
        (WALL, Some(Collision::Left)),
    ];
    let (ball, score, hits) = one_ball(falling_right(), 0, &field);
    assert_eq!(
        hits,
        vec![
            Hit { collider: 0, reflection: TURN_X, despawn: true },
            Hit { collider: 2, reflection: TURN_X, despawn: true },
            Hit { collider: 3, reflection: TURN_X, despawn: false },
        ]
    );
    assert_eq!(ball.heading, Heading::new(Direction::Negative, Direction::Negative));
    assert_eq!(score, 2);
}

#[test]
fn two_blocks_on_the_same_side_turn_the_ball_once() {
    let field = [(BLOCK, Some(Collision::Top)), (BLOCK, Some(Collision::Top))];
    let (ball, score, hits) = one_ball(falling_right(), 40, &field);
    assert_eq!(
        hits,
        vec![
            Hit { collider: 0, reflection: TURN_Y, despawn: true },
            Hit { collider: 1, reflection: NONE, despawn: true },
        ]
    );
    assert_eq!(ball.heading, Heading::new(Direction::Positive, Direction::Positive));
    assert_eq!(score, 42);
}

#[test]
fn a_corner_turns_both_axes_in_one_pass() {
    let field = [(WALL, Some(Collision::Left)), (WALL, Some(Collision::Top))];
    let (ball, score, hits) = one_ball(falling_right(), 0, &field);
    assert_eq!(
        hits,
        vec![
            Hit { collider: 0, reflection: TURN_X, despawn: false },
            Hit { collider: 1, reflection: TURN_Y, despawn: false },
        ]
    );
    assert_eq!(ball.heading, Heading::new(Direction::Negative, Direction::Positive));
    assert_eq!(score, 0);
}

#[test]
fn two_balls_on_one_block_score_one_point() {
    // Both balls fall onto the top side of the same block in one tick.
    let mut balls = vec![falling_right(), falling_right()];
    let mut board = Scoreboard::new();
    let colliders = vec![BLOCK];
    let findings = vec![vec![Some(Collision::Top)], vec![Some(Collision::Top)]];
    assert_eq!(Ball::count_destroyed(&colliders, &findings), 1);
    let hits = Ball::ball_collision(&mut balls, &mut board, &colliders, &findings);
    assert_eq!(board.score, 1);
    assert_eq!(
        hits,
        vec![
            vec![Hit { collider: 0, reflection: TURN_Y, despawn: true }],
            vec![Hit { collider: 0, reflection: TURN_Y, despawn: false }],
        ]
    );
    assert_eq!(balls, vec![rising_right(), rising_right()]);
    // What the engine does with the real velocities.
    let mut velocities = [(100.0_f32, -200.0_f32), (100.0_f32, -200.0_f32)];
    let mut despawned = 0;
    for (velocity, ball_hits) in velocities.iter_mut().zip(&hits) {
        for hit in ball_hits {
            if hit.reflection.x {
                velocity.0 *= -1.0;
            }
            if hit.reflection.y {
                velocity.1 *= -1.0;
            }
            if hit.despawn {
                despawned += 1;
            }
        }
    }
    assert_eq!(velocities, [(100.0, 200.0), (100.0, 200.0)]);
    assert_eq!(despawned, 1);
}

#[test]
fn a_block_leaves_with_the_first_ball_that_met_it() {
    let mut balls = vec![falling_right(), rising_right(), falling_right()];
    let mut board = Scoreboard { score: 10 };
    let colliders = vec![WALL, BLOCK];
    let findings = vec![
        vec![None, None],
        vec![Some(Collision::Left), Some(Collision::Bottom)],
        vec![None, Some(Collision::Top)],
    ];
    let hits = Ball::ball_collision(&mut balls, &mut board, &colliders, &findings);
    assert_eq!(board.score, 11);
    assert_eq!(
        hits,
        vec![
            vec![],
            vec![
                Hit { collider: 0, reflection: TURN_X, despawn: false },
                Hit { collider: 1, reflection: TURN_Y, despawn: true },
            ],
            vec![Hit { collider: 1, reflection: TURN_Y, despawn: false }],
        ]
    );
    assert_eq!(
        balls,
        vec![
            falling_right(),
            Ball::new(Heading::new(Direction::Negative, Direction::Negative)),
            rising_right(),
        ]
    );
}

#[test]
fn two_balls_on_two_blocks_score_two_points() {
    let mut balls = vec![falling_right(), falling_right()];
    let mut board = Scoreboard { score: 4 };
    let colliders = vec![BLOCK, BLOCK, WALL];
    let findings = vec![
        vec![Some(Collision::Top), None, None],
        vec![None, Some(Collision::Left), Some(Collision::Top)],
    ];
    let hits = Ball::ball_collision(&mut balls, &mut board, &colliders, &findings);
    assert_eq!(board.score, 6);
    assert_eq!(
        hits,
        vec![
            vec![Hit { collider: 0, reflection: TURN_Y, despawn: true }],
            vec![
                Hit { collider: 1, reflection: TURN_X, despawn: true },
                Hit { collider: 2, reflection: TURN_Y, despawn: false },
            ],
        ]
    );
}

#[test]
fn a_wall_met_by_two_balls_stays_and_scores_nothing() {
    let mut balls = vec![falling_right(), falling_right()];
    let mut board = Scoreboard { score: 4 };
    let colliders = vec![WALL];
    let findings = vec![vec![Some(Collision::Top)], vec![Some(Collision::Top)]];
    let hits = Ball::ball_collision(&mut balls, &mut board, &colliders, &findings);
    assert_eq!(board.score, 4);
    let same = vec![Hit { collider: 0, reflection: TURN_Y, despawn: false }];
    assert_eq!(hits, vec![same.clone(), same]);
    assert_eq!(balls, vec![rising_right(), rising_right()]);
}

#[test]
fn the_score_rises_by_the_number_of_despawns() {
    let sides = [
        None,
        Some(Collision::Left),
        Some(Collision::Right),
        Some(Collision::Top),
        Some(Collision::Bottom),
        Some(Collision::Inside),
    ];
    // Three balls over a field in which every pair of findings occurs for a
    // block and for a wall; the third ball meets everything.
    let mut colliders = Vec::new();
    let mut first = Vec::new();
    let mut second = Vec::new();
    let mut third = Vec::new();
    for a in sides {
        for b in sides {
            for collider in [BLOCK, WALL] {
                colliders.push(collider);
                first.push(a);
                second.push(b);
                third.push(Some(Collision::Inside));
            }
        }
    }
    let findings = vec![first, second, third];
    let mut balls = vec![falling_right(), rising_right(), falling_right()];
    let mut board = Scoreboard { score: 1000 };
    let expected = Ball::count_destroyed(&colliders, &findings);
    let hits = Ball::ball_collision(&mut balls, &mut board, &colliders, &findings);
    let despawns: usize = hits.iter().map(|h| h.iter().filter(|h| h.despawn).count()).sum();
    assert_eq!(expected, 36);
    assert_eq!(despawns, 36);
    assert_eq!(board.score, 1036);
    // No collider is marked twice, and only blocks are marked.
    let mut marked = vec![false; colliders.len()];
    for ball_hits in &hits {
        for hit in ball_hits {
            if hit.despawn {
                assert!(colliders[hit.collider].block);
                assert!(!marked[hit.collider]);
                marked[hit.collider] = true;
            }
        }
    }
}

#[test]
fn the_hits_come_in_the_order_of_the_colliders() {
    let field = [
        (BLOCK, Some(Collision::Bottom)),
        (WALL, None),
        (WALL, Some(Collision::Inside)),
        (BLOCK, None),
        (BLOCK, Some(Collision::Right)),
    ];
    let (_, _, hits) = one_ball(falling_right(), 0, &field);
    let places: Vec<usize> = hits.iter().map(|h| h.collider).collect();
    assert_eq!(places, vec![0, 2, 4]);
    for h in &hits {
        assert!(field[h.collider].1.is_some());
        assert_eq!(h.despawn, field[h.collider].0.block);
    }
}

#[test]
fn the_reflections_applied_in_order_give_the_new_heading() {
    let field = [
        (WALL, Some(Collision::Left)),
        (BLOCK, Some(Collision::Top)),
        (BLOCK, Some(Collision::Right)),
        (WALL, Some(Collision::Bottom)),
        (BLOCK, Some(Collision::Left)),
    ];
    let (ball, score, hits) = one_ball(falling_right(), 0, &field);
    // What the engine does with a real velocity.
    let mut velocity = (400.0_f32, -200.0_f32);
    for h in &hits {
        if h.reflection.x {
            velocity.0 *= -1.0;
        }
        if h.reflection.y {
            velocity.1 *= -1.0;
        }
    }
    assert_eq!(velocity, (-400.0, -200.0));
    assert_eq!(ball.heading, Heading::new(Direction::Negative, Direction::Negative));
    assert_eq!(
        ball.heading,
        Heading::new(
            Direction::from_signs(velocity.0 < 0.0, velocity.0 > 0.0),
            Direction::from_signs(velocity.1 < 0.0, velocity.1 > 0.0),
        )
    );
    assert_eq!(score, 3);
}

#[test]
fn the_score_may_reach_the_largest_number() {
    let field = [(BLOCK, Some(Collision::Top)), (WALL, Some(Collision::Top)), (BLOCK, None)];
    let (_, score, hits) = one_ball(falling_right(), usize::MAX - 1, &field);
    assert_eq!(hits.len(), 2);
    assert_eq!(score, usize::MAX);
}

#[test]
fn count_destroyed_counts_each_met_block_once() {
    assert_eq!(Ball::count_destroyed(&Vec::new(), &Vec::new()), 0);
    assert_eq!(Ball::count_destroyed(&vec![BLOCK, BLOCK], &Vec::new()), 0);
    let colliders = vec![BLOCK, BLOCK, WALL, BLOCK, WALL];
    let findings = vec![
        vec![Some(Collision::Top), None, Some(Collision::Left), None, None],
        vec![Some(Collision::Left), None, None, Some(Collision::Inside), None],
    ];
    assert_eq!(Ball::count_destroyed(&colliders, &findings), 2);
}
