use breakout::direction::Direction;
use breakout::paddle::Paddle;

#[test]
fn the_left_key_moves_the_paddle_left() {
    assert_eq!(Paddle::move_paddle(true, false), Direction::Negative);
}

#[test]
fn the_right_key_moves_the_paddle_right() {
    assert_eq!(Paddle::move_paddle(false, true), Direction::Positive);
}

#[test]
fn no_key_leaves_the_paddle_where_it_is() {
    assert_eq!(Paddle::move_paddle(false, false), Direction::Still);
}

#[test]
fn both_keys_cancel() {
    assert_eq!(Paddle::move_paddle(true, true), Direction::Still);
}

#[test]
fn the_paddle_follows_the_sum_of_the_pulls() {
    for left in [false, true] {
        for right in [false, true] {
            let mut direction = 0.0_f32;
            if left {
                direction -= 1.0;
            }
            if right {
                direction += 1.0;
            }
            assert_eq!(Paddle::move_paddle(left, right).signum() as f32, direction);
        }
    }
}
