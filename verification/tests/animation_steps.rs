use grid_search::animation::StepableAnimation;

#[test]
fn step_forward_advances_and_wraps() {
    let mut anim = StepableAnimation { current_index: 3, first: 3, len: 3 };
    anim.step_forward();
    assert_eq!(anim.current_index, 4);
    anim.step_forward();
    assert_eq!(anim.current_index, 5);
    anim.step_forward();
    assert_eq!(anim.current_index, 3);
}

#[test]
fn step_backward_retreats_and_wraps() {
    let mut anim = StepableAnimation { current_index: 4, first: 3, len: 3 };
    anim.step_backward();
    assert_eq!(anim.current_index, 3);
    anim.step_backward();
    assert_eq!(anim.current_index, 5);
}

#[test]
fn single_frame_window_stays_put() {
    let mut anim = StepableAnimation { current_index: 0, first: 0, len: 1 };
    anim.step_forward();
    assert_eq!(anim.current_index, 0);
    anim.step_backward();
    assert_eq!(anim.current_index, 0);
}
