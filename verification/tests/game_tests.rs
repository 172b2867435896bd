use final_project::game::GameState;

#[test]
fn game_waits_for_first_press() {
    let mut g = GameState::new();
    assert!(!g.started && !g.over);
    assert!(!g.moves_player());
    assert!(!g.generates_platforms());
    g.wait_for_start(false);
    assert!(!g.started);
    assert!(!g.moves_player());
    g.wait_for_start(true);
    assert!(g.started);
    assert!(g.moves_player());
    assert!(g.generates_platforms());
}

#[test]
fn game_stays_started() {
    let mut g = GameState::new();
    g.wait_for_start(true);
    for _ in 0..5 {
        g.wait_for_start(false);
        assert!(g.started);
    }
}

#[test]
fn flap_works_before_start_but_not_after_game_over() {
    let mut g = GameState::new();
    assert!(g.flap_applies(true));
    assert!(!g.flap_applies(false));
    g.wait_for_start(true);
    assert!(g.check_platform_collision(true));
    assert!(!g.flap_applies(true));
}

#[test]
fn game_ends_once() {
    let mut g = GameState::new();
    g.wait_for_start(true);
    assert!(!g.check_platform_collision(false));
    assert!(!g.over);
    assert!(g.check_platform_collision(true));
    assert!(g.over);
    assert!(!g.moves_player());
    assert!(g.generates_platforms());
    let ends: usize = (0..4).filter(|_| g.check_platform_collision(true)).count();
    assert_eq!(ends, 0);
    assert!(g.started && g.over);
}

#[test]
fn start_and_collision_order_does_not_matter() {
    for pressed in [false, true].iter() {
        for collided in [false, true].iter() {
            let mut a = GameState::new();
            a.wait_for_start(*pressed);
            let ra = a.check_platform_collision(*collided);
            let mut b = GameState::new();
            let rb = b.check_platform_collision(*collided);
            b.wait_for_start(*pressed);
            assert_eq!(a, b);
            assert_eq!(ra, rb);
        }
    }
}
