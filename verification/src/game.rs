//! The rules of the flying game that decide, frame by frame, what runs: the
//! game waits for the first press of the space key, after which gravity,
//! forward motion and platform generation run; flapping works whenever the
//! player exists; the first collision with a platform removes the player and
//! shows the game-over screen, and nothing restarts the game.

use vstd::prelude::*;

verus! {

/// What the rules of the game decide on: whether the first press of the space
/// key has happened, and whether the game is over (the player removed and the
/// game-over screen shown).
#[derive(Debug, Clone, Copy, PartialEq, Eq, Structural)]
pub struct GameState {
    pub started: bool,
    pub over: bool,
}

/// The state after `wait_for_start` in a frame in which the space key was
/// (or was not) just pressed.
pub open spec fn started_after(g: GameState, space_just_pressed: bool) -> GameState {
    GameState { started: g.started || space_just_pressed, over: g.over }
}

/// Whether `check_platform_collision` ends the game in a frame in which the
/// player did (or did not) touch a platform.
pub open spec fn collision_ends_game(g: GameState, collided: bool) -> bool {
    !g.over && collided
}

/// The state after `check_platform_collision`.
pub open spec fn after_collision(g: GameState, collided: bool) -> GameState {
    if collision_ends_game(g, collided) {
        GameState { started: g.started, over: true }
    } else {
        g
    }
}

/// The answers of `check_platform_collision` over a run of frames, starting
/// from `g`, where `collisions[i]` tells whether the player touched a platform
/// in frame `i`.
pub open spec fn collision_answers(g: GameState, collisions: Seq<bool>) -> Seq<bool>
    decreases collisions.len(),
{
    if collisions.len() == 0 {
        Seq::<bool>::empty()
    } else {
        seq![collision_ends_game(g, collisions[0])] + collision_answers(
            after_collision(g, collisions[0]),
            collisions.drop_first(),
        )
    }
}

/// The state after a run of frames, each with its space key and collision
/// events, whichever order the two systems take within a frame.
pub open spec fn state_after_frames(g: GameState, presses: Seq<bool>, collisions: Seq<bool>) -> GameState
    recommends
        presses.len() == collisions.len(),
    decreases presses.len(),
{
    if presses.len() == 0 || collisions.len() == 0 {
        g
    } else {
        state_after_frames(
            after_collision(started_after(g, presses[0]), collisions[0]),
            presses.drop_first(),
            collisions.drop_first(),
        )
    }
}

/// The number of `true` values in `s`.
pub open spec fn count_true(s: Seq<bool>) -> nat
    decreases s.len(),
{
    if s.len() == 0 {
        0
    } else {
        (if s[0] {
            1nat
        } else {
            0nat
        }) + count_true(s.drop_first())
    }
}

impl GameState {
    /// The state when the game opens: waiting for the first press, player present.
    pub fn new() -> (g: GameState)
        ensures
            !g.started,
            !g.over,
    {
        GameState { started: false, over: false }
    }

    /// The first press of the space key starts the game; once started, it stays started.
    pub fn wait_for_start(&mut self, space_just_pressed: bool)
        ensures
            *final(self) == started_after(*old(self), space_just_pressed),
    {
        if space_just_pressed {
            self.started = true;
        }
    }

    /// Whether a press of the space key gives the player an upward burst this
    /// frame: whenever the key was just pressed and the player still exists,
    /// before the start too.
    pub fn flap_applies(&self, space_just_pressed: bool) -> (r: bool)
        ensures
            r == (space_just_pressed && !self.over),
    {
        space_just_pressed && !self.over
    }

    /// Whether gravity and forward motion move the player this frame: only
    /// once the game has started, and only while the player exists.
    pub fn moves_player(&self) -> (r: bool)
        ensures
            r == (self.started && !self.over),
    {
        self.started && !self.over
    }

    /// Whether new platforms are generated ahead of the camera this frame:
    /// only once the game has started.
    pub fn generates_platforms(&self) -> (r: bool)
        ensures
            r == self.started,
    {
        self.started
    }

    /// Decides on a collision: while the game is not over, a touched platform
    /// ends it, and the caller removes the player and shows the game-over
    /// screen (the result is `true`); once it is over, nothing happens.
    pub fn check_platform_collision(&mut self, collided: bool) -> (ends: bool)
        ensures
            ends == collision_ends_game(*old(self), collided),
            *final(self) == after_collision(*old(self), collided),
    {
        if !self.over && collided {
            self.over = true;
            true
        } else {
            false
        }
    }
}

/// Once the game has started it never stops being started, and once it is
/// over it stays over, whatever the frames bring.
pub proof fn lemma_no_restart(g: GameState, presses: Seq<bool>, collisions: Seq<bool>)
    requires
        presses.len() == collisions.len(),
    ensures
        g.started ==> state_after_frames(g, presses, collisions).started,
        g.over ==> state_after_frames(g, presses, collisions).over,
    decreases presses.len(),
{
    if presses.len() > 0 {
        lemma_no_restart(
            after_collision(started_after(g, presses[0]), collisions[0]),
            presses.drop_first(),
            collisions.drop_first(),
        );
    }
}

/// The game ends at most once: over any run of frames, at most one collision
/// ends it, and none once it is over.
pub proof fn lemma_game_ends_at_most_once(g: GameState, collisions: Seq<bool>)
    ensures
        count_true(collision_answers(g, collisions)) <= 1,
        g.over ==> count_true(collision_answers(g, collisions)) == 0,
    decreases collisions.len(),
{
    if collisions.len() > 0 {
        let next = after_collision(g, collisions[0]);
        lemma_game_ends_at_most_once(next, collisions.drop_first());
        let answers = collision_answers(g, collisions);
        assert(answers.drop_first() =~= collision_answers(next, collisions.drop_first()));
    }
}

/// Within a frame, starting the game and checking for a collision give the
/// same state and the same answer in either order, so the order in which the
/// two systems run does not matter.
pub proof fn lemma_start_and_collision_commute(g: GameState, space_just_pressed: bool, collided: bool)
    ensures
        after_collision(started_after(g, space_just_pressed), collided) == started_after(
            after_collision(g, collided),
            space_just_pressed,
        ),
        collision_ends_game(started_after(g, space_just_pressed), collided)
            == collision_ends_game(g, collided),
{
}

/// Nothing moves before the first press: from a state that has not started,
/// frames without a press of the space key leave the game unstarted, so
/// neither gravity, forward motion nor platform generation runs.
pub proof fn lemma_idle_until_first_press(g: GameState, presses: Seq<bool>, collisions: Seq<bool>)
    requires
        presses.len() == collisions.len(),
        !g.started,
        forall|i: int| 0 <= i < presses.len() ==> !#[trigger] presses[i],
    ensures
        !state_after_frames(g, presses, collisions).started,
    decreases presses.len(),
{
    if presses.len() > 0 {
        assert(!presses[0]);
        let rest = presses.drop_first();
        assert forall|i: int| 0 <= i < rest.len() implies !#[trigger] rest[i] by {
            assert(rest[i] == presses[i + 1]);
        }
        lemma_idle_until_first_press(
            after_collision(started_after(g, presses[0]), collisions[0]),
            rest,
            collisions.drop_first(),
        );
    }
}

} // verus!
