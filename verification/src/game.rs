//! The game as a stack of states over one framebuffer. The state on top is
//! the one that runs; what it asks for after each update reshapes the stack.

use vstd::prelude::*;
use crate::pixels::{Frame, Pixels};

verus! {

/// Side of the square framebuffer that a new game draws into, in pixels.
pub const FRAME_SIDE: usize = 256;

/// What a state asks of the stack after an update.
pub enum GameStateUpdate<S> {
    /// Carry on with no change to the stack.
    Continue,
    /// Put a new state on top of the present one.
    Push(S),
    /// Take the present state off the stack.
    Pop,
    /// Put a new state in place of the present one.
    Replace(S),
    /// Leave the game.
    Quit,
}

impl<S> GameStateUpdate<S> {
    /// The stack after the request has been carried out. Taking a state off
    /// an empty stack leaves it empty.
    pub open spec fn applied(self, states: Seq<S>) -> Seq<S> {
        match self {
            GameStateUpdate::Continue => states,
            GameStateUpdate::Push(state) => states.push(state),
            GameStateUpdate::Pop => popped(states),
            GameStateUpdate::Replace(state) => popped(states).push(state),
            GameStateUpdate::Quit => states,
        }
    }

    /// Whether the game goes on after the request.
    pub open spec fn goes_on(self) -> bool {
        !(self is Quit)
    }
}

/// The stack without its top state; an empty stack stays empty.
pub open spec fn popped<S>(states: Seq<S>) -> Seq<S> {
    if states.len() > 0 {
        states.drop_last()
    } else {
        states
    }
}

/// The state that a game starts in. It draws a black frame and makes way
/// for the next state at its first update.
pub struct GameStateInit {}

impl GameStateInit {
    /// The first update: the state asks to be replaced by `next`.
    pub fn on_update<S>(&mut self, next: S) -> (request: GameStateUpdate<S>)
        ensures
            request == GameStateUpdate::Replace(next),
    {
        GameStateUpdate::Replace(next)
    }

    /// Draws the state: every pixel black.
    pub fn on_draw(&mut self, pixels: &mut Pixels)
        ensures
            final(pixels)@ == old(pixels)@.filled((0u8, 0u8, 0u8)),
            final(pixels)@.wf(),
    {
        pixels.fill((0, 0, 0));
    }
}

/// The mathematical content of a game: its states from the bottom of the
/// stack to the top, and its frame.
pub struct GameView<S> {
    pub states: Seq<S>,
    pub frame: Frame,
}

/// A stack of states and the framebuffer they draw into.
pub struct Game<S> {
    states: Vec<S>,
    pixels: Pixels,
}

impl<S> View for Game<S> {
    type V = GameView<S>;

    closed spec fn view(&self) -> GameView<S> {
        GameView { states: self.states@, frame: self.pixels@ }
    }
}

impl<S> Game<S> {
    /// A game with no states yet and a black frame.
    pub fn new() -> (game: Self)
        ensures
            game@.states == Seq::<S>::empty(),
            game@.frame == Frame::blank(FRAME_SIDE as nat, FRAME_SIDE as nat),
    {
        Game { states: Vec::new(), pixels: Pixels::new(FRAME_SIDE, FRAME_SIDE) }
    }

    /// Puts `state` on top of the stack.
    pub fn push_state(&mut self, state: S)
        ensures
            final(self)@ == (GameView { states: old(self)@.states.push(state), ..old(self)@ }),
    {
        self.states.push(state);
    }

    /// Takes the top state off the stack, if there is one.
    pub fn pop_state(&mut self)
        ensures
            final(self)@ == (GameView { states: popped(old(self)@.states), ..old(self)@ }),
    {
        self.states.pop();
    }

    /// Whether any state is left to run.
    pub fn has_state(&self) -> (any: bool)
        ensures
            any == (self@.states.len() > 0),
    {
        self.states.len() > 0
    }

    /// The frame as the states have drawn it.
    pub fn pixels(&self) -> (pixels: &Pixels)
        ensures
            pixels@ == self@.frame,
    {
        &self.pixels
    }

    /// The state on top of the stack and the frame, both open for writing,
    /// or `None` when no state is left. What is written through the two
    /// references is what the game holds afterwards; the states below the top
    /// are not touched.
    pub fn current(&mut self) -> (top: Option<(&mut S, &mut Pixels)>)
        ensures
            match top {
                Some((state, pixels)) => {
                    &&& old(self)@.states.len() > 0
                    &&& *state == old(self)@.states.last()
                    &&& pixels@ == old(self)@.frame
                    &&& final(self)@ == (GameView {
                        states: old(self)@.states.update(
                            old(self)@.states.len() - 1,
                            *final(state),
                        ),
                        frame: final(pixels)@,
                    })
                },
                None => old(self)@.states.len() == 0 && final(self)@ == old(self)@,
            },
    {
        if self.states.len() == 0 {
            return None;
        }
        match self.states.last_mut() {
            Some(state) => Some((state, &mut self.pixels)),
            None => None,
        }
    }

    /// Carries out what the top state asked for after its update, and says
    /// whether the game goes on: it does unless the state asked to quit.
    pub fn apply(&mut self, request: GameStateUpdate<S>) -> (running: bool)
        ensures
            running == request.goes_on(),
            final(self)@ == (GameView { states: request.applied(old(self)@.states), ..old(self)@ }),
    {
        match request {
            GameStateUpdate::Continue => true,
            GameStateUpdate::Push(state) => {
                self.push_state(state);
                true
            },
            GameStateUpdate::Pop => {
                self.pop_state();
                true
            },
            GameStateUpdate::Replace(state) => {
                self.pop_state();
                self.push_state(state);
                true
            },
            GameStateUpdate::Quit => false,
        }
    }
}

} // verus!
