//! The player's input for the next turn.
use vstd::prelude::*;

use crate::components::EntityId;
use crate::math::Vec2;

verus! {

/// A keyboard event from the front end.
#[derive(Clone, Debug)]
pub enum InputEvent {
    KeyUp { key: String },
    KeyDown { key: String },
}

/// The actions the player queued for the next turn.
///
/// `len` counts the queued actions among move, wait and interact
/// (a target is extra information, not an action).
#[derive(Clone, Copy, Debug)]
pub struct PlayerActions {
    len: usize,
    move_action: Option<Vec2>,
    target: Option<EntityId>,
    interact: bool,
    wait: bool,
}

/// Number of the queued actions among a move, a wait and an interaction.
pub open spec fn action_count(move_action: Option<Vec2>, wait: bool, interact: bool) -> int {
    (if move_action is Some {
        1int
    } else {
        0
    }) + (if wait {
        1int
    } else {
        0
    }) + (if interact {
        1int
    } else {
        0
    })
}

impl PlayerActions {
    #[verifier::type_invariant]
    spec fn counted(&self) -> bool {
        self.len == action_count(self.move_action, self.wait, self.interact)
    }

    pub closed spec fn spec_len(&self) -> int {
        self.len as int
    }

    pub closed spec fn spec_move_action(&self) -> Option<Vec2> {
        self.move_action
    }

    pub closed spec fn spec_target(&self) -> Option<EntityId> {
        self.target
    }

    pub closed spec fn spec_interact(&self) -> bool {
        self.interact
    }

    pub closed spec fn spec_wait(&self) -> bool {
        self.wait
    }

    /// `len` is the number of queued actions.
    pub open spec fn len_counts_actions(&self) -> bool {
        self.spec_len() == action_count(self.spec_move_action(), self.spec_wait(), self.spec_interact())
    }

    pub fn new() -> (r: PlayerActions)
        ensures
            r.spec_len() == 0,
            r.spec_move_action() is None,
            r.spec_target() is None,
            !r.spec_interact(),
            !r.spec_wait(),
            r.len_counts_actions(),
    {
        PlayerActions { len: 0, move_action: None, target: None, interact: false, wait: false }
    }

    pub fn wait(&self) -> (r: bool)
        ensures
            r == self.spec_wait(),
    {
        self.wait
    }

    pub fn len(&self) -> (r: usize)
        ensures
            r == self.spec_len(),
            self.len_counts_actions(),
    {
        proof {
            use_type_invariant(self);
        }
        self.len
    }

    pub fn is_empty(&self) -> (r: bool)
        ensures
            r == (self.spec_len() == 0),
            r == (self.spec_move_action() is None && !self.spec_wait() && !self.spec_interact()),
    {
        proof {
            use_type_invariant(self);
        }
        self.len() == 0
    }

    pub fn clear(&mut self)
        ensures
            final(self).spec_len() == 0,
            final(self).spec_move_action() is None,
            final(self).spec_target() is None,
            !final(self).spec_interact(),
            !final(self).spec_wait(),
            final(self).len_counts_actions(),
    {
        *self = PlayerActions { len: 0, move_action: None, target: None, interact: false, wait: false };
    }

    /// Queue a move by `delta`, replacing an earlier one.
    pub fn insert_move(&mut self, delta: Vec2)
        ensures
            final(self).spec_move_action() == Some(delta),
            final(self).spec_target() == old(self).spec_target(),
            final(self).spec_interact() == old(self).spec_interact(),
            final(self).spec_wait() == old(self).spec_wait(),
            final(self).spec_len() == old(self).spec_len() + (if old(self).spec_move_action() is None {
                1int
            } else {
                0
            }),
            final(self).len_counts_actions(),
    {
        proof {
            use_type_invariant(&*self);
        }
        let len = if self.move_action.is_none() {
            self.len + 1
        } else {
            self.len
        };
        *self = PlayerActions {
            len,
            move_action: Some(delta),
            target: self.target,
            interact: self.interact,
            wait: self.wait,
        };
    }

    pub fn move_action(&self) -> (r: Option<Vec2>)
        ensures
            r == self.spec_move_action(),
    {
        self.move_action
    }

    /// Remember the entity the player targets; this is not counted as an action.
    pub fn set_target(&mut self, target: EntityId)
        ensures
            final(self).spec_target() == Some(target),
            final(self).spec_move_action() == old(self).spec_move_action(),
            final(self).spec_interact() == old(self).spec_interact(),
            final(self).spec_wait() == old(self).spec_wait(),
            final(self).spec_len() == old(self).spec_len(),
            final(self).len_counts_actions(),
    {
        proof {
            use_type_invariant(&*self);
        }
        *self = PlayerActions {
            len: self.len,
            move_action: self.move_action,
            target: Some(target),
            interact: self.interact,
            wait: self.wait,
        };
    }

    pub fn target(&self) -> (r: Option<EntityId>)
        ensures
            r == self.spec_target(),
    {
        self.target
    }

    /// Queue a wait; queueing it twice counts once.
    pub fn insert_wait(&mut self)
        ensures
            final(self).spec_wait(),
            final(self).spec_move_action() == old(self).spec_move_action(),
            final(self).spec_target() == old(self).spec_target(),
            final(self).spec_interact() == old(self).spec_interact(),
            final(self).spec_len() == old(self).spec_len() + (if old(self).spec_wait() {
                0int
            } else {
                1
            }),
            final(self).len_counts_actions(),
    {
        proof {
            use_type_invariant(&*self);
        }
        let len = if !self.wait {
            self.len + 1
        } else {
            self.len
        };
        *self = PlayerActions {
            len,
            move_action: self.move_action,
            target: self.target,
            interact: self.interact,
            wait: true,
        };
    }

    pub fn interact(&self) -> (r: bool)
        ensures
            r == self.spec_interact(),
    {
        self.interact
    }

    /// Queue an interaction; queueing it twice counts once.
    pub fn insert_interact(&mut self)
        ensures
            final(self).spec_interact(),
            final(self).spec_move_action() == old(self).spec_move_action(),
            final(self).spec_target() == old(self).spec_target(),
            final(self).spec_wait() == old(self).spec_wait(),
            final(self).spec_len() == old(self).spec_len() + (if old(self).spec_interact() {
                0int
            } else {
                1
            }),
            final(self).len_counts_actions(),
    {
        proof {
            use_type_invariant(&*self);
        }
        let len = if !self.interact {
            self.len + 1
        } else {
            self.len
        };
        *self = PlayerActions {
            len,
            move_action: self.move_action,
            target: self.target,
            interact: true,
            wait: self.wait,
        };
    }
}

/// Whether a key event names `key`.
fn key_is(key: &String, name: &str) -> (r: bool)
    ensures
        r == (key@ == name@),
{
    let n = String::from_str(name);
    *key == n
}

/// The interact key is none of the movement keys.
proof fn lemma_interact_key_distinct()
    ensures
        "e"@ != "w"@,
        "e"@ != "ArrowUp"@,
        "e"@ != "s"@,
        "e"@ != "ArrowDown"@,
        "e"@ != "a"@,
        "e"@ != "ArrowLeft"@,
        "e"@ != "d"@,
        "e"@ != "ArrowRight"@,
{
    reveal_strlit("e");
    reveal_strlit("w");
    reveal_strlit("ArrowUp");
    reveal_strlit("s");
    reveal_strlit("ArrowDown");
    reveal_strlit("a");
    reveal_strlit("ArrowLeft");
    reveal_strlit("d");
    reveal_strlit("ArrowRight");
    assert("e"@[0] != "w"@[0]);
    assert("e"@[0] != "s"@[0]);
    assert("e"@[0] != "a"@[0]);
    assert("e"@[0] != "d"@[0]);
}

/// The movement the events ask for, before diagonals are resolved: the last
/// vertical key decides `y`, the last horizontal key decides `x`.
pub open spec fn input_delta(events: Seq<InputEvent>) -> (int, int)
    decreases events.len(),
{
    if events.len() == 0 {
        (0, 0)
    } else {
        let (x, y) = input_delta(events.drop_last());
        match events.last() {
            InputEvent::KeyDown { key } => {
                if key@ == "w"@ || key@ == "ArrowUp"@ {
                    (x, -1)
                } else if key@ == "s"@ || key@ == "ArrowDown"@ {
                    (x, 1)
                } else if key@ == "a"@ || key@ == "ArrowLeft"@ {
                    (-1, y)
                } else if key@ == "d"@ || key@ == "ArrowRight"@ {
                    (1, y)
                } else {
                    (x, y)
                }
            },
            InputEvent::KeyUp { .. } => (x, y),
        }
    }
}

/// Some event presses the interact key.
pub open spec fn asks_interact(events: Seq<InputEvent>) -> bool {
    exists|i: int|
        0 <= i < events.len() && (#[trigger] events[i] matches InputEvent::KeyDown { key } && key@
            == "e"@)
}

/// The move the events ask for: diagonal input keeps only its vertical part.
pub open spec fn input_move(events: Seq<InputEvent>) -> (int, int) {
    let (x, y) = input_delta(events);
    if x != 0 && y != 0 {
        (0, y)
    } else {
        (x, y)
    }
}

proof fn lemma_input_delta_unit(events: Seq<InputEvent>)
    ensures
        -1 <= input_delta(events).0 <= 1,
        -1 <= input_delta(events).1 <= 1,
    decreases events.len(),
{
    if events.len() > 0 {
        lemma_input_delta_unit(events.drop_last());
    }
}

/// The movement keys name four distinct directions: no key of one direction is a key of
/// another.
proof fn lemma_movement_keys_distinct()
    ensures
        "d"@ != "w"@ && "d"@ != "ArrowUp"@ && "d"@ != "s"@ && "d"@ != "ArrowDown"@ && "d"@ != "a"@
            && "d"@ != "ArrowLeft"@,
        "ArrowRight"@ != "w"@ && "ArrowRight"@ != "ArrowUp"@ && "ArrowRight"@ != "s"@
            && "ArrowRight"@ != "ArrowDown"@ && "ArrowRight"@ != "a"@ && "ArrowRight"@ != "ArrowLeft"@,
        "a"@ != "w"@ && "a"@ != "ArrowUp"@ && "a"@ != "s"@ && "a"@ != "ArrowDown"@,
        "ArrowLeft"@ != "w"@ && "ArrowLeft"@ != "ArrowUp"@ && "ArrowLeft"@ != "s"@
            && "ArrowLeft"@ != "ArrowDown"@,
        "s"@ != "w"@ && "s"@ != "ArrowUp"@,
        "ArrowDown"@ != "w"@ && "ArrowDown"@ != "ArrowUp"@,
{
    reveal_strlit("w");
    reveal_strlit("ArrowUp");
    reveal_strlit("s");
    reveal_strlit("ArrowDown");
    reveal_strlit("a");
    reveal_strlit("ArrowLeft");
    reveal_strlit("d");
    reveal_strlit("ArrowRight");
    assert("d"@[0] != "w"@[0] && "d"@[0] != "s"@[0] && "d"@[0] != "a"@[0]);
    assert("a"@[0] != "w"@[0] && "a"@[0] != "s"@[0] && "s"@[0] != "w"@[0]);
    assert("ArrowRight"@[5] != "ArrowUp"@[5] && "ArrowRight"@[5] != "ArrowDown"@[5]);
    assert("ArrowRight"@[5] != "ArrowLeft"@[5] && "ArrowLeft"@[5] != "ArrowUp"@[5]);
    assert("ArrowLeft"@[5] != "ArrowDown"@[5] && "ArrowDown"@[5] != "ArrowUp"@[5]);
}

/// What one more key event does to the movement asked so far: "d" or "ArrowRight" asks to go
/// right (x = 1), "a" or "ArrowLeft" left (x = -1), "s" or "ArrowDown" down (y = 1), "w" or
/// "ArrowUp" up (y = -1), each keeping the other axis as it was; any other key, and any key
/// release, changes nothing. So from no movement asked, pressing "d" or "ArrowRight" asks for
/// one step right, `(1, 0)`.
pub proof fn lemma_key_moves(events: Seq<InputEvent>, key: String)
    ensures
        ({
            let (x, y) = input_delta(events);
            let after = input_delta(events.push(InputEvent::KeyDown { key }));
            &&& (key@ == "d"@ || key@ == "ArrowRight"@) ==> after == (1int, y)
            &&& (key@ == "a"@ || key@ == "ArrowLeft"@) ==> after == (-1int, y)
            &&& (key@ == "s"@ || key@ == "ArrowDown"@) ==> after == (x, 1int)
            &&& (key@ == "w"@ || key@ == "ArrowUp"@) ==> after == (x, -1int)
            &&& !(key@ == "d"@ || key@ == "ArrowRight"@ || key@ == "a"@ || key@ == "ArrowLeft"@
                || key@ == "s"@ || key@ == "ArrowDown"@ || key@ == "w"@ || key@ == "ArrowUp"@)
                ==> after == (x, y)
            &&& input_delta(events.push(InputEvent::KeyUp { key })) == (x, y)
        }),
        input_delta(events) == (0int, 0int) && (key@ == "d"@ || key@ == "ArrowRight"@) ==> input_move(
            events.push(InputEvent::KeyDown { key }),
        ) == (1int, 0int),
{
    lemma_movement_keys_distinct();
    assert(events.push(InputEvent::KeyDown { key }).drop_last() =~= events);
    assert(events.push(InputEvent::KeyUp { key }).drop_last() =~= events);
}

/// A vertical key pressed last decides the move alone: after "w" or "ArrowUp" the move is one
/// step up, `(0, -1)`, after "s" or "ArrowDown" one step down, `(0, 1)`, whatever horizontal
/// keys came before (a diagonal keeps only its vertical part). Pressing "e" asks to interact
/// and leaves the movement as it was.
pub proof fn lemma_vertical_key_wins(events: Seq<InputEvent>, key: String)
    ensures
        (key@ == "w"@ || key@ == "ArrowUp"@) ==> input_move(events.push(InputEvent::KeyDown { key }))
            == (0int, -1int),
        (key@ == "s"@ || key@ == "ArrowDown"@) ==> input_move(events.push(InputEvent::KeyDown { key }))
            == (0int, 1int),
        key@ == "e"@ ==> asks_interact(events.push(InputEvent::KeyDown { key })) && input_delta(
            events.push(InputEvent::KeyDown { key }),
        ) == input_delta(events),
{
    lemma_key_moves(events, key);
    lemma_interact_key_distinct();
    let evs = events.push(InputEvent::KeyDown { key });
    if key@ == "e"@ {
        assert(evs[events.len() as int] matches InputEvent::KeyDown { key: k } && k@ == "e"@);
    }
}

/// Turn this frame's key events into queued player actions.
pub fn update_input_events(inputs: &Vec<InputEvent>, actions: &mut PlayerActions)
    ensures
        final(actions).spec_interact() == (old(actions).spec_interact() || asks_interact(inputs@)),
        final(actions).spec_wait() == old(actions).spec_wait(),
        final(actions).spec_target() == old(actions).spec_target(),
        input_move(inputs@) != (0int, 0int) ==> final(actions).spec_move_action() == Some(
            Vec2 { x: input_move(inputs@).0 as i32, y: input_move(inputs@).1 as i32 },
        ),
        input_move(inputs@) == (0int, 0int) ==> final(actions).spec_move_action() == old(
            actions,
        ).spec_move_action(),
        final(actions).len_counts_actions(),
        // a queued move is one step along one axis
        input_move(inputs@) != (0int, 0int) ==> crate::math::abs(input_move(inputs@).0) + crate::math::abs(
            input_move(inputs@).1,
        ) == 1,
{
    proof {
        use_type_invariant(&*actions);
    }
    let mut dx: i32 = 0;
    let mut dy: i32 = 0;
    let n = inputs.len();
    let mut i: usize = 0;
    while i < n
        invariant
            n == inputs@.len(),
            i <= n,
            (dx as int, dy as int) == input_delta(inputs@.subrange(0, i as int)),
            -1 <= dx <= 1,
            -1 <= dy <= 1,
            actions.spec_interact() == (old(actions).spec_interact() || exists|j: int|
                0 <= j < i && (#[trigger] inputs@[j] matches InputEvent::KeyDown { key } && key@
                    == "e"@)),
            actions.spec_wait() == old(actions).spec_wait(),
            actions.spec_target() == old(actions).spec_target(),
            actions.spec_move_action() == old(actions).spec_move_action(),
            actions.len_counts_actions(),
        decreases n - i,
    {
        proof {
            assert(inputs@.subrange(0, i + 1).drop_last() =~= inputs@.subrange(0, i as int));
            lemma_interact_key_distinct();
        }
        match &inputs[i] {
            InputEvent::KeyDown { key } => {
                if key_is(key, "w") || key_is(key, "ArrowUp") {
                    dy = -1;
                } else if key_is(key, "s") || key_is(key, "ArrowDown") {
                    dy = 1;
                } else if key_is(key, "a") || key_is(key, "ArrowLeft") {
                    dx = -1;
                } else if key_is(key, "d") || key_is(key, "ArrowRight") {
                    dx = 1;
                } else if key_is(key, "e") {
                    actions.insert_interact();
                }
            },
            InputEvent::KeyUp { .. } => {},
        }
        proof {
            let ev = inputs@[i as int];
            if ev matches InputEvent::KeyDown { key } && key@ == "e"@ {
                assert(actions.spec_interact());
            } else {
                assert forall|j: int|
                    0 <= j < i + 1 && (#[trigger] inputs@[j] matches InputEvent::KeyDown { key }
                        && key@ == "e"@) implies j < i by {}
            }
        }
        i = i + 1;
    }
    proof {
        assert(inputs@.subrange(0, n as int) =~= inputs@);
    }
    if dx != 0 && dy != 0 {
        dx = 0;
    }
    if dx != 0 || dy != 0 {
        actions.insert_move(Vec2::new(dx, dy));
    }
}

} // verus!
