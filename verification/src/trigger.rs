//! Chord detection: turning button presses and releases into one debounced
//! trigger when the left and the right button go down together.
//!
//! Time is a reading of a monotonic clock in nanoseconds. The two thresholds
//! are given in milliseconds, as they stand in the configuration.

use vstd::prelude::*;

verus! {

/// Nanoseconds in one millisecond.
pub const NANOS_PER_MILLI: u64 = 1_000_000;

/// The code under which the kernel reports the left mouse button.
pub const BTN_LEFT: u16 = 0x110;

/// The code under which the kernel reports the right mouse button.
pub const BTN_RIGHT: u16 = 0x111;

/// The value with which the kernel reports that a button went down. Any
/// other value counts as a release.
pub const KEY_DOWN: i32 = 1;

/// One of the two buttons that make the chord.
#[derive(Clone, Copy, Debug, PartialEq, Eq, Structural)]
pub enum Button {
    Left,
    Right,
}

/// A press or a release of a button, with the time at which it was seen.
#[derive(Clone, Copy, Debug)]
pub struct ButtonEvent {
    pub button: Button,
    pub pressed: bool,
    pub timestamp: u64,
}

/// The event of a key of an input device, if the key is one of the two
/// buttons: `code` says which key, `value` whether it went down.
pub open spec fn event_of(code: u16, value: i32, timestamp: u64) -> Option<ButtonEvent> {
    if code == BTN_LEFT {
        Some(ButtonEvent { button: Button::Left, pressed: value == KEY_DOWN, timestamp })
    } else if code == BTN_RIGHT {
        Some(ButtonEvent { button: Button::Right, pressed: value == KEY_DOWN, timestamp })
    } else {
        None
    }
}

/// Reads the event of a key of an input device: see `event_of`.
pub fn button_event(code: u16, value: i32, timestamp: u64) -> (event: Option<ButtonEvent>)
    ensures
        event == event_of(code, value, timestamp),
{
    if code == BTN_LEFT {
        Some(ButtonEvent { button: Button::Left, pressed: value == KEY_DOWN, timestamp })
    } else if code == BTN_RIGHT {
        Some(ButtonEvent { button: Button::Right, pressed: value == KEY_DOWN, timestamp })
    } else {
        None
    }
}

/// The signal that a chord was accepted.
#[derive(Clone, Copy, Debug)]
pub struct TriggerEvent {
    /// Last known cursor position in pixels, `(0, 0)` when none was reported.
    pub position: (i32, i32),
    /// Time of the press that completed the chord.
    pub timestamp: u64,
}

/// What the engine remembers between events.
#[derive(Clone, Copy, Debug)]
pub struct MouseState {
    /// Time of the left press, while the left button is held.
    pub left_pressed: Option<u64>,
    /// Time of the right press, while the right button is held.
    pub right_pressed: Option<u64>,
    /// Time of the last accepted chord.
    pub last_trigger: Option<u64>,
    /// Last cursor position that the input layer reported.
    pub cursor: Option<(i32, i32)>,
}

/// Distance between two clock readings.
pub open spec fn gap(a: u64, b: u64) -> int {
    if a >= b {
        a - b
    } else {
        b - a
    }
}

/// Time from `earlier` to `now`; zero when the clock reads `now` before `earlier`.
pub open spec fn elapsed(now: u64, earlier: u64) -> int {
    if now >= earlier {
        now - earlier
    } else {
        0
    }
}

/// A duration of `ms` milliseconds, in nanoseconds.
pub open spec fn millis(ms: u64) -> int {
    ms * NANOS_PER_MILLI
}

impl MouseState {
    /// The state after `button` went down (`pressed`) or up at `now`: a press
    /// records or refreshes the time, a release forgets it.
    pub open spec fn record(self, button: Button, pressed: bool, now: u64) -> MouseState {
        let mark = if pressed {
            Some(now)
        } else {
            None
        };
        match button {
            Button::Left => MouseState { left_pressed: mark, ..self },
            Button::Right => MouseState { right_pressed: mark, ..self },
        }
    }

    /// Both buttons are held and went down within `threshold_ms` of each other.
    pub open spec fn chord_held(self, threshold_ms: u64) -> bool {
        &&& self.left_pressed is Some
        &&& self.right_pressed is Some
        &&& gap(self.left_pressed->0, self.right_pressed->0) <= millis(threshold_ms)
    }

    /// At least `debounce_ms` have passed at `now` since the last accepted chord.
    pub open spec fn debounced(self, debounce_ms: u64, now: u64) -> bool {
        self.last_trigger matches Some(last) ==> elapsed(now, last) >= millis(debounce_ms)
    }

    /// A chord is accepted at `now`.
    pub open spec fn fires(self, threshold_ms: u64, debounce_ms: u64, now: u64) -> bool {
        self.chord_held(threshold_ms) && self.debounced(debounce_ms, now)
    }

    /// The state after a chord was accepted at `now`: both buttons count as
    /// released until they are pressed again.
    pub open spec fn fired(self, now: u64) -> MouseState {
        MouseState { left_pressed: None, right_pressed: None, last_trigger: Some(now), ..self }
    }

    /// The position that a trigger carries.
    pub open spec fn position(self) -> (i32, i32) {
        match self.cursor {
            Some(p) => p,
            None => (0i32, 0i32),
        }
    }
}

impl Default for MouseState {
    fn default() -> (state: MouseState)
        ensures
            state.left_pressed is None,
            state.right_pressed is None,
            state.last_trigger is None,
            state.cursor is None,
    {
        MouseState { left_pressed: None, right_pressed: None, last_trigger: None, cursor: None }
    }
}

/// Detects simultaneous presses of the left and the right button.
pub struct InputListener {
    pub state: MouseState,
    /// Largest time between the two presses for them to count as one chord.
    pub simultaneous_threshold_ms: u64,
    /// Smallest time between two accepted chords.
    pub debounce_ms: u64,
}

impl InputListener {
    /// The listener after the evaluation that follows a press at `now`.
    pub open spec fn evaluated(self, now: u64) -> InputListener {
        if self.state.fires(self.simultaneous_threshold_ms, self.debounce_ms, now) {
            InputListener { state: self.state.fired(now), ..self }
        } else {
            self
        }
    }

    /// The trigger that the evaluation at `now` emits, if any.
    pub open spec fn emitted(self, now: u64) -> Option<TriggerEvent> {
        if self.state.fires(self.simultaneous_threshold_ms, self.debounce_ms, now) {
            Some(TriggerEvent { position: self.state.position(), timestamp: now })
        } else {
            None
        }
    }

    /// The listener with the event recorded, before any evaluation.
    pub open spec fn recorded(self, button: Button, pressed: bool, now: u64) -> InputListener {
        InputListener { state: self.state.record(button, pressed, now), ..self }
    }

    /// The listener after one button event.
    pub open spec fn stepped(self, button: Button, pressed: bool, now: u64) -> InputListener {
        if pressed {
            self.recorded(button, pressed, now).evaluated(now)
        } else {
            self.recorded(button, pressed, now)
        }
    }

    /// The trigger that one button event emits, if any.
    pub open spec fn step_output(self, button: Button, pressed: bool, now: u64) -> Option<
        TriggerEvent,
    > {
        if pressed {
            self.recorded(button, pressed, now).emitted(now)
        } else {
            None
        }
    }

    /// The listener after a sequence of events, taken in order.
    pub open spec fn replayed(self, events: Seq<ButtonEvent>) -> InputListener
        decreases events.len(),
    {
        if events.len() == 0 {
            self
        } else {
            let e = events.last();
            self.replayed(events.drop_last()).stepped(e.button, e.pressed, e.timestamp)
        }
    }

    /// The triggers that a sequence of events emits, in order.
    pub open spec fn replay_output(self, events: Seq<ButtonEvent>) -> Seq<TriggerEvent>
        decreases events.len(),
    {
        if events.len() == 0 {
            Seq::empty()
        } else {
            let e = events.last();
            let before = self.replay_output(events.drop_last());
            match self.replayed(events.drop_last()).step_output(e.button, e.pressed, e.timestamp) {
                Some(t) => before.push(t),
                None => before,
            }
        }
    }

    /// A listener with no button held and no chord accepted yet.
    pub fn new(simultaneous_threshold_ms: u64, debounce_ms: u64) -> (listener: InputListener)
        ensures
            listener.simultaneous_threshold_ms == simultaneous_threshold_ms,
            listener.debounce_ms == debounce_ms,
            listener.state.left_pressed is None,
            listener.state.right_pressed is None,
            listener.state.last_trigger is None,
            listener.state.cursor is None,
    {
        InputListener { state: MouseState::default(), simultaneous_threshold_ms, debounce_ms }
    }

    /// Remembers where the cursor is, for the next trigger to carry.
    pub fn set_cursor(&mut self, x: i32, y: i32)
        ensures
            *final(self) == (InputListener {
                state: MouseState { cursor: Some((x, y)), ..old(self).state },
                ..*old(self)
            }),
    {
        self.state.cursor = Some((x, y));
    }

    /// Evaluates the chord at `now`. When both buttons are held, went down
    /// within the threshold of each other, and the debounce time has passed,
    /// the chord is accepted: the trigger is returned, `now` becomes the time
    /// of the last trigger and both buttons count as released.
    pub fn check_trigger(&mut self, now: u64) -> (trigger: Option<TriggerEvent>)
        ensures
            *final(self) == old(self).evaluated(now),
            trigger == old(self).emitted(now),
            trigger is Some <==> old(self).state.fires(
                old(self).simultaneous_threshold_ms,
                old(self).debounce_ms,
                now,
            ),
    {
        let (left_time, right_time) = match (self.state.left_pressed, self.state.right_pressed) {
            (Some(l), Some(r)) => (l, r),
            _ => { return None; },
        };
        let diff: u64 = if left_time > right_time {
            left_time - right_time
        } else {
            right_time - left_time
        };
        if diff as u128 > self.simultaneous_threshold_ms as u128 * NANOS_PER_MILLI as u128 {
            return None;
        }
        if let Some(last) = self.state.last_trigger {
            let since: u64 = if now >= last {
                now - last
            } else {
                0
            };
            if (since as u128) < self.debounce_ms as u128 * NANOS_PER_MILLI as u128 {
                return None;
            }
        }
        let position = match self.state.cursor {
            Some(p) => p,
            None => (0i32, 0i32),
        };
        self.state.last_trigger = Some(now);
        self.state.left_pressed = None;
        self.state.right_pressed = None;
        Some(TriggerEvent { position, timestamp: now })
    }

    /// Takes one button event. A press records its time, a release clears it;
    /// after a press the chord is evaluated. A trigger is emitted exactly when
    /// the listener handles a press after which both buttons are held with
    /// press times within the threshold, and the debounce time has passed
    /// since the last trigger.
    pub fn handle_button(&mut self, button: Button, pressed: bool, now: u64) -> (trigger: Option<
        TriggerEvent,
    >)
        ensures
            *final(self) == old(self).stepped(button, pressed, now),
            trigger == old(self).step_output(button, pressed, now),
            trigger is Some <==> pressed && old(self).state.record(button, pressed, now).fires(
                old(self).simultaneous_threshold_ms,
                old(self).debounce_ms,
                now,
            ),
            trigger is Some ==> final(self).state.left_pressed is None
                && final(self).state.right_pressed is None
                && final(self).state.last_trigger == Some(now),
    {
        let mark = if pressed {
            Some(now)
        } else {
            None
        };
        match button {
            Button::Left => {
                self.state.left_pressed = mark;
            },
            Button::Right => {
                self.state.right_pressed = mark;
            },
        }
        if pressed {
            self.check_trigger(now)
        } else {
            None
        }
    }

    /// Takes the event of a key of an input device. A key that is neither
    /// of the two buttons changes nothing.
    pub fn handle_key(&mut self, code: u16, value: i32, now: u64) -> (trigger: Option<TriggerEvent>)
        ensures
            match event_of(code, value, now) {
                Some(e) => *final(self) == old(self).stepped(e.button, e.pressed, now) && trigger
                    == old(self).step_output(e.button, e.pressed, now),
                None => *final(self) == *old(self) && trigger is None,
            },
    {
        match button_event(code, value, now) {
            Some(e) => self.handle_button(e.button, e.pressed, now),
            None => None,
        }
    }

    /// Takes a batch of events in order and returns the triggers they emit.
    pub fn handle_events(&mut self, events: &Vec<ButtonEvent>) -> (triggers: Vec<TriggerEvent>)
        ensures
            *final(self) == old(self).replayed(events@),
            triggers@ == old(self).replay_output(events@),
    {
        let mut triggers: Vec<TriggerEvent> = Vec::new();
        let mut i: usize = 0;
        while i < events.len()
            invariant
                i <= events.len(),
                *self == old(self).replayed(events@.take(i as int)),
                triggers@ == old(self).replay_output(events@.take(i as int)),
            decreases events.len() - i,
        {
            let e = events[i];
            proof {
                assert(events@.take(i + 1).drop_last() == events@.take(i as int));
                assert(events@.take(i + 1).last() == e);
            }
            match self.handle_button(e.button, e.pressed, e.timestamp) {
                Some(t) => {
                    triggers.push(t);
                },
                None => {},
            }
            i += 1;
        }
        proof {
            assert(events@.take(events.len() as int) == events@);
        }
        triggers
    }
}

/// Every press in `events` is a press of `button`; releases are not restricted.
pub open spec fn presses_only(events: Seq<ButtonEvent>, button: Button) -> bool {
    forall|i: int| 0 <= i < events.len() && #[trigger] events[i].pressed ==> events[i].button == button
}

/// The button that is not `button`.
pub open spec fn other(button: Button) -> Button {
    match button {
        Button::Left => Button::Right,
        Button::Right => Button::Left,
    }
}

impl MouseState {
    /// The press time that the state holds for `button`.
    pub open spec fn held(self, button: Button) -> Option<u64> {
        match button {
            Button::Left => self.left_pressed,
            Button::Right => self.right_pressed,
        }
    }
}

/// Replaying events changes neither threshold.
pub proof fn lemma_replay_keeps_thresholds(listener: InputListener, events: Seq<ButtonEvent>)
    ensures
        listener.replayed(events).simultaneous_threshold_ms == listener.simultaneous_threshold_ms,
        listener.replayed(events).debounce_ms == listener.debounce_ms,
    decreases events.len(),
{
    if events.len() > 0 {
        lemma_replay_keeps_thresholds(listener, events.drop_last());
    }
}

/// After a trigger both buttons count as released: whatever follows, as long
/// as only one of the two buttons is pressed again, no second trigger is
/// emitted.
pub proof fn lemma_no_refire_without_other_button(
    listener: InputListener,
    first: Button,
    at: u64,
    events: Seq<ButtonEvent>,
    button: Button,
)
    requires
        listener.step_output(first, true, at) is Some,
        presses_only(events, button),
    ensures
        listener.stepped(first, true, at).replay_output(events).len() == 0,
        listener.stepped(first, true, at).replayed(events).state.held(other(button)) is None,
    decreases events.len(),
{
    let start = listener.stepped(first, true, at);
    if events.len() > 0 {
        let earlier = events.drop_last();
        assert(presses_only(earlier, button)) by {
            assert forall|i: int| 0 <= i < earlier.len() && #[trigger] earlier[i].pressed implies earlier[i].button
                == button by {
                assert(earlier[i] == events[i]);
            }
        }
        lemma_no_refire_without_other_button(listener, first, at, earlier, button);
        let e = events.last();
        assert(e == events[events.len() - 1]);
    }
}

/// The time of the last trigger that a listener holds after a sequence of
/// events is the time of the last trigger that the sequence emitted, and the
/// time it started with when the sequence emitted none.
pub proof fn lemma_last_trigger_follows_output(listener: InputListener, events: Seq<ButtonEvent>)
    ensures
        listener.replay_output(events).len() == 0 ==> listener.replayed(events).state.last_trigger
            == listener.state.last_trigger,
        listener.replay_output(events).len() > 0 ==> listener.replayed(events).state.last_trigger
            == Some(listener.replay_output(events).last().timestamp),
    decreases events.len(),
{
    if events.len() > 0 {
        lemma_last_trigger_follows_output(listener, events.drop_last());
    }
}

/// Emission respects the debounce window: of two triggers that a sequence of
/// events emits one after the other, the second comes no sooner than the
/// debounce time after the first.
pub proof fn lemma_triggers_respect_debounce(
    listener: InputListener,
    events: Seq<ButtonEvent>,
    i: int,
)
    requires
        0 <= i,
        i + 1 < listener.replay_output(events).len(),
    ensures
        elapsed(
            listener.replay_output(events)[i + 1].timestamp,
            listener.replay_output(events)[i].timestamp,
        ) >= millis(listener.debounce_ms),
    decreases events.len(),
{
    let earlier = events.drop_last();
    let e = events.last();
    let before = listener.replay_output(earlier);
    let out = listener.replay_output(events);
    if i + 1 < before.len() {
        lemma_triggers_respect_debounce(listener, earlier, i);
    } else {
        lemma_last_trigger_follows_output(listener, earlier);
        lemma_replay_keeps_thresholds(listener, earlier);
    }
}

/// The first trigger that a sequence of events emits comes no sooner than the
/// debounce time after the last trigger before the sequence.
pub proof fn lemma_first_trigger_respects_debounce(
    listener: InputListener,
    events: Seq<ButtonEvent>,
)
    requires
        listener.replay_output(events).len() > 0,
        listener.state.last_trigger is Some,
    ensures
        elapsed(listener.replay_output(events)[0].timestamp, listener.state.last_trigger->0)
            >= millis(listener.debounce_ms),
    decreases events.len(),
{
    let earlier = events.drop_last();
    if listener.replay_output(earlier).len() > 0 {
        lemma_first_trigger_respects_debounce(listener, earlier);
    } else {
        lemma_last_trigger_follows_output(listener, earlier);
        lemma_replay_keeps_thresholds(listener, earlier);
    }
}

impl InputListener {
    /// The position in `events` of the last event that emitted a trigger,
    /// and `-1` where none did.
    pub open spec fn last_fire(self, events: Seq<ButtonEvent>) -> int
        decreases events.len(),
    {
        if events.len() == 0 {
            -1
        } else {
            let e = events.last();
            if self.replayed(events.drop_last()).step_output(e.button, e.pressed, e.timestamp)
                is Some {
                events.len() - 1
            } else {
                self.last_fire(events.drop_last())
            }
        }
    }

    /// Since when `button` is held after `events`, by the events alone: since
    /// its last press, if neither a release of it nor a trigger came after
    /// that press. Before the first event of the button and the first trigger
    /// it is held as the listener started with it.
    pub open spec fn held_by_events(self, events: Seq<ButtonEvent>, button: Button) -> Option<u64> {
        let fire = self.last_fire(events);
        match last_event_of(events, button, fire) {
            Some(e) => if e.pressed {
                Some(e.timestamp)
            } else {
                None
            },
            None => if fire >= 0 {
                None
            } else {
                self.state.held(button)
            },
        }
    }

    /// The time of the last trigger after `events`, by the events alone.
    pub open spec fn last_trigger_by_events(self, events: Seq<ButtonEvent>) -> Option<u64> {
        if self.replay_output(events).len() > 0 {
            Some(self.replay_output(events).last().timestamp)
        } else {
            self.state.last_trigger
        }
    }
}

/// The last event of `button` in `events` behind position `after`.
pub open spec fn last_event_of(events: Seq<ButtonEvent>, button: Button, after: int) -> Option<
    ButtonEvent,
>
    decreases events.len(),
{
    if events.len() == 0 || events.len() - 1 <= after {
        None
    } else if events.last().button == button {
        Some(events.last())
    } else {
        last_event_of(events.drop_last(), button, after)
    }
}

/// What a listener holds of a button after a sequence of events is what the
/// events say: the time of the last press of the button, unless a release
/// of it or a trigger came after.
pub proof fn lemma_held_follows_events(
    listener: InputListener,
    events: Seq<ButtonEvent>,
    button: Button,
)
    ensures
        listener.replayed(events).state.held(button) == listener.held_by_events(events, button),
        -1 <= listener.last_fire(events) < events.len(),
    decreases events.len(),
{
    if events.len() > 0 {
        lemma_held_follows_events(listener, events.drop_last(), button);
    }
}

/// A trigger is emitted if and only if both buttons were in the pressed
/// state together, within the threshold, and the debounce time has passed
/// since the trigger before: the last of a sequence of events emits a
/// trigger exactly when it is a press, the other button is held since
/// a press no further away than the threshold, and the press comes no sooner
/// than the debounce time after the last trigger.
pub proof fn lemma_trigger_iff_chord(listener: InputListener, events: Seq<ButtonEvent>)
    requires
        events.len() > 0,
    ensures
        ({
            let e = events.last();
            let before = events.drop_last();
            listener.replayed(before).step_output(e.button, e.pressed, e.timestamp) is Some <==> {
                &&& e.pressed
                &&& listener.held_by_events(before, other(e.button)) matches Some(since)
                &&& gap(e.timestamp, since) <= millis(listener.simultaneous_threshold_ms)
                &&& (listener.last_trigger_by_events(before) matches Some(last) ==> elapsed(
                    e.timestamp,
                    last,
                ) >= millis(listener.debounce_ms))
            }
        }),
{
    let e = events.last();
    let before = events.drop_last();
    lemma_held_follows_events(listener, before, other(e.button));
    lemma_last_trigger_follows_output(listener, before);
    lemma_replay_keeps_thresholds(listener, before);
}

} // verus!
