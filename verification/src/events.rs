use vstd::prelude::*;

verus! {

/// The abstract state of the keyboard tracker: the keys held down, the keys
/// pressed since the last frame, and the keys released since the last frame.
#[verifier::ext_equal]
pub ghost struct KeyState {
    pub held: Seq<i32>,
    pub pressed: Seq<i32>,
    pub released: Seq<i32>,
}

/// Tracks which keys (by key code) are held, newly pressed and newly released.
pub struct Events {
    pub held: Vec<i32>,
    pub pressed: Vec<i32>,
    pub released: Vec<i32>,
}

impl View for Events {
    type V = KeyState;

    open spec fn view(&self) -> KeyState {
        KeyState { held: self.held@, pressed: self.pressed@, released: self.released@ }
    }
}

/// The state after a key-down event for `key`: the key is recorded as pressed
/// unless it is already pressed or held.
pub open spec fn key_down(s: KeyState, key: i32) -> KeyState {
    if !s.pressed.contains(key) && !s.held.contains(key) {
        KeyState { pressed: s.pressed.push(key), ..s }
    } else {
        s
    }
}

/// `keys` with every occurrence of `key` taken out, the others in their order.
pub open spec fn without(keys: Seq<i32>, key: i32) -> Seq<i32>
    decreases keys.len(),
{
    if keys.len() == 0 {
        keys
    } else if keys.last() == key {
        without(keys.drop_last(), key)
    } else {
        without(keys.drop_last(), key).push(keys.last())
    }
}

/// The state after a key-up event for `key`: every occurrence of the key leaves
/// the held list and the key is appended to the released list.
pub open spec fn key_up(s: KeyState, key: i32) -> KeyState {
    KeyState { held: without(s.held, key), released: s.released.push(key), ..s }
}

/// The state at the start of a new frame: pressed keys become held (taken from
/// the end of the pressed list first) and the released list is emptied.
pub open spec fn next_frame(s: KeyState) -> KeyState {
    KeyState { held: s.held + s.pressed.reverse(), pressed: Seq::empty(), released: Seq::empty() }
}

/// The tracker's invariant: no key is recorded twice as pressed or held, and
/// no key is both pressed and held.
pub open spec fn consistent(s: KeyState) -> bool {
    &&& s.held.no_duplicates()
    &&& s.pressed.no_duplicates()
    &&& forall|k: i32| s.pressed.contains(k) ==> !s.held.contains(k)
}


/// Membership in `without(keys, key)`: exactly the keys of `keys` other than `key`.
pub proof fn lemma_without_contains(keys: Seq<i32>, key: i32, k: i32)
    ensures
        without(keys, key).contains(k) <==> (keys.contains(k) && k != key),
    decreases keys.len(),
{
    if keys.len() > 0 {
        let d = keys.drop_last();
        lemma_without_contains(d, key, k);
        let r = without(d, key);
        assert(keys =~= d.push(keys.last()));
        assert(keys.contains(k) <==> (d.contains(k) || keys.last() == k)) by {
            if keys.contains(k) {
                let i = choose|i: int| 0 <= i < keys.len() && keys[i] == k;
                if i < keys.len() - 1 {
                    assert(d[i] == k);
                }
            }
            if d.contains(k) {
                let i = choose|i: int| 0 <= i < d.len() && d[i] == k;
                assert(keys[i] == k);
            }
            if keys.last() == k {
                assert(keys[keys.len() - 1] == k);
            }
        }
        if keys.last() != key {
            assert(r.push(keys.last()).contains(k) <==> (r.contains(k) || keys.last() == k)) by {
                let rp = r.push(keys.last());
                if rp.contains(k) {
                    let i = choose|i: int| 0 <= i < rp.len() && rp[i] == k;
                    if i < r.len() {
                        assert(r[i] == k);
                    }
                }
                if r.contains(k) {
                    let i = choose|i: int| 0 <= i < r.len() && r[i] == k;
                    assert(rp[i] == k);
                }
                if keys.last() == k {
                    assert(rp[r.len() as int] == k);
                }
            }
        }
    }
}

/// Taking a key out of a list without repeats leaves a list without repeats.
pub proof fn lemma_without_no_duplicates(keys: Seq<i32>, key: i32)
    requires
        keys.no_duplicates(),
    ensures
        without(keys, key).no_duplicates(),
    decreases keys.len(),
{
    if keys.len() > 0 {
        let d = keys.drop_last();
        assert(d.no_duplicates()) by {
            assert forall|i: int, j: int| 0 <= i < d.len() && 0 <= j < d.len() && i != j
                implies d[i] != d[j] by {
                assert(d[i] == keys[i] && d[j] == keys[j]);
            }
        }
        lemma_without_no_duplicates(d, key);
        lemma_without_contains(d, key, keys.last());
        if d.contains(keys.last()) {
            let i = choose|i: int| 0 <= i < d.len() && d[i] == keys.last();
            assert(keys[i] == keys[keys.len() - 1]);
        }
        let r = without(d, key);
        assert(r.push(keys.last()).no_duplicates()) by {
            assert forall|i: int, j: int| 0 <= i < r.len() + 1 && 0 <= j < r.len() + 1 && i != j
                implies r.push(keys.last())[i] != r.push(keys.last())[j] by {
                if i < r.len() && j < r.len() {
                } else if i < r.len() {
                    assert(r.contains(r[i]));
                } else {
                    assert(r.contains(r[j]));
                }
            }
        }
    }
}

/// Every key stays consistent through a key-down event.
pub proof fn lemma_key_down_consistent(s: KeyState, key: i32)
    requires
        consistent(s),
    ensures
        consistent(key_down(s, key)),
{
    let t = key_down(s, key);
    if !s.pressed.contains(key) && !s.held.contains(key) {
        assert forall|i: int, j: int| 0 <= i < t.pressed.len() && 0 <= j < t.pressed.len() && i != j
            implies t.pressed[i] != t.pressed[j] by {
            if i < s.pressed.len() && j < s.pressed.len() {
            } else if i < s.pressed.len() {
                assert(s.pressed.contains(s.pressed[i]));
            } else {
                assert(s.pressed.contains(s.pressed[j]));
            }
        }
        assert forall|k: i32| t.pressed.contains(k) implies !t.held.contains(k) by {
            let i = choose|i: int| 0 <= i < t.pressed.len() && t.pressed[i] == k;
            if i < s.pressed.len() {
                assert(s.pressed.contains(k));
            }
        }
    }
}

/// The tracker stays consistent through a key-up event.
pub proof fn lemma_key_up_consistent(s: KeyState, key: i32)
    requires
        consistent(s),
    ensures
        consistent(key_up(s, key)),
{
    lemma_without_no_duplicates(s.held, key);
    assert forall|k: i32| s.pressed.contains(k) implies !without(s.held, key).contains(k) by {
        lemma_without_contains(s.held, key, k);
    }
}

/// The tracker stays consistent across a frame boundary.
pub proof fn lemma_next_frame_consistent(s: KeyState)
    requires
        consistent(s),
    ensures
        consistent(next_frame(s)),
{
    let r = s.pressed.reverse();
    let h = s.held + r;
    assert forall|i: int, j: int| 0 <= i < h.len() && 0 <= j < h.len() && i != j
        implies h[i] != h[j] by {
        let n = s.held.len() as int;
        let m = s.pressed.len() as int;
        if i < n && j < n {
        } else if i >= n && j >= n {
            assert(h[i] == s.pressed[m - 1 - (i - n)]);
            assert(h[j] == s.pressed[m - 1 - (j - n)]);
        } else if i < n {
            assert(h[j] == s.pressed[m - 1 - (j - n)]);
            assert(s.pressed.contains(h[j]));
            assert(s.held.contains(h[i]));
        } else {
            assert(h[i] == s.pressed[m - 1 - (i - n)]);
            assert(s.pressed.contains(h[i]));
            assert(s.held.contains(h[j]));
        }
    }
}

/// Which keys are held after a frame boundary: those held or pressed before.
pub proof fn lemma_next_frame_held(s: KeyState, k: i32)
    ensures
        next_frame(s).held.contains(k) <==> (s.held.contains(k) || s.pressed.contains(k)),
        next_frame(s).pressed.len() == 0,
        next_frame(s).released.len() == 0,
{
    let r = s.pressed.reverse();
    let h = s.held + r;
    let n = s.held.len() as int;
    let m = s.pressed.len() as int;
    if h.contains(k) {
        let i = choose|i: int| 0 <= i < h.len() && h[i] == k;
        if i >= n {
            assert(s.pressed[m - 1 - (i - n)] == k);
        } else {
            assert(s.held[i] == k);
        }
    }
    if s.held.contains(k) {
        let i = choose|i: int| 0 <= i < n && s.held[i] == k;
        assert(h[i] == k);
    }
    if s.pressed.contains(k) {
        let i = choose|i: int| 0 <= i < m && s.pressed[i] == k;
        assert(h[n + (m - 1 - i)] == k);
    }
}

/// A key pressed during a frame is held once the next frame starts.
pub proof fn law_press_then_next_frame_holds(s: KeyState, key: i32)
    ensures
        next_frame(key_down(s, key)).held.contains(key),
{
    let t = key_down(s, key);
    if !s.pressed.contains(key) && !s.held.contains(key) {
        assert(t.pressed[t.pressed.len() - 1] == key);
    }
    lemma_next_frame_held(t, key);
}

/// After a key-up event the key is no longer held, and it is the last key
/// released.
pub proof fn law_release_stops_holding(s: KeyState, key: i32)
    ensures
        !key_up(s, key).held.contains(key),
        key_up(s, key).released.last() == key,
        key_up(s, key).pressed == s.pressed,
{
    lemma_without_contains(s.held, key, key);
}

/// Pressing a key twice in one frame is the same as pressing it once.
pub proof fn law_key_down_idempotent(s: KeyState, key: i32)
    ensures
        key_down(key_down(s, key), key) == key_down(s, key),
{
    let t = key_down(s, key);
    if !s.pressed.contains(key) && !s.held.contains(key) {
        assert(t.pressed[t.pressed.len() - 1] == key);
    }
}

/// A new tracker is consistent.
pub proof fn law_consistent_initially()
    ensures
        consistent(initial_state()),
{
}

/// The state of a new tracker: nothing held, pressed or released.
pub open spec fn initial_state() -> KeyState {
    KeyState { held: Seq::empty(), pressed: Seq::empty(), released: Seq::empty() }
}

/// One operation on the tracker: a key-down event, a key-up event, or the
/// start of a frame.
pub ghost enum KeyOp {
    Down(i32),
    Up(i32),
    Frame,
}

/// The state after one operation.
pub open spec fn apply(s: KeyState, op: KeyOp) -> KeyState {
    match op {
        KeyOp::Down(k) => key_down(s, k),
        KeyOp::Up(k) => key_up(s, k),
        KeyOp::Frame => next_frame(s),
    }
}

/// The state a new tracker reaches through the operations `ops`, in order.
pub open spec fn run(ops: Seq<KeyOp>) -> KeyState
    decreases ops.len(),
{
    if ops.len() == 0 { initial_state() } else { apply(run(ops.drop_last()), ops.last()) }
}

/// The key-down events since the last frame start (or since the start), in
/// order, without those whose key was already pressed or held when it came.
pub open spec fn accepted_presses(ops: Seq<KeyOp>) -> Seq<i32>
    decreases ops.len(),
{
    if ops.len() == 0 {
        Seq::empty()
    } else {
        let d = ops.drop_last();
        let prev = accepted_presses(d);
        match ops.last() {
            KeyOp::Down(k) => if prev.contains(k) || run(d).held.contains(k) { prev } else { prev.push(k) },
            KeyOp::Up(_) => prev,
            KeyOp::Frame => Seq::empty(),
        }
    }
}

/// The keys of every key-up event since the last frame start (or since the
/// start), in order, repeats kept.
pub open spec fn key_ups_since_frame(ops: Seq<KeyOp>) -> Seq<i32>
    decreases ops.len(),
{
    if ops.len() == 0 {
        Seq::empty()
    } else {
        let prev = key_ups_since_frame(ops.drop_last());
        match ops.last() {
            KeyOp::Down(_) => prev,
            KeyOp::Up(k) => prev.push(k),
            KeyOp::Frame => Seq::empty(),
        }
    }
}

/// Every state a new tracker reaches through any run of operations is
/// consistent.
pub proof fn law_consistent_always(ops: Seq<KeyOp>)
    ensures
        consistent(run(ops)),
    decreases ops.len(),
{
    if ops.len() > 0 {
        let d = ops.drop_last();
        law_consistent_always(d);
        match ops.last() {
            KeyOp::Down(k) => lemma_key_down_consistent(run(d), k),
            KeyOp::Up(k) => lemma_key_up_consistent(run(d), k),
            KeyOp::Frame => lemma_next_frame_consistent(run(d)),
        }
    }
}

/// The pressed keys are the accepted key-down events since the last frame
/// start, in order.
pub proof fn law_pressed_are_accepted_presses(ops: Seq<KeyOp>)
    ensures
        run(ops).pressed == accepted_presses(ops),
    decreases ops.len(),
{
    if ops.len() > 0 {
        law_pressed_are_accepted_presses(ops.drop_last());
    }
}

/// The released keys are those of every key-up event since the last frame
/// start, in order.
pub proof fn law_released_are_key_ups(ops: Seq<KeyOp>)
    ensures
        run(ops).released == key_ups_since_frame(ops),
    decreases ops.len(),
{
    if ops.len() > 0 {
        law_released_are_key_ups(ops.drop_last());
    }
}

fn vec_contains(v: &Vec<i32>, key: i32) -> (r: bool)
    ensures
        r == v@.contains(key),
{
    let mut i: usize = 0;
    while i < v.len()
        invariant
            i <= v.len(),
            forall|j: int| 0 <= j < i ==> v@[j] != key,
        decreases v.len() - i,
    {
        if v[i] == key {
            return true;
        }
        i = i + 1;
    }
    false
}

impl Events {
    /// A tracker with no key held, pressed or released.
    pub fn new() -> (e: Events)
        ensures
            e@.held == Seq::<i32>::empty(),
            e@.pressed == Seq::<i32>::empty(),
            e@.released == Seq::<i32>::empty(),
            e@ == initial_state(),
    {
        Events { held: Vec::new(), pressed: Vec::new(), released: Vec::new() }
    }

    /// Records a key-down event.
    pub fn update_down(&mut self, key: i32)
        ensures
            final(self)@ == key_down(old(self)@, key),
            consistent(old(self)@) ==> consistent(final(self)@),
    {
        if !vec_contains(&self.pressed, key) && !vec_contains(&self.held, key) {
            self.pressed.push(key);
        }
        proof {
            if consistent(old(self)@) {
                lemma_key_down_consistent(old(self)@, key);
            }
        }
    }

    /// Records a key-up event.
    pub fn update_up(&mut self, key: i32)
        ensures
            final(self)@ == key_up(old(self)@, key),
            consistent(old(self)@) ==> consistent(final(self)@),
    {
        let ghost old_held = self.held@;
        let mut kept: Vec<i32> = Vec::new();
        let mut i: usize = 0;
        while i < self.held.len()
            invariant
                i <= self.held.len(),
                self.held@ == old_held,
                kept@ == without(old_held.take(i as int), key),
            decreases self.held.len() - i,
        {
            proof {
                assert(old_held.take(i + 1).drop_last() =~= old_held.take(i as int));
            }
            let k = self.held[i];
            if k != key {
                kept.push(k);
            }
            i = i + 1;
        }
        proof {
            assert(old_held.take(old_held.len() as int) =~= old_held);
        }
        self.held = kept;
        self.released.push(key);
        assert(self@ =~= key_up(old(self)@, key));
        proof {
            if consistent(old(self)@) {
                lemma_key_up_consistent(old(self)@, key);
            }
        }
    }

    /// Starts a new frame: every pressed key becomes held and the released
    /// keys are forgotten.
    pub fn update(&mut self)
        ensures
            final(self)@ == next_frame(old(self)@),
            consistent(old(self)@) ==> consistent(final(self)@),
    {
        let ghost old_s = self@;
        while self.pressed.len() > 0
            invariant
                old_s.held + old_s.pressed.reverse() == self.held@ + self.pressed@.reverse(),
                self.released@ == old_s.released,
            decreases self.pressed.len(),
        {
            let ghost before_held = self.held@;
            let ghost before_pressed = self.pressed@;
            let key = self.pressed.pop().unwrap();
            self.held.push(key);
            proof {
                assert(before_pressed.reverse() =~= seq![key] + self.pressed@.reverse());
                assert(before_held + before_pressed.reverse() =~= self.held@ + self.pressed@.reverse());
            }
        }
        self.released.clear();
        proof {
            assert(self.pressed@.reverse() =~= Seq::<i32>::empty());
            assert(self.held@ + self.pressed@.reverse() =~= self.held@);
            assert(self@ =~= next_frame(old(self)@));
            if consistent(old(self)@) {
                lemma_next_frame_consistent(old(self)@);
            }
        }
    }

    /// Whether `value` is currently held.
    pub fn held_contains(&self, value: &i32) -> (r: bool)
        ensures
            r == self@.held.contains(*value),
    {
        vec_contains(&self.held, *value)
    }
}

/// An input event, as far as the tracker cares: a request to quit, a key
/// going down or up (with its key code when it has one), or anything else.
pub enum InputEvent {
    Quit,
    KeyDown(Option<i32>),
    KeyUp(Option<i32>),
    Other,
}

/// The state after handling `event`, and whether the program keeps running.
pub open spec fn handled(s: KeyState, event: InputEvent) -> (KeyState, bool) {
    match event {
        InputEvent::Quit => (s, false),
        InputEvent::KeyDown(Some(key)) => (key_down(s, key), true),
        InputEvent::KeyUp(Some(key)) => (key_up(s, key), true),
        _ => (s, true),
    }
}

impl Events {
    /// Handles one input event: key-down and key-up events with a key code
    /// update the tracker; a quit request stops the program.
    pub fn handle(&mut self, event: InputEvent) -> (running: bool)
        ensures
            (final(self)@, running) == handled(old(self)@, event),
            consistent(old(self)@) ==> consistent(final(self)@),
    {
        match event {
            InputEvent::Quit => false,
            InputEvent::KeyDown(Some(key)) => {
                self.update_down(key);
                true
            },
            InputEvent::KeyUp(Some(key)) => {
                self.update_up(key);
                true
            },
            _ => true,
        }
    }
}

} // verus!
