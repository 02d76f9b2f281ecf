//! The first keyboard handler: a ring of read and write positions that keeps
//! one slot free, and Esc typed as a character.
use vstd::prelude::*;
use crate::drivers::keyboard::{decode_key, key_char, next_state, KeyboardState};

verus! {

/// Slots in the ring; one always stays free.
pub const QUEUE_SIZE: usize = 128;

/// A ring of typed characters between a read and a write position.
pub struct KeyQueue {
    buffer: Vec<char>,
    read_pos: usize,
    write_pos: usize,
}

impl View for KeyQueue {
    type V = Seq<char>;

    /// The queued characters, oldest first.
    closed spec fn view(&self) -> Seq<char> {
        let n = (self.write_pos - self.read_pos + QUEUE_SIZE) % QUEUE_SIZE as int;
        Seq::new(n as nat, |k: int| self.buffer@[(self.read_pos + k) % QUEUE_SIZE as int])
    }
}

impl KeyQueue {
    pub closed spec fn wf(&self) -> bool {
        &&& self.buffer@.len() == QUEUE_SIZE
        &&& self.read_pos < QUEUE_SIZE
        &&& self.write_pos < QUEUE_SIZE
    }

    /// An empty queue.
    pub fn new() -> (r: Self)
        ensures
            r.wf(),
            r@ == Seq::<char>::empty(),
    {
        let r = KeyQueue { buffer: vec!['\0'; QUEUE_SIZE], read_pos: 0, write_pos: 0 };
        proof {
            assert(r@ =~= Seq::<char>::empty());
        }
        r
    }

    /// Appends `c` unless that would fill the last free slot.
    pub fn push(&mut self, c: char)
        requires
            old(self).wf(),
        ensures
            final(self).wf(),
            old(self)@.len() < QUEUE_SIZE - 1 ==> final(self)@ == old(self)@.push(c),
            old(self)@.len() >= QUEUE_SIZE - 1 ==> final(self)@ == old(self)@,
            final(self)@.len() < QUEUE_SIZE,
    {
        let next_write = (self.write_pos + 1) % QUEUE_SIZE;
        if next_write != self.read_pos {
            let ghost before = self@;
            let w = self.write_pos;
            self.buffer.set(w, c);
            self.write_pos = next_write;
            proof {
                let r = self.read_pos as int;
                let n = before.len() as int;
                assert(n == (w - r + 128) % 128);
                assert((self.write_pos - r + 128) % 128 == n + 1);
                assert forall|k: int| 0 <= k < n implies #[trigger] self@[k] == before[k] by {
                    assert((r + k) % 128 != w);
                }
                assert((r + n) % 128 == w);
                assert(self@ =~= before.push(c));
            }
        }
    }

    /// Removes and returns the oldest character, or `None` when empty.
    pub fn pop(&mut self) -> (r: Option<char>)
        requires
            old(self).wf(),
        ensures
            final(self).wf(),
            old(self)@.len() == 0 ==> r is None && final(self)@ == old(self)@,
            old(self)@.len() > 0 ==> r == Some(old(self)@[0]) && final(self)@ == old(self)@.drop_first(),
    {
        if self.read_pos == self.write_pos {
            None
        } else {
            let ghost before = self@;
            let c = self.buffer[self.read_pos];
            self.read_pos = (self.read_pos + 1) % QUEUE_SIZE;
            proof {
                let r0 = old(self).read_pos as int;
                let w = self.write_pos as int;
                assert(before.len() == (w - r0 + 128) % 128);
                assert(before.len() > 0);
                assert(self@.len() == before.len() - 1);
                assert forall|k: int| 0 <= k < self@.len() implies #[trigger] self@[k] == before[k + 1] by {
                    assert((r0 + (k + 1)) % 128 == (self.read_pos + k) % 128);
                }
                assert(self@ =~= before.drop_first());
            }
            Some(c)
        }
    }
}

/// Takes the next typed character from the queue.
pub fn pop_key(queue: &mut KeyQueue) -> (r: Option<char>)
    requires
        old(queue).wf(),
    ensures
        final(queue).wf(),
        old(queue)@.len() == 0 ==> r is None && final(queue)@ == old(queue)@,
        old(queue)@.len() > 0 ==> r == Some(old(queue)@[0]) && final(queue)@ == old(queue)@.drop_first(),
{
    queue.pop()
}

/// The character that `scancode` types in `state`: as the current driver,
/// but Esc types `'\x1b'`.
pub open spec fn typed_char(state: KeyboardState, scancode: u8) -> Option<char> {
    if scancode == 0x2A || scancode == 0xAA || scancode == 0x36 || scancode == 0xB6 || scancode == 0x3A {
        None
    } else if scancode >= 0x80 {
        None
    } else if scancode == 0x01 {
        Some('\x1b')
    } else {
        key_char(scancode, state.lshift || state.rshift, state.spec_is_shifted())
    }
}

/// Handles one scancode: updates the modifier state and queues the
/// character it types, if any.
pub fn handle_scancode(state: &mut KeyboardState, queue: &mut KeyQueue, scancode: u8)
    requires
        old(queue).wf(),
    ensures
        final(queue).wf(),
        *final(state) == next_state(*old(state), scancode),
        typed_char(*old(state), scancode) is Some && old(queue)@.len() < QUEUE_SIZE - 1 ==> final(queue)@
            == old(queue)@.push(typed_char(*old(state), scancode)->0),
        !(typed_char(*old(state), scancode) is Some && old(queue)@.len() < QUEUE_SIZE - 1) ==> final(queue)@
            == old(queue)@,
{
    match scancode {
        0x2A => {
            state.lshift = true;
            return;
        },
        0xAA => {
            state.lshift = false;
            return;
        },
        0x36 => {
            state.rshift = true;
            return;
        },
        0xB6 => {
            state.rshift = false;
            return;
        },
        0x3A => {
            state.caps_lock = !state.caps_lock;
            return;
        },
        _ => {},
    }
    if scancode >= 0x80 {
        return;
    }
    let shift = state.lshift || state.rshift;
    let uppercase = shift ^ state.caps_lock;
    let character = if scancode == 0x01 {
        '\x1b'
    } else {
        match decode_key(scancode, shift, uppercase) {
            Some(c) => c,
            None => {
                return;
            },
        }
    };
    queue.push(character);
}

} // verus!
