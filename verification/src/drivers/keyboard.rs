//! PS/2 keyboard: scancode set 1 decoding and the queue of typed keys.
use vstd::prelude::*;

verus! {

/// Number of keys the queue holds.
pub const KEY_BUFFER_CAPACITY: usize = 128;

/// The characters of a key: unshifted, shifted, and whether Caps Lock
/// affects it (letters) or only Shift does (digits and symbols).
pub open spec fn key_table(scancode: u8) -> Option<(char, char, bool)> {
    match scancode {
        0x02 => Some(('1', '!', false)),
        0x03 => Some(('2', '@', false)),
        0x04 => Some(('3', '#', false)),
        0x05 => Some(('4', '$', false)),
        0x06 => Some(('5', '%', false)),
        0x07 => Some(('6', '^', false)),
        0x08 => Some(('7', '&', false)),
        0x09 => Some(('8', '*', false)),
        0x0A => Some(('9', '(', false)),
        0x0B => Some(('0', ')', false)),
        0x0C => Some(('-', '_', false)),
        0x0D => Some(('=', '+', false)),
        0x0E => Some(('\x08', '\x08', false)),
        0x0F => Some(('\t', '\t', false)),
        0x10 => Some(('q', 'Q', true)),
        0x11 => Some(('w', 'W', true)),
        0x12 => Some(('e', 'E', true)),
        0x13 => Some(('r', 'R', true)),
        0x14 => Some(('t', 'T', true)),
        0x15 => Some(('y', 'Y', true)),
        0x16 => Some(('u', 'U', true)),
        0x17 => Some(('i', 'I', true)),
        0x18 => Some(('o', 'O', true)),
        0x19 => Some(('p', 'P', true)),
        0x1A => Some(('[', '{', false)),
        0x1B => Some((']', '}', false)),
        0x1C => Some(('\n', '\n', false)),
        0x1E => Some(('a', 'A', true)),
        0x1F => Some(('s', 'S', true)),
        0x20 => Some(('d', 'D', true)),
        0x21 => Some(('f', 'F', true)),
        0x22 => Some(('g', 'G', true)),
        0x23 => Some(('h', 'H', true)),
        0x24 => Some(('j', 'J', true)),
        0x25 => Some(('k', 'K', true)),
        0x26 => Some(('l', 'L', true)),
        0x27 => Some((';', ':', false)),
        0x28 => Some(('\'', '"', false)),
        0x29 => Some(('`', '~', false)),
        0x2B => Some(('\\', '|', false)),
        0x2C => Some(('z', 'Z', true)),
        0x2D => Some(('x', 'X', true)),
        0x2E => Some(('c', 'C', true)),
        0x2F => Some(('v', 'V', true)),
        0x30 => Some(('b', 'B', true)),
        0x31 => Some(('n', 'N', true)),
        0x32 => Some(('m', 'M', true)),
        0x33 => Some((',', '<', false)),
        0x34 => Some(('.', '>', false)),
        0x35 => Some(('/', '?', false)),
        0x39 => Some((' ', ' ', false)),
        _ => None,
    }
}

/// The character of a key press, given whether Shift is held and whether
/// letters come out in upper case.
pub open spec fn key_char(scancode: u8, shift: bool, uppercase: bool) -> Option<char> {
    match key_table(scancode) {
        Some((plain, shifted, letter)) => Some(
            if (if letter { uppercase } else { shift }) {
                shifted
            } else {
                plain
            },
        ),
        None => None,
    }
}

/// The entry of `key_table` for `scancode`.
pub fn key_entry(scancode: u8) -> (r: Option<(char, char, bool)>)
    ensures
        r == key_table(scancode),
{
    match scancode {
        0x02 => Some(('1', '!', false)),
        0x03 => Some(('2', '@', false)),
        0x04 => Some(('3', '#', false)),
        0x05 => Some(('4', '$', false)),
        0x06 => Some(('5', '%', false)),
        0x07 => Some(('6', '^', false)),
        0x08 => Some(('7', '&', false)),
        0x09 => Some(('8', '*', false)),
        0x0A => Some(('9', '(', false)),
        0x0B => Some(('0', ')', false)),
        0x0C => Some(('-', '_', false)),
        0x0D => Some(('=', '+', false)),
        0x0E => Some(('\x08', '\x08', false)),
        0x0F => Some(('\t', '\t', false)),
        0x10 => Some(('q', 'Q', true)),
        0x11 => Some(('w', 'W', true)),
        0x12 => Some(('e', 'E', true)),
        0x13 => Some(('r', 'R', true)),
        0x14 => Some(('t', 'T', true)),
        0x15 => Some(('y', 'Y', true)),
        0x16 => Some(('u', 'U', true)),
        0x17 => Some(('i', 'I', true)),
        0x18 => Some(('o', 'O', true)),
        0x19 => Some(('p', 'P', true)),
        0x1A => Some(('[', '{', false)),
        0x1B => Some((']', '}', false)),
        0x1C => Some(('\n', '\n', false)),
        0x1E => Some(('a', 'A', true)),
        0x1F => Some(('s', 'S', true)),
        0x20 => Some(('d', 'D', true)),
        0x21 => Some(('f', 'F', true)),
        0x22 => Some(('g', 'G', true)),
        0x23 => Some(('h', 'H', true)),
        0x24 => Some(('j', 'J', true)),
        0x25 => Some(('k', 'K', true)),
        0x26 => Some(('l', 'L', true)),
        0x27 => Some((';', ':', false)),
        0x28 => Some(('\'', '"', false)),
        0x29 => Some(('`', '~', false)),
        0x2B => Some(('\\', '|', false)),
        0x2C => Some(('z', 'Z', true)),
        0x2D => Some(('x', 'X', true)),
        0x2E => Some(('c', 'C', true)),
        0x2F => Some(('v', 'V', true)),
        0x30 => Some(('b', 'B', true)),
        0x31 => Some(('n', 'N', true)),
        0x32 => Some(('m', 'M', true)),
        0x33 => Some((',', '<', false)),
        0x34 => Some(('.', '>', false)),
        0x35 => Some(('/', '?', false)),
        0x39 => Some((' ', ' ', false)),
        _ => None,
    }
}

/// The character of a key press (see `key_char`).
pub fn decode_key(scancode: u8, shift: bool, uppercase: bool) -> (r: Option<char>)
    ensures
        r == key_char(scancode, shift, uppercase),
{
    match key_entry(scancode) {
        Some((plain, shifted, letter)) => {
            let use_shifted = if letter { uppercase } else { shift };
            Some(if use_shifted { shifted } else { plain })
        },
        None => None,
    }
}

/// The unshifted characters of the US keyboard row `1234567890`, left to right.
pub open spec fn us_digits() -> Seq<char> {
    seq!['1', '2', '3', '4', '5', '6', '7', '8', '9', '0']
}

/// The shifted characters of that row.
pub open spec fn us_digits_shifted() -> Seq<char> {
    seq!['!', '@', '#', '$', '%', '^', '&', '*', '(', ')']
}

/// The unshifted characters of the US keyboard row `qwertyuiop`, left to right.
pub open spec fn us_top_letters() -> Seq<char> {
    seq!['q', 'w', 'e', 'r', 't', 'y', 'u', 'i', 'o', 'p']
}

/// The shifted characters of that row.
pub open spec fn us_top_letters_shifted() -> Seq<char> {
    seq!['Q', 'W', 'E', 'R', 'T', 'Y', 'U', 'I', 'O', 'P']
}

/// The unshifted characters of the US keyboard row `asdfghjkl`, left to right.
pub open spec fn us_home_letters() -> Seq<char> {
    seq!['a', 's', 'd', 'f', 'g', 'h', 'j', 'k', 'l']
}

/// The shifted characters of that row.
pub open spec fn us_home_letters_shifted() -> Seq<char> {
    seq!['A', 'S', 'D', 'F', 'G', 'H', 'J', 'K', 'L']
}

/// The unshifted characters of the US keyboard row `zxcvbnm`, left to right.
pub open spec fn us_bottom_letters() -> Seq<char> {
    seq!['z', 'x', 'c', 'v', 'b', 'n', 'm']
}

/// The shifted characters of that row.
pub open spec fn us_bottom_letters_shifted() -> Seq<char> {
    seq!['Z', 'X', 'C', 'V', 'B', 'N', 'M']
}

/// Scancode set 1 decodes to the characters printed on a US keyboard: the
/// digit row from 0x02, the letter rows from 0x10, 0x1E and 0x2C (letters
/// follow the upper-case flag, every other key follows Shift), the
/// punctuation keys, Backspace, Tab, Enter and Space; no other scancode
/// types a character.
pub proof fn law_us_keyboard_layout()
    ensures
        forall|i: int, upper: bool|
            #![trigger us_digits()[i], key_char((0x02 + i) as u8, false, upper)]
            0 <= i < 10 ==> key_char((0x02 + i) as u8, false, upper) == Some(us_digits()[i])
                && key_char((0x02 + i) as u8, true, upper) == Some(us_digits_shifted()[i]),
        forall|i: int, shift: bool|
            #![trigger us_top_letters()[i], key_char((0x10 + i) as u8, shift, false)]
            0 <= i < 10 ==> key_char((0x10 + i) as u8, shift, false) == Some(us_top_letters()[i])
                && key_char((0x10 + i) as u8, shift, true) == Some(us_top_letters_shifted()[i]),
        forall|i: int, shift: bool|
            #![trigger us_home_letters()[i], key_char((0x1E + i) as u8, shift, false)]
            0 <= i < 9 ==> key_char((0x1E + i) as u8, shift, false) == Some(us_home_letters()[i])
                && key_char((0x1E + i) as u8, shift, true) == Some(us_home_letters_shifted()[i]),
        forall|i: int, shift: bool|
            #![trigger us_bottom_letters()[i], key_char((0x2C + i) as u8, shift, false)]
            0 <= i < 7 ==> key_char((0x2C + i) as u8, shift, false) == Some(us_bottom_letters()[i])
                && key_char((0x2C + i) as u8, shift, true) == Some(us_bottom_letters_shifted()[i]),
        forall|shift: bool, upper: bool|
            #![trigger key_char(0x0C, shift, upper)]
            {
                &&& key_char(0x0C, shift, upper) == Some(if shift { '_' } else { '-' })
                &&& key_char(0x0D, shift, upper) == Some(if shift { '+' } else { '=' })
                &&& key_char(0x1A, shift, upper) == Some(if shift { '{' } else { '[' })
                &&& key_char(0x1B, shift, upper) == Some(if shift { '}' } else { ']' })
                &&& key_char(0x27, shift, upper) == Some(if shift { ':' } else { ';' })
                &&& key_char(0x28, shift, upper) == Some(if shift { '"' } else { '\'' })
                &&& key_char(0x29, shift, upper) == Some(if shift { '~' } else { '`' })
                &&& key_char(0x2B, shift, upper) == Some(if shift { '|' } else { '\\' })
                &&& key_char(0x33, shift, upper) == Some(if shift { '<' } else { ',' })
                &&& key_char(0x34, shift, upper) == Some(if shift { '>' } else { '.' })
                &&& key_char(0x35, shift, upper) == Some(if shift { '?' } else { '/' })
                &&& key_char(0x0E, shift, upper) == Some('\x08')
                &&& key_char(0x0F, shift, upper) == Some('\t')
                &&& key_char(0x1C, shift, upper) == Some('\n')
                &&& key_char(0x39, shift, upper) == Some(' ')
            },
        forall|sc: u8, shift: bool, upper: bool|
            !(0x02 <= sc <= 0x1C || 0x1E <= sc <= 0x29 || 0x2B <= sc <= 0x35 || sc == 0x39) ==> #[trigger] key_char(
                sc,
                shift,
                upper,
            ) is None,
{
    assert forall|i: int, shift: bool| #![trigger us_top_letters()[i], key_char((0x10 + i) as u8, shift, false)] 0 <= i < 10 implies key_char((0x10 + i) as u8, shift, false) == Some(
        us_top_letters()[i],
    ) && key_char((0x10 + i) as u8, shift, true) == Some(us_top_letters_shifted()[i]) by {
        assert(i == 0 || i == 1 || i == 2 || i == 3 || i == 4 || i == 5 || i == 6 || i == 7 || i == 8 || i == 9);
    }
    assert forall|i: int, shift: bool| #![trigger us_home_letters()[i], key_char((0x1E + i) as u8, shift, false)] 0 <= i < 9 implies key_char((0x1E + i) as u8, shift, false) == Some(
        us_home_letters()[i],
    ) && key_char((0x1E + i) as u8, shift, true) == Some(us_home_letters_shifted()[i]) by {
        assert(i == 0 || i == 1 || i == 2 || i == 3 || i == 4 || i == 5 || i == 6 || i == 7 || i == 8);
    }
    assert forall|i: int, shift: bool| #![trigger us_bottom_letters()[i], key_char((0x2C + i) as u8, shift, false)] 0 <= i < 7 implies key_char((0x2C + i) as u8, shift, false) == Some(
        us_bottom_letters()[i],
    ) && key_char((0x2C + i) as u8, shift, true) == Some(us_bottom_letters_shifted()[i]) by {
        assert(i == 0 || i == 1 || i == 2 || i == 3 || i == 4 || i == 5 || i == 6);
    }
    assert forall|i: int, upper: bool| #![trigger us_digits()[i], key_char((0x02 + i) as u8, false, upper)] 0 <= i < 10 implies key_char((0x02 + i) as u8, false, upper) == Some(
        us_digits()[i],
    ) && key_char((0x02 + i) as u8, true, upper) == Some(us_digits_shifted()[i]) by {
        assert(i == 0 || i == 1 || i == 2 || i == 3 || i == 4 || i == 5 || i == 6 || i == 7 || i == 8 || i == 9);
    }
}

/// A bounded first-in first-out queue of typed characters, kept in a ring.
pub struct KeyQueue {
    buffer: Vec<char>,
    head: usize,
    tail: usize,
    count: usize,
}

impl View for KeyQueue {
    type V = Seq<char>;

    /// The queued characters, oldest first.
    closed spec fn view(&self) -> Seq<char> {
        Seq::new(self.count as nat, |k: int| self.buffer@[(self.head + k) % KEY_BUFFER_CAPACITY as int])
    }
}

impl KeyQueue {
    pub closed spec fn wf(&self) -> bool {
        &&& self.buffer@.len() == KEY_BUFFER_CAPACITY
        &&& self.head < KEY_BUFFER_CAPACITY
        &&& self.tail < KEY_BUFFER_CAPACITY
        &&& self.count <= KEY_BUFFER_CAPACITY
        &&& self.tail == (self.head + self.count) % KEY_BUFFER_CAPACITY as int
    }

    /// An empty queue.
    pub fn new() -> (r: Self)
        ensures
            r.wf(),
            r@ == Seq::<char>::empty(),
    {
        let r = KeyQueue { buffer: vec!['\0'; KEY_BUFFER_CAPACITY], head: 0, tail: 0, count: 0 };
        proof {
            assert(r@ =~= Seq::<char>::empty());
        }
        r
    }

    /// Number of queued characters.
    pub fn len(&self) -> (r: usize)
        requires
            self.wf(),
        ensures
            r == self@.len(),
    {
        self.count
    }

    /// Appends `c`; a full queue drops it.
    pub fn push(&mut self, c: char)
        requires
            old(self).wf(),
        ensures
            final(self).wf(),
            old(self)@.len() < KEY_BUFFER_CAPACITY ==> final(self)@ == old(self)@.push(c),
            old(self)@.len() >= KEY_BUFFER_CAPACITY ==> final(self)@ == old(self)@,
            final(self)@ == queue_after_push(old(self)@, c),
    {
        if self.count < KEY_BUFFER_CAPACITY {
            let ghost before = self@;
            let ghost old_buf = self.buffer@;
            let tail = self.tail;
            self.buffer.set(tail, c);
            self.tail = (self.tail + 1) % KEY_BUFFER_CAPACITY;
            self.count = self.count + 1;
            proof {
                assert forall|k: int| 0 <= k < before.len() implies #[trigger] self@[k] == before[k] by {
                    lemma_ring_index_distinct(self.head as int, k, before.len() as int);
                }
                assert(self@[before.len() as int] == c);
                assert(self@ =~= before.push(c));
            }
        }
    }

    /// Removes and returns the oldest character, or `None` when empty.
    pub fn pop(&mut self) -> (r: Option<char>)
        requires
            old(self).wf(),
        ensures
            final(self).wf(),
            old(self)@.len() == 0 ==> r is None && final(self)@ == old(self)@,
            old(self)@.len() > 0 ==> r == Some(old(self)@[0]) && final(self)@ == old(self)@.drop_first(),
    {
        if self.count == 0 {
            None
        } else {
            let ghost before = self@;
            let c = self.buffer[self.head];
            self.head = (self.head + 1) % KEY_BUFFER_CAPACITY;
            self.count = self.count - 1;
            proof {
                assert forall|k: int| 0 <= k < self@.len() implies #[trigger] self@[k] == before[k + 1] by {
                    assert((old(self).head + (k + 1)) % KEY_BUFFER_CAPACITY as int == (self.head + k)
                        % KEY_BUFFER_CAPACITY as int);
                }
                assert(self@ =~= before.drop_first());
            }
            Some(c)
        }
    }
}

/// Positions `head + k` and `head + n` of the ring differ for `0 <= k < n < capacity`.
proof fn lemma_ring_index_distinct(head: int, k: int, n: int)
    requires
        0 <= head < KEY_BUFFER_CAPACITY,
        0 <= k < n < KEY_BUFFER_CAPACITY,
    ensures
        (head + k) % KEY_BUFFER_CAPACITY as int != (head + n) % KEY_BUFFER_CAPACITY as int,
{
    let a = head + k;
    let b = head + n;
    assert(a % 128 == if a < 128 { a } else { a - 128 });
    assert(b % 128 == if b < 128 { b } else { b - 128 });
}

impl Default for KeyQueue {
    fn default() -> (r: Self)
        ensures
            r.wf(),
            r@ == Seq::<char>::empty(),
    {
        Self::new()
    }
}

/// Modifier keys currently in effect.
#[derive(Debug, Clone, Copy, PartialEq, Eq, Structural)]
pub struct KeyboardState {
    pub lshift: bool,
    pub rshift: bool,
    pub caps_lock: bool,
}

impl KeyboardState {
    /// No modifier held, Caps Lock off.
    pub fn new() -> (r: Self)
        ensures
            !r.lshift && !r.rshift && !r.caps_lock,
    {
        KeyboardState { lshift: false, rshift: false, caps_lock: false }
    }

    pub open spec fn spec_is_shifted(&self) -> bool {
        (self.lshift || self.rshift) != self.caps_lock
    }

    /// Letters come out in upper case: Shift or Caps Lock, but not both.
    pub fn is_shifted(&self) -> (r: bool)
        ensures
            r == self.spec_is_shifted(),
    {
        (self.lshift || self.rshift) ^ self.caps_lock
    }
}

/// The modifier state after `scancode`.
pub open spec fn next_state(state: KeyboardState, scancode: u8) -> KeyboardState {
    match scancode {
        0x2A => KeyboardState { lshift: true, ..state },
        0xAA => KeyboardState { lshift: false, ..state },
        0x36 => KeyboardState { rshift: true, ..state },
        0xB6 => KeyboardState { rshift: false, ..state },
        0x3A => KeyboardState { caps_lock: !state.caps_lock, ..state },
        _ => state,
    }
}

/// The character that `scancode` types in `state`, if any: modifier keys
/// and releases type nothing.
pub open spec fn typed_char(state: KeyboardState, scancode: u8) -> Option<char> {
    if scancode == 0x2A || scancode == 0xAA || scancode == 0x36 || scancode == 0xB6 || scancode == 0x3A {
        None
    } else if scancode & 0x80 != 0 {
        None
    } else {
        key_char(scancode, state.lshift || state.rshift, state.spec_is_shifted())
    }
}

/// Takes the next typed character from the queue.
pub fn pop_key(queue: &mut KeyQueue) -> (r: Option<char>)
    requires
        old(queue).wf(),
    ensures
        final(queue).wf(),
        old(queue)@.len() == 0 ==> r is None && final(queue)@ == old(queue)@,
        old(queue)@.len() > 0 ==> r == Some(old(queue)@[0]) && final(queue)@ == old(queue)@.drop_first(),
{
    queue.pop()
}

/// Handles one scancode from the keyboard: updates the modifier state and
/// queues the character it types, if any.
pub fn handle_scancode(state: &mut KeyboardState, queue: &mut KeyQueue, scancode: u8)
    requires
        old(queue).wf(),
    ensures
        final(queue).wf(),
        *final(state) == next_state(*old(state), scancode),
        typed_char(*old(state), scancode) is Some && old(queue)@.len() < KEY_BUFFER_CAPACITY ==> final(queue)@
            == old(queue)@.push(typed_char(*old(state), scancode)->0),
        !(typed_char(*old(state), scancode) is Some && old(queue)@.len() < KEY_BUFFER_CAPACITY)
            ==> final(queue)@ == old(queue)@,
{
    match scancode {
        0x2A => {
            state.lshift = true;
            return;
        },
        0xAA => {
            state.lshift = false;
            return;
        },
        0x36 => {
            state.rshift = true;
            return;
        },
        0xB6 => {
            state.rshift = false;
            return;
        },
        0x3A => {
            state.caps_lock = !state.caps_lock;
            return;
        },
        _ => {},
    }
    if scancode & 0x80 != 0 {
        return;
    }
    let is_shifted = state.is_shifted();
    let is_symbol_shifted = state.lshift || state.rshift;
    if let Some(c) = decode_key(scancode, is_symbol_shifted, is_shifted) {
        queue.push(c);
    }
}

/// The queue after `c` is pushed onto a queue holding `q`: `c` joins the
/// back while there is room and is dropped when the queue is full.
pub open spec fn queue_after_push(q: Seq<char>, c: char) -> Seq<char> {
    if q.len() < KEY_BUFFER_CAPACITY {
        q.push(c)
    } else {
        q
    }
}

/// The queue after the characters of `cs` are pushed in turn onto a queue
/// holding `q`.
pub open spec fn queue_after_pushes(q: Seq<char>, cs: Seq<char>) -> Seq<char>
    decreases cs.len(),
{
    if cs.len() == 0 {
        q
    } else {
        queue_after_push(queue_after_pushes(q, cs.drop_last()), cs.last())
    }
}

/// What `k` pops in a row return from a queue holding `q`.
pub open spec fn queue_pops(q: Seq<char>, k: nat) -> Seq<Option<char>>
    decreases k,
{
    if k == 0 {
        Seq::empty()
    } else if q.len() == 0 {
        seq![None] + queue_pops(q, (k - 1) as nat)
    } else {
        seq![Some(q[0])] + queue_pops(q.drop_first(), (k - 1) as nat)
    }
}

proof fn lemma_queue_after_pushes(q: Seq<char>, cs: Seq<char>)
    requires
        q.len() <= KEY_BUFFER_CAPACITY,
    ensures
        queue_after_pushes(q, cs) == (q + cs).take(
            if q.len() + cs.len() < KEY_BUFFER_CAPACITY {
                (q.len() + cs.len()) as int
            } else {
                KEY_BUFFER_CAPACITY as int
            },
        ),
    decreases cs.len(),
{
    if cs.len() == 0 {
        assert((q + cs).take(q.len() as int) =~= q);
    } else {
        lemma_queue_after_pushes(q, cs.drop_last());
        assert(q + cs.drop_last() =~= (q + cs).drop_last());
        if q.len() + cs.len() - 1 < KEY_BUFFER_CAPACITY {
            assert((q + cs.drop_last()).push(cs.last()) =~= q + cs);
            assert((q + cs).take((q.len() + cs.len()) as int) =~= q + cs);
            assert((q + cs.drop_last()).take(q.len() + cs.len() - 1) =~= q + cs.drop_last());
        } else {
            assert((q + cs.drop_last()).take(KEY_BUFFER_CAPACITY as int) =~= (q + cs).take(
                KEY_BUFFER_CAPACITY as int,
            ));
        }
    }
}

proof fn lemma_queue_pops(q: Seq<char>, k: nat)
    ensures
        queue_pops(q, k).len() == k,
        forall|i: int|
            0 <= i < k ==> #[trigger] queue_pops(q, k)[i] == (if i < q.len() {
                Some(q[i])
            } else {
                None
            }),
    decreases k,
{
    if k > 0 {
        if q.len() == 0 {
            lemma_queue_pops(q, (k - 1) as nat);
            assert forall|i: int| 0 <= i < k implies #[trigger] queue_pops(q, k)[i] == (if i < q.len() {
                Some(q[i])
            } else {
                None
            }) by {
                if i > 0 {
                    assert(queue_pops(q, k)[i] == queue_pops(q, (k - 1) as nat)[i - 1]);
                }
            }
        } else {
            lemma_queue_pops(q.drop_first(), (k - 1) as nat);
            assert forall|i: int| 0 <= i < k implies #[trigger] queue_pops(q, k)[i] == (if i < q.len() {
                Some(q[i])
            } else {
                None
            }) by {
                if i > 0 {
                    assert(queue_pops(q, k)[i] == queue_pops(q.drop_first(), (k - 1) as nat)[i - 1]);
                }
            }
        }
    }
}

/// Characters leave the queue in the order they came in: after the
/// characters `cs` are pushed onto an empty queue, the queue holds the first
/// `KEY_BUFFER_CAPACITY` of them (those pushed onto a full queue are
/// dropped), and `k` pops in a row return them in order, then `None`.
pub proof fn law_queue_fifo(cs: Seq<char>, k: nat)
    ensures
        queue_after_pushes(Seq::empty(), cs) == cs.take(
            if cs.len() < KEY_BUFFER_CAPACITY {
                cs.len() as int
            } else {
                KEY_BUFFER_CAPACITY as int
            },
        ),
        queue_pops(queue_after_pushes(Seq::empty(), cs), k).len() == k,
        forall|i: int|
            0 <= i < k ==> #[trigger] queue_pops(queue_after_pushes(Seq::empty(), cs), k)[i] == (if i < cs.len() && i
                < KEY_BUFFER_CAPACITY {
                Some(cs[i])
            } else {
                None
            }),
{
    let e = Seq::<char>::empty();
    lemma_queue_after_pushes(e, cs);
    assert(e + cs =~= cs);
    let q = queue_after_pushes(e, cs);
    lemma_queue_pops(q, k);
}

} // verus!
