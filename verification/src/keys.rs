//! Keys as the editor sees them, what each sequence of keys does in each mode, and which bound
//! sequence a run of pressed keys sets off.
use vstd::prelude::*;

use crate::encoding::char_from_u32;
use crate::session::Mode;
use crate::trie::Trie;

verus! {

/// Which key was pressed. Keys that nothing is bound to, other than characters, are not told
/// apart.
#[derive(Debug, Clone, Copy, PartialEq, Eq, Structural)]
pub enum KeyCode {
    /// A character key.
    Char(char),
    /// The enter key.
    Enter,
    /// The escape key.
    Esc,
    /// The backspace key.
    Backspace,
    /// The left arrow.
    Left,
    /// The right arrow.
    Right,
    /// The up arrow.
    Up,
    /// The down arrow.
    Down,
    /// Any other key.
    Other,
}

/// Whether a key went down, is held down, or came up.
#[derive(Debug, Clone, Copy, PartialEq, Eq, Structural)]
pub enum KeyKind {
    /// The key went down.
    Press,
    /// The key is held down.
    Repeat,
    /// The key came up.
    Release,
}

/// A key event: the key, the modifier keys held (a bit each: shift, control, alt, super,
/// hyper, meta), the kind of event and the keyboard state bits.
#[derive(Debug, Clone, Copy, PartialEq, Eq, Structural)]
pub struct Key {
    /// The key.
    pub code: KeyCode,
    /// The modifier bits.
    pub modifiers: u8,
    /// The kind of event.
    pub kind: KeyKind,
    /// The keyboard state bits.
    pub state: u8,
}

/// The bit of the shift key among the modifiers.
pub const SHIFT: u8 = 1;

/// The bit of the control key among the modifiers.
pub const CONTROL: u8 = 2;

/// A key pressed with the given modifiers.
pub open spec fn key(code: KeyCode, modifiers: u8) -> Key {
    Key { code, modifiers, kind: KeyKind::Press, state: 0 }
}

/// Whether the modifiers hold shift.
pub open spec fn shifted(modifiers: u8) -> bool {
    modifiers % 2 == 1
}

/// The key as keyboard input identifies it: an upper-case letter always counts as shifted, and
/// a shifted lower-case letter counts as upper case.
pub open spec fn normalized(k: Key) -> Key {
    match k.code {
        KeyCode::Char(c) => if 65 <= (c as u32) <= 90 {
            Key { modifiers: if shifted(k.modifiers) { k.modifiers } else { (k.modifiers + 1) as u8 }, ..k }
        } else if shifted(k.modifiers) && 97 <= (c as u32) <= 122 {
            Key { code: KeyCode::Char(((c as u32) - 32) as char), ..k }
        } else {
            k
        },
        _ => k,
    }
}

/// A number for each key: a character by its scalar value, the others above all of those.
pub open spec fn code_number(code: KeyCode) -> int {
    match code {
        KeyCode::Char(c) => c as int,
        KeyCode::Enter => 0x110000,
        KeyCode::Esc => 0x110001,
        KeyCode::Backspace => 0x110002,
        KeyCode::Left => 0x110003,
        KeyCode::Right => 0x110004,
        KeyCode::Up => 0x110005,
        KeyCode::Down => 0x110006,
        KeyCode::Other => 0x110007,
    }
}

/// A number for each kind of event.
pub open spec fn kind_number(kind: KeyKind) -> int {
    match kind {
        KeyKind::Press => 0,
        KeyKind::Repeat => 1,
        KeyKind::Release => 2,
    }
}

/// The number by which a key is found in the bindings: that of its normalized form, made of
/// the key, the modifiers, the kind and the state.
pub open spec fn key_id(k: Key) -> u64 {
    let n = normalized(k);
    (((code_number(n.code) * 256 + n.modifiers) * 4 + kind_number(n.kind)) * 256 + n.state) as u64
}

/// The numbers of a run of keys.
pub open spec fn key_ids(keys: Seq<Key>) -> Seq<u64> {
    keys.map_values(|k: Key| key_id(k))
}

/// The one-key sequence of `k`.
pub open spec fn single(k: Key) -> Seq<u64> {
    seq![key_id(k)]
}

/// The one-key sequence of `code` pressed alone.
pub open spec fn plain(code: KeyCode) -> Seq<u64> {
    single(key(code, 0))
}

impl Key {
    /// A key pressed with the given modifiers.
    pub fn new(code: KeyCode, modifiers: u8) -> (r: Key)
        ensures
            r == key(code, modifiers),
    {
        Key { code, modifiers, kind: KeyKind::Press, state: 0 }
    }

    /// The key as keyboard input identifies it; see `normalized`.
    pub fn normalize(&self) -> (r: Key)
        ensures
            r == normalized(*self),
    {
        match self.code {
            KeyCode::Char(c) => {
                let v = c as u32;
                let shift = self.modifiers % 2 == 1;
                if 65 <= v && v <= 90 {
                    let modifiers = if shift {
                        self.modifiers
                    } else {
                        self.modifiers + 1
                    };
                    Key { modifiers, ..*self }
                } else if shift && 97 <= v && v <= 122 {
                    match char_from_u32(v - 32) {
                        Some(upper) => Key { code: KeyCode::Char(upper), ..*self },
                        None => *self,
                    }
                } else {
                    *self
                }
            },
            _ => *self,
        }
    }

    /// The number by which the key is found in the bindings; see `key_id`.
    pub fn id(&self) -> (r: u64)
        ensures
            r == key_id(*self),
    {
        let n = self.normalize();
        let code: u64 = match n.code {
            KeyCode::Char(c) => c as u32 as u64,
            KeyCode::Enter => 0x110000,
            KeyCode::Esc => 0x110001,
            KeyCode::Backspace => 0x110002,
            KeyCode::Left => 0x110003,
            KeyCode::Right => 0x110004,
            KeyCode::Up => 0x110005,
            KeyCode::Down => 0x110006,
            KeyCode::Other => 0x110007,
        };
        let kind: u64 = match n.kind {
            KeyKind::Press => 0,
            KeyKind::Repeat => 1,
            KeyKind::Release => 2,
        };
        assert(code <= 0x110007);
        ((code * 256 + n.modifiers as u64) * 4 + kind) * 256 + n.state as u64
    }
}

/// The numbers of a run of keys.
pub fn ids_of(keys: &[Key]) -> (r: Vec<u64>)
    ensures
        r@ == key_ids(keys@),
{
    let mut out: Vec<u64> = Vec::new();
    let mut i: usize = 0;
    while i < keys.len()
        invariant
            i <= keys@.len(),
            out@ == key_ids(keys@.take(i as int)),
        decreases keys@.len() - i,
    {
        let id = keys[i].id();
        proof {
            assert(key_ids(keys@.take(i + 1)) =~= key_ids(keys@.take(i as int)).push(id));
        }
        out.push(id);
        i = i + 1;
    }
    proof {
        assert(keys@.take(i as int) =~= keys@);
    }
    out
}

/// What a bound key sequence does.
#[derive(Debug, Clone, Copy, PartialEq, Eq, Structural)]
pub enum Command {
    /// Enter insert mode at the cursor.
    Insert,
    /// Enter insert mode at the start of the line.
    InsertAtLineStart,
    /// Enter insert mode one column on.
    Append,
    /// Enter insert mode at the end of the line.
    AppendAtLineEnd,
    /// Open a new line below the cursor's and type into it.
    OpenLineBelow,
    /// Start writing a command.
    StartCommand,
    /// Nothing.
    Nothing,
    /// Move the cursor left.
    MoveLeft,
    /// Move the cursor down.
    MoveDown,
    /// Move the cursor up.
    MoveUp,
    /// Move the cursor right.
    MoveRight,
    /// Open the folder entry under the cursor.
    OpenEntry,
    /// Type a line break.
    Newline,
    /// Leave insert mode.
    ExitInsert,
    /// Delete the character before the cursor.
    Backspace,
    /// Delete the word before the cursor.
    DeleteWord,
    /// Delete the last character of the command, or stop writing it when it is empty.
    CommandBackspace,
    /// Run the command.
    RunCommand,
    /// Add a character to the command.
    CommandChar(char),
}

/// The bindings of normal mode.
pub open spec fn normal_bindings() -> Map<Seq<u64>, Command> {
    Map::empty().insert(plain(KeyCode::Char('i')), Command::Insert).insert(
        plain(KeyCode::Char('I')),
        Command::InsertAtLineStart,
    ).insert(plain(KeyCode::Char('a')), Command::Append).insert(
        plain(KeyCode::Char('A')),
        Command::AppendAtLineEnd,
    ).insert(plain(KeyCode::Char('o')), Command::OpenLineBelow).insert(
        plain(KeyCode::Char(':')),
        Command::StartCommand,
    ).insert(plain(KeyCode::Esc), Command::Nothing).insert(
        plain(KeyCode::Char('h')),
        Command::MoveLeft,
    ).insert(plain(KeyCode::Left), Command::MoveLeft).insert(
        plain(KeyCode::Char('j')),
        Command::MoveDown,
    ).insert(plain(KeyCode::Down), Command::MoveDown).insert(
        plain(KeyCode::Char('k')),
        Command::MoveUp,
    ).insert(plain(KeyCode::Up), Command::MoveUp).insert(
        plain(KeyCode::Char('l')),
        Command::MoveRight,
    ).insert(plain(KeyCode::Right), Command::MoveRight).insert(
        plain(KeyCode::Enter),
        Command::OpenEntry,
    )
}

/// The bindings of insert mode.
pub open spec fn insert_bindings() -> Map<Seq<u64>, Command> {
    Map::empty().insert(plain(KeyCode::Enter), Command::Newline).insert(
        plain(KeyCode::Esc),
        Command::ExitInsert,
    ).insert(plain(KeyCode::Backspace), Command::Backspace).insert(
        plain(KeyCode::Char('u')) + plain(KeyCode::Char('h')),
        Command::ExitInsert,
    ).insert(single(key(KeyCode::Char('w'), CONTROL)), Command::DeleteWord)
}

/// The letters a command is written with: `a` to `z`, then `A` to `Z`.
pub open spec fn letters() -> Seq<char> {
    Seq::new(52, |i: int| if i < 26 { (97 + i) as char } else { (65 + i - 26) as char })
}

/// The bindings of command mode with the first `n` letters bound.
pub open spec fn command_bindings_upto(n: nat) -> Map<Seq<u64>, Command>
    decreases n,
{
    if n == 0 {
        Map::empty().insert(plain(KeyCode::Backspace), Command::CommandBackspace).insert(
            plain(KeyCode::Enter),
            Command::RunCommand,
        )
    } else {
        let c = letters()[n - 1];
        command_bindings_upto((n - 1) as nat).insert(plain(KeyCode::Char(c)), Command::CommandChar(c))
    }
}

/// The bindings of command mode.
pub open spec fn command_bindings() -> Map<Seq<u64>, Command> {
    command_bindings_upto(52)
}

/// The bindings of a mode.
pub open spec fn bindings_of(mode: Mode) -> Map<Seq<u64>, Command> {
    match mode {
        Mode::Normal => normal_bindings(),
        Mode::Insert => insert_bindings(),
        Mode::Command(_) => command_bindings(),
    }
}

/// The key bindings of each mode.
pub struct Bindings {
    insert: Trie<Command>,
    normal: Trie<Command>,
    command: Trie<Command>,
}

impl Bindings {
    /// The three tries are well formed.
    pub closed spec fn wf(&self) -> bool {
        &&& self.insert.wf()
        &&& self.normal.wf()
        &&& self.command.wf()
    }

    /// The bindings of a mode.
    pub closed spec fn table(&self, mode: Mode) -> Map<Seq<u64>, Command> {
        match mode {
            Mode::Normal => self.normal.contents(),
            Mode::Insert => self.insert.contents(),
            Mode::Command(_) => self.command.contents(),
        }
    }

    /// The trie of a mode's bindings.
    pub fn index(&self, mode: &Mode) -> (r: &Trie<Command>)
        requires
            self.wf(),
        ensures
            r.wf(),
            r.contents() == self.table(*mode),
    {
        match mode {
            Mode::Normal => &self.normal,
            Mode::Insert => &self.insert,
            Mode::Command(_) => &self.command,
        }
    }
}

/// Binds the single key `k` to `c`.
fn bind(trie: &mut Trie<Command>, k: Key, c: Command)
    requires
        old(trie).wf(),
        old(trie).size() + 1 <= usize::MAX,
    ensures
        final(trie).wf(),
        final(trie).size() <= old(trie).size() + 1,
        final(trie).contents() == old(trie).contents().insert(single(k), c),
{
    let keys = vec![k.id()];
    proof {
        assert(keys@ =~= single(k));
    }
    let _ = trie.insert(keys.as_slice(), c);
}

impl Default for Bindings {
    /// The vi-like bindings of the editor.
    fn default() -> (r: Self)
        ensures
            r.wf(),
            forall|mode: Mode| #[trigger] r.table(mode) == bindings_of(mode),
    {
        let mut normal: Trie<Command> = Trie::new();
        bind(&mut normal, Key::new(KeyCode::Char('i'), 0), Command::Insert);
        bind(&mut normal, Key::new(KeyCode::Char('I'), 0), Command::InsertAtLineStart);
        bind(&mut normal, Key::new(KeyCode::Char('a'), 0), Command::Append);
        bind(&mut normal, Key::new(KeyCode::Char('A'), 0), Command::AppendAtLineEnd);
        bind(&mut normal, Key::new(KeyCode::Char('o'), 0), Command::OpenLineBelow);
        bind(&mut normal, Key::new(KeyCode::Char(':'), 0), Command::StartCommand);
        bind(&mut normal, Key::new(KeyCode::Esc, 0), Command::Nothing);
        bind(&mut normal, Key::new(KeyCode::Char('h'), 0), Command::MoveLeft);
        bind(&mut normal, Key::new(KeyCode::Left, 0), Command::MoveLeft);
        bind(&mut normal, Key::new(KeyCode::Char('j'), 0), Command::MoveDown);
        bind(&mut normal, Key::new(KeyCode::Down, 0), Command::MoveDown);
        bind(&mut normal, Key::new(KeyCode::Char('k'), 0), Command::MoveUp);
        bind(&mut normal, Key::new(KeyCode::Up, 0), Command::MoveUp);
        bind(&mut normal, Key::new(KeyCode::Char('l'), 0), Command::MoveRight);
        bind(&mut normal, Key::new(KeyCode::Right, 0), Command::MoveRight);
        bind(&mut normal, Key::new(KeyCode::Enter, 0), Command::OpenEntry);

        let mut insert: Trie<Command> = Trie::new();
        bind(&mut insert, Key::new(KeyCode::Enter, 0), Command::Newline);
        bind(&mut insert, Key::new(KeyCode::Esc, 0), Command::ExitInsert);
        bind(&mut insert, Key::new(KeyCode::Backspace, 0), Command::Backspace);
        let uh = vec![Key::new(KeyCode::Char('u'), 0).id(), Key::new(KeyCode::Char('h'), 0).id()];
        let _ = insert.insert(uh.as_slice(), Command::ExitInsert);
        proof {
            assert(uh@ =~= plain(KeyCode::Char('u')) + plain(KeyCode::Char('h')));
        }
        bind(&mut insert, Key::new(KeyCode::Char('w'), CONTROL), Command::DeleteWord);

        let mut command: Trie<Command> = Trie::new();
        bind(&mut command, Key::new(KeyCode::Backspace, 0), Command::CommandBackspace);
        bind(&mut command, Key::new(KeyCode::Enter, 0), Command::RunCommand);
        let mut n: u32 = 0;
        while n < 52
            invariant
                n <= 52,
                command.wf(),
                command.size() <= 2 + n,
                command.contents() == command_bindings_upto(n as nat),
            decreases 52 - n,
        {
            let v: u32 = if n < 26 {
                97 + n
            } else {
                65 + n - 26
            };
            let c = char_from_u32(v).unwrap();
            proof {
                assert(c == letters()[n as int]);
            }
            bind(&mut command, Key::new(KeyCode::Char(c), 0), Command::CommandChar(c));
            n = n + 1;
        }
        let r = Bindings { insert, normal, command };
        proof {
            assert(r.table(Mode::Normal) == normal_bindings());
            assert(r.table(Mode::Insert) == insert_bindings());
            assert forall|mode: Mode| #[trigger] r.table(mode) == bindings_of(mode) by {
                match mode {
                    Mode::Normal => {},
                    Mode::Insert => {},
                    Mode::Command(_) => {},
                }
            }
        }
        r
    }
}

/// The longest beginning, no longer than `n`, of the key numbers `ids` bound in `table`: its
/// length and what it does.
pub open spec fn longest_bound_upto(table: Map<Seq<u64>, Command>, ids: Seq<u64>, n: nat) -> Option<
    (nat, Command),
>
    decreases n,
{
    if n == 0 {
        None
    } else if table.contains_key(ids.take(n as int)) {
        Some((n, table[ids.take(n as int)]))
    } else {
        longest_bound_upto(table, ids, (n - 1) as nat)
    }
}

/// What the keys pressed so far set off first.
#[derive(Debug, Clone, Copy, PartialEq, Eq, Structural)]
pub enum Step {
    /// The longest bound beginning of the keys: what it does, and how many keys it takes.
    Run(Command, usize),
    /// No beginning of the keys is bound: the first key goes on its own.
    Fallback(Key),
}

/// What the keys `keys`, at least one, set off first under the bindings `table`: the longest
/// bound beginning of them, or else the first key alone.
pub open spec fn first_step(table: Map<Seq<u64>, Command>, keys: Seq<Key>) -> Step {
    match longest_bound_upto(table, key_ids(keys), keys.len()) {
        Some((n, c)) => Step::Run(c, n as usize),
        None => Step::Fallback(keys[0]),
    }
}

/// What the keys pressed so far set off first under the bindings in `trie`; see `first_step`.
pub fn next_step(trie: &Trie<Command>, keys: &[Key]) -> (r: Step)
    requires
        trie.wf(),
        keys@.len() >= 1,
    ensures
        r == first_step(trie.contents(), keys@),
        r matches Step::Run(_, n) ==> 1 <= n <= keys@.len(),
{
    let mut ids = ids_of(keys);
    let ghost all = ids@;
    proof {
        assert(all.take(all.len() as int) =~= all);
    }
    while ids.len() > 0
        invariant
            all == key_ids(keys@),
            all.len() == keys@.len(),
            ids@.len() <= all.len(),
            ids@ == all.take(ids@.len() as int),
            longest_bound_upto(trie.contents(), all, all.len()) == longest_bound_upto(
                trie.contents(),
                all,
                ids@.len() as nat,
            ),
            trie.wf(),
        decreases ids@.len(),
    {
        match trie.get(ids.as_slice()) {
            Some(c) => {
                return Step::Run(*c, ids.len());
            },
            None => {},
        }
        let ghost before = ids@;
        let _ = ids.pop();
        proof {
            assert(ids@ =~= all.take(ids@.len() as int));
        }
    }
    Step::Fallback(keys[0])
}

/// Whether the keys `keys` could still grow into a longer sequence bound in `table`.
pub open spec fn waits(table: Map<Seq<u64>, Command>, keys: Seq<Key>) -> bool {
    let ids = key_ids(keys);
    exists|b: Seq<u64>|
        #[trigger] table.contains_key(b) && ids.len() < b.len() && b.take(ids.len() as int) == ids
}

/// Whether the keys pressed so far could still grow into a longer bound sequence, so that the
/// editor waits for more.
pub fn waits_for_more(trie: &Trie<Command>, keys: &[Key]) -> (r: bool)
    requires
        trie.wf(),
    ensures
        r == waits(trie.contents(), keys@),
{
    let ids = ids_of(keys);
    trie.exists_child(ids.as_slice())
}


/// A letter pressed with shift is found as its upper-case letter, as is the upper-case letter
/// pressed with or without shift.
pub proof fn law_shifted_letter(c: char)
    requires
        97 <= (c as u32) <= 122,
    ensures
        key_id(key(KeyCode::Char(c), SHIFT)) == key_id(key(KeyCode::Char(((c as u32) - 32) as char), 0)),
        key_id(key(KeyCode::Char(((c as u32) - 32) as char), SHIFT)) == key_id(
            key(KeyCode::Char(((c as u32) - 32) as char), 0),
        ),
{
    let upper = ((c as u32) - 32) as char;
    assert(upper as u32 == (c as u32) - 32);
    assert(normalized(key(KeyCode::Char(c), SHIFT)) == normalized(key(KeyCode::Char(upper), 0)));
    assert(normalized(key(KeyCode::Char(upper), SHIFT)) == normalized(key(KeyCode::Char(upper), 0)));
}


/// Two numbers written with the same digit base agree when their values do.
proof fn lemma_same_digits(q1: int, r1: int, q2: int, r2: int, d: int)
    requires
        d > 0,
        0 <= r1 < d,
        0 <= r2 < d,
        q1 * d + r1 == q2 * d + r2,
    ensures
        q1 == q2,
        r1 == r2,
{
    vstd::arithmetic::div_mod::lemma_fundamental_div_mod_converse(q1 * d + r1, d, q1, r1);
    vstd::arithmetic::div_mod::lemma_fundamental_div_mod_converse(q2 * d + r2, d, q2, r2);
}

/// The number of a key's normalized form, before it is taken as a `u64`, fits in one.
proof fn lemma_key_id_fits(k: Key)
    ensures
        ({
            let n = normalized(k);
            let v = ((code_number(n.code) * 256 + n.modifiers) * 4 + kind_number(n.kind)) * 256
                + n.state;
            &&& 0 <= code_number(n.code) <= 0x110007
            &&& 0 <= v < 0x1_0000_0000_0000
            &&& key_id(k) as int == v
        }),
{
    let n = normalized(k);
    let c = code_number(n.code);
    assert(0 <= c <= 0x110007) by {
        match n.code {
            KeyCode::Char(ch) => {
                assert((ch as int) < 0x110000);
            },
            _ => {},
        }
    }
    let v = ((c * 256 + n.modifiers) * 4 + kind_number(n.kind)) * 256 + n.state;
    assert(0 <= v < 0x1_0000_0000_0000) by (nonlinear_arith)
        requires
            0 <= c <= 0x110007,
            0 <= n.modifiers < 256,
            0 <= kind_number(n.kind) < 4,
            0 <= n.state < 256,
            v == ((c * 256 + n.modifiers) * 4 + kind_number(n.kind)) * 256 + n.state,
    ;
}

/// Two keys are found as the same key exactly when they are the same once normalized: the
/// number of a key tells its code, modifiers, kind and state apart.
pub proof fn law_key_id_distinguishes(a: Key, b: Key)
    ensures
        key_id(a) == key_id(b) <==> normalized(a) == normalized(b),
{
    lemma_key_id_fits(a);
    lemma_key_id_fits(b);
    let (na, nb) = (normalized(a), normalized(b));
    if key_id(a) == key_id(b) {
        let (ca, cb) = (code_number(na.code), code_number(nb.code));
        lemma_same_digits(
            (ca * 256 + na.modifiers) * 4 + kind_number(na.kind),
            na.state as int,
            (cb * 256 + nb.modifiers) * 4 + kind_number(nb.kind),
            nb.state as int,
            256,
        );
        lemma_same_digits(
            ca * 256 + na.modifiers,
            kind_number(na.kind),
            cb * 256 + nb.modifiers,
            kind_number(nb.kind),
            4,
        );
        lemma_same_digits(ca, na.modifiers as int, cb, nb.modifiers as int, 256);
        assert(na.kind == nb.kind);
        assert(na.code == nb.code) by {
            match na.code {
                KeyCode::Char(x) => {
                    match nb.code {
                        KeyCode::Char(y) => {
                            assert(x as u32 == y as u32);
                        },
                        KeyCode::Enter => {},
                        KeyCode::Esc => {},
                        KeyCode::Backspace => {},
                        KeyCode::Left => {},
                        KeyCode::Right => {},
                        KeyCode::Up => {},
                        KeyCode::Down => {},
                        KeyCode::Other => {},
                    }
                },
                _ => {},
            }
        }
    }
}

/// Keys pressed with modifiers that differ in more than shift are found as different keys,
/// whatever the key: a control key is never taken for the key pressed alone.
pub proof fn law_modifiers_distinguish(code: KeyCode, m1: u8, m2: u8)
    requires
        m1 / 2 != m2 / 2,
    ensures
        key_id(key(code, m1)) != key_id(key(code, m2)),
{
    law_key_id_distinguishes(key(code, m1), key(code, m2));
    let (n1, n2) = (normalized(key(code, m1)), normalized(key(code, m2)));
    assert(n1.modifiers / 2 == m1 / 2);
    assert(n2.modifiers / 2 == m2 / 2);
}


/// In insert mode a character key pressed alone is bound to nothing, so it goes on its own to
/// be typed: only control-w deletes a word.
pub proof fn law_insert_types_plain_chars(c: char)
    ensures
        first_step(insert_bindings(), seq![key(KeyCode::Char(c), 0)]) == Step::Fallback(
            key(KeyCode::Char(c), 0),
        ),
{
    let k = key(KeyCode::Char(c), 0);
    let ids = key_ids(seq![k]);
    assert(ids.take(1) =~= single(k));
    law_key_id_distinguishes(k, key(KeyCode::Enter, 0));
    law_key_id_distinguishes(k, key(KeyCode::Esc, 0));
    law_key_id_distinguishes(k, key(KeyCode::Backspace, 0));
    law_key_id_distinguishes(k, key(KeyCode::Char('w'), CONTROL));
    assert(normalized(key(KeyCode::Char('w'), CONTROL)).modifiers == CONTROL);
    assert(single(k) != plain(KeyCode::Enter)) by {
        assert(single(k)[0] != plain(KeyCode::Enter)[0]);
    }
    assert(single(k) != plain(KeyCode::Esc)) by {
        assert(single(k)[0] != plain(KeyCode::Esc)[0]);
    }
    assert(single(k) != plain(KeyCode::Backspace)) by {
        assert(single(k)[0] != plain(KeyCode::Backspace)[0]);
    }
    assert(single(k) != single(key(KeyCode::Char('w'), CONTROL))) by {
        assert(single(k)[0] != single(key(KeyCode::Char('w'), CONTROL))[0]);
    }
    assert(single(k) != plain(KeyCode::Char('u')) + plain(KeyCode::Char('h'))) by {
        assert((plain(KeyCode::Char('u')) + plain(KeyCode::Char('h'))).len() == 2);
    }
    assert(!insert_bindings().contains_key(ids.take(1)));
    reveal_with_fuel(longest_bound_upto, 2);
}

} // verus!
