//! What the server, and every client keeping a copy of the document, does with a message a
//! client sent: apply it to the document as that client, then pass it on to the others, or
//! have the document saved.
use vstd::prelude::*;
use vstd::utf8::encode_utf8;

use crate::btep::{C2S, S2C};
use crate::encoding::char_utf8_len;
use crate::piece::insert_point;
use crate::text::{
    cursor_after_typing, deleted_point, deletes_with_swaps, insert_room, push_room, Text,
};

verus! {

/// The mode of the editor, as in vi.
#[derive(Debug, Clone, PartialEq, Eq)]
pub enum Mode {
    /// The cursor moves around.
    Normal,
    /// Typing into the document.
    Insert,
    /// Writing a command, after a colon.
    Command(String),
}

impl Default for Mode {
    fn default() -> (r: Self)
        ensures
            r is Normal,
    {
        Mode::Normal
    }
}

/// What comes of a client's message once it is applied.
#[derive(Debug, Clone, Copy, PartialEq, Eq, Structural)]
pub enum Reply {
    /// The message changed the document: pass it on to the other clients.
    Broadcast,
    /// The client asked for the document to be saved.
    Save,
}

/// Whether client `client` may send `action` now, and the document has room for it: typing and
/// deleting need the client in insert mode, a path is only sent before editing starts.
pub open spec fn action_allowed(text: Text, client: int, action: C2S) -> bool {
    let cl = text.members()[client];
    match action {
        C2S::Char(c) => cl.mode() is Some && push_room(cl, text.piece(), encode_utf8(seq![c]).len()),
        C2S::Enter => cl.mode() is Some && push_room(
            cl,
            text.piece(),
            encode_utf8(seq!['\n']).len(),
        ),
        C2S::Backspace(_) => cl.mode() is Some,
        C2S::EnterInsert(_) => insert_room(cl, text.piece()),
        C2S::ExitInsert => true,
        C2S::Save => true,
        C2S::Path(_) => false,
    }
}

/// Whether client `client` may send `action` now: the test of `action_allowed`.
pub fn action_is_allowed(text: &Text, client: usize, action: &C2S) -> (r: bool)
    requires
        text.wf(),
        client < text.members().len(),
    ensures
        r == action_allowed(*text, client as int, *action),
{
    let typing = text.client(client).in_insert();
    match action {
        C2S::Char(c) => typing && text.has_push_room(client, char_utf8_len(*c)),
        C2S::Enter => typing && text.has_push_room(client, char_utf8_len('\n')),
        C2S::Backspace(_) => typing,
        C2S::EnterInsert(_) => text.has_insert_room(client),
        C2S::ExitInsert => true,
        C2S::Save => true,
        C2S::Path(_) => false,
    }
}

/// Applies what client `client` did to the document when it may send it now, as
/// `apply_action` does; `None`, with the document unchanged, when there is no such client or
/// the message is not allowed.
pub fn apply_if_allowed(text: &mut Text, client: usize, action: &C2S) -> (r: Option<Reply>)
    requires
        old(text).wf(),
    ensures
        final(text).wf(),
        r is None <==> !(client < old(text).members().len() && action_allowed(
            *old(text),
            client as int,
            *action,
        )),
        r is None ==> *final(text) == *old(text),
        r matches Some(reply) ==> (reply is Save <==> *action is Save),
        r is Some ==> applied(*old(text), *final(text), client as int, *action),
{
    if client >= text.clients().len() || !action_is_allowed(text, client, action) {
        return None;
    }
    Some(apply_action(text, client, action))
}

/// Client `client` typed `n` characters into `t0`, giving `t1`: it is still in insert mode, its
/// cursor moved on by `n`, and the cursor of every other client in insert mode is where
/// `cursor_after_typing` puts it.
pub open spec fn typed(t0: Text, t1: Text, client: int, n: int) -> bool {
    &&& t1.members()[client].mode() is Some
    &&& t1.cursor_of(client) == t0.cursor_of(client) + n
    &&& forall|j: int|
        0 <= j < t0.members().len() && j != client && t0.members()[j].mode() is Some
            ==> #[trigger] t1.cursor_of(j) == cursor_after_typing(t0, client, j, n)
}

/// The cursor of every client of `t0` in insert mode but `client` is where it was in `t1`.
pub open spec fn other_cursors_kept(t0: Text, t1: Text, client: int) -> bool {
    forall|j: int|
        0 <= j < t0.members().len() && j != client && t0.members()[j].mode() is Some
            ==> #[trigger] t1.cursor_of(j) == t0.cursor_of(j)
}

/// What applying `action` as client `client` does to the document `t0`, giving `t1`: typing
/// puts the character at the client's cursor, which moves on past it, the client staying in
/// insert mode and the other cursors moving as `typed` says; entering insert mode puts the
/// cursor where the position falls and leaves the text and the other cursors; leaving insert
/// mode leaves the text and the other cursors; a backspace deletes the character the other copy
/// deleted exactly when `deletes_with_swaps` says it deletes one, the client staying in insert
/// mode and its cursor going back over that character, as do, without moved pieces, the
/// cursors at or past it while it types; and a save request changes nothing.
pub open spec fn applied(t0: Text, t1: Text, client: int, action: C2S) -> bool {
    let t = t0.text();
    let m = t0.cursor_of(client);
    let cl = t0.members()[client];
    &&& t1.wf()
    &&& t1.others_kept(&t0, client)
    &&& action is Save ==> t1 == t0
    &&& match action {
        C2S::Char(c) => t1.text() == t.take(m) + seq![c] + t.skip(m) && typed(t0, t1, client, 1),
        C2S::Enter => t1.text() == t.take(m) + seq!['\n'] + t.skip(m) && typed(t0, t1, client, 1),
        C2S::EnterInsert(pos) => {
            &&& t1.text() == t
            &&& t1.members()[client].mode() is Some
            &&& t1.members()[client].mode()->0.cursor_pos() == pos
            &&& t1.cursor_of(client) == insert_point(t, pos)
            &&& other_cursors_kept(t0, t1, client)
        },
        C2S::ExitInsert => {
            &&& t1.text() == t
            &&& t1.members()[client].mode() is None
            &&& other_cursors_kept(t0, t1, client)
        },
        C2S::Backspace(swaps) => {
            let j = deleted_point(cl, t0.piece(), swaps as int);
            let deletes = deletes_with_swaps(cl, t0.piece(), swaps as int);
            &&& if deletes {
                0 <= j && t1.text() == t.remove(j)
            } else {
                t1.text() == t
            }
            &&& t1.members()[client].mode() is Some
            &&& t1.cursor_of(client) == m - (if deletes {
                1int
            } else {
                0
            })
            &&& swaps == 0 && t0.typing(client) ==> forall|k: int|
                0 <= k < t0.members().len() && k != client && t0.members()[k].mode() is Some
                    ==> #[trigger] t1.cursor_of(k) == t0.cursor_of(k) - (if t0.cursor_of(k) >= m {
                    1int
                } else {
                    0
                })
        },
        _ => true,
    }
}

/// Applies what client `client` did to the document and says what comes of it.
pub fn apply_action(text: &mut Text, client: usize, action: &C2S) -> (r: Reply)
    requires
        old(text).wf(),
        client < old(text).members().len(),
        action_allowed(*old(text), client as int, *action),
    ensures
        r is Save <==> *action is Save,
        applied(*old(text), *final(text), client as int, *action),
{
    match action {
        C2S::Char(c) => {
            text.push_char(client, *c);
            Reply::Broadcast
        },
        C2S::Enter => {
            text.push_char(client, '\n');
            Reply::Broadcast
        },
        C2S::Backspace(swaps) => {
            let _deleted = text.backspace_with_swaps(client, *swaps);
            Reply::Broadcast
        },
        C2S::EnterInsert(pos) => {
            let _split = text.enter_insert(client, *pos);
            Reply::Broadcast
        },
        C2S::ExitInsert => {
            text.exit_insert(client);
            Reply::Broadcast
        },
        C2S::Save => Reply::Save,
        C2S::Path(_) => Reply::Save,
    }
}

/// The updates that tell each of `peers` but `from` that client `from` sent `action`, in the
/// order of `peers`.
pub open spec fn updates_for(peers: Seq<usize>, from: usize, action: C2S) -> Seq<
    (usize, S2C<Text>),
>
    decreases peers.len(),
{
    if peers.len() == 0 {
        Seq::empty()
    } else {
        let rest = updates_for(peers.drop_last(), from, action);
        if peers.last() == from {
            rest
        } else {
            rest.push((peers.last(), S2C::Update((from, action))))
        }
    }
}

/// A copy of an action, to pass on to other clients.
fn copy_action(action: &C2S) -> (r: C2S)
    ensures
        r == *action,
{
    match action {
        C2S::Char(c) => C2S::Char(*c),
        C2S::Backspace(n) => C2S::Backspace(*n),
        C2S::Enter => C2S::Enter,
        C2S::EnterInsert(pos) => C2S::EnterInsert(*pos),
        C2S::ExitInsert => C2S::ExitInsert,
        C2S::Save => C2S::Save,
        C2S::Path(p) => C2S::Path(p.clone()),
    }
}

/// The updates that tell each of `peers` but `from` that client `from` sent `action`.
fn updates_to_peers(peers: &Vec<usize>, from: usize, action: &C2S) -> (r: Vec<(usize, S2C<Text>)>)
    ensures
        r@ == updates_for(peers@, from, *action),
{
    let mut out: Vec<(usize, S2C<Text>)> = Vec::new();
    let mut i: usize = 0;
    while i < peers.len()
        invariant
            i <= peers@.len(),
            out@ == updates_for(peers@.take(i as int), from, *action),
        decreases peers@.len() - i,
    {
        let p = peers[i];
        proof {
            assert(peers@.take(i + 1).drop_last() =~= peers@.take(i as int));
            assert(peers@.take(i + 1).last() == p);
        }
        if p != from {
            out.push((p, S2C::Update((from, copy_action(action)))));
        }
        i = i + 1;
    }
    proof {
        assert(peers@.take(i as int) =~= peers@);
    }
    out
}

/// What the server does with `action`, sent by client `sender` while the clients `peers` are
/// connected: when the client may send it now, it is applied to the document; a save request
/// is answered with `Save` and no updates, anything else with `Broadcast` and an update for
/// every peer but the sender. `None`, with the document unchanged, when the message is not
/// allowed.
pub fn on_message(text: &mut Text, sender: usize, action: &C2S, peers: &Vec<usize>) -> (r: Option<
    (Reply, Vec<(usize, S2C<Text>)>),
>)
    requires
        old(text).wf(),
    ensures
        final(text).wf(),
        r is None <==> !(sender < old(text).members().len() && action_allowed(
            *old(text),
            sender as int,
            *action,
        )),
        r is None ==> *final(text) == *old(text),
        r is Some ==> applied(*old(text), *final(text), sender as int, *action),
        r matches Some((reply, out)) ==> {
            &&& (reply is Save <==> *action is Save)
            &&& reply is Save ==> out@.len() == 0
            &&& reply is Broadcast ==> out@ == updates_for(peers@, sender, *action)
        },
{
    match apply_if_allowed(text, sender, action) {
        None => None,
        Some(Reply::Save) => Some((Reply::Save, Vec::new())),
        Some(Reply::Broadcast) => Some((Reply::Broadcast, updates_to_peers(peers, sender, action))),
    }
}

/// What the server does when the connection of client `gone` fails, while the clients `peers`
/// are connected: the client leaves insert mode, the rest of the document staying as it was,
/// and every peer but `gone` is told so.
pub fn on_disconnect(text: &mut Text, gone: usize, peers: &Vec<usize>) -> (r: Vec<(usize, S2C<Text>)>)
    requires
        old(text).wf(),
    ensures
        final(text).wf(),
        gone < old(text).members().len() ==> {
            &&& final(text).others_kept(old(text), gone as int)
            &&& final(text).piece() == old(text).piece()
            &&& final(text).members()[gone as int].mode() is None
        },
        gone >= old(text).members().len() ==> *final(text) == *old(text),
        r@ == updates_for(peers@, gone, C2S::ExitInsert),
{
    if gone < text.clients().len() {
        text.exit_insert(gone);
    }
    updates_to_peers(peers, gone, &C2S::ExitInsert)
}


/// The peers with every occurrence of `from` left out, the others in their order.
pub open spec fn other_peers(peers: Seq<usize>, from: usize) -> Seq<usize>
    decreases peers.len(),
{
    if peers.len() == 0 {
        peers
    } else if peers.last() == from {
        other_peers(peers.drop_last(), from)
    } else {
        other_peers(peers.drop_last(), from).push(peers.last())
    }
}

/// The peers left once `from` is left out are those of `peers` other than `from`.
proof fn lemma_other_peers(peers: Seq<usize>, from: usize)
    ensures
        other_peers(peers, from).len() <= peers.len(),
        forall|p: usize|
            other_peers(peers, from).contains(p) <==> (peers.contains(p) && p != from),
    decreases peers.len(),
{
    if peers.len() > 0 {
        let init = peers.drop_last();
        lemma_other_peers(init, from);
        assert forall|p: usize|
            other_peers(peers, from).contains(p) <==> (peers.contains(p) && p != from) by {
            if peers.contains(p) && p != from {
                let i = choose|i: int| 0 <= i < peers.len() && peers[i] == p;
                let o = other_peers(peers, from);
                let oi = other_peers(init, from);
                if i < peers.len() - 1 {
                    assert(init[i] == p);
                    assert(init.contains(p));
                    assert(oi.contains(p));
                    let k = choose|k: int| 0 <= k < oi.len() && oi[k] == p;
                    assert(o[k] == p);
                } else {
                    assert(o[o.len() - 1] == p);
                }
            }
            if other_peers(peers, from).contains(p) {
                let o = other_peers(peers, from);
                let k = choose|k: int| 0 <= k < o.len() && o[k] == p;
                if peers.last() != from && k == o.len() - 1 {
                    assert(p == peers.last());
                    assert(peers[peers.len() - 1] == p);
                } else {
                    assert(other_peers(init, from)[k] == p);
                    assert(other_peers(init, from).contains(p));
                    assert(init.contains(p));
                    let i = choose|i: int| 0 <= i < init.len() && init[i] == p;
                    assert(init[i] == peers[i]);
                    assert(peers[i] == p);
                }
            }
        }
    }
}

/// The updates relaying `action` of client `from` go to the peers other than `from`, in the
/// order of the peers, and each carries `from` and `action`: a peer is told exactly when it is
/// connected and is not the sender.
pub proof fn law_updates_for(peers: Seq<usize>, from: usize, action: C2S)
    ensures
        ({
            let u = updates_for(peers, from, action);
            let others = other_peers(peers, from);
            &&& u.len() == others.len()
            &&& forall|k: int| 0 <= k < u.len() ==> #[trigger] u[k] == (
                others[k],
                S2C::<Text>::Update((from, action)),
            )
            &&& forall|p: usize|
                (exists|k: int| 0 <= k < u.len() && #[trigger] u[k].0 == p) <==> (peers.contains(p)
                    && p != from)
        }),
    decreases peers.len(),
{
    let u = updates_for(peers, from, action);
    let others = other_peers(peers, from);
    if peers.len() > 0 {
        law_updates_for(peers.drop_last(), from, action);
    }
    lemma_other_peers(peers, from);
    assert forall|p: usize|
        (exists|k: int| 0 <= k < u.len() && #[trigger] u[k].0 == p) <==> (peers.contains(p) && p
            != from) by {
        if exists|k: int| 0 <= k < u.len() && #[trigger] u[k].0 == p {
            let k = choose|k: int| 0 <= k < u.len() && #[trigger] u[k].0 == p;
            assert(others[k] == p);
            assert(others.contains(p));
        }
        if peers.contains(p) && p != from {
            assert(others.contains(p));
            let k = choose|k: int| 0 <= k < others.len() && others[k] == p;
            assert(u[k].0 == p);
        }
    }
}

} // verus!
