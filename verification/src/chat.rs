//! A chat room: who is in it, and what each member is told.

use vstd::prelude::*;
use vstd::string::*;

use crate::text::byte_len;
use crate::text::byte_length;
use crate::text::chars_of;
use crate::text::is_prefix;
use crate::text::join_with;
use crate::text::law_pieces_are_joined;
use crate::text::law_prefixes_agree;
use crate::text::starts_with;
use crate::text::views;

verus! {

/// How many bytes a name has at most.
pub const MAX_NAME_LENGTH: usize = 32;

/// What a client is asked first.
pub fn greeting() -> (out: String)
    ensures
        out@ == "hey, what's your name?\n"@,
{
    "hey, what's your name?\n".to_owned()
}

/// What a new member is told of those who are there.
pub open spec fn presence(users: Seq<Seq<char>>) -> Seq<char> {
    "* this room currently has "@ + (if users.len() == 0 {
        "nobody"@
    } else {
        join_with(users, ", "@)
    }) + " in it\n"@
}

/// What all are told of a new member.
pub open spec fn joined(username: Seq<char>) -> Seq<char> {
    "* "@ + username + " has joined the chat\n"@
}

/// What all are told of a member who is no longer there.
pub open spec fn left(username: Seq<char>) -> Seq<char> {
    "* "@ + username + " has left the chat\n"@
}

/// What all are told when a member says something.
pub open spec fn said(username: Seq<char>, message: Seq<char>) -> Seq<char> {
    "["@ + username + "] "@ + message + "\n"@
}

/// What the messages of a member begin with.
pub open spec fn mark(username: Seq<char>) -> Seq<char> {
    "["@ + username + "]"@
}

/// Whether a member is told a message: not if it begins as the member's own do.
pub open spec fn is_told(username: Seq<char>, message: Seq<char>) -> bool {
    !is_prefix(mark(username), message)
}

/// Why a client is not let in.
#[derive(Debug, Clone, Copy, PartialEq, Eq, Structural)]
pub enum Refusal {
    /// The name is too long.
    TooLong,
    /// A member has the name.
    Taken,
}

/// What follows when a client is let in.
#[derive(Debug, PartialEq, Eq)]
pub struct Entrance {
    /// What the new member is told.
    pub presence: String,
    /// What all are told.
    pub announcement: String,
}

/// The members of the room, in the order in which they came.
#[derive(Debug)]
pub struct Room {
    users: Vec<String>,
}

impl View for Room {
    type V = Seq<Seq<char>>;

    closed spec fn view(&self) -> Seq<Seq<char>> {
        views(self.users@)
    }
}

impl Room {
    /// Whether no two members have the same name.
    pub open spec fn wf(&self) -> bool {
        self@.no_duplicates()
    }

    /// A room with nobody in it.
    pub fn new() -> (out: Room)
        ensures
            out.wf(),
            out@ == Seq::<Seq<char>>::empty(),
    {
        let out = Room { users: Vec::new() };
        assert(out@ == Seq::<Seq<char>>::empty());
        out
    }

    /// Where the member with this name stands.
    fn find(&self, username: &str) -> (out: Option<usize>)
        ensures
            out matches Some(i) ==> i < self@.len() && i < self.users@.len() && self@[i as int]
                == username@,
            out is None ==> !self@.contains(username@),
    {
        let name = username.to_owned();
        let mut i: usize = 0;
        while i < self.users.len()
            invariant
                i <= self.users.len(),
                name@ == username@,
                forall|k: int| 0 <= k < i ==> (#[trigger] self.users@[k])@ != username@,
            decreases self.users.len() - i,
        {
            if self.users[i] == name {
                return Some(i);
            }
            i = i + 1;
        }
        proof {
            if self@.contains(username@) {
                let k = self@.index_of(username@);
                assert(self.users@[k]@ == username@);
            }
        }
        None
    }

    /// What a new member is told of those who are there.
    fn describe(&self) -> (out: String)
        ensures
            out@ == presence(self@),
    {
        let mut out = "* this room currently has ".to_owned();
        if self.users.len() == 0 {
            out.append("nobody");
        } else {
            out.append(self.users[0].as_str());
            let ghost start = "* this room currently has "@;
            let mut i: usize = 1;
            proof {
                assert(self@.take(1).len() == 1);
                assert(self@.take(1)[0] == self.users@[0]@);
            }
            while i < self.users.len()
                invariant
                    1 <= i <= self.users.len(),
                    out@ == start + join_with(self@.take(i as int), ", "@),
                decreases self.users.len() - i,
            {
                out.append(", ");
                out.append(self.users[i].as_str());
                proof {
                    assert(self@.take(i + 1).drop_last() == self@.take(i as int));
                    assert(self@.take(i + 1).last() == self.users@[i as int]@);
                    assert(out@ == start + join_with(self@.take(i + 1), ", "@));
                }
                i = i + 1;
            }
            assert(self@.take(self@.len() as int) == self@);
        }
        out.append(" in it\n");
        out
    }

    /// Lets a client in under a name, unless it is too long or a member has it.
    pub fn join(&mut self, username: &str) -> (out: Result<Entrance, Refusal>)
        requires
            old(self).wf(),
        ensures
            final(self).wf(),
            out == Err::<Entrance, Refusal>(Refusal::TooLong) <==> byte_len(username@)
                > MAX_NAME_LENGTH,
            out == Err::<Entrance, Refusal>(Refusal::Taken) <==> byte_len(username@)
                <= MAX_NAME_LENGTH && old(self)@.contains(username@),
            out is Ok <==> byte_len(username@) <= 32 && !old(self)@.contains(username@),
            out is Err ==> final(self)@ == old(self)@,
            out matches Ok(entrance) ==> {
                &&& final(self)@ == old(self)@.push(username@)
                &&& entrance.presence@ == presence(old(self)@)
                &&& entrance.announcement@ == joined(username@)
            },
    {
        if byte_length(username) > MAX_NAME_LENGTH {
            return Err(Refusal::TooLong);
        }
        if self.find(username).is_some() {
            return Err(Refusal::Taken);
        }
        let presence = self.describe();
        let ghost before = self@;
        self.users.push(username.to_owned());
        proof {
            assert(self@ == before.push(username@));
            assert forall|i: int, j: int|
                0 <= i < self@.len() && 0 <= j < self@.len() && i != j implies self@[i]
                != self@[j] by {
                if i == before.len() {
                    assert(before.contains(before[j]));
                }
                if j == before.len() {
                    assert(before.contains(before[i]));
                }
            }
        }
        let mut announcement = "* ".to_owned();
        announcement.append(username);
        announcement.append(" has joined the chat\n");
        Ok(Entrance { presence, announcement })
    }

    /// Takes in that a member is no longer there.
    pub fn leave(&mut self, username: &str)
        requires
            old(self).wf(),
        ensures
            final(self).wf(),
            final(self)@ == without(old(self)@, username@),
    {
        let ghost before = self@;
        match self.find(username) {
            Some(i) => {
                self.users.remove(i);
                proof {
                    assert(self@ == before.remove(i as int));
                    lemma_without(before, username@, i as int);
                }
            },
            None => {
                proof {
                    lemma_without_nobody(before, username@);
                }
            },
        }
    }
}

/// The members who have another name.
pub open spec fn without(users: Seq<Seq<char>>, username: Seq<char>) -> Seq<Seq<char>> {
    users.filter(|u: Seq<char>| u != username)
}

proof fn lemma_without_nobody(users: Seq<Seq<char>>, username: Seq<char>)
    requires
        !users.contains(username),
    ensures
        without(users, username) == users,
    decreases users.len(),
{
    reveal(Seq::filter);
    if users.len() > 0 {
        assert(users.contains(users.last()));
        assert(!users.drop_last().contains(username)) by {
            if users.drop_last().contains(username) {
                let k = users.drop_last().index_of(username);
                assert(users[k] == username);
            }
        }
        lemma_without_nobody(users.drop_last(), username);
        assert(users.drop_last().push(users.last()) == users);
    }
}

proof fn lemma_without(users: Seq<Seq<char>>, username: Seq<char>, i: int)
    requires
        users.no_duplicates(),
        0 <= i < users.len(),
        users[i] == username,
    ensures
        without(users, username) == users.remove(i),
        users.remove(i).no_duplicates(),
    decreases users.len(),
{
    reveal(Seq::filter);
    let shorter = users.drop_last();
    if i == users.len() - 1 {
        assert(!shorter.contains(username)) by {
            if shorter.contains(username) {
                let k = shorter.index_of(username);
                assert(users[k] == users[i]);
            }
        }
        lemma_without_nobody(shorter, username);
        assert(users.remove(i) == shorter);
    } else {
        assert(users.last() != username);
        lemma_without(shorter, username, i);
        assert(users.remove(i) == shorter.remove(i).push(users.last()));
    }
}

/// What happens to a member.
#[derive(Debug, PartialEq, Eq)]
pub enum Event {
    /// All are told something.
    Told(String),
    /// The member says something.
    Says(String),
    /// The member is no longer there.
    Gone,
}

/// What is done.
#[derive(Debug, PartialEq, Eq)]
pub enum Action {
    /// Nothing.
    Wait,
    /// The member is told this.
    Tell(String),
    /// All are told this.
    TellAll(String),
    /// All are told this, and the member leaves the room.
    Leave(String),
}

/// The mathematical counterpart of [`Event`].
pub enum EventView {
    Told(Seq<char>),
    Says(Seq<char>),
    Gone,
}

/// The mathematical counterpart of [`Action`].
pub enum ActionView {
    Wait,
    Tell(Seq<char>),
    TellAll(Seq<char>),
    Leave(Seq<char>),
}

impl View for Event {
    type V = EventView;

    open spec fn view(&self) -> EventView {
        match self {
            Event::Told(message) => EventView::Told(message@),
            Event::Says(message) => EventView::Says(message@),
            Event::Gone => EventView::Gone,
        }
    }
}

impl View for Action {
    type V = ActionView;

    open spec fn view(&self) -> ActionView {
        match self {
            Action::Wait => ActionView::Wait,
            Action::Tell(message) => ActionView::Tell(message@),
            Action::TellAll(message) => ActionView::TellAll(message@),
            Action::Leave(message) => ActionView::Leave(message@),
        }
    }
}

/// What is done when something happens to a member.
pub open spec fn step(username: Seq<char>, event: EventView) -> ActionView {
    match event {
        EventView::Told(message) => if is_told(username, message) {
            ActionView::Tell(message)
        } else {
            ActionView::Wait
        },
        EventView::Says(message) => ActionView::TellAll(said(username, message)),
        EventView::Gone => ActionView::Leave(left(username)),
    }
}

/// Decides what is done when something happens to a member.
pub fn handle(username: &str, event: Event) -> (out: Action)
    ensures
        out@ == step(username@, event@),
{
    match event {
        Event::Told(message) => {
            let mut own = "[".to_owned();
            own.append(username);
            own.append("]");
            let own = chars_of(own.as_str());
            let chars = chars_of(message.as_str());
            if starts_with(chars.as_slice(), own.as_slice()) {
                Action::Wait
            } else {
                Action::Tell(message)
            }
        },
        Event::Says(message) => {
            let mut out = "[".to_owned();
            out.append(username);
            out.append("] ");
            out.append(message.as_str());
            out.append("\n");
            Action::TellAll(out)
        },
        Event::Gone => {
            let mut out = "* ".to_owned();
            out.append(username);
            out.append(" has left the chat\n");
            Action::Leave(out)
        },
    }
}

/// Leaving undoes joining.
pub proof fn law_leaving_undoes_joining(users: Seq<Seq<char>>, username: Seq<char>)
    requires
        !users.contains(username),
    ensures
        without(users.push(username), username) == users,
{
    reveal(Seq::filter);
    lemma_without_nobody(users, username);
    assert(users.push(username).drop_last() == users);
}

/// A name is free again once its member has left.
pub proof fn law_names_become_free(users: Seq<Seq<char>>, username: Seq<char>)
    ensures
        !without(users, username).contains(username),
{
    let others = without(users, username);
    if others.contains(username) {
        users.lemma_filter_pred(|u: Seq<char>| u != username, others.index_of(username));
    }
}

/// Who is told what a member says: a member is not told if the name with a closing bracket is what
/// comes behind the opening bracket. So nobody is told what they say themselves, and if there are no
/// brackets in names, all others are.
pub proof fn law_who_is_told(username: Seq<char>, speaker: Seq<char>, message: Seq<char>)
    ensures
        is_told(username, said(speaker, message)) <==> !is_prefix(
            username + "]"@,
            speaker + "] "@ + message + "\n"@,
        ),
        !is_told(username, said(username, message)),
        !username.contains(']') && !speaker.contains(']') ==> (is_told(
            username,
            said(speaker, message),
        ) <==> username != speaker),
{
    reveal_strlit("[");
    reveal_strlit("]");
    reveal_strlit("] ");
    reveal_strlit("\n");
    lemma_prefix_behind_bracket(username + "]"@, speaker + "] "@ + message + "\n"@);
    lemma_prefix_behind_bracket(username + "]"@, username + "] "@ + message + "\n"@);
    assert(mark(username) == "["@ + (username + "]"@));
    assert(said(speaker, message) == "["@ + (speaker + "] "@ + message + "\n"@));
    assert(said(username, message) == "["@ + (username + "] "@ + message + "\n"@));
    let own = username + "]"@;
    let n = username.len() as int;
    assert((username + "] "@ + message + "\n"@).take(own.len() as int) == own);
    if !username.contains(']') && !speaker.contains(']') {
        let text = speaker + "] "@ + message + "\n"@;
        let m = speaker.len() as int;
        assert(text[m] == ']');
        if is_prefix(own, text) {
            assert(text.take(own.len() as int)[n] == ']');
            assert(text[n] == ']');
            if n < m {
                assert(speaker[n] == ']');
                assert(speaker.contains(speaker[n]));
            }
            if m < n {
                assert(text.take(own.len() as int)[m] == username[m]);
                assert(username.contains(username[m]));
            }
            assert(username == text.take(n)) by {
                assert(text.take(own.len() as int).take(n) == text.take(n));
                assert(own.take(n) == username);
            }
            assert(speaker == text.take(m));
        }
    }
}

proof fn lemma_prefix_behind_bracket(a: Seq<char>, b: Seq<char>)
    ensures
        is_prefix("["@ + a, "["@ + b) == is_prefix(a, b),
{
    reveal_strlit("[");
    let x = "["@ + a;
    let y = "["@ + b;
    if is_prefix(x, y) {
        assert forall|i: int| 0 <= i < a.len() implies a[i] == b[i] by {
            assert(x[i + 1] == y.take(x.len() as int)[i + 1]);
        }
        assert(b.take(a.len() as int) == a);
    }
    if is_prefix(a, b) {
        assert forall|i: int| 0 <= i < x.len() implies x[i] == y[i] by {
            if i > 0 {
                assert(a[i - 1] == b.take(a.len() as int)[i - 1]);
            }
        }
        assert(y.take(x.len() as int) == x);
    }
}

/// All are told who comes and who goes.
pub proof fn law_comings_and_goings_are_told(username: Seq<char>, other: Seq<char>)
    ensures
        is_told(username, joined(other)),
        is_told(username, left(other)),
{
    reveal_strlit("[");
    reveal_strlit("* ");
    assert(mark(username)[0] == '[');
    assert(joined(other)[0] == '*');
    assert(left(other)[0] == '*');
    if is_prefix(mark(username), joined(other)) {
        assert(joined(other).take(mark(username).len() as int)[0] == joined(other)[0]);
    }
    if is_prefix(mark(username), left(other)) {
        assert(left(other).take(mark(username).len() as int)[0] == left(other)[0]);
    }
}

/// What is said of a member has the member's name in the middle: behind a star and a space, and before
/// what happened.
pub proof fn law_announcements_name_the_member(username: Seq<char>)
    ensures
        joined(username) == seq!['*', ' '] + username + seq![
            ' ', 'h', 'a', 's', ' ', 'j', 'o', 'i', 'n', 'e', 'd', ' ', 't', 'h', 'e', ' ', 'c', 'h',
            'a', 't', '\n',
        ],
        left(username) == seq!['*', ' '] + username + seq![
            ' ', 'h', 'a', 's', ' ', 'l', 'e', 'f', 't', ' ', 't', 'h', 'e', ' ', 'c', 'h', 'a', 't',
            '\n',
        ],
{
    reveal_strlit("* ");
    reveal_strlit(" has joined the chat\n");
    reveal_strlit(" has left the chat\n");
    assert(joined(username) =~= seq!['*', ' '] + username + seq![
        ' ', 'h', 'a', 's', ' ', 'j', 'o', 'i', 'n', 'e', 'd', ' ', 't', 'h', 'e', ' ', 'c', 'h',
        'a', 't', '\n',
    ]);
    assert(left(username) =~= seq!['*', ' '] + username + seq![
        ' ', 'h', 'a', 's', ' ', 'l', 'e', 'f', 't', ' ', 't', 'h', 'e', ' ', 'c', 'h', 'a', 't',
        '\n',
    ]);
}

/// A new member is told every name, in the order in which the members came, with a comma and a space
/// between two; and in an empty room that nobody is there.
pub proof fn law_presence_names_everybody(a: Seq<Seq<char>>, b: Seq<Seq<char>>, name: Seq<char>)
    ensures
        presence(Seq::empty()) == seq![
            '*', ' ', 't', 'h', 'i', 's', ' ', 'r', 'o', 'o', 'm', ' ', 'c', 'u', 'r', 'r', 'e', 'n',
            't', 'l', 'y', ' ', 'h', 'a', 's', ' ',
        ] + seq!['n', 'o', 'b', 'o', 'd', 'y'] + seq![' ', 'i', 'n', ' ', 'i', 't', '\n'],
        presence(seq![name]) == seq![
            '*', ' ', 't', 'h', 'i', 's', ' ', 'r', 'o', 'o', 'm', ' ', 'c', 'u', 'r', 'r', 'e', 'n',
            't', 'l', 'y', ' ', 'h', 'a', 's', ' ',
        ] + name + seq![' ', 'i', 'n', ' ', 'i', 't', '\n'],
        a.len() > 0 && b.len() > 0 ==> ({
            let x = presence(a).subrange(26, presence(a).len() - 7);
            let y = presence(b).subrange(26, presence(b).len() - 7);
            presence(a + b) == presence(a).take(26) + x + seq![',', ' '] + y + presence(b).skip(
                presence(b).len() - 7,
            )
        }),
{
    reveal_strlit("* this room currently has ");
    reveal_strlit("nobody");
    reveal_strlit(" in it\n");
    reveal_strlit(", ");
    let begins = "* this room currently has "@;
    let ends = " in it\n"@;
    assert(", "@ =~= seq![',', ' ']);
    assert("nobody"@ =~= seq!['n', 'o', 'b', 'o', 'd', 'y']);
    assert(begins =~= seq![
            '*', ' ', 't', 'h', 'i', 's', ' ', 'r', 'o', 'o', 'm', ' ', 'c', 'u', 'r', 'r', 'e', 'n',
            't', 'l', 'y', ' ', 'h', 'a', 's', ' ',
        ]);
    assert(ends =~= seq![' ', 'i', 'n', ' ', 'i', 't', '\n']);
    law_pieces_are_joined(a, b, name, ", "@);
    if a.len() > 0 && b.len() > 0 {
        let x = join_with(a, ", "@);
        let y = join_with(b, ", "@);
        assert(presence(a).subrange(26, presence(a).len() - 7) =~= x);
        assert(presence(b).subrange(26, presence(b).len() - 7) =~= y);
        assert(presence(a).take(26) =~= begins);
        assert(presence(b).skip(presence(b).len() - 7) =~= ends);
        assert(presence(a + b) =~= begins + x + seq![',', ' '] + y + ends);
    }
}

/// What a member says goes out to all with the member's name in brackets before it and a line feed
/// behind it, and all of it.
pub proof fn law_messages_go_out_whole(username: Seq<char>, message: Seq<char>)
    ensures
        step(username, EventView::Says(message)) matches ActionView::TellAll(text) && {
            let n = username.len() as int;
            &&& text.len() == n + message.len() + 4
            &&& text[0] == '['
            &&& text.subrange(1, n + 1) == username
            &&& text[n + 1] == ']'
            &&& text[n + 2] == ' '
            &&& text.subrange(n + 3, n + 3 + message.len()) == message
            &&& text.last() == '\n'
        },
        step(username, EventView::Gone) == ActionView::Leave(left(username)),
{
    reveal_strlit("[");
    reveal_strlit("] ");
    reveal_strlit("\n");
    let n = username.len() as int;
    let text = said(username, message);
    assert(text.subrange(1, n + 1) =~= username);
    assert(text.subrange(n + 3, n + 3 + message.len()) =~= message);
}

/// A member is told each message as it is, unless it begins with the member's name in brackets.
pub proof fn law_members_are_told_the_rest(username: Seq<char>, message: Seq<char>)
    ensures
        ({
            let n = username.len() as int;
            let own = n + 2 <= message.len() && message[0] == '[' && message.subrange(1, n + 1)
                == username && message[n + 1] == ']';
            &&& own ==> step(username, EventView::Told(message)) is Wait
            &&& !own ==> step(username, EventView::Told(message)) == ActionView::Tell(message)
        }),
{
    reveal_strlit("[");
    reveal_strlit("]");
    let n = username.len() as int;
    let own = mark(username);
    assert(own.len() == n + 2);
    assert(own[0] == '[');
    assert(own[n + 1] == ']');
    law_prefixes_agree(own, message);
    if is_prefix(own, message) {
        assert forall|i: int| 0 <= i < n implies message.subrange(1, n + 1)[i] == username[i] by {
            assert(own[i + 1] == username[i]);
            assert(message[i + 1] == own[i + 1]);
        }
        assert(message.subrange(1, n + 1) =~= username);
    }
    if n + 2 <= message.len() && message[0] == '[' && message.subrange(1, n + 1) == username
        && message[n + 1] == ']' {
        assert forall|i: int| 0 <= i < own.len() implies #[trigger] message[i] == own[i] by {
            if 0 < i < n + 1 {
                assert(message.subrange(1, n + 1)[i - 1] == message[i]);
                assert(own[i] == username[i - 1]);
            }
        }
    }
}

/// Who leaves is taken out, and all others stay in their order.
pub proof fn law_others_stay(a: Seq<Seq<char>>, b: Seq<Seq<char>>, username: Seq<char>, other: Seq<char>)
    ensures
        without(Seq::empty(), username) == Seq::<Seq<char>>::empty(),
        without(seq![username], username) == Seq::<Seq<char>>::empty(),
        other != username ==> without(seq![other], username) == seq![other],
        without(a + b, username) == without(a, username) + without(b, username),
    decreases b.len(),
{
    reveal(Seq::filter);
    assert(seq![username].drop_last() == Seq::<Seq<char>>::empty());
    assert(seq![other].drop_last() == Seq::<Seq<char>>::empty());
    assert(without(Seq::empty(), username) == Seq::<Seq<char>>::empty());
    if b.len() == 0 {
        assert(a + b == a);
    } else {
        law_others_stay(a, b.drop_last(), username, other);
        assert((a + b).drop_last() == a + b.drop_last());
    }
}

/// What an event and an action show of themselves is what they hold.
pub proof fn law_events_show_what_they_hold(event: Event, action: Action)
    ensures
        match event {
            Event::Told(message) => event@ == EventView::Told(message@),
            Event::Says(message) => event@ == EventView::Says(message@),
            Event::Gone => event@ == EventView::Gone,
        },
        match action {
            Action::Wait => action@ == ActionView::Wait,
            Action::Tell(message) => action@ == ActionView::Tell(message@),
            Action::TellAll(message) => action@ == ActionView::TellAll(message@),
            Action::Leave(message) => action@ == ActionView::Leave(message@),
        },
{
}

} // verus!
