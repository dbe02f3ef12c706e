//! A store of strings under string keys, spoken to in single messages.

use vstd::hash_map::StringHashMap;
use vstd::prelude::*;
use vstd::slice::slice_subrange;
use vstd::string::*;

use crate::text::chars_of;
use crate::text::string_of;

verus! {

/// What `text` consists of before and after the first `=`.
pub open spec fn split_once(text: Seq<char>) -> Option<(Seq<char>, Seq<char>)> {
    match text.index_of_first('=') {
        Some(i) => Some((text.take(i), text.skip(i + 1))),
        None => None,
    }
}

/// The key under which the store tells what it is. It cannot be written.
pub open spec fn version_key() -> Seq<char> {
    "version"@
}

/// What the store is.
pub open spec fn version() -> Seq<char> {
    "ivo's db 0.1"@
}

/// The store after a message. One with `=` is a write, and any other changes nothing.
pub open spec fn after(db: Map<Seq<char>, Seq<char>>, message: Seq<char>) -> Map<
    Seq<char>,
    Seq<char>,
> {
    match split_once(message) {
        Some((key, value)) => if key == version_key() {
            db
        } else {
            db.insert(key, value)
        },
        None => db,
    }
}

/// The value under a key: nothing, if none was written.
pub open spec fn value_of(db: Map<Seq<char>, Seq<char>>, key: Seq<char>) -> Seq<char> {
    if db.contains_key(key) {
        db[key]
    } else {
        Seq::empty()
    }
}

/// What is answered to a message. One without `=` is a read, and a write is not answered.
pub open spec fn reply(db: Map<Seq<char>, Seq<char>>, message: Seq<char>) -> Option<Seq<char>> {
    match split_once(message) {
        Some(_) => None,
        None => Some(message + seq!['='] + value_of(db, message)),
    }
}

/// The store.
pub struct Database {
    db: StringHashMap<String>,
}

impl View for Database {
    type V = Map<Seq<char>, Seq<char>>;

    closed spec fn view(&self) -> Map<Seq<char>, Seq<char>> {
        self.db@.map_values(|value: String| value@)
    }
}

/// Takes `text` apart at the first `=`.
fn split_at_equals(text: &str) -> (out: Option<(String, String)>)
    ensures
        out is Some == split_once(text@) is Some,
        out matches Some((key, value)) ==> split_once(text@) == Some((key@, value@)),
{
    let chars = chars_of(text);
    let mut i: usize = 0;
    while i < chars.len()
        invariant
            i <= chars.len(),
            chars@ == text@,
            forall|k: int| 0 <= k < i ==> #[trigger] chars@[k] != '=',
        decreases chars.len() - i,
    {
        if chars[i] == '=' {
            let key = slice_subrange(chars.as_slice(), 0, i);
            let value = slice_subrange(chars.as_slice(), i + 1, chars.len());
            proof {
                text@.index_of_first_ensures('=');
                assert(text@.contains(text@[i as int]));
                assert(text@.index_of_first('=') == Some(i as int));
                assert(key@ == text@.take(i as int));
                assert(value@ == text@.skip(i + 1));
            }
            return Some((string_of(key), string_of(value)));
        }
        i = i + 1;
    }
    proof {
        text@.index_of_first_ensures('=');
        assert(!text@.contains('='));
    }
    None
}

impl Database {
    /// A store that holds nothing but what it is.
    pub fn new() -> (out: Database)
        ensures
            out@ == Map::empty().insert(version_key(), version()),
    {
        let mut db: StringHashMap<String> = StringHashMap::new();
        db.insert("version".to_owned(), "ivo's db 0.1".to_owned());
        let out = Database { db };
        assert(out@ == Map::empty().insert(version_key(), version()));
        out
    }

    /// Does what a message asks for, and gives the answer if there is one.
    pub fn handle(&mut self, message: &str) -> (out: Option<String>)
        ensures
            final(self)@ == after(old(self)@, message@),
            out is Some == reply(old(self)@, message@) is Some,
            out matches Some(answer) ==> Some(answer@) == reply(old(self)@, message@),
    {
        match split_at_equals(message) {
            Some((key, value)) => {
                if key != "version".to_owned() {
                    let ghost before = self@;
                    let ghost k = key@;
                    let ghost v = value@;
                    self.db.insert(key, value);
                    assert(self@ == before.insert(k, v));
                }
                None
            },
            None => {
                let mut answer = message.to_owned();
                answer.push('=');
                match self.db.get(message) {
                    Some(value) => {
                        answer.append(value.as_str());
                    },
                    None => {
                        assert(answer@ == message@ + seq!['='] + Seq::<char>::empty());
                    },
                }
                Some(answer)
            },
        }
    }
}

/// The store after messages, from the first to the last.
pub open spec fn after_all(
    db: Map<Seq<char>, Seq<char>>,
    messages: Seq<Seq<char>>,
) -> Map<Seq<char>, Seq<char>>
    decreases messages.len(),
{
    if messages.len() == 0 {
        db
    } else {
        after(after_all(db, messages.drop_last()), messages.last())
    }
}

/// Whether a message writes a key.
pub open spec fn writes(message: Seq<char>, key: Seq<char>) -> bool {
    split_once(message) matches Some((k, _)) && k == key
}

/// The message that writes a value under a key. It is read as that, whatever the value; a key has
/// no `=`.
pub proof fn law_writes_are_understood(key: Seq<char>, value: Seq<char>)
    requires
        !key.contains('='),
    ensures
        split_once(key + seq!['='] + value) == Some((key, value)),
        split_once(key) is None,
{
    let message = key + seq!['='] + value;
    message.index_of_first_ensures('=');
    key.index_of_first_ensures('=');
    let n = key.len() as int;
    assert(message[n] == '=');
    assert(message.contains('='));
    let i = message.index_of_first('=')->0;
    if i < n {
        assert(message[i] == key[i]);
    }
    assert(i == n);
    assert(message.take(n) == key);
    assert(message.skip(n + 1) == value);
}

/// A read gives back what was written last, whatever else happened since.
pub proof fn law_reads_give_the_last_write(
    db: Map<Seq<char>, Seq<char>>,
    key: Seq<char>,
    value: Seq<char>,
    others: Seq<Seq<char>>,
)
    requires
        !key.contains('='),
        key != version_key(),
        forall|i: int| 0 <= i < others.len() ==> !writes(#[trigger] others[i], key),
    ensures
        reply(after_all(after(db, key + seq!['='] + value), others), key) == Some(
            key + seq!['='] + value,
        ),
{
    law_writes_are_understood(key, value);
    let written = after(db, key + seq!['='] + value);
    lemma_others_leave_a_key(written, key, others);
}

/// A key that was never written reads as nothing.
pub proof fn law_unwritten_keys_are_empty(key: Seq<char>, others: Seq<Seq<char>>)
    requires
        !key.contains('='),
        key != version_key(),
        forall|i: int| 0 <= i < others.len() ==> !writes(#[trigger] others[i], key),
    ensures
        reply(
            after_all(Map::empty().insert(version_key(), version()), others),
            key,
        ) == Some(key + seq!['=']),
{
    law_writes_are_understood(key, Seq::empty());
    lemma_others_leave_a_key(Map::empty().insert(version_key(), version()), key, others);
    assert(key + seq!['='] + Seq::<char>::empty() == key + seq!['=']);
}

proof fn lemma_others_leave_a_key(
    db: Map<Seq<char>, Seq<char>>,
    key: Seq<char>,
    others: Seq<Seq<char>>,
)
    requires
        forall|i: int| 0 <= i < others.len() ==> !writes(#[trigger] others[i], key),
    ensures
        value_of(after_all(db, others), key) == value_of(db, key),
    decreases others.len(),
{
    if others.len() > 0 {
        assert forall|i: int| 0 <= i < others.drop_last().len() implies !writes(
            #[trigger] others.drop_last()[i],
            key,
        ) by {
            assert(others.drop_last()[i] == others[i]);
        }
        lemma_others_leave_a_key(db, key, others.drop_last());
        assert(!writes(others[others.len() - 1], key));
    }
}

/// What the store is never changes, whatever messages come.
pub proof fn law_version_never_changes(messages: Seq<Seq<char>>)
    ensures
        reply(
            after_all(Map::empty().insert(version_key(), version()), messages),
            version_key(),
        ) == Some(version_key() + seq!['='] + version()),
{
    let start = Map::empty().insert(version_key(), version());
    reveal_strlit("version");
    assert(!version_key().contains('='));
    law_writes_are_understood(version_key(), version());
    lemma_version_stays(start, messages);
}

proof fn lemma_version_stays(db: Map<Seq<char>, Seq<char>>, messages: Seq<Seq<char>>)
    ensures
        value_of(after_all(db, messages), version_key()) == value_of(db, version_key()),
    decreases messages.len(),
{
    if messages.len() > 0 {
        lemma_version_stays(db, messages.drop_last());
    }
}

/// A write changes one key and is not answered; a read changes nothing, and is answered with the key,
/// `=` and the value.
pub proof fn law_messages_do_one_thing(
    db: Map<Seq<char>, Seq<char>>,
    key: Seq<char>,
    value: Seq<char>,
    other: Seq<char>,
)
    requires
        !key.contains('='),
    ensures
        reply(db, key + seq!['='] + value) is None,
        after(db, key) == db,
        reply(db, key) matches Some(answer) && answer.take(key.len() as int) == key
            && answer[key.len() as int] == '=' && answer.skip(key.len() as int + 1) == if db.contains_key(
            key,
        ) {
            db[key]
        } else {
            Seq::empty()
        },
        other != key ==> {
            &&& after(db, key + seq!['='] + value).contains_key(other) == db.contains_key(other)
            &&& db.contains_key(other) ==> after(db, key + seq!['='] + value)[other] == db[other]
        },
        key != seq!['v', 'e', 'r', 's', 'i', 'o', 'n'] ==> {
            &&& after(db, key + seq!['='] + value).contains_key(key)
            &&& after(db, key + seq!['='] + value)[key] == value
        },
        key == seq!['v', 'e', 'r', 's', 'i', 'o', 'n'] ==> after(db, key + seq!['='] + value) == db,
{
    law_writes_are_understood(key, value);
    reveal_strlit("version");
    assert(version_key() =~= seq!['v', 'e', 'r', 's', 'i', 'o', 'n']);
    let v = value_of(db, key);
    let answer = key + seq!['='] + v;
    assert(answer.take(key.len() as int) == key);
    assert(answer.skip(key.len() as int + 1) == v);
}

/// What the store says that it is, letter for letter.
pub proof fn law_the_version_is()
    ensures
        version_key() == seq!['v', 'e', 'r', 's', 'i', 'o', 'n'],
        version() == seq!['i', 'v', 'o', '\'', 's', ' ', 'd', 'b', ' ', '0', '.', '1'],
{
    reveal_strlit("version");
    reveal_strlit("ivo's db 0.1");
    assert(version_key() =~= seq!['v', 'e', 'r', 's', 'i', 'o', 'n']);
    assert(version() =~= seq!['i', 'v', 'o', '\'', 's', ' ', 'd', 'b', ' ', '0', '.', '1']);
}

} // verus!
