//! The key-value store: a mapping from keys to values, and the commands
//! carried out on it.

use std::collections::hash_map::DefaultHasher;
use std::collections::HashMap;
use std::hash::Hasher;
use vstd::prelude::*;
use vstd::slice::slice_to_vec;
use vstd::std_specs::hash::DefaultHasherAdditionalSpecFns;
use vstd::string::StringSliceAdditionalSpecFns;
use crate::commands::{Command, CommandView};
use crate::resp::{encode, view_each, Resp, RespView};

verus! {

/// The bytes of a text of ASCII characters.
pub open spec fn ascii(text: Seq<char>) -> Seq<u8> {
    Seq::new(text.len(), |i: int| text[i] as u8)
}

/// The bulk string that carries an ASCII text.
pub open spec fn bulk_text(text: Seq<char>) -> RespView {
    RespView::BulkString(Some(ascii(text)))
}

/// The answer to `CONFIG` for the parameter `name`: the name and the fixed
/// value for `save` and for `appendonly`, an error for any other.
pub open spec fn config_reply(name: Seq<char>) -> RespView {
    if name == "save"@ {
        RespView::Array(Some(seq![bulk_text("save"@), bulk_text("3600 1 300 100 60 10000"@)]))
    } else if name == "appendonly"@ {
        RespView::Array(Some(seq![bulk_text("appendonly"@), bulk_text("no"@)]))
    } else {
        RespView::Error(ascii("Supporting only \"appendonly\" and \"save\""@))
    }
}

/// The answer of a store with the contents `store` to `command`.
pub open spec fn reply_to(store: Map<Seq<u8>, Seq<u8>>, command: CommandView) -> RespView {
    match command {
        CommandView::Get(key) => if store.contains_key(key) {
            RespView::BulkString(Some(store[key]))
        } else {
            RespView::BulkString(None)
        },
        CommandView::SetValue(key, value) => RespView::SimpleString(ascii("OK"@)),
        CommandView::Command => RespView::BulkString(None),
        CommandView::Config(name) => config_reply(name),
    }
}

/// The contents of a store after `command`, given its contents before.
pub open spec fn state_after(store: Map<Seq<u8>, Seq<u8>>, command: CommandView) -> Map<
    Seq<u8>,
    Seq<u8>,
> {
    match command {
        CommandView::SetValue(key, value) => store.insert(key, value),
        _ => store,
    }
}

/// The contents of a store after `command` was carried out `times` times.
pub open spec fn repeated(store: Map<Seq<u8>, Seq<u8>>, command: CommandView, times: nat) -> Map<
    Seq<u8>,
    Seq<u8>,
>
    decreases times,
{
    if times == 0 {
        store
    } else {
        state_after(repeated(store, command, (times - 1) as nat), command)
    }
}

/// The contents of a store after the commands of `commands` were carried
/// out in order.
pub open spec fn apply_all(store: Map<Seq<u8>, Seq<u8>>, commands: Seq<CommandView>) -> Map<
    Seq<u8>,
    Seq<u8>,
>
    decreases commands.len(),
{
    if commands.len() == 0 {
        store
    } else {
        state_after(apply_all(store, commands.drop_last()), commands.last())
    }
}

/// Tells whether `command` binds `key`.
pub open spec fn writes_to(command: CommandView, key: Seq<u8>) -> bool {
    command matches CommandView::SetValue(k, _) && k == key
}

/// Setting a key to a value once or many times gives the same store, and
/// `GET` of that key then answers with that value.
pub proof fn lemma_set_is_idempotent(
    store: Map<Seq<u8>, Seq<u8>>,
    key: Seq<u8>,
    value: Seq<u8>,
    times: nat,
)
    requires
        times >= 1,
    ensures
        repeated(store, CommandView::SetValue(key, value), times) == store.insert(key, value),
        reply_to(
            repeated(store, CommandView::SetValue(key, value), times),
            CommandView::Get(key),
        ) == RespView::BulkString(Some(value)),
    decreases times,
{
    let command = CommandView::SetValue(key, value);
    if times == 1 {
        assert(repeated(store, command, 0) == store);
    } else {
        lemma_set_is_idempotent(store, key, value, (times - 1) as nat);
        assert(store.insert(key, value).insert(key, value) =~= store.insert(key, value));
    }
}

/// `GET` of a key that was never set answers with the nil bulk string: in
/// a new store, and in any store that has not bound the key.
pub proof fn lemma_get_of_unset_key(store: Map<Seq<u8>, Seq<u8>>, key: Seq<u8>)
    requires
        !store.contains_key(key),
    ensures
        reply_to(store, CommandView::Get(key)) == RespView::BulkString(None),
        reply_to(Map::<Seq<u8>, Seq<u8>>::empty(), CommandView::Get(key)) == RespView::BulkString(
            None,
        ),
{
}

/// Of the values written to a key the last one stays: in whatever order
/// commands reach the store, once they are carried out one after the other
/// `GET` of a key answers with the value of the last `SET` of that key.
pub proof fn lemma_last_write_stays(
    store: Map<Seq<u8>, Seq<u8>>,
    commands: Seq<CommandView>,
    last: int,
    key: Seq<u8>,
    value: Seq<u8>,
)
    requires
        0 <= last < commands.len(),
        commands[last] == CommandView::SetValue(key, value),
        forall|j: int| last < j < commands.len() ==> !writes_to(#[trigger] commands[j], key),
    ensures
        apply_all(store, commands).contains_key(key),
        apply_all(store, commands)[key] == value,
        reply_to(apply_all(store, commands), CommandView::Get(key)) == RespView::BulkString(
            Some(value),
        ),
    decreases commands.len(),
{
    let before = commands.drop_last();
    if last < commands.len() - 1 {
        assert(!writes_to(commands[commands.len() - 1], key));
        assert forall|j: int| last < j < before.len() implies !writes_to(
            #[trigger] before[j],
            key,
        ) by {
            assert(before[j] == commands[j]);
        }
        lemma_last_write_stays(store, before, last, key, value);
    }
}

/// A command leaves the binding of every key that it does not write to as
/// it was.
pub proof fn lemma_other_keys_stay(
    store: Map<Seq<u8>, Seq<u8>>,
    command: CommandView,
    key: Seq<u8>,
)
    requires
        !writes_to(command, key),
    ensures
        state_after(store, command).contains_key(key) == store.contains_key(key),
        state_after(store, command).contains_key(key) ==> state_after(store, command)[key]
            == store[key],
        reply_to(state_after(store, command), CommandView::Get(key)) == reply_to(
            store,
            CommandView::Get(key),
        ),
{
}

/// The number of the bucket that holds `key`, if anything does: the hash
/// that the standard library's default hasher gives of the key's bytes.
spec fn bucket_of(key: Seq<u8>) -> u64 {
    DefaultHasher::spec_finish(seq![key])
}

/// Tells whether the entry at `i` is the one of `key`.
spec fn holds_at(entries: Seq<(Vec<u8>, Vec<u8>)>, key: Seq<u8>, i: int) -> bool {
    0 <= i < entries.len() && entries[i].0@ == key
}

/// Tells whether no key occurs twice among the entries.
spec fn distinct_keys(entries: Seq<(Vec<u8>, Vec<u8>)>) -> bool {
    forall|i: int, j: int|
        0 <= i < j < entries.len() ==> (#[trigger] entries[i]).0@ != (#[trigger] entries[j]).0@
}

/// Tells whether every key among the entries belongs in the bucket `hash`.
spec fn placed_in(entries: Seq<(Vec<u8>, Vec<u8>)>, hash: u64) -> bool {
    forall|i: int| 0 <= i < entries.len() ==> bucket_of((#[trigger] entries[i]).0@) == hash
}

/// The mapping that a list of entries stands for.
spec fn mapping_of(entries: Seq<(Vec<u8>, Vec<u8>)>) -> Map<Seq<u8>, Seq<u8>> {
    Map::new(
        |key: Seq<u8>| exists|i: int| holds_at(entries, key, i),
        |key: Seq<u8>| entries[choose|i: int| holds_at(entries, key, i)].1@,
    )
}

/// The mapping that the buckets stand for together: a key is looked for in
/// its own bucket and nowhere else.
spec fn contents(buckets: Map<u64, Vec<(Vec<u8>, Vec<u8>)>>) -> Map<Seq<u8>, Seq<u8>> {
    Map::new(
        |key: Seq<u8>|
            buckets.contains_key(bucket_of(key)) && mapping_of(
                buckets[bucket_of(key)]@,
            ).contains_key(key),
        |key: Seq<u8>| mapping_of(buckets[bucket_of(key)]@)[key],
    )
}

/// An entry's key is bound to the entry's value, where no key occurs twice.
proof fn lemma_entry_is_bound(entries: Seq<(Vec<u8>, Vec<u8>)>, i: int)
    requires
        distinct_keys(entries),
        0 <= i < entries.len(),
    ensures
        mapping_of(entries).contains_key(entries[i].0@),
        mapping_of(entries)[entries[i].0@] == entries[i].1@,
{
    let key = entries[i].0@;
    assert(holds_at(entries, key, i));
    let found = choose|k: int| holds_at(entries, key, k);
    assert(holds_at(entries, key, found));
    if found < i {
        assert(entries[found].0@ != entries[i].0@);
    } else if i < found {
        assert(entries[i].0@ != entries[found].0@);
    }
}

/// Tells whether two slices hold the same bytes.
fn same_bytes(a: &[u8], b: &[u8]) -> (same: bool)
    ensures
        same == (a@ == b@),
{
    if a.len() != b.len() {
        return false;
    }
    let mut i: usize = 0;
    while i < a.len()
        invariant
            i <= a@.len() == b@.len(),
            forall|k: int| 0 <= k < i ==> a@[k] == b@[k],
        decreases a.len() - i,
    {
        if a[i] != b[i] {
            return false;
        }
        i = i + 1;
    }
    assert(a@ =~= b@);
    true
}

/// The bytes of an ASCII text.
fn ascii_bytes(text: &str) -> (bytes: Vec<u8>)
    requires
        text.is_ascii(),
    ensures
        bytes@ == ascii(text@),
{
    proof {
        vstd::string::is_ascii_spec_bytes(text);
        assert(text.spec_bytes() =~= ascii(text@));
    }
    slice_to_vec(text.as_bytes())
}

/// The number of the bucket for `key`.
fn hash(key: &[u8]) -> (h: u64)
    ensures
        h == bucket_of(key@),
{
    let mut hasher = DefaultHasher::new();
    hasher.write(key);
    assert(hasher@ =~= seq![key@]);
    hasher.finish()
}

/// The position of the entry of `key` among `entries`, if there is one.
fn find(entries: &Vec<(Vec<u8>, Vec<u8>)>, key: &[u8]) -> (found: Option<usize>)
    ensures
        match found {
            Some(i) => holds_at(entries@, key@, i as int),
            None => forall|i: int| !holds_at(entries@, key@, i),
        },
{
    let mut i: usize = 0;
    while i < entries.len()
        invariant
            i <= entries@.len(),
            forall|k: int| 0 <= k < i ==> !holds_at(entries@, key@, k),
        decreases entries.len() - i,
    {
        if same_bytes(entries[i].0.as_slice(), key) {
            return Some(i);
        }
        i = i + 1;
    }
    None
}

/// Binds `key` to `value` among the entries of one bucket: in place of
/// the entry of `key` where there is one, else as a new entry.
fn put(entries: &mut Vec<(Vec<u8>, Vec<u8>)>, key: &[u8], value: Vec<u8>)
    requires
        distinct_keys(old(entries)@),
        placed_in(old(entries)@, bucket_of(key@)),
    ensures
        distinct_keys(final(entries)@),
        placed_in(final(entries)@, bucket_of(key@)),
        mapping_of(final(entries)@) == mapping_of(old(entries)@).insert(key@, value@),
{
    let ghost before = entries@;
    match find(entries, key) {
        Some(i) => {
            entries.set(i, (slice_to_vec(key), value));
            proof {
                let after = entries@;
                assert forall|k: Seq<u8>, j: int|
                    holds_at(before, k, j) <==> holds_at(after, k, j) by {}
                assert(distinct_keys(after));
                assert forall|k: Seq<u8>| #[trigger]
                    mapping_of(after).contains_key(k) implies mapping_of(after)[k] == mapping_of(
                    before,
                ).insert(key@, value@)[k] by {
                    let j = choose|j: int| holds_at(after, k, j);
                    lemma_entry_is_bound(after, j);
                    lemma_entry_is_bound(before, j);
                }
                lemma_entry_is_bound(before, i as int);
                assert(mapping_of(after) =~= mapping_of(before).insert(key@, value@));
            }
        },
        None => {
            entries.push((slice_to_vec(key), value));
            proof {
                let after = entries@;
                let last = before.len() as int;
                assert(holds_at(after, key@, last));
                assert forall|k: Seq<u8>, j: int| holds_at(before, k, j) implies holds_at(
                    after,
                    k,
                    j,
                ) by {}
                assert(distinct_keys(after)) by {
                    assert forall|i: int, j: int| 0 <= i < j < after.len() implies (
                    #[trigger] after[i]).0@ != (#[trigger] after[j]).0@ by {
                        if j == last {
                            assert(!holds_at(before, key@, i));
                        } else {
                            assert(before[i].0@ != before[j].0@);
                        }
                    }
                }
                assert forall|k: Seq<u8>| #[trigger]
                    mapping_of(after).contains_key(k) implies mapping_of(before).insert(
                    key@,
                    value@,
                ).contains_key(k) && mapping_of(after)[k] == mapping_of(before).insert(
                    key@,
                    value@,
                )[k] by {
                    let j = choose|j: int| holds_at(after, k, j);
                    lemma_entry_is_bound(after, j);
                    if j < last {
                        assert(holds_at(before, k, j));
                        lemma_entry_is_bound(before, j);
                    }
                }
                assert(mapping_of(after) =~= mapping_of(before).insert(key@, value@));
            }
        },
    }
}

/// The in-memory mapping from keys to values. Keys and values are byte
/// strings; a key is bound to at most one value.
///
/// The entries are kept in buckets by the hash of their keys, so that a
/// key is found without a look at the entries of other buckets.
#[derive(Debug)]
pub struct KeyValueStore {
    store: HashMap<u64, Vec<(Vec<u8>, Vec<u8>)>>,
}

impl View for KeyValueStore {
    type V = Map<Seq<u8>, Seq<u8>>;

    closed spec fn view(&self) -> Map<Seq<u8>, Seq<u8>> {
        contents(self.store@)
    }
}

impl KeyValueStore {
    /// The invariant of the representation: no bucket holds a key twice,
    /// and every entry lies in the bucket of its key.
    #[verifier::type_invariant]
    spec fn well_kept(self) -> bool {
        forall|h: u64| #[trigger]
            self.store@.contains_key(h) ==> distinct_keys(self.store@[h]@) && placed_in(
                self.store@[h]@,
                h,
            )
    }

    /// A store that holds nothing.
    pub fn new() -> (store: Self)
        ensures
            store@ == Map::<Seq<u8>, Seq<u8>>::empty(),
    {
        let store = KeyValueStore { store: HashMap::new() };
        assert(store@ =~= Map::<Seq<u8>, Seq<u8>>::empty());
        store
    }

    /// Carries out a command and gives the encoded answer.
    ///
    /// `GET` answers with the value of the key as a bulk string, nil where
    /// the key is not bound. `SET` binds the key to the value, whatever it
    /// was bound to, and answers `OK`. `COMMAND` answers with the nil bulk
    /// string. `CONFIG` answers with the parameter's name and value for
    /// `save` and `appendonly`, and with an error for any other name.
    pub fn exec(&mut self, command: Command) -> (reply: Vec<u8>)
        ensures
            reply@ == encode(reply_to(old(self)@, command@)),
            final(self)@ == state_after(old(self)@, command@),
    {
        match command {
            Command::Get(key) => self.get(key.as_slice()),
            Command::SetValue((key, value)) => self.set(key.as_slice(), value),
            Command::Command => Resp::BulkString(None).serialize(),
            Command::Config(name) => {
                proof {
                    reveal_strlit("save");
                    reveal_strlit("3600 1 300 100 60 10000");
                    reveal_strlit("appendonly");
                    reveal_strlit("no");
                    reveal_strlit("Supporting only \"appendonly\" and \"save\"");
                }
                if name == "save".to_owned() {
                    let items = vec![
                        Resp::BulkString(Some(ascii_bytes("save"))),
                        Resp::BulkString(Some(ascii_bytes("3600 1 300 100 60 10000"))),
                    ];
                    assert(view_each(items@) =~= seq![
                        bulk_text("save"@),
                        bulk_text("3600 1 300 100 60 10000"@),
                    ]);
                    Resp::Array(Some(items)).serialize()
                } else if name == "appendonly".to_owned() {
                    let items = vec![
                        Resp::BulkString(Some(ascii_bytes("appendonly"))),
                        Resp::BulkString(Some(ascii_bytes("no"))),
                    ];
                    assert(view_each(items@) =~= seq![bulk_text("appendonly"@), bulk_text("no"@)]);
                    Resp::Array(Some(items)).serialize()
                } else {
                    Resp::Error(
                        ascii_bytes("Supporting only \"appendonly\" and \"save\""),
                    ).serialize()
                }
            },
        }
    }

    /// Binds `key` to `value`, whatever it was bound to before.
    pub fn store_set(&mut self, key: &[u8], value: Vec<u8>)
        ensures
            final(self)@ == old(self)@.insert(key@, value@),
    {
        proof {
            use_type_invariant(&*self);
        }
        let ghost before = self.store@;
        let h = hash(key);
        let mut buckets: HashMap<u64, Vec<(Vec<u8>, Vec<u8>)>> = HashMap::new();
        core::mem::swap(&mut self.store, &mut buckets);
        let mut bucket = match buckets.remove(&h) {
            Some(bucket) => bucket,
            None => Vec::new(),
        };
        let ghost was = bucket@;
        put(&mut bucket, key, value);
        let ghost now = bucket@;
        buckets.insert(h, bucket);
        proof {
            let after = buckets@;
            assert(!before.contains_key(h) ==> mapping_of(was) =~= Map::<
                Seq<u8>,
                Seq<u8>,
            >::empty());
            assert forall|k: Seq<u8>| #[trigger]
                contents(after).contains_key(k) <==> contents(before).insert(
                    key@,
                    value@,
                ).contains_key(k) by {}
            assert forall|k: Seq<u8>| #[trigger]
                contents(after).contains_key(k) implies contents(after)[k] == contents(
                before,
            ).insert(key@, value@)[k] by {}
            assert(contents(after) =~= contents(before).insert(key@, value@));
        }
        self.store = buckets;
    }

    /// The value that `key` is bound to, if it is bound.
    pub fn store_get(&self, key: &[u8]) -> (found: Option<&Vec<u8>>)
        ensures
            match found {
                Some(value) => self@.contains_key(key@) && self@[key@] == value@,
                None => !self@.contains_key(key@),
            },
    {
        proof {
            use_type_invariant(self);
        }
        let h = hash(key);
        match self.store.get(&h) {
            None => None,
            Some(bucket) => match find(bucket, key) {
                Some(i) => {
                    proof {
                        lemma_entry_is_bound(bucket@, i as int);
                    }
                    Some(&bucket[i].1)
                },
                None => None,
            },
        }
    }

    /// The encoded answer to `GET key`.
    pub fn get(&self, key: &[u8]) -> (reply: Vec<u8>)
        ensures
            reply@ == encode(reply_to(self@, CommandView::Get(key@))),
    {
        let value = match self.store_get(key) {
            Some(val) => Resp::BulkString(Some(slice_to_vec(val.as_slice()))),
            None => Resp::BulkString(None),
        };
        value.serialize()
    }

    /// Binds `key` to `value` and gives the encoded answer to `SET`.
    pub fn set(&mut self, key: &[u8], value: Vec<u8>) -> (reply: Vec<u8>)
        ensures
            reply@ == encode(reply_to(old(self)@, CommandView::SetValue(key@, value@))),
            final(self)@ == old(self)@.insert(key@, value@),
    {
        self.store_set(key, value);
        proof {
            reveal_strlit("OK");
        }
        Resp::SimpleString(ascii_bytes("OK")).serialize()
    }
}

impl Default for KeyValueStore {
    fn default() -> (store: Self)
        ensures
            store@ == Map::<Seq<u8>, Seq<u8>>::empty(),
    {
        Self::new()
    }
}

} // verus!
