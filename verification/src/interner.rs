//! Giving callstacks ids.

use crate::callstack::{CallSiteId, Callstack, CallstackId, CallstackView};
use crate::functions::FunctionId;
use crate::hashing::{map_insert, new_hashmap};
use ahash::RandomState;
use std::collections::HashMap;
use vstd::prelude::*;

verus! {

/// A callstack as a key of a hash map: the function and the line of each call.
pub type CallstackKey = Vec<(u32, u16)>;

/// What is stored of an interned callstack besides its calls: its id, and what the callstack
/// remembered when it was interned.
pub type Interned = (u32, Option<(u16, u32)>);

/// What a hash map that stores callstacks holds.
pub uninterp spec fn entries_by_key(
    map: HashMap<Vec<(u32, u16)>, (u32, Option<(u16, u32)>), ahash::RandomState>,
) -> Map<Seq<(u32, u16)>, (u32, Option<(u16, u32)>)>;

/// `HashMap::default` under `ahash::RandomState`: a map without entries.
#[verifier::external_body]
fn keyed_default() -> (map: HashMap<CallstackKey, Interned, RandomState>)
    ensures
        entries_by_key(map).is_empty(),
{
    HashMap::default()
}

/// `HashMap::get` under `ahash::RandomState`: what is stored under a key with the same elements, if
/// anything is.
#[verifier::external_body]
fn keyed_get(map: &HashMap<CallstackKey, Interned, RandomState>, key: &CallstackKey) -> (stored:
    Option<Interned>)
    ensures
        match stored {
            Some(entry) => entries_by_key(*map).contains_key(key@) && entries_by_key(*map)[key@]
                == entry,
            None => !entries_by_key(*map).contains_key(key@),
        },
{
    map.get(key).copied()
}

/// `HashMap::insert` under `ahash::RandomState`: stores an entry under a key and hands back what
/// was stored under a key with the same elements before, if anything was.
#[verifier::external_body]
fn keyed_insert(
    map: &mut HashMap<CallstackKey, Interned, RandomState>,
    key: CallstackKey,
    entry: Interned,
) -> (previous: Option<Interned>)
    ensures
        entries_by_key(*final(map)) == entries_by_key(*old(map)).insert(key@, entry),
        match previous {
            Some(entry) => entries_by_key(*old(map)).contains_key(key@) && entries_by_key(
                *old(map),
            )[key@] == entry,
            None => !entries_by_key(*old(map)).contains_key(key@),
        },
{
    map.insert(key, entry)
}

/// `HashMap::iter` under `ahash::RandomState`: every entry once. The order is not stated, since
/// it differs from map to map.
#[verifier::external_body]
fn keyed_iter(map: &HashMap<CallstackKey, Interned, RandomState>) -> (entries: Vec<
    (CallstackKey, Interned),
>)
    ensures
        forall|i: int|
            0 <= i < entries.len() ==> entries_by_key(*map).contains_key((#[trigger] entries@[i]).0@)
                && entries_by_key(*map)[entries@[i].0@] == entries@[i].1,
        forall|i: int, j: int|
            0 <= i < j < entries.len() ==> (#[trigger] entries@[i]).0@ != (
            #[trigger] entries@[j]).0@,
        forall|key: Seq<(u32, u16)>| #[trigger]
            entries_by_key(*map).contains_key(key) ==> exists|i: int|
                0 <= i < entries.len() && (#[trigger] entries@[i]).0@ == key,
{
    map.iter().map(|(key, entry)| (key.clone(), *entry)).collect()
}

/// The key of a call.
pub open spec fn site_key(site: CallSiteId) -> (u32, u16) {
    (site.function.0, site.line_number)
}

/// The key of a callstack.
pub open spec fn calls_key(calls: Seq<CallSiteId>) -> Seq<(u32, u16)> {
    calls.map_values(|site: CallSiteId| site_key(site))
}

proof fn lemma_key_determines_calls(a: Seq<CallSiteId>, b: Seq<CallSiteId>)
    requires
        calls_key(a) == calls_key(b),
    ensures
        a == b,
{
    assert(calls_key(a).len() == a.len() && calls_key(b).len() == b.len());
    assert forall|i: int| 0 <= i < a.len() implies a[i] == b[i] by {
        assert(calls_key(a)[i] == site_key(a[i]));
        assert(calls_key(b)[i] == site_key(b[i]));
    }
    assert(a =~= b);
}

fn key_of(callstack: &Callstack) -> (key: CallstackKey)
    ensures
        key@ == calls_key(callstack@.calls),
{
    let calls = callstack.calls();
    let mut key: CallstackKey = Vec::new();
    let mut i: usize = 0;
    while i < calls.len()
        invariant
            i <= calls.len(),
            key.len() == i,
            forall|k: int| 0 <= k < i ==> key@[k] == site_key(calls@[k]),
        decreases calls.len() - i,
    {
        key.push((calls[i].function.as_u32(), calls[i].line_number));
        i = i + 1;
    }
    proof {
        assert(key@ =~= calls_key(calls@));
    }
    key
}

/// The callstack that a key stands for, with what it remembers.
fn callstack_of(key: &CallstackKey, remembered: Option<(u16, CallstackId)>) -> (callstack:
    Callstack)
    ensures
        calls_key(callstack@.calls) == key@,
        callstack@.cached == remembered,
{
    let mut calls: Vec<CallSiteId> = Vec::new();
    let mut i: usize = 0;
    while i < key.len()
        invariant
            i <= key.len(),
            calls.len() == i,
            forall|k: int| 0 <= k < i ==> key@[k] == site_key(calls@[k]),
        decreases key.len() - i,
    {
        calls.push(CallSiteId::new(FunctionId::new(key[i].0), key[i].1));
        i = i + 1;
    }
    proof {
        assert(key@ =~= calls_key(calls@));
    }
    Callstack::with_remembered(calls, remembered)
}

/// The callstacks after interning one more: as they were, if it is among them, or else with it
/// behind the others.
pub open spec fn interned(callstacks: Seq<Seq<CallSiteId>>, calls: Seq<CallSiteId>) -> Seq<
    Seq<CallSiteId>,
> {
    if callstacks.contains(calls) {
        callstacks
    } else {
        callstacks.push(calls)
    }
}

/// Maps callstacks to integer identifiers.
pub struct CallstackInterner {
    max_id: CallstackId,
    callstack_to_id: HashMap<CallstackKey, Interned, RandomState>,
    callstacks: Ghost<Seq<Seq<CallSiteId>>>,
    remembered: Ghost<Seq<Option<(u16, CallstackId)>>>,
}

impl View for CallstackInterner {
    type V = Seq<Seq<CallSiteId>>;

    /// The calls of the interned callstacks. The id of a callstack is its index.
    closed spec fn view(&self) -> Seq<Seq<CallSiteId>> {
        self.callstacks@
    }
}

impl CallstackInterner {
    /// By id, what each callstack remembered when it was interned.
    pub closed spec fn remembered(self) -> Seq<Option<(u16, CallstackId)>> {
        self.remembered@
    }

    /// The hash map says of each interned callstack, and of no other, where it stands and what it
    /// remembered.
    pub closed spec fn wf(self) -> bool {
        &&& self@.no_duplicates()
        &&& self.remembered().len() == self@.len()
        &&& self.max_id == self@.len()
        &&& forall|i: int|
            0 <= i < self@.len() ==> {
                &&& entries_by_key(self.callstack_to_id).contains_key(calls_key(#[trigger] self@[i]))
                &&& entries_by_key(self.callstack_to_id)[calls_key(self@[i])] == (
                    i as CallstackId,
                    self.remembered()[i],
                )
            }
        &&& forall|key: Seq<(u32, u16)>| #[trigger]
            entries_by_key(self.callstack_to_id).contains_key(key) ==> {
                let id = entries_by_key(self.callstack_to_id)[key].0;
                id < self@.len() && calls_key(self@[id as int]) == key
            }
    }

    pub fn new() -> (interner: Self)
        ensures
            interner.wf(),
            interner@ == Seq::<Seq<CallSiteId>>::empty(),
            interner.remembered() == Seq::<Option<(u16, CallstackId)>>::empty(),
    {
        CallstackInterner {
            max_id: 0,
            callstack_to_id: keyed_default(),
            callstacks: Ghost(Seq::empty()),
            remembered: Ghost(Seq::empty()),
        }
    }

    /// Adds a (possibly) new callstack, returning its id and whether it is new.
    pub fn intern(&mut self, callstack: &Callstack) -> (result: (CallstackId, bool))
        requires
            old(self).wf(),
            old(self)@.contains(callstack@.calls) || old(self)@.len() < u32::MAX,
        ensures
            final(self).wf(),
            final(self)@.no_duplicates(),
            final(self)@ == interned(old(self)@, callstack@.calls),
            final(self).remembered() == (if old(self)@.contains(callstack@.calls) {
                old(self).remembered()
            } else {
                old(self).remembered().push(callstack@.cached)
            }),
            result.0 < final(self)@.len(),
            final(self)@[result.0 as int] == callstack@.calls,
            result.1 == !old(self)@.contains(callstack@.calls),
    {
        let key: CallstackKey = key_of(callstack);
        let ghost calls = callstack@.calls;
        let found: Option<Interned> = keyed_get(&self.callstack_to_id, &key);
        if let Some((id, _)) = found {
            proof {
                lemma_key_determines_calls(self@[id as int], calls);
                assert(self@.contains(calls));
            }
            (id, false)
        } else {
            let new_id: CallstackId = self.max_id;
            proof {
                if self@.contains(calls) {
                    let i = choose|i: int| 0 <= i < self@.len() && self@[i] == calls;
                    assert(entries_by_key(self.callstack_to_id).contains_key(calls_key(self@[i])));
                }
            }
            self.max_id = new_id + 1;
            let ghost before = self.callstack_to_id;
            let _ = keyed_insert(
                &mut self.callstack_to_id,
                key,
                (new_id, callstack.remembered()),
            );
            self.callstacks = Ghost(self.callstacks@.push(calls));
            self.remembered = Ghost(self.remembered@.push(callstack@.cached));
            proof {
                assert forall|i: int| 0 <= i < self@.len() implies {
                    &&& entries_by_key(self.callstack_to_id).contains_key(
                        calls_key(#[trigger] self@[i]),
                    )
                    &&& entries_by_key(self.callstack_to_id)[calls_key(self@[i])] == (
                        i as CallstackId,
                        self.remembered()[i],
                    )
                } by {
                    if i < old(self)@.len() {
                        assert(self@[i] == old(self)@[i]);
                        assert(entries_by_key(before).contains_key(calls_key(old(self)@[i])));
                    }
                }
                assert forall|k: Seq<(u32, u16)>| #[trigger]
                    entries_by_key(self.callstack_to_id).contains_key(k) implies ({
                    let id = entries_by_key(self.callstack_to_id)[k].0;
                    id < self@.len() && calls_key(self@[id as int]) == k
                }) by {
                    if k != calls_key(calls) {
                        assert(entries_by_key(before).contains_key(k));
                    }
                }
            }
            (new_id, true)
        }
    }

    /// Adds a (possibly) new callstack, returning its id. `call_on_new` is called if it is new.
    pub fn get_or_insert_id<F: FnOnce() -> ()>(
        &mut self,
        callstack: &Callstack,
        call_on_new: F,
    ) -> (id: CallstackId)
        requires
            old(self).wf(),
            old(self)@.contains(callstack@.calls) || old(self)@.len() < u32::MAX,
            !old(self)@.contains(callstack@.calls) ==> call_requires(call_on_new, ()),
        ensures
            final(self).wf(),
            final(self)@.no_duplicates(),
            final(self)@ == interned(old(self)@, callstack@.calls),
            final(self).remembered() == (if old(self)@.contains(callstack@.calls) {
                old(self).remembered()
            } else {
                old(self).remembered().push(callstack@.cached)
            }),
            id < final(self)@.len(),
            final(self)@[id as int] == callstack@.calls,
            !old(self)@.contains(callstack@.calls) ==> call_ensures(call_on_new, (), ()),
    {
        let (id, is_new) = self.intern(callstack);
        if is_new {
            call_on_new();
        }
        id
    }

    /// Whether a callstack has been interned.
    pub fn contains(&self, callstack: &Callstack) -> (found: bool)
        requires
            self.wf(),
        ensures
            found == self@.contains(callstack@.calls),
    {
        let key: CallstackKey = key_of(callstack);
        let ghost calls = callstack@.calls;
        let found: Option<Interned> = keyed_get(&self.callstack_to_id, &key);
        proof {
            if let Some((id, _)) = found {
                lemma_key_determines_calls(self@[id as int], calls);
            } else if self@.contains(calls) {
                let i = choose|i: int| 0 <= i < self@.len() && self@[i] == calls;
                assert(entries_by_key(self.callstack_to_id).contains_key(calls_key(self@[i])));
            }
        }
        found.is_some()
    }

    /// Gets a map from ids to callstacks, each as it was when it was interned.
    pub fn get_reverse_map(&self) -> (callstacks: HashMap<CallstackId, Callstack, RandomState>)
        requires
            self.wf(),
        ensures
            forall|id: CallstackId| #[trigger]
                callstacks@.contains_key(id) <==> id < self@.len(),
            forall|id: CallstackId|
                id < self@.len() ==> (#[trigger] callstacks@[id])@ == (CallstackView {
                    calls: self@[id as int],
                    cached: self.remembered()[id as int],
                }),
    {
        broadcast use vstd::std_specs::hash::group_hash_axioms;

        let entries: Vec<(CallstackKey, Interned)> = keyed_iter(&self.callstack_to_id);
        let mut callstacks: HashMap<CallstackId, Callstack, RandomState> = new_hashmap();
        let mut k: usize = 0;
        while k < entries.len()
            invariant
                self.wf(),
                k <= entries.len(),
                forall|i: int|
                    0 <= i < entries.len() ==> entries_by_key(self.callstack_to_id).contains_key(
                        (#[trigger] entries@[i]).0@,
                    ) && entries_by_key(self.callstack_to_id)[entries@[i].0@] == entries@[i].1,
                forall|id: CallstackId| #[trigger]
                    callstacks@.contains_key(id) ==> id < self@.len() && callstacks@[id]@ == (
                    CallstackView { calls: self@[id as int], cached: self.remembered()[id as int] }),
                forall|i: int|
                    0 <= i < k ==> callstacks@.contains_key((#[trigger] entries@[i]).1.0),
            decreases entries.len() - k,
        {
            broadcast use vstd::std_specs::hash::group_hash_axioms;

            let (id, remembered) = entries[k].1;
            let callstack: Callstack = callstack_of(&entries[k].0, remembered);
            proof {
                assert(entries_by_key(self.callstack_to_id).contains_key(entries@[k as int].0@));
                lemma_key_determines_calls(self@[id as int], callstack@.calls);
            }
            let _ = map_insert(&mut callstacks, id, callstack);
            k = k + 1;
        }
        proof {
            assert forall|id: CallstackId| id < self@.len() implies #[trigger] callstacks@.contains_key(
                id,
            ) by {
                let key = calls_key(self@[id as int]);
                assert(entries_by_key(self.callstack_to_id).contains_key(key));
                let i = choose|i: int| 0 <= i < entries.len() && (#[trigger] entries@[i]).0@ == key;
                assert(entries@[i].1.0 == id);
            }
            assert forall|id: CallstackId| id < self@.len() implies (#[trigger] callstacks@[id])@
                == (CallstackView { calls: self@[id as int], cached: self.remembered()[id as int] }) by {
                assert(callstacks@.contains_key(id));
            }
        }
        callstacks
    }
}

/// The id of an interned callstack.
pub open spec fn id_of(callstacks: Seq<Seq<CallSiteId>>, calls: Seq<CallSiteId>) -> CallstackId {
    callstacks.index_of(calls) as CallstackId
}

/// Callstacks that are the same get the same id, and callstacks that differ get different ids.
pub proof fn law_ids_tell_callstacks_apart(
    callstacks: Seq<Seq<CallSiteId>>,
    a: CallstackId,
    b: CallstackId,
)
    requires
        callstacks.no_duplicates(),
        a < callstacks.len(),
        b < callstacks.len(),
    ensures
        a == b <==> callstacks[a as int] == callstacks[b as int],
        id_of(callstacks, callstacks[a as int]) == a,
{
    assert(callstacks.contains(callstacks[a as int]));
}

/// Interning a callstack changes neither the ids that were given out before nor, done again,
/// anything at all.
pub proof fn law_interning_keeps_ids(
    callstacks: Seq<Seq<CallSiteId>>,
    calls: Seq<CallSiteId>,
    id: CallstackId,
)
    requires
        callstacks.no_duplicates(),
    ensures
        interned(callstacks, calls).no_duplicates(),
        interned(callstacks, calls).contains(calls),
        interned(interned(callstacks, calls), calls) == interned(callstacks, calls),
        id < callstacks.len() ==> interned(callstacks, calls)[id as int] == callstacks[id as int],
        interned(callstacks, calls).len() <= callstacks.len() + 1,
{
    if !callstacks.contains(calls) {
        assert(callstacks.push(calls).last() == calls);
        assert(callstacks.push(calls).contains(calls));
    }
}

/// A callstack that has been interned adds nothing. One that has not comes behind the others, and so
/// gets the next id.
pub proof fn law_new_callstacks_get_the_next_id(
    callstacks: Seq<Seq<CallSiteId>>,
    calls: Seq<CallSiteId>,
)
    ensures
        (exists|i: int| 0 <= i < callstacks.len() && #[trigger] callstacks[i] == calls)
            ==> interned(callstacks, calls) == callstacks,
        (forall|i: int| 0 <= i < callstacks.len() ==> #[trigger] callstacks[i] != calls) ==> {
            &&& interned(callstacks, calls).len() == callstacks.len() + 1
            &&& interned(callstacks, calls)[callstacks.len() as int] == calls
            &&& forall|i: int|
                0 <= i < callstacks.len() ==> #[trigger] interned(callstacks, calls)[i]
                    == callstacks[i]
        },
{
}

} // verus!
