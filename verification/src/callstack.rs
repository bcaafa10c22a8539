//! Callstacks.

use crate::functions::{FunctionId, FunctionLocations, FunctionName};
use crate::text::{append_decimal, decimal, join, joined, law_joining_appends, texts};
use std::hash::{Hash, Hasher};
use vstd::prelude::*;
use vstd::string::*;

verus! {

/// Identifies an interned callstack.
pub type CallstackId = u32;

/// A specific location: file + function + line number.
#[derive(Clone, Copy, Debug, PartialEq, Eq, Hash, Structural)]
pub struct CallSiteId {
    /// The function + filename. We use IDs for performance reasons (faster hashing).
    pub function: FunctionId,
    /// Line number within the _file_, 1-indexed.
    pub line_number: u16,
}

impl CallSiteId {
    pub fn new(function: FunctionId, line_number: u16) -> (site: CallSiteId)
        ensures
            site.function == function,
            site.line_number == line_number,
    {
        CallSiteId { function, line_number }
    }
}

/// The current Python callstack. Two callstacks are equal if their calls are.
#[derive(Debug)]
pub struct Callstack {
    calls: Vec<CallSiteId>,
    cached_callstack_id: Option<(u16, CallstackId)>,  // first bit is line number
}

/// What a callstack holds.
#[verifier::ext_equal]
pub struct CallstackView {
    /// The calls, outermost first.
    pub calls: Seq<CallSiteId>,
    /// The id that was last found for the callstack, and the line number for which it was asked.
    pub cached: Option<(u16, CallstackId)>,
}

/// The calls with the innermost one at line `line_number`. Line 0 stands for an unknown line and
/// leaves the calls as they are.
pub open spec fn at_line(calls: Seq<CallSiteId>, line_number: u16) -> Seq<CallSiteId> {
    if line_number != 0 && calls.len() > 0 {
        calls.update(
            calls.len() - 1,
            CallSiteId { function: calls.last().function, line_number },
        )
    } else {
        calls
    }
}

impl CallstackView {
    /// The id remembered for line `line_number`.
    pub open spec fn cached_id(self, line_number: u16) -> Option<CallstackId> {
        match self.cached {
            Some((line, id)) => if line == line_number {
                Some(id)
            } else {
                None
            },
            None => None,
        }
    }

    /// The callstack with its innermost call at line `line_number`.
    pub open spec fn moved_to(self, line_number: u16) -> CallstackView {
        CallstackView { calls: at_line(self.calls, line_number), cached: self.cached }
    }

    /// The id for an allocation at line `line_number` and the callstack afterwards, where `fresh`
    /// is what asking for an id gives, if it comes to that.
    pub open spec fn id_for_new_allocation(self, line_number: u16, fresh: CallstackId) -> (
        CallstackId,
        CallstackView,
    ) {
        match self.cached_id(line_number) {
            Some(id) => (id, self),
            None => (
                fresh,
                CallstackView {
                    calls: at_line(self.calls, line_number),
                    cached: Some((line_number, fresh)),
                },
            ),
        }
    }

    /// The callstack inside one more call.
    pub open spec fn start_call(self, parent_line_number: u16, site: CallSiteId) -> CallstackView {
        CallstackView { calls: at_line(self.calls, parent_line_number).push(site), cached: None }
    }

    /// The callstack outside its innermost call.
    pub open spec fn finish_call(self) -> CallstackView {
        CallstackView {
            calls: if self.calls.len() > 0 {
                self.calls.drop_last()
            } else {
                self.calls
            },
            cached: None,
        }
    }

    /// Whether the remembered id, if there is one, is the one that `id_of` gives for the calls as
    /// they are.
    pub open spec fn agrees_with(self, id_of: spec_fn(Seq<CallSiteId>) -> CallstackId) -> bool {
        match self.cached {
            Some((line, id)) => at_line(self.calls, line) == self.calls && id == id_of(self.calls),
            None => true,
        }
    }
}

impl View for Callstack {
    type V = CallstackView;

    closed spec fn view(&self) -> CallstackView {
        CallstackView { calls: self.calls@, cached: self.cached_callstack_id }
    }
}

/// How one call reads.
pub open spec fn call_text(
    site: CallSiteId,
    functions: Seq<FunctionName>,
    to_be_post_processed: bool,
) -> Seq<char> {
    let name = functions[site.function.0 as int];
    let place = name.filename + ":"@ + decimal(site.line_number as nat);
    let call = place + " ("@ + name.function_name + ")"@;
    if to_be_post_processed {
        call + ";TB@@"@ + place + "@@TB"@
    } else {
        call
    }
}

/// How calls read.
pub open spec fn calls_text(
    calls: Seq<CallSiteId>,
    functions: Seq<FunctionName>,
    to_be_post_processed: bool,
) -> Seq<char> {
    if calls.len() == 0 {
        "[No Python stack]"@
    } else {
        joined(
            calls.map_values(
                |site: CallSiteId| call_text(site, functions, to_be_post_processed),
            ),
            ";"@,
        )
    }
}

/// Whether all functions that are called are among the first `count` functions.
pub open spec fn calls_known(calls: Seq<CallSiteId>, count: nat) -> bool {
    forall|i: int| 0 <= i < calls.len() ==> (#[trigger] calls[i]).function.0 < count
}

/// Writes how one call reads.
fn call_string(site: CallSiteId, to_be_post_processed: bool, functions: &FunctionLocations) -> (text:
    String)
    requires
        site.function.0 < functions@.len(),
    ensures
        text@ == call_text(site, functions@, to_be_post_processed),
{
    let (function, filename) = functions.get_function_and_filename(site.function);
    let mut place: String = filename.to_owned();
    place.append(":");
    append_decimal(&mut place, site.line_number as usize);
    let mut text: String = place.clone();
    text.append(" (");
    text.append(function);
    text.append(")");
    if to_be_post_processed {
        text.append(";TB@@");
        text.append(place.as_str());
        text.append("@@TB");
    }
    text
}

impl Callstack {
    pub fn new() -> (callstack: Callstack)
        ensures
            callstack@ == (CallstackView { calls: Seq::empty(), cached: None }),
    {
        let callstack = Callstack { calls: Vec::new(), cached_callstack_id: None };
        proof {
            assert(callstack@ =~= CallstackView { calls: Seq::empty(), cached: None });
        }
        callstack
    }

    pub fn from_vec(vec: Vec<CallSiteId>) -> (callstack: Self)
        ensures
            callstack@ == (CallstackView { calls: vec@, cached: None }),
    {
        Callstack { calls: vec, cached_callstack_id: None }
    }

    /// A callstack that remembers an id.
    pub(crate) fn with_remembered(
        calls: Vec<CallSiteId>,
        remembered: Option<(u16, CallstackId)>,
    ) -> (callstack: Self)
        ensures
            callstack@ == (CallstackView { calls: calls@, cached: remembered }),
    {
        Callstack { calls, cached_callstack_id: remembered }
    }

    /// The remembered id, with the line number for which it was asked.
    pub(crate) fn remembered(&self) -> (remembered: Option<(u16, CallstackId)>)
        ensures
            remembered == self@.cached,
    {
        self.cached_callstack_id
    }

    /// The calls, outermost first.
    pub fn calls(&self) -> (calls: &Vec<CallSiteId>)
        ensures
            calls@ == self@.calls,
    {
        &self.calls
    }

    /// Sets the line number of the innermost call, unless the line is unknown.
    fn set_line(&mut self, line_number: u16)
        ensures
            final(self)@ == old(self)@.moved_to(line_number),
    {
        let count: usize = self.calls.len();
        if line_number != 0 && count > 0 {
            let function: FunctionId = self.calls[count - 1].function;
            self.calls.set(count - 1, CallSiteId { function, line_number });
        }
    }

    /// Enters a call, from line `parent_line_number` of the caller.
    pub fn start_call(&mut self, parent_line_number: u16, callsite_id: CallSiteId)
        ensures
            final(self)@ == old(self)@.start_call(parent_line_number, callsite_id),
    {
        self.set_line(parent_line_number);
        self.calls.push(callsite_id);
        self.cached_callstack_id = None;
    }

    /// Leaves the innermost call.
    pub fn finish_call(&mut self)
        ensures
            final(self)@ == old(self)@.finish_call(),
    {
        let _ = self.calls.pop();
        self.cached_callstack_id = None;
    }

    /// The id of the callstack for an allocation at line `line_number` of the innermost call.
    /// `get_callstack_id` is asked only if the line differs from that of the previous allocation,
    /// or calls have started or finished since; it then sees the callstack with the new line.
    pub fn id_for_new_allocation<F>(&mut self, line_number: u16, get_callstack_id: F) -> (id:
        CallstackId) where F: FnOnce(&Callstack) -> CallstackId
        requires
            old(self)@.cached_id(line_number) is None ==> forall|callstack: Callstack|
                callstack@ == old(self)@.moved_to(line_number) ==> #[trigger] call_requires(
                    get_callstack_id,
                    (&callstack,),
                ),
        ensures
            (id, final(self)@) == old(self)@.id_for_new_allocation(line_number, id),
            old(self)@.cached_id(line_number) is None ==> exists|callstack: Callstack|
                callstack@ == old(self)@.moved_to(line_number) && #[trigger] call_ensures(
                    get_callstack_id,
                    (&callstack,),
                    id,
                ),
    {
        // If same line number as last callstack, and we have cached callstack
        // ID, reuse it:
        if let Some((previous_line_number, callstack_id)) = self.cached_callstack_id {
            if line_number == previous_line_number {
                return callstack_id;
            }
        }
        // Set the new line number:

        self.set_line(line_number);

        // Calculate callstack ID, cache it, and then return it;
        let callstack_id: CallstackId = get_callstack_id(&*self);
        self.cached_callstack_id = Some((line_number, callstack_id));
        callstack_id
    }

    /// Whether all functions that are called are registered.
    pub fn functions_known(&self, functions: &FunctionLocations) -> (known: bool)
        ensures
            known == calls_known(self@.calls, functions@.len()),
    {
        let count: usize = functions.len();
        let mut i: usize = 0;
        while i < self.calls.len()
            invariant
                i <= self.calls.len(),
                count == functions@.len(),
                forall|k: int| 0 <= k < i ==> (#[trigger] self.calls@[k]).function.0 < count,
            decreases self.calls.len() - i,
        {
            if self.calls[i].function.as_u32() as usize >= count {
                proof {
                    assert(self@.calls[i as int].function.0 >= count);
                }
                return false;
            }
            i = i + 1;
        }
        true
    }

    /// The calls in a form that can be read.
    pub fn as_string(&self, to_be_post_processed: bool, functions: &FunctionLocations) -> (text:
        String)
        requires
            calls_known(self@.calls, functions@.len()),
        ensures
            text@ == calls_text(self@.calls, functions@, to_be_post_processed),
    {
        if self.calls.len() == 0 {
            "[No Python stack]".to_owned()
        } else {
            let mut parts: Vec<String> = Vec::new();
            let mut i: usize = 0;
            while i < self.calls.len()
                invariant
                    i <= self.calls.len(),
                    calls_known(self.calls@, functions@.len()),
                    parts.len() == i,
                    forall|k: int|
                        0 <= k < i ==> (#[trigger] parts@[k])@ == call_text(
                            self.calls@[k],
                            functions@,
                            to_be_post_processed,
                        ),
                decreases self.calls.len() - i,
            {
                let site: CallSiteId = self.calls[i];
                parts.push(call_string(site, to_be_post_processed, functions));
                i = i + 1;
            }
            proof {
                reveal_strlit(";");
                assert(texts(parts@) =~= self.calls@.map_values(
                    |site: CallSiteId| call_text(site, functions@, to_be_post_processed),
                ));
            }
            join(&parts, ";")
        }
    }

    /// Whether two callstacks have the same calls.
    fn same_calls(&self, other: &Callstack) -> (same: bool)
        ensures
            same == (self@.calls == other@.calls),
    {
        if self.calls.len() != other.calls.len() {
            return false;
        }
        let mut i: usize = 0;
        while i < self.calls.len()
            invariant
                i <= self.calls.len() == other.calls.len(),
                forall|k: int| 0 <= k < i ==> self.calls@[k] == other.calls@[k],
            decreases self.calls.len() - i,
        {
            if self.calls[i] != other.calls[i] {
                return false;
            }
            i = i + 1;
        }
        proof {
            assert(self.calls@ =~= other.calls@);
        }
        true
    }
}

impl Clone for Callstack {
    fn clone(&self) -> (copy: Self)
        ensures
            copy@ == self@,
    {
        let calls: Vec<CallSiteId> = self.calls.clone();
        proof {
            assert(calls@ =~= self.calls@);
        }
        Callstack { calls, cached_callstack_id: self.cached_callstack_id }
    }
}

impl PartialEq for Callstack {
    fn eq(&self, other: &Self) -> (same: bool) {
        self.same_calls(other)
    }
}

impl vstd::std_specs::cmp::PartialEqSpecImpl for Callstack {
    open spec fn obeys_eq_spec() -> bool {
        true
    }

    open spec fn eq_spec(&self, other: &Self) -> bool {
        self@.calls == other@.calls
    }
}

impl Eq for Callstack {

}

/// `Vec`'s `Hash::hash`: hands the calls to a hasher. What that does to the hasher is not stated,
/// since it is up to the hasher.
#[verifier::external_body]
fn hash_calls<H: Hasher>(calls: &Vec<CallSiteId>, state: &mut H) {
    calls.hash(state)
}

/// Only the calls are hashed, so that callstacks that are equal hash alike.
impl Hash for Callstack {
    fn hash<H: Hasher>(&self, state: &mut H) {
        hash_calls(&self.calls, state)
    }
}

/// A remembered id is as good as a fresh one. If an id that is remembered is the one that `id_of`
/// gives for the callstack, and asking for an id gives what `id_of` gives, then an allocation gets
/// what `id_of` gives for the callstack at the allocation's line, whether or not anything was
/// asked, and what is remembered afterwards is right again.
pub proof fn law_remembered_id_is_the_right_one(
    callstack: CallstackView,
    line_number: u16,
    id_of: spec_fn(Seq<CallSiteId>) -> CallstackId,
)
    requires
        callstack.agrees_with(id_of),
    ensures
        ({
            let here = at_line(callstack.calls, line_number);
            let (id, after) = callstack.id_for_new_allocation(line_number, id_of(here));
            id == id_of(here) && after.calls == here && after.agrees_with(id_of)
        }),
{
    let here = at_line(callstack.calls, line_number);
    assert(at_line(here, line_number) =~= here);
}

/// Starting or finishing a call forgets the remembered id, so nothing stale is ever handed out.
pub proof fn law_calls_forget_the_remembered_id(
    callstack: CallstackView,
    parent_line_number: u16,
    site: CallSiteId,
    line_number: u16,
    id_of: spec_fn(Seq<CallSiteId>) -> CallstackId,
)
    ensures
        callstack.start_call(parent_line_number, site).agrees_with(id_of),
        callstack.finish_call().agrees_with(id_of),
        callstack.start_call(parent_line_number, site).cached_id(line_number) is None,
        callstack.finish_call().cached_id(line_number) is None,
{
}

/// Finishing a call undoes starting it, except that the caller stays at the line of the call.
pub proof fn law_finish_call_undoes_start_call(
    callstack: CallstackView,
    parent_line_number: u16,
    site: CallSiteId,
)
    ensures
        callstack.start_call(parent_line_number, site).finish_call().calls == at_line(
            callstack.calls,
            parent_line_number,
        ),
{
    assert(callstack.start_call(parent_line_number, site).finish_call().calls =~= at_line(
        callstack.calls,
        parent_line_number,
    ));
}

/// An allocation at a line for which no id is remembered asks for one. It asks for, and leaves
/// behind, the callstack with the innermost call at exactly that line, in the same function, and
/// with all other calls as they were. An unknown line, which is line 0, changes no call.
pub proof fn law_allocations_set_the_innermost_line(
    callstack: CallstackView,
    line_number: u16,
    fresh: CallstackId,
)
    requires
        match callstack.cached {
            Some((line, _)) => line != line_number,
            None => true,
        },
    ensures
        ({
            let asked = callstack.moved_to(line_number);
            let (id, after) = callstack.id_for_new_allocation(line_number, fresh);
            let last = callstack.calls.len() - 1;
            &&& id == fresh
            &&& after.cached == Some((line_number, fresh))
            &&& asked.cached == callstack.cached
            &&& asked.calls == after.calls
            &&& after.calls.len() == callstack.calls.len()
            &&& forall|i: int| 0 <= i < last ==> #[trigger] after.calls[i] == callstack.calls[i]
            &&& last >= 0 ==> after.calls[last].function == callstack.calls[last].function
            &&& last >= 0 && line_number != 0 ==> after.calls[last].line_number == line_number
            &&& last >= 0 && line_number == 0 ==> after.calls[last] == callstack.calls[last]
        }),
{
}

/// An allocation at the line for which an id is remembered gets that id, whatever asking would
/// give, and changes nothing.
pub proof fn law_remembered_lines_are_not_asked_for(
    callstack: CallstackView,
    line_number: u16,
    id: CallstackId,
    fresh: CallstackId,
)
    requires
        callstack.cached == Some((line_number, id)),
    ensures
        callstack.id_for_new_allocation(line_number, fresh) == (id, callstack),
        callstack.cached_id(line_number) == Some(id),
{
}

/// A call that starts is the innermost one. The caller is then at exactly the line of the call,
/// unless that is unknown, in the function that it was in; all other calls are as they were.
pub proof fn law_started_calls_are_innermost(
    callstack: CallstackView,
    parent_line_number: u16,
    site: CallSiteId,
)
    ensures
        ({
            let after = callstack.start_call(parent_line_number, site);
            let caller = callstack.calls.len() - 1;
            &&& after.cached is None
            &&& after.calls.len() == callstack.calls.len() + 1
            &&& after.calls[caller + 1] == site
            &&& forall|i: int| 0 <= i < caller ==> #[trigger] after.calls[i] == callstack.calls[i]
            &&& caller >= 0 ==> after.calls[caller].function == callstack.calls[caller].function
            &&& caller >= 0 ==> after.calls[caller].line_number == (if parent_line_number != 0 {
                parent_line_number
            } else {
                callstack.calls[caller].line_number
            })
        }),
{
}

/// A call that finishes is the innermost one, and all other calls stay as they were. Without a call
/// there is nothing to finish.
pub proof fn law_finished_calls_were_innermost(callstack: CallstackView)
    ensures
        ({
            let after = callstack.finish_call();
            &&& after.cached is None
            &&& callstack.calls.len() == 0 ==> after.calls.len() == 0
            &&& callstack.calls.len() > 0 ==> after.calls.len() == callstack.calls.len() - 1
            &&& forall|i: int|
                0 <= i < after.calls.len() ==> #[trigger] after.calls[i] == callstack.calls[i]
        }),
{
}

/// Different lines of the same innermost call make different callstacks.
pub proof fn law_different_lines_make_different_callstacks(callstack: CallstackView, a: u16, b: u16)
    requires
        callstack.calls.len() > 0,
        a != 0,
        b != 0,
        a != b,
    ensures
        callstack.moved_to(a).calls != callstack.moved_to(b).calls,
{
    let last = callstack.calls.len() - 1;
    assert(callstack.moved_to(a).calls[last].line_number == a);
    assert(callstack.moved_to(b).calls[last].line_number == b);
}

/// A call reads as its file, its line in decimal and, in brackets, its function. For later
/// processing the file and the line follow once more, between markers.
pub proof fn law_calls_read_as_file_line_and_function(
    site: CallSiteId,
    functions: Seq<FunctionName>,
)
    requires
        site.function.0 < functions.len(),
    ensures
        ({
            let file = functions[site.function.0 as int].filename;
            let function = functions[site.function.0 as int].function_name;
            let line = decimal(site.line_number as nat);
            let plain = file + ":"@ + line + " ("@ + function + ")"@;
            &&& call_text(site, functions, false) == plain
            &&& call_text(site, functions, true) == plain + ";TB@@"@ + file + ":"@ + line + "@@TB"@
        }),
{
    let file = functions[site.function.0 as int].filename;
    let function = functions[site.function.0 as int].function_name;
    let line = decimal(site.line_number as nat);
    let plain = file + ":"@ + line + " ("@ + function + ")"@;
    assert(call_text(site, functions, true) =~= plain + ";TB@@"@ + file + ":"@ + line + "@@TB"@);
}

/// Calls read outermost first, with semicolons between them. Without calls there is a text of its
/// own.
pub proof fn law_calls_read_outermost_first(
    calls: Seq<CallSiteId>,
    site: CallSiteId,
    functions: Seq<FunctionName>,
    to_be_post_processed: bool,
)
    ensures
        calls_text(Seq::<CallSiteId>::empty(), functions, to_be_post_processed)
            == "[No Python stack]"@,
        calls_text(seq![site], functions, to_be_post_processed) == call_text(
            site,
            functions,
            to_be_post_processed,
        ),
        calls.len() > 0 ==> calls_text(calls.push(site), functions, to_be_post_processed)
            == calls_text(calls, functions, to_be_post_processed) + ";"@ + call_text(
            site,
            functions,
            to_be_post_processed,
        ),
{
    let read = |site: CallSiteId| call_text(site, functions, to_be_post_processed);
    let last = call_text(site, functions, to_be_post_processed);
    law_joining_appends(calls.map_values(read), last, ";"@);
    assert(seq![site].map_values(read) =~= seq![last]);
    assert(calls.push(site).map_values(read) =~= calls.map_values(read).push(last));
}

/// Calls are known just if each one calls one of the first functions.
pub proof fn law_known_calls_call_known_functions(calls: Seq<CallSiteId>, i: int, count: nat)
    requires
        0 <= i < calls.len(),
    ensures
        calls_known(calls, count) ==> calls[i].function.0 < count,
        calls_known(calls.take(i + 1), count) <==> calls_known(calls.take(i), count)
            && calls[i].function.0 < count,
        calls_known(Seq::<CallSiteId>::empty(), count),
{
    let one_more = calls.take(i + 1);
    if calls_known(one_more, count) {
        assert forall|k: int| 0 <= k < i implies (#[trigger] calls.take(i)[k]).function.0 < count by {
            assert(one_more[k].function.0 < count);
        }
        assert(one_more[i].function.0 < count);
    }
    if calls_known(calls.take(i), count) && calls[i].function.0 < count {
        assert forall|k: int| 0 <= k < i + 1 implies (#[trigger] one_more[k]).function.0 < count by {
            if k < i {
                assert(calls.take(i)[k].function.0 < count);
            }
        }
    }
}

} // verus!
