//! The functions that occur in callstacks.

use vstd::prelude::*;

verus! {

/// Identifies a function.
#[derive(Clone, Copy, Debug, PartialEq, Eq, Hash, Structural)]
pub struct FunctionId(pub u32);

impl FunctionId {
    pub fn new(id: u32) -> (function: Self)
        ensures
            function.0 == id,
    {
        FunctionId(id)
    }

    pub fn as_u32(&self) -> (id: u32)
        ensures
            id == self.0,
    {
        self.0
    }
}

/// A function location in the Python source code, e.g. "example() in foo.py".
struct FunctionLocation {
    filename: String,
    function_name: String,
}

impl Clone for FunctionLocation {
    fn clone(&self) -> (copy: Self)
        ensures
            copy == *self,
    {
        FunctionLocation {
            filename: self.filename.clone(),
            function_name: self.function_name.clone(),
        }
    }
}

/// The text of a function location.
pub struct FunctionName {
    pub filename: Seq<char>,
    pub function_name: Seq<char>,
}

/// Stores function locations, and hands out an id for each.
pub struct FunctionLocations {
    functions: Vec<FunctionLocation>,
}

impl Clone for FunctionLocations {
    fn clone(&self) -> (copy: Self)
        ensures
            copy@ == self@,
    {
        let copy = FunctionLocations { functions: self.functions.clone() };
        proof {
            assert(copy.functions@ =~= self.functions@);
        }
        copy
    }
}

impl View for FunctionLocations {
    type V = Seq<FunctionName>;

    /// The locations in the order in which they were registered.
    closed spec fn view(&self) -> Seq<FunctionName> {
        Seq::new(
            self.functions@.len(),
            |i: int|
                FunctionName {
                    filename: self.functions@[i].filename@,
                    function_name: self.functions@[i].function_name@,
                },
        )
    }
}

impl FunctionLocations {
    /// Create a new tracker.
    pub fn new() -> (locations: Self)
        ensures
            locations@ == Seq::<FunctionName>::empty(),
    {
        let locations = FunctionLocations { functions: Vec::with_capacity(8192) };
        proof {
            assert(locations@ =~= Seq::<FunctionName>::empty());
        }
        locations
    }

    /// Register a function, get back its id: how many functions there were before, in 32 bits.
    ///
    /// If a program ever has more than 2 ** 32 functions, ids will be given out twice. Seems
    /// unlikely, even with long running workers.
    pub fn add_function(&mut self, filename: String, function_name: String) -> (id: FunctionId)
        ensures
            final(self)@ == old(self)@.push(
                FunctionName { filename: filename@, function_name: function_name@ },
            ),
            id.0 as nat == old(self)@.len() % 0x1_0000_0000,
    {
        let count: u64 = self.functions.len() as u64;
        self.functions.push(FunctionLocation { filename, function_name });
        proof {
            assert(self@ =~= old(self)@.push(
                FunctionName { filename: filename@, function_name: function_name@ },
            ));
            assert(count as u32 == count % 0x1_0000_0000u64) by (bit_vector);
        }
        FunctionId(#[verifier::truncate] (count as u32))
    }

    /// How many functions there are.
    pub fn len(&self) -> (count: usize)
        ensures
            count == self@.len(),
    {
        self.functions.len()
    }

    /// Get the function name and filename.
    pub fn get_function_and_filename(&self, id: FunctionId) -> (names: (&str, &str))
        requires
            id.0 < self@.len(),
        ensures
            names.0@ == self@[id.0 as int].function_name,
            names.1@ == self@[id.0 as int].filename,
    {
        let location = &self.functions[id.0 as usize];
        (location.function_name.as_str(), location.filename.as_str())
    }
}

/// As long as there are no more than 2 ** 32 functions, the id of a function leads back to it, no
/// matter what was registered before it (`before`) or after it (`after`).
pub proof fn law_function_id_leads_to_its_function(
    before: Seq<FunctionName>,
    name: FunctionName,
    after: Seq<FunctionName>,
    id: FunctionId,
)
    requires
        before.len() < 0x1_0000_0000,
        id.0 as nat == before.len() % 0x1_0000_0000,
    ensures
        id.0 < (before.push(name) + after).len(),
        (before.push(name) + after)[id.0 as int] == name,
{
}

} // verus!
