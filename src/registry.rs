use vstd::prelude::*;

verus! {

/// The value of the last entry named `name`; a later entry shadows an earlier one.
pub open spec fn find_entry<P>(s: Seq<(Seq<char>, P)>, name: Seq<char>) -> Option<P>
    decreases s.len(),
{
    if s.len() == 0 {
        None
    } else if s.last().0 == name {
        Some(s.last().1)
    } else {
        find_entry(s.drop_last(), name)
    }
}

/// Entries of a name-keyed table, as names and values.
pub open spec fn entries_view<P>(v: Seq<(String, P)>) -> Seq<(Seq<char>, P)> {
    v.map_values(|e: (String, P)| (e.0@, e.1))
}

/// Looks `name` up in `v`, the last entry with that name winning.
fn find_last<P>(v: &Vec<(String, P)>, name: &String) -> (r: Option<usize>)
    ensures
        match r {
            Some(i) => i < v.len() && find_entry(entries_view(v@), name@) == Some(v@[i as int].1),
            None => find_entry(entries_view(v@), name@) is None,
        },
{
    let mut i: usize = v.len();
    proof {
        assert(v@.subrange(0, i as int) =~= v@);
    }
    while i > 0
        invariant
            i <= v.len(),
            find_entry(entries_view(v@), name@) == find_entry(
                entries_view(v@.subrange(0, i as int)),
                name@,
            ),
        decreases i,
    {
        let ghost pre = entries_view(v@.subrange(0, i as int));
        proof {
            assert(pre.drop_last() =~= entries_view(v@.subrange(0, i - 1)));
        }
        if v[i - 1].0 == *name {
            return Some(i - 1);
        }
        i = i - 1;
    }
    None
}

/// A compiled kernel library: its entry points by name.
pub struct Library<P> {
    functions: Vec<(String, P)>,
}

impl<P> Library<P> {
    /// The library's entry points as a name-to-pipeline lookup.
    pub closed spec fn lookup(&self, name: Seq<char>) -> Option<P> {
        find_entry(entries_view(self.functions@), name)
    }

    /// Builds a library from its compiled entry points; a later entry with a
    /// repeated name replaces an earlier one.
    pub fn new(functions: Vec<(String, P)>) -> (r: Library<P>)
        ensures
            forall|name: Seq<char>| #[trigger] r.lookup(name) == find_entry(entries_view(functions@), name),
    {
        Library { functions }
    }

    /// The pipeline of entry point `name`, if the library has one.
    pub fn get(&self, name: &String) -> (r: Option<&P>)
        ensures
            match r {
                Some(p) => self.lookup(name@) == Some(*p),
                None => self.lookup(name@) is None,
            },
    {
        match find_last(&self.functions, name) {
            Some(i) => Some(&self.functions[i].1),
            None => None,
        }
    }
}

/// Compiled kernel libraries by name, built once and then only read.
pub struct ProgramRegistry<P> {
    libraries: Vec<(String, Library<P>)>,
}

impl<P> ProgramRegistry<P> {
    /// The registry's libraries as a name-to-library lookup.
    pub closed spec fn library(&self, name: Seq<char>) -> Option<Library<P>> {
        find_entry(entries_view(self.libraries@), name)
    }

    /// What a (library, function) lookup yields.
    pub open spec fn function(&self, library_name: Seq<char>, function_name: Seq<char>) -> Option<P> {
        match self.library(library_name) {
            Some(lib) => lib.lookup(function_name),
            None => None,
        }
    }

    pub fn new() -> (r: ProgramRegistry<P>)
        ensures
            forall|name: Seq<char>| #[trigger] r.library(name) is None,
    {
        ProgramRegistry { libraries: Vec::new() }
    }

    /// Stores `library` under `library_name`, replacing any library of that name.
    pub fn register_library(&mut self, library_name: String, library: Library<P>)
        ensures
            final(self).library(library_name@) == Some(library),
            forall|name: Seq<char>|
                name != library_name@ ==> #[trigger] final(self).library(name) == old(self).library(name),
    {
        self.libraries.push((library_name, library));
        proof {
            let s = entries_view(self.libraries@);
            assert(s.drop_last() =~= entries_view(old(self).libraries@));
        }
    }

    /// The pipeline of `function_name` in library `library_name`; `None` when
    /// either name is unknown.
    pub fn get_function(&self, library_name: &String, function_name: &String) -> (r: Option<&P>)
        ensures
            match r {
                Some(p) => self.function(library_name@, function_name@) == Some(*p),
                None => self.function(library_name@, function_name@) is None,
            },
    {
        match find_last(&self.libraries, library_name) {
            Some(i) => self.libraries[i].1.get(function_name),
            None => None,
        }
    }
}

} // verus!
