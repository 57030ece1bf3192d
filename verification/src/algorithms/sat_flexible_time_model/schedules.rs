//! Proposed schedules: for each resource, the assignments in the order they run.

use vstd::prelude::*;

verus! {

/// Alternative `id.1` of request `id.0`, starting at `start_time`
/// (milliseconds since the Unix epoch).
#[derive(Clone, Copy, Debug, PartialEq, Eq)]
pub struct Assignment {
    /// `(request id, alternative id)`.
    pub id: (usize, usize),
    /// Start time.
    pub start_time: i64,
}

/// For each resource, by name, the assignments in the order they run. No
/// name occurs twice.
#[derive(Debug)]
pub struct ResourceSchedules {
    entries: Vec<(String, Vec<Assignment>)>,
}

/// The names in `s` are pairwise distinct.
pub open spec fn names_unique(s: Seq<(Seq<char>, Seq<Assignment>)>) -> bool {
    forall|i: int, j: int| 0 <= i < j < s.len() ==> s[i].0 != s[j].0
}

/// Index of the entry named `name` in `s`, if any.
pub open spec fn index_of_name(s: Seq<(Seq<char>, Seq<Assignment>)>, name: Seq<char>) -> Option<int> {
    if exists|i: int| 0 <= i < s.len() && s[i].0 == name {
        Some(choose|i: int| 0 <= i < s.len() && s[i].0 == name)
    } else {
        None
    }
}

impl View for ResourceSchedules {
    type V = Seq<(Seq<char>, Seq<Assignment>)>;

    closed spec fn view(&self) -> Seq<(Seq<char>, Seq<Assignment>)> {
        self.entries@.map_values(|e: (String, Vec<Assignment>)| (e.0@, e.1@))
    }
}

impl ResourceSchedules {
    #[verifier::type_invariant]
    spec fn well_formed(self) -> bool {
        names_unique(self@)
    }

    /// No resource.
    pub fn new() -> (r: Self)
        ensures
            r@ == Seq::<(Seq<char>, Seq<Assignment>)>::empty(),
    {
        let r = ResourceSchedules { entries: Vec::new() };
        proof { assert(r@ =~= Seq::<(Seq<char>, Seq<Assignment>)>::empty()); }
        r
    }

    /// Number of resources.
    pub fn len(&self) -> (r: usize)
        ensures
            r == self@.len(),
            names_unique(self@),
    {
        proof { use_type_invariant(self); }
        self.entries.len()
    }

    /// Name of resource `i`.
    pub fn name(&self, i: usize) -> (r: &String)
        requires
            i < self@.len(),
        ensures
            r@ == self@[i as int].0,
    {
        &self.entries[i].0
    }

    /// Assignments of resource `i`.
    pub fn assignments(&self, i: usize) -> (r: &Vec<Assignment>)
        requires
            i < self@.len(),
        ensures
            r@ == self@[i as int].1,
    {
        &self.entries[i].1
    }

    /// Index of resource `name`.
    pub fn find(&self, name: &str) -> (r: Option<usize>)
        ensures
            r matches Some(i) ==> i < self@.len() && self@[i as int].0 == name@,
            r is None ==> forall|i: int| 0 <= i < self@.len() ==> self@[i].0 != name@,
            r matches Some(i) ==> index_of_name(self@, name@) == Some(i as int),
            r is None ==> index_of_name(self@, name@) is None,
    {
        proof { use_type_invariant(self); }
        let mut i: usize = 0;
        while i < self.entries.len()
            invariant
                i <= self@.len(),
                self@.len() == self.entries@.len(),
                names_unique(self@),
                forall|j: int| 0 <= j < i ==> self@[j].0 != name@,
            decreases self@.len() - i,
        {
            assert(self@[i as int].0 == self.entries@[i as int].0@);
            if str_eq(self.entries[i].0.as_str(), name) {
                proof {
                    let c = choose|c: int| 0 <= c < self@.len() && self@[c].0 == name@;
                    assert(c == i) by {
                        if c < i { } else if c > i { assert(self@[i as int].0 == self@[c].0); }
                    }
                }
                return Some(i);
            }
            i = i + 1;
        }
        None
    }

    /// The assignments of resource `name`, if it has an entry.
    pub fn get(&self, name: &str) -> (r: Option<&Vec<Assignment>>)
        ensures
            r matches Some(v) ==> index_of_name(self@, name@) matches Some(i) && v@ == self@[i].1,
            r is None ==> index_of_name(self@, name@) is None,
    {
        match self.find(name) {
            Some(i) => {
                proof { assert(self@[i as int].1 == self.entries@[i as int].1@); }
                Some(&self.entries[i].1)
            },
            None => None,
        }
    }

    /// Appends a resource `name` with `assignments`.
    pub fn push_resource(&mut self, name: String, assignments: Vec<Assignment>)
        requires
            forall|i: int| 0 <= i < old(self)@.len() ==> old(self)@[i].0 != name@,
        ensures
            final(self)@ == old(self)@.push((name@, assignments@)),
    {
        proof { use_type_invariant(&*self); }
        let ghost before = self@;
        let mut entries = Vec::new();
        std::mem::swap(&mut entries, &mut self.entries);
        let ghost name_view = name@;
        entries.push((name, assignments));
        proof {
            assert(entries@.map_values(|e: (String, Vec<Assignment>)| (e.0@, e.1@)) =~= before.push((name_view, assignments@)));
        }
        let r = ResourceSchedules { entries };
        *self = r;
    }

    /// Moves assignment `i` of resource `r` to start at `t`.
    pub fn set_start_time(&mut self, r: usize, i: usize, t: i64)
        requires
            r < old(self)@.len(),
            i < old(self)@[r as int].1.len(),
        ensures
            final(self)@ == old(self)@.update(r as int, (old(self)@[r as int].0,
                old(self)@[r as int].1.update(i as int, Assignment { id: old(self)@[r as int].1[i as int].id, start_time: t }))),
    {
        proof { use_type_invariant(&*self); }
        let ghost before = self@;
        let mut entries = Vec::new();
        std::mem::swap(&mut entries, &mut self.entries);
        let ghost raw = entries@;
        let mut entry = entries.remove(r);
        let id = entry.1[i].id;
        entry.1.set(i, Assignment { id, start_time: t });
        entries.insert(r, entry);
        proof {
            assert(entries@.map_values(|e: (String, Vec<Assignment>)| (e.0@, e.1@)) =~= before.update(r as int, (before[r as int].0,
                before[r as int].1.update(i as int, Assignment { id: before[r as int].1[i as int].id, start_time: t })))) by {
                assert forall|k: int| 0 <= k < entries@.len() implies #[trigger] entries@[k] == (if k == r { entry } else { raw[k] }) by {
                    if k < r { } else if k > r { }
                }
            }
        }
        self.entries = entries;
    }

    /// A copy.
    pub fn duplicate(&self) -> (r: Self)
        ensures
            r@ == self@,
    {
        proof { use_type_invariant(self); }
        let mut entries: Vec<(String, Vec<Assignment>)> = Vec::new();
        let mut i: usize = 0;
        while i < self.entries.len()
            invariant
                i <= self.entries@.len(),
                entries@.len() == i,
                forall|j: int| 0 <= j < i ==> #[trigger] entries@[j].0@ == self.entries@[j].0@
                    && entries@[j].1@ == self.entries@[j].1@,
            decreases self.entries@.len() - i,
        {
            let name = self.entries[i].0.clone();
            let list = copy_assignments(&self.entries[i].1);
            entries.push((name, list));
            i = i + 1;
        }
        proof {
            assert(entries@.map_values(|e: (String, Vec<Assignment>)| (e.0@, e.1@)) =~= self@);
        }
        ResourceSchedules { entries }
    }
}

/// A copy of `v`.
pub fn copy_assignments(v: &Vec<Assignment>) -> (r: Vec<Assignment>)
    ensures
        r@ == v@,
{
    let mut out: Vec<Assignment> = Vec::new();
    let mut i: usize = 0;
    while i < v.len()
        invariant
            i <= v@.len(),
            out@ == v@.take(i as int),
        decreases v@.len() - i,
    {
        out.push(v[i]);
        proof { assert(out@ =~= v@.take(i + 1)); }
        i = i + 1;
    }
    proof { assert(v@.take(v@.len() as int) =~= v@); }
    out
}

/// Whether two strings are equal.
pub fn str_eq(a: &str, b: &str) -> (r: bool)
    ensures
        r == (a@ == b@),
{
    let n = a.unicode_len();
    if n != b.unicode_len() {
        return false;
    }
    let mut i: usize = 0;
    while i < n
        invariant
            n == a@.len(),
            n == b@.len(),
            i <= n,
            forall|j: int| 0 <= j < i ==> a@[j] == b@[j],
        decreases n - i,
    {
        if a.get_char(i) != b.get_char(i) {
            return false;
        }
        i = i + 1;
    }
    proof { assert(a@ =~= b@); }
    true
}

} // verus!
