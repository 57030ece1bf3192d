//! Assignment of requests to resources ignoring time (Kuhn-Munkres), and the
//! axis masker used to hide rows and columns of its weight matrix.

use vstd::prelude::*;
use std::collections::HashMap;
use pathfinding::kuhn_munkres::kuhn_munkres;
use pathfinding::matrix::Matrix;
use crate::request::{MIN_UTC_MILLIS, ReservationRequestAlternative, known_cost};
use crate::utils::nested_view;
use crate::utils::sorting::{sort_dedup, strictly_increasing};

verus! {

/// The indices `0..n` that are not in `skip`, in increasing order.
pub open spec fn kept_indices(n: nat, skip: Set<usize>) -> Seq<usize>
    decreases n,
{
    if n == 0 {
        Seq::empty()
    } else {
        let prev = kept_indices((n - 1) as nat, skip);
        if skip.contains((n - 1) as usize) { prev } else { prev.push((n - 1) as usize) }
    }
}

/// The indices `0..n` that are in `skip`.
pub open spec fn skipped_below(n: nat, skip: Set<usize>) -> Set<usize> {
    Set::new(|x: usize| x < n && skip.contains(x))
}

/// Every index below `n` is either kept or skipped: `n` less the skipped ones
/// are kept.
pub proof fn lemma_kept_len(n: nat, skip: Set<usize>)
    requires
        n <= usize::MAX,
    ensures
        skipped_below(n, skip).finite(),
        kept_indices(n, skip).len() + skipped_below(n, skip).len() == n,
    decreases n,
{
    if n == 0 {
        assert(skipped_below(0, skip) =~= Set::empty());
    } else {
        lemma_kept_len((n - 1) as nat, skip);
        let prev = skipped_below((n - 1) as nat, skip);
        if skip.contains((n - 1) as usize) {
            assert(skipped_below(n, skip) =~= prev.insert((n - 1) as usize));
            assert(!prev.contains((n - 1) as usize));
        } else {
            assert(skipped_below(n, skip) =~= prev);
        }
    }
}

/// Maps the indices of a view in which some entries of an axis are hidden to
/// indices of the full axis.
pub struct SparseAxisMasker {
    masked_idx_remapping: Vec<Option<usize>>,
    len: usize,
}

impl SparseAxisMasker {
    /// The remapping table.
    pub closed spec fn table(&self) -> Seq<Option<usize>> {
        self.masked_idx_remapping@
    }

    /// Number of visible indices.
    pub closed spec fn visible(&self) -> nat {
        self.len as nat
    }

    /// A masker for an axis of `num` entries with nothing visible yet.
    pub fn init(num: usize) -> (r: Self)
        ensures
            r.table() == Seq::new(num as nat, |i: int| None::<usize>),
            r.visible() == 0,
    {
        let mut v: Vec<Option<usize>> = Vec::new();
        let mut i: usize = 0;
        while i < num
            invariant
                i <= num,
                v@ == Seq::new(i as nat, |k: int| None::<usize>),
            decreases num - i,
        {
            v.push(None);
            i = i + 1;
        }
        Self { masked_idx_remapping: v, len: 0 }
    }

    /// Lengthens the axis by `num` hidden entries.
    pub fn grow(&mut self, num: usize)
        requires
            old(self).table().len() + num <= usize::MAX,
        ensures
            final(self).table() == old(self).table() + Seq::new(num as nat, |i: int| None::<usize>),
            final(self).visible() == old(self).visible(),
    {
        let ghost start = self.masked_idx_remapping@;
        proof { assert(start =~= start + Seq::new(0, |k: int| None::<usize>)); }
        let mut i: usize = 0;
        while i < num
            invariant
                i <= num,
                start.len() + num <= usize::MAX,
                self.len == old(self).len,
                self.masked_idx_remapping@ == start + Seq::new(i as nat, |k: int| None::<usize>),
            decreases num - i,
        {
            self.masked_idx_remapping.push(None);
            i = i + 1;
            proof {
                assert(self.masked_idx_remapping@ =~= start + Seq::new(i as nat, |k: int| None::<usize>));
            }
        }
    }

    /// Number of visible indices.
    pub fn len(&self) -> (r: usize)
        ensures
            r == self.visible(),
    {
        self.len
    }

    /// The full-axis index behind view index `idx`.
    pub fn remap(&self, idx: usize) -> (r: Result<usize, &'static str>)
        requires
            idx != self.table().len(),
        ensures
            idx > self.table().len() ==> (r matches Err(m) && m@ == "Index out of bounds"@),
            idx < self.table().len() ==> match self.table()[idx as int] {
                Some(op) => r == Ok::<usize, &'static str>(op),
                None => (r matches Err(m) && m@ == "Index is out of mask bounds"@),
            },
    {
        if idx > self.masked_idx_remapping.len() {
            return Err("Index out of bounds");
        }
        if let Some(op) = self.masked_idx_remapping[idx] {
            return Ok(op);
        } else {
            return Err("Index is out of mask bounds");
        }
    }

    /// Hides the indices listed in `vec` and shows all others, in order.
    /// `vec` is left sorted without repetitions.
    pub fn clear_and_rebuild_view(&mut self, vec: &mut Vec<usize>)
        ensures
            strictly_increasing(final(vec)@),
            final(vec)@.to_set() == old(vec)@.to_set(),
            final(self).table().len() == old(self).table().len(),
            final(self).visible() == kept_indices(old(self).table().len(), old(vec)@.to_set()).len(),
            final(self).visible() + skipped_below(old(self).table().len(), old(vec)@.to_set()).len() == old(self).table().len(),
            forall|j: int| 0 <= j < final(self).visible() ==>
                #[trigger] final(self).table()[j] == Some(kept_indices(old(self).table().len(), old(vec)@.to_set())[j]),
            ({
                let n = old(self).table().len();
                let len = final(self).visible();
                forall|j: int| len <= j < n ==> #[trigger] final(self).table()[j] == if j == len && old(vec)@.to_set().contains((n - 1) as usize) {
                    Some((n - 1) as usize)
                } else {
                    old(self).table()[j]
                }
            }),
    {
        sort_dedup(vec);
        let ghost skip = vec@.to_set();
        let ghost old_table = self.masked_idx_remapping@;
        let n = self.masked_idx_remapping.len();
        let mut max_value_idx: usize = 0;
        let mut cum_idx: usize = 0;
        let mut i: usize = 0;
        while i < n
            invariant
                n == old_table.len(),
                n == self.masked_idx_remapping@.len(),
                skip == vec@.to_set(),
                strictly_increasing(vec@),
                i <= n,
                max_value_idx <= vec@.len(),
                forall|q: int| 0 <= q < max_value_idx ==> vec@[q] < i,
                max_value_idx < vec@.len() ==> vec@[max_value_idx as int] >= i,
                cum_idx as nat == kept_indices(i as nat, skip).len(),
                cum_idx <= i,
                forall|j: int| 0 <= j < cum_idx ==> #[trigger] self.masked_idx_remapping@[j] == Some(kept_indices(i as nat, skip)[j]),
                forall|j: int| cum_idx < j < n ==> #[trigger] self.masked_idx_remapping@[j] == old_table[j],
                cum_idx < n ==> self.masked_idx_remapping@[cum_idx as int] == if i > 0 && skip.contains((i - 1) as usize) {
                    Some((i - 1) as usize)
                } else {
                    old_table[cum_idx as int]
                },
            decreases n - i,
        {
            let ghost prev_kept = kept_indices(i as nat, skip);
            proof {
                assert(kept_indices((i + 1) as nat, skip) == if skip.contains(i) { prev_kept } else { prev_kept.push(i) });
            }
            if max_value_idx >= vec.len() {
                proof {
                    if skip.contains(i) {
                        let q = choose|q: int| 0 <= q < vec@.len() && vec@[q] == i;
                        assert(vec@[q] < i);
                    }
                }
                self.masked_idx_remapping.set(cum_idx, Some(i));
                cum_idx += 1;
                i += 1;
                continue;
            }
            if vec[max_value_idx] == i {
                proof { assert(skip.contains(i)); }
                self.masked_idx_remapping.set(cum_idx, Some(i));
                max_value_idx += 1;
                i += 1;
                continue;
            }
            proof {
                if skip.contains(i) {
                    let q = choose|q: int| 0 <= q < vec@.len() && vec@[q] == i;
                    if q < max_value_idx { assert(vec@[q] < i); } else if q > max_value_idx {
                        assert(vec@[max_value_idx as int] < vec@[q]);
                    }
                }
            }
            self.masked_idx_remapping.set(cum_idx, Some(i));
            cum_idx += 1;
            i += 1;
        }
        self.len = cum_idx;
        proof { lemma_kept_len(n as nat, skip); }
    }
}

/// Largest weight magnitude the assignment solver is given, so that its sums
/// stay within `i64`.
pub const KM_WEIGHT_LIMIT: i64 = 1073741824i64;

/// Most columns the assignment solver is given.
pub const KM_MAX_COLUMNS: usize = 1048576usize;

/// `w` is a matrix of `cols` columns, with no more rows than columns, and with
/// weights within the limit.
pub open spec fn km_input(w: Seq<Seq<i64>>, cols: int) -> bool {
    &&& w.len() <= cols <= KM_MAX_COLUMNS
    &&& forall|i: int| 0 <= i < w.len() ==> (#[trigger] w[i]).len() == cols
    &&& forall|i: int, j: int| 0 <= i < w.len() && 0 <= j < cols ==>
            -KM_WEIGHT_LIMIT <= #[trigger] w[i][j] <= KM_WEIGHT_LIMIT
}

/// `a` gives each of `rows` rows its own column below `cols`.
pub open spec fn is_assignment(a: Seq<usize>, rows: int, cols: int) -> bool {
    &&& a.len() == rows
    &&& forall|i: int| 0 <= i < rows ==> #[trigger] a[i] < cols
    &&& forall|i: int, j: int| 0 <= i < j < rows ==> #[trigger] a[i] != #[trigger] a[j]
}

/// Total weight of the first `a.len()` rows in their assigned columns.
pub open spec fn assignment_weight(w: Seq<Seq<i64>>, a: Seq<usize>) -> int
    decreases a.len(),
{
    if a.len() == 0 { 0 } else { assignment_weight(w, a.drop_last()) + w[a.len() - 1][a.last() as int] }
}

/// `a` is an assignment of the rows of `w` of largest total weight `total`.
pub open spec fn is_max_assignment(w: Seq<Seq<i64>>, cols: int, a: Seq<usize>, total: int) -> bool {
    &&& is_assignment(a, w.len() as int, cols)
    &&& total == assignment_weight(w, a)
    &&& forall|p: Seq<usize>| #[trigger] is_assignment(p, w.len() as int, cols) ==> assignment_weight(w, p) <= total
}

/// `pathfinding::kuhn_munkres::kuhn_munkres` on the matrix with rows `weights`:
/// a maximum weight assignment of the rows to distinct columns, with its total
/// weight. It panics with more rows than columns or when a sum overflows,
/// which the limits on the weights rule out.
#[verifier::external_body]
fn max_weight_assignment(weights: &Vec<Vec<i64>>, cols: usize) -> (r: (i64, Vec<usize>))
    requires
        km_input(nested_view(weights@), cols as int),
    ensures
        is_max_assignment(nested_view(weights@), cols as int, r.1@, r.0 as int),
{
    let matrix = Matrix::from_rows(weights.clone()).unwrap();
    kuhn_munkres(&matrix)
}

/// The value of the last entry of `entries` with key `key`.
pub open spec fn last_entry(entries: Seq<((usize, usize), usize)>, key: (usize, usize)) -> Option<usize>
    decreases entries.len(),
{
    if entries.len() == 0 {
        None
    } else if entries.last().0 == key {
        Some(entries.last().1)
    } else {
        last_entry(entries.drop_last(), key)
    }
}

/// The index of the resource named `name`: its last position in `resources`.
pub open spec fn resource_index(resources: Seq<Seq<char>>, name: Seq<char>) -> Option<usize>
    decreases resources.len(),
{
    if resources.len() == 0 {
        None
    } else if resources.last() == name {
        Some((resources.len() - 1) as usize)
    } else {
        resource_index(resources.drop_last(), name)
    }
}

/// The largest of `m` and the values of `s`.
pub open spec fn seq_max(m: i64, s: Seq<i64>) -> i64
    decreases s.len(),
{
    if s.len() == 0 { m } else if seq_max(m, s.drop_last()) >= s.last() { seq_max(m, s.drop_last()) } else { s.last() }
}

/// The simplest reservation system: time is ignored, and every request gets
/// the alternative whose resource makes the total cost smallest, no resource
/// going to two requests. Requests and resources can be hidden from a solve,
/// to add simple constraints.
pub struct ReservationsKuhnMunkres {
    resources: Vec<String>,
    requests: Vec<Vec<ReservationRequestAlternative>>,
    request_reservation_idx: Vec<((usize, usize), usize)>,
    last_request_id: usize,
    max_cost: i64,
    resource_mask: SparseAxisMasker,
    request_mask: SparseAxisMasker,
}

/// The masker shows, at each visible index, an index of its axis.
pub open spec fn masker_shows(m: SparseAxisMasker) -> bool {
    &&& m.visible() <= m.table().len()
    &&& forall|j: int| 0 <= j < m.visible() ==> ((#[trigger] m.table()[j]) matches Some(x) && x < m.table().len())
}

impl ReservationsKuhnMunkres {
    /// The masks cover the requests and the resources.
    pub closed spec fn wf(&self) -> bool {
        &&& self.requests@.len() == self.last_request_id
        &&& self.request_mask.table().len() == self.requests@.len()
        &&& self.resource_mask.table().len() == self.resources@.len()
        &&& masker_shows(self.request_mask)
        &&& masker_shows(self.resource_mask)
        &&& self.max_cost >= 0
    }

    /// Names of the resources.
    pub closed spec fn resource_names(&self) -> Seq<Seq<char>> {
        self.resources@.map_values(|r: String| r@)
    }

    /// The requests, by id.
    pub closed spec fn requests(&self) -> Seq<Seq<ReservationRequestAlternative>> {
        nested_view(self.requests@)
    }

    /// The recorded `((request id, resource index), alternative)` entries.
    pub closed spec fn entries(&self) -> Seq<((usize, usize), usize)> {
        self.request_reservation_idx@
    }

    /// The largest cost seen, and at least zero.
    pub closed spec fn max_cost(&self) -> i64 {
        self.max_cost
    }

    /// The rows of the weight matrix, by visible index.
    pub closed spec fn rows(&self) -> SparseAxisMasker {
        self.request_mask
    }

    /// The columns of the weight matrix, by visible index.
    pub closed spec fn columns(&self) -> SparseAxisMasker {
        self.resource_mask
    }

    /// A system for the resources `resources`, without requests.
    pub fn create_with_resources(resources: &Vec<String>) -> (r: Self)
        ensures
            r.resource_names() == resources@.map_values(|s: String| s@),
            r.requests().len() == 0,
            r.entries().len() == 0,
            r.max_cost() == 0,
            r.rows().visible() == 0,
            r.columns().visible() == 0,
            r.wf(),
    {
        let mut copy: Vec<String> = Vec::new();
        let mut i: usize = 0;
        while i < resources.len()
            invariant
                i <= resources@.len(),
                copy@.len() == i,
                forall|k: int| 0 <= k < i ==> (#[trigger] copy@[k])@ == resources@[k]@,
            decreases resources@.len() - i,
        {
            copy.push(resources[i].clone());
            i = i + 1;
        }
        proof { assert(copy@.map_values(|s: String| s@) =~= resources@.map_values(|s: String| s@)); }
        let n = resources.len();
        let r = Self {
            resources: copy,
            requests: Vec::new(),
            request_reservation_idx: Vec::new(),
            last_request_id: 0,
            max_cost: 0,
            resource_mask: SparseAxisMasker::init(n),
            request_mask: SparseAxisMasker::init(0),
        };
        proof { assert(nested_view(r.requests@) =~= Seq::<Seq<ReservationRequestAlternative>>::empty()); }
        r
    }

    /// Index of the resource named `name`, if any: its last position.
    fn resource_id(&self, name: &String) -> (r: Option<usize>)
        ensures
            r == resource_index(self.resource_names(), name@),
            r matches Some(i) ==> i < self.resource_names().len(),
    {
        let mut i: usize = self.resources.len();
        proof { assert(self.resource_names().take(i as int) =~= self.resource_names()); }
        while i > 0
            invariant
                i <= self.resources@.len(),
                resource_index(self.resource_names(), name@) == resource_index(self.resource_names().take(i as int), name@),
            decreases i,
        {
            let ghost pre = self.resource_names().take(i as int);
            proof {
                assert(pre.drop_last() =~= self.resource_names().take(i - 1));
                assert(pre.last() == self.resources@[i - 1]@);
            }
            if self.resources[i - 1] == *name {
                proof { lemma_resource_index_bound(self.resource_names(), name@); }
                return Some(i - 1);
            }
            i = i - 1;
        }
        None
    }
}

proof fn lemma_resource_index_bound(resources: Seq<Seq<char>>, name: Seq<char>)
    ensures
        resource_index(resources, name) matches Some(i) ==> i < resources.len(),
    decreases resources.len(),
{
    if resources.len() > 0 {
        lemma_resource_index_bound(resources.drop_last(), name);
    }
}

/// Number of leading alternatives of `alts` whose resource is among `resources`.
pub open spec fn known_prefix(resources: Seq<Seq<char>>, alts: Seq<ReservationRequestAlternative>) -> nat
    decreases alts.len(),
{
    if alts.len() == 0 {
        0
    } else if known_prefix(resources, alts.drop_last()) == alts.len() - 1
        && resource_index(resources, alts.last().parameters.resource_name@) is Some {
        alts.len()
    } else {
        known_prefix(resources, alts.drop_last())
    }
}

/// The entries recorded for the first `k` alternatives of request `id`.
pub open spec fn request_entries(resources: Seq<Seq<char>>, id: usize, alts: Seq<ReservationRequestAlternative>, k: nat)
    -> Seq<((usize, usize), usize)>
{
    Seq::new(k, |i: int| ((id, resource_index(resources, alts[i].parameters.resource_name@)->0), i as usize))
}

proof fn lemma_known_prefix(resources: Seq<Seq<char>>, alts: Seq<ReservationRequestAlternative>)
    ensures
        known_prefix(resources, alts) <= alts.len(),
        forall|i: int| 0 <= i < known_prefix(resources, alts) ==>
            #[trigger] resource_index(resources, alts[i].parameters.resource_name@) is Some,
        known_prefix(resources, alts) < alts.len() ==>
            resource_index(resources, alts[known_prefix(resources, alts) as int].parameters.resource_name@) is None,
    decreases alts.len(),
{
    if alts.len() > 0 {
        lemma_known_prefix(resources, alts.drop_last());
        let k = known_prefix(resources, alts.drop_last());
        assert forall|i: int| 0 <= i < alts.len() - 1 implies alts.drop_last()[i] == alts[i] by {}
    }
}

proof fn lemma_known_prefix_step(resources: Seq<Seq<char>>, alts: Seq<ReservationRequestAlternative>, i: int)
    requires
        0 <= i < alts.len(),
        forall|j: int| 0 <= j <= i ==> #[trigger] resource_index(resources, alts[j].parameters.resource_name@) is Some,
    ensures
        known_prefix(resources, alts.take(i + 1)) == i + 1,
    decreases i,
{
    let t = alts.take(i + 1);
    assert(t.drop_last() =~= alts.take(i));
    assert(t.last() == alts[i]);
    assert(resource_index(resources, alts[i].parameters.resource_name@) is Some);
    if i > 0 {
        lemma_known_prefix_step(resources, alts, i - 1);
    } else {
        assert(known_prefix(resources, alts.take(0)) == 0);
    }
}

proof fn lemma_known_prefix_full(resources: Seq<Seq<char>>, alts: Seq<ReservationRequestAlternative>, k: int)
    requires
        0 <= k <= alts.len(),
        known_prefix(resources, alts.take(k)) == k,
        k == alts.len() || resource_index(resources, alts[k].parameters.resource_name@) is None,
    ensures
        known_prefix(resources, alts) == k,
    decreases alts.len() - k,
{
    if k < alts.len() {
        let t = alts.take(k + 1);
        assert(t.drop_last() =~= alts.take(k));
        assert(known_prefix(resources, t) == k);
        lemma_known_prefix_stays(resources, alts, k + 1, k);
    } else {
        assert(alts.take(k) =~= alts);
    }
}

proof fn lemma_known_prefix_stays(resources: Seq<Seq<char>>, alts: Seq<ReservationRequestAlternative>, m: int, k: int)
    requires
        k < m <= alts.len(),
        known_prefix(resources, alts.take(m)) == k,
    ensures
        known_prefix(resources, alts) == k,
    decreases alts.len() - m,
{
    if m < alts.len() {
        let t = alts.take(m + 1);
        assert(t.drop_last() =~= alts.take(m));
        lemma_known_prefix_stays(resources, alts, m + 1, k);
    } else {
        assert(alts.take(m) =~= alts);
    }
}

impl ReservationsKuhnMunkres {
    /// Records a request made of `request`'s alternatives and returns its id,
    /// or `None` when an alternative names an unknown resource. The
    /// alternatives before that one are recorded against the id all the same.
    pub fn request_resources(&mut self, request: Vec<ReservationRequestAlternative>) -> (r: Option<usize>)
        requires
            old(self).wf(),
            old(self).requests().len() < usize::MAX,
        ensures
            final(self).wf(),
            ({
                let k = known_prefix(old(self).resource_names(), request@);
                &&& (r is Some <==> k == request@.len())
                &&& final(self).entries() == old(self).entries()
                        + request_entries(old(self).resource_names(), old(self).requests().len() as usize, request@, k)
                &&& exists|seen: Seq<i64>| #![trigger seq_max(old(self).max_cost(), seen)]
                        seen.len() == k
                        && (forall|i: int| 0 <= i < k ==> (known_cost(request@[i].cost_function, MIN_UTC_MILLIS) matches Some(c) ==> #[trigger] seen[i] == c))
                        && final(self).max_cost() == seq_max(old(self).max_cost(), seen)
            }),
            r matches Some(id) ==> id == old(self).requests().len() && final(self).requests() == old(self).requests().push(request@)
                && final(self).rows().table() == old(self).rows().table().push(None)
                && final(self).rows().visible() == old(self).rows().visible(),
            r is None ==> final(self).requests() == old(self).requests() && final(self).rows() == old(self).rows(),
            final(self).resource_names() == old(self).resource_names(),
            final(self).columns() == old(self).columns(),
    {
        let req_id = self.last_request_id;
        let ghost names = self.resource_names();
        let ghost start_entries = self.request_reservation_idx@;
        let ghost start_max = self.max_cost;
        let ghost mut seen: Seq<i64> = Seq::empty();
        let mut r_id: usize = 0;
        while r_id < request.len()
            invariant
                names == self.resource_names(),
                req_id == old(self).requests().len(),
                r_id <= request@.len(),
                forall|j: int| 0 <= j < r_id ==> #[trigger] resource_index(names, request@[j].parameters.resource_name@) is Some,
                self.request_reservation_idx@ == start_entries + request_entries(names, req_id, request@, r_id as nat),
                seen.len() == r_id,
                forall|i: int| 0 <= i < r_id ==> (known_cost(request@[i].cost_function, MIN_UTC_MILLIS) matches Some(c) ==> #[trigger] seen[i] == c),
                self.max_cost == seq_max(start_max, seen),
                self.max_cost >= start_max,
                self.requests == old(self).requests,
                self.resources == old(self).resources,
                self.last_request_id == old(self).last_request_id,
                self.request_mask == old(self).request_mask,
                self.resource_mask == old(self).resource_mask,
                old(self).wf(),
                start_entries == old(self).entries(),
                start_max == old(self).max_cost(),
            decreases request@.len() - r_id,
        {
            let resource_id = match self.resource_id(&request[r_id].parameters.resource_name) {
                Some(id) => id,
                None => {
                    proof {
                        if r_id > 0 { lemma_known_prefix_step(names, request@, r_id - 1); } else { assert(request@.take(0).len() == 0); }
                        lemma_known_prefix_full(names, request@, r_id as int);
                        assert(seq_max(start_max, seen) == self.max_cost);
                    }
                    return None;
                },
            };
            self.request_reservation_idx.push(((req_id, resource_id), r_id));
            let c = request[r_id].cost_function.cost(&request[r_id].parameters, MIN_UTC_MILLIS);
            let ghost prev_seen = seen;
            proof { seen = seen.push(c); }
            if c > self.max_cost {
                self.max_cost = c;
            }
            proof {
                assert(seen.drop_last() =~= prev_seen);
                assert(self.request_reservation_idx@ =~= start_entries + request_entries(names, req_id, request@, (r_id + 1) as nat));
            }
            r_id = r_id + 1;
        }
        proof {
            if request@.len() > 0 { lemma_known_prefix_step(names, request@, request@.len() - 1); }
            assert(request@.take(request@.len() as int) =~= request@);
        }
        self.last_request_id = self.last_request_id + 1;
        let ghost before = self.requests@;
        self.requests.push(request);
        proof {
            assert(nested_view(self.requests@) =~= nested_view(before).push(self.requests@[before.len() as int]@));
        }
        self.request_mask.grow(1);
        proof {
            assert(self.request_mask.table() =~= old(self).request_mask.table().push(None));
            assert forall|j: int| 0 <= j < self.request_mask.visible() implies
                ((#[trigger] self.request_mask.table()[j]) matches Some(x) && x < self.request_mask.table().len()) by {
                assert(self.request_mask.table()[j] == old(self).request_mask.table()[j]);
            }
        }
        Some(req_id)
    }
}

/// The indices kept from `0..n` are increasing and below `n`.
pub proof fn lemma_kept_increasing(n: nat, skip: Set<usize>)
    requires
        n <= usize::MAX,
    ensures
        forall|i: int, j: int| 0 <= i < j < kept_indices(n, skip).len() ==>
            #[trigger] kept_indices(n, skip)[i] < #[trigger] kept_indices(n, skip)[j],
        forall|i: int| 0 <= i < kept_indices(n, skip).len() ==> #[trigger] kept_indices(n, skip)[i] < n,
        kept_indices(n, skip).len() <= n,
    decreases n,
{
    if n > 0 {
        lemma_kept_increasing((n - 1) as nat, skip);
        let prev = kept_indices((n - 1) as nat, skip);
        let cur = kept_indices(n, skip);
        if !skip.contains((n - 1) as usize) {
            assert(cur == prev.push((n - 1) as usize));
            assert forall|i: int, j: int| 0 <= i < j < cur.len() implies #[trigger] cur[i] < #[trigger] cur[j] by {
                if j < prev.len() { assert(cur[i] == prev[i] && cur[j] == prev[j]); } else {
                    assert(cur[i] == prev[i]);
                    assert(cur[j] == (n - 1) as usize);
                    assert(prev[i] < n - 1);
                }
            }
            assert forall|i: int| 0 <= i < cur.len() implies #[trigger] cur[i] < n by {
                if i < prev.len() { assert(cur[i] == prev[i]); }
            }
        } else {
            assert(cur == prev);
        }
    }
}

/// The total weight of an assignment is bounded by its length times the limit.
pub proof fn lemma_weight_bound(w: Seq<Seq<i64>>, a: Seq<usize>, cols: int)
    requires
        km_input(w, cols),
        a.len() <= w.len(),
        forall|i: int| 0 <= i < a.len() ==> #[trigger] a[i] < cols,
    ensures
        -(a.len() * KM_WEIGHT_LIMIT) <= assignment_weight(w, a) <= a.len() * KM_WEIGHT_LIMIT,
    decreases a.len(),
{
    if a.len() > 0 {
        let b = a.drop_last();
        assert forall|i: int| 0 <= i < b.len() implies #[trigger] b[i] < cols by { assert(b[i] == a[i]); }
        lemma_weight_bound(w, b, cols);
        let x = w[a.len() - 1][a.last() as int];
        assert(-KM_WEIGHT_LIMIT <= x <= KM_WEIGHT_LIMIT);
        assert(a.len() * KM_WEIGHT_LIMIT == b.len() * KM_WEIGHT_LIMIT + KM_WEIGHT_LIMIT) by (nonlinear_arith)
            requires a.len() == b.len() + 1;
    }
}

/// The largest value is at least the start.
pub proof fn lemma_seq_max(m: i64, s: Seq<i64>)
    ensures
        seq_max(m, s) >= m,
    decreases s.len(),
{
    if s.len() > 0 {
        lemma_seq_max(m, s.drop_last());
    }
}

impl ReservationsKuhnMunkres {
    /// The weight of visible row `row` and column `col` is `x`: minus the cost
    /// of the alternative recorded for that request and resource, or one less
    /// than minus the largest cost when there is none. Of a user cost function
    /// nothing is known.
    pub open spec fn weight_ok(&self, row: int, col: int, x: int) -> bool {
        let rrow = self.rows().table()[row]->0;
        let rcol = self.columns().table()[col]->0;
        let absent = -(self.max_cost() as int) - 1;
        match last_entry(self.entries(), (rrow, rcol)) {
            None => x == absent,
            Some(a) => if a < self.requests()[rrow as int].len() {
                known_cost(self.requests()[rrow as int][a as int].cost_function, MIN_UTC_MILLIS) matches Some(c) ==> x == -c
            } else {
                x == absent
            },
        }
    }

    /// `w` is the weight matrix of the visible rows and columns.
    pub open spec fn weights_of(&self, w: Seq<Seq<i64>>) -> bool {
        &&& w.len() == self.rows().visible()
        &&& forall|row: int| 0 <= row < w.len() ==> (#[trigger] w[row]).len() == self.columns().visible()
        &&& forall|row: int, col: int| 0 <= row < w.len() && 0 <= col < self.columns().visible() ==>
                self.weight_ok(row, col, #[trigger] w[row][col] as int)
    }

    /// The weight of visible row `row` and column `col`.
    fn weight(&self, row: usize, col: usize) -> (r: i128)
        requires
            self.wf(),
            row < self.rows().visible(),
            col < self.columns().visible(),
        ensures
            self.weight_ok(row as int, col as int, r as int),
    {
        let absent: i128 = -(self.max_cost as i128) - 1;
        let rrow = match self.request_mask.remap(row) {
            Ok(x) => x,
            Err(_) => { return absent; },
        };
        let rcol = match self.resource_mask.remap(col) {
            Ok(x) => x,
            Err(_) => { return absent; },
        };
        match self.reservation_lookup(rrow, rcol) {
            None => absent,
            Some(a) => {
                if a < self.requests[rrow].len() {
                    let alt = &self.requests[rrow][a];
                    proof { assert(self.requests()[rrow as int][a as int] == *alt); }
                    let c = alt.cost_function.cost(&alt.parameters, MIN_UTC_MILLIS);
                    -(c as i128)
                } else {
                    absent
                }
            },
        }
    }

    /// The alternative recorded for request `req` on resource `res`.
    fn reservation_lookup(&self, req: usize, res: usize) -> (r: Option<usize>)
        ensures
            r == last_entry(self.entries(), (req, res)),
    {
        let mut i: usize = self.request_reservation_idx.len();
        proof { assert(self.entries().take(i as int) =~= self.entries()); }
        while i > 0
            invariant
                i <= self.entries().len(),
                last_entry(self.entries(), (req, res)) == last_entry(self.entries().take(i as int), (req, res)),
            decreases i,
        {
            let ghost pre = self.entries().take(i as int);
            proof { assert(pre.drop_last() =~= self.entries().take(i - 1)); }
            let ((q, c), a) = self.request_reservation_idx[i - 1];
            if q == req && c == res {
                return Some(a);
            }
            i = i - 1;
        }
        None
    }

    /// The weight matrix of the visible rows and columns, or `None` when a
    /// weight is beyond [`KM_WEIGHT_LIMIT`].
    fn weight_matrix(&self) -> (r: Option<Vec<Vec<i64>>>)
        requires
            self.wf(),
        ensures
            r matches Some(w) ==> self.weights_of(nested_view(w@))
                && forall|i: int, j: int| 0 <= i < w@.len() && 0 <= j < self.columns().visible() ==>
                    -KM_WEIGHT_LIMIT <= #[trigger] w@[i]@[j] <= KM_WEIGHT_LIMIT,
            r is None ==> exists|row: int, col: int, x: int| 0 <= row < self.rows().visible() && 0 <= col < self.columns().visible()
                && #[trigger] self.weight_ok(row, col, x) && (x < -KM_WEIGHT_LIMIT || x > KM_WEIGHT_LIMIT),
    {
        let rows = self.request_mask.len();
        let cols = self.resource_mask.len();
        let mut w: Vec<Vec<i64>> = Vec::new();
        let mut row: usize = 0;
        while row < rows
            invariant
                self.wf(),
                rows == self.rows().visible(),
                cols == self.columns().visible(),
                row <= rows,
                w@.len() == row,
                forall|i: int| 0 <= i < row ==> (#[trigger] w@[i])@.len() == cols,
                forall|i: int, j: int| 0 <= i < row && 0 <= j < cols ==> self.weight_ok(i, j, #[trigger] w@[i]@[j] as int)
                    && -KM_WEIGHT_LIMIT <= w@[i]@[j] <= KM_WEIGHT_LIMIT,
            decreases rows - row,
        {
            let mut line: Vec<i64> = Vec::new();
            let mut col: usize = 0;
            while col < cols
                invariant
                    self.wf(),
                    rows == self.rows().visible(),
                    cols == self.columns().visible(),
                    row < rows,
                    col <= cols,
                    line@.len() == col,
                    forall|j: int| 0 <= j < col ==> self.weight_ok(row as int, j, #[trigger] line@[j] as int)
                        && -KM_WEIGHT_LIMIT <= line@[j] <= KM_WEIGHT_LIMIT,
                decreases cols - col,
            {
                let x = self.weight(row, col);
                if x < -(KM_WEIGHT_LIMIT as i128) || x > KM_WEIGHT_LIMIT as i128 {
                    return None;
                }
                line.push(x as i64);
                col = col + 1;
            }
            w.push(line);
            row = row + 1;
        }
        proof {
            let wv = nested_view(w@);
            assert forall|i: int, j: int| 0 <= i < wv.len() && 0 <= j < cols implies
                self.weight_ok(i, j, #[trigger] wv[i][j] as int) by {
                assert(wv[i][j] == w@[i]@[j]);
            }
        }
        Some(w)
    }

    /// The map from request id to the alternative the assignment `a` of the
    /// visible rows and columns gives it (`None` when the column assigned is
    /// a resource the request did not ask for).
    pub open spec fn assigned_map(&self, a: Seq<usize>) -> Map<usize, Option<usize>> {
        Map::new(
            |k: usize| exists|row: int| 0 <= row < a.len() && self.rows().table()[row] == Some(k),
            |k: usize| {
                let row = choose|row: int| 0 <= row < a.len() && self.rows().table()[row] == Some(k);
                last_entry(self.entries(), (k, self.columns().table()[a[row] as int]->0))
            },
        )
    }

    /// Hides rows and columns as the masks `request_mask` and `resource_mask`
    /// list, and assigns the visible requests to resources.
    #[verifier::spinoff_prover]
    #[verifier::rlimit(40)]
    fn masked_solve(&mut self, request_mask: &mut Vec<usize>, resource_mask: &mut Vec<usize>) -> (r: Option<(i64, HashMap<usize, Option<usize>>)>)
        requires
            old(self).wf(),
            old(self).resource_names().len() <= KM_MAX_COLUMNS,
            kept_indices(old(self).requests().len(), old(request_mask)@.to_set()).len()
                <= kept_indices(old(self).resource_names().len(), old(resource_mask)@.to_set()).len(),
        ensures
            final(self).wf(),
            final(self).requests() == old(self).requests(),
            final(self).entries() == old(self).entries(),
            final(self).max_cost() == old(self).max_cost(),
            final(self).resource_names() == old(self).resource_names(),
            final(self).rows().visible() == kept_indices(old(self).requests().len(), old(request_mask)@.to_set()).len(),
            forall|j: int| 0 <= j < final(self).rows().visible() ==> #[trigger] final(self).rows().table()[j]
                == Some(kept_indices(old(self).requests().len(), old(request_mask)@.to_set())[j]),
            final(self).columns().visible() == kept_indices(old(self).resource_names().len(), old(resource_mask)@.to_set()).len(),
            forall|j: int| 0 <= j < final(self).columns().visible() ==> #[trigger] final(self).columns().table()[j]
                == Some(kept_indices(old(self).resource_names().len(), old(resource_mask)@.to_set())[j]),
            r matches Some((cost, m)) ==> exists|w: Seq<Seq<i64>>, a: Seq<usize>, total: int|
                final(self).weights_of(w) && #[trigger] is_max_assignment(w, final(self).columns().visible() as int, a, total)
                && cost == -total && m@ == final(self).assigned_map(a),
            r is None ==> exists|row: int, col: int, x: int| 0 <= row < final(self).rows().visible()
                && 0 <= col < final(self).columns().visible()
                && #[trigger] final(self).weight_ok(row, col, x) && (x < -KM_WEIGHT_LIMIT || x > KM_WEIGHT_LIMIT),
    {
        let ghost req_skip = request_mask@.to_set();
        let ghost res_skip = resource_mask@.to_set();
        let ghost nreq = self.requests@.len();
        let ghost nres = self.resources@.len();
        let mut rm = SparseAxisMasker::init(0);
        std::mem::swap(&mut rm, &mut self.request_mask);
        rm.clear_and_rebuild_view(request_mask);
        self.request_mask = rm;
        let mut cm = SparseAxisMasker::init(0);
        std::mem::swap(&mut cm, &mut self.resource_mask);
        cm.clear_and_rebuild_view(resource_mask);
        self.resource_mask = cm;
        proof {
            lemma_kept_increasing(nreq as nat, req_skip);
            lemma_kept_increasing(nres as nat, res_skip);
            assert(self.wf());
        }
        let w = match self.weight_matrix() {
            Some(w) => w,
            None => { return None; },
        };
        let cols = self.resource_mask.len();
        proof {
            let wv = nested_view(w@);
            assert forall|i: int, j: int| 0 <= i < wv.len() && 0 <= j < cols implies
                -KM_WEIGHT_LIMIT <= #[trigger] wv[i][j] <= KM_WEIGHT_LIMIT by {
                assert(wv[i][j] == w@[i]@[j]);
            }
        }
        let (total, a) = max_weight_assignment(&w, cols);
        let mut m: HashMap<usize, Option<usize>> = HashMap::new();
        let mut row: usize = 0;
        while row < a.len()
            invariant
                self.wf(),
                a@.len() == self.rows().visible(),
                forall|i: int| 0 <= i < a@.len() ==> #[trigger] a@[i] < self.columns().visible(),
                forall|j1: int, j2: int| 0 <= j1 < j2 < self.rows().visible() ==>
                    (#[trigger] self.rows().table()[j1])->0 < (#[trigger] self.rows().table()[j2])->0,
                row <= a@.len(),
                m@ == Map::new(
                    |k: usize| exists|r2: int| 0 <= r2 < row && self.rows().table()[r2] == Some(k),
                    |k: usize| {
                        let r2 = choose|r2: int| 0 <= r2 < row && self.rows().table()[r2] == Some(k);
                        last_entry(self.entries(), (k, self.columns().table()[a@[r2] as int]->0))
                    },
                ),
            decreases a@.len() - row,
        {
            let rrow = match self.request_mask.remap(row) {
                Ok(x) => x,
                Err(_) => { row = row + 1; continue; },
            };
            let rcol = match self.resource_mask.remap(a[row]) {
                Ok(x) => x,
                Err(_) => { row = row + 1; continue; },
            };
            let found = self.reservation_lookup(rrow, rcol);
            let ghost before = m@;
            m.insert(rrow, found);
            proof {
                let tbl = self.rows().table();
                assert forall|k: usize| #[trigger] m@.contains_key(k) <==>
                    exists|r2: int| 0 <= r2 < row + 1 && tbl[r2] == Some(k) by {
                    if k == rrow { assert(tbl[row as int] == Some(k)); }
                    else if exists|r2: int| 0 <= r2 < row + 1 && tbl[r2] == Some(k) {
                        let r2 = choose|r2: int| 0 <= r2 < row + 1 && tbl[r2] == Some(k);
                        assert(r2 != row);
                    }
                }
                assert forall|k: usize| #[trigger] m@.contains_key(k) implies m@[k] == {
                    let r2 = choose|r2: int| 0 <= r2 < row + 1 && tbl[r2] == Some(k);
                    last_entry(self.entries(), (k, self.columns().table()[a@[r2] as int]->0))
                } by {
                    let r2 = choose|r2: int| 0 <= r2 < row + 1 && tbl[r2] == Some(k);
                    if k == rrow {
                        assert(r2 == row) by {
                            if r2 < row { assert(tbl[r2]->0 < tbl[row as int]->0); }
                        }
                    } else {
                        assert(r2 < row);
                        let r3 = choose|r3: int| 0 <= r3 < row && tbl[r3] == Some(k);
                        assert(r3 == r2) by {
                            if r3 < r2 { assert(tbl[r3]->0 < tbl[r2]->0); }
                            if r2 < r3 { assert(tbl[r2]->0 < tbl[r3]->0); }
                        }
                    }
                }
                assert(m@ =~= Map::new(
                    |k: usize| exists|r2: int| 0 <= r2 < row + 1 && tbl[r2] == Some(k),
                    |k: usize| {
                        let r2 = choose|r2: int| 0 <= r2 < row + 1 && tbl[r2] == Some(k);
                        last_entry(self.entries(), (k, self.columns().table()[a@[r2] as int]->0))
                    },
                ));
            }
            row = row + 1;
        }
        proof {
            let wv = nested_view(w@);
            lemma_weight_bound(wv, a@, cols as int);
            assert(a@.len() * KM_WEIGHT_LIMIT <= KM_MAX_COLUMNS * KM_WEIGHT_LIMIT) by (nonlinear_arith)
                requires a@.len() <= KM_MAX_COLUMNS;
        }
        let cost = -total;
        proof {
            let wv = nested_view(w@);
            assert(is_max_assignment(wv, self.columns().visible() as int, a@, -cost));
            assert(m@ =~= self.assigned_map(a@));
            assert(self.weights_of(wv));
            assert(is_max_assignment(wv, self.columns().visible() as int, a@, total as int));
        }
        Some((cost, m))
    }
}

/// The requests `pos` constrains: those of its `(request, alternative)`
/// pairs that name an alternative.
pub open spec fn constrained_requests(reqs: Seq<Seq<ReservationRequestAlternative>>, pos: Seq<(usize, usize)>) -> Seq<usize>
    decreases pos.len(),
{
    if pos.len() == 0 {
        Seq::empty()
    } else {
        let prev = constrained_requests(reqs, pos.drop_last());
        let (q, a) = pos.last();
        if q < reqs.len() && a < reqs[q as int].len() { prev.push(q) } else { prev }
    }
}

/// The resources of the alternatives `pos` names, when the resource is known.
pub open spec fn constrained_resources(reqs: Seq<Seq<ReservationRequestAlternative>>, names: Seq<Seq<char>>,
    pos: Seq<(usize, usize)>) -> Seq<usize>
    decreases pos.len(),
{
    if pos.len() == 0 {
        Seq::empty()
    } else {
        let prev = constrained_resources(reqs, names, pos.drop_last());
        let (q, a) = pos.last();
        if q < reqs.len() && a < reqs[q as int].len() {
            match resource_index(names, reqs[q as int][a as int].parameters.resource_name@) {
                Some(r) => prev.push(r),
                None => prev,
            }
        } else {
            prev
        }
    }
}

/// The index of the resource named `name` is a position of `name`, and there
/// is one whenever `name` occurs.
proof fn lemma_resource_index_names(names: Seq<Seq<char>>, name: Seq<char>)
    requires
        names.len() <= usize::MAX,
    ensures
        resource_index(names, name) matches Some(i) ==> i < names.len() && names[i as int] == name,
        (exists|j: int| 0 <= j < names.len() && names[j] == name) ==> resource_index(names, name) is Some,
    decreases names.len(),
{
    if names.len() > 0 {
        lemma_resource_index_names(names.drop_last(), name);
        if names.last() != name && resource_index(names.drop_last(), name) is Some {
            let i = resource_index(names.drop_last(), name)->0;
            assert(names.drop_last()[i as int] == names[i as int]);
        }
        if names.last() != name && exists|j: int| 0 <= j < names.len() && names[j] == name {
            let j = choose|j: int| 0 <= j < names.len() && names[j] == name;
            assert(names.drop_last()[j] == name);
        }
    }
}

/// The columns a list of positive constraints hides are the resources its
/// alternatives name: each hidden index is the position of the resource of
/// some constraint naming an alternative, and the resource of every such
/// constraint, when it is among `names`, is hidden.
pub proof fn lemma_constrained_resources_named(reqs: Seq<Seq<ReservationRequestAlternative>>, names: Seq<Seq<char>>,
    pos: Seq<(usize, usize)>)
    requires
        names.len() <= usize::MAX,
    ensures
        forall|i: int| 0 <= i < constrained_resources(reqs, names, pos).len() ==> {
            let r = #[trigger] constrained_resources(reqs, names, pos)[i];
            &&& r < names.len()
            &&& exists|k: int| 0 <= k < pos.len() && pos[k].0 < reqs.len() && pos[k].1 < reqs[pos[k].0 as int].len()
                    && names[r as int] == #[trigger] reqs[pos[k].0 as int][pos[k].1 as int].parameters.resource_name@
        },
        forall|k: int, j: int| #![trigger reqs[pos[k].0 as int][pos[k].1 as int], names[j]]
            0 <= k < pos.len() && pos[k].0 < reqs.len() && pos[k].1 < reqs[pos[k].0 as int].len()
            && 0 <= j < names.len() && names[j] == reqs[pos[k].0 as int][pos[k].1 as int].parameters.resource_name@
            ==> exists|i: int| 0 <= i < constrained_resources(reqs, names, pos).len()
                && names[#[trigger] constrained_resources(reqs, names, pos)[i] as int] == names[j],
    decreases pos.len(),
{
    if pos.len() > 0 {
        let prev = pos.drop_last();
        lemma_constrained_resources_named(reqs, names, prev);
        let pc = constrained_resources(reqs, names, prev);
        let cr = constrained_resources(reqs, names, pos);
        let (q, a) = pos.last();
        let last = pos.len() - 1;
        if q < reqs.len() && a < reqs[q as int].len() {
            lemma_resource_index_names(names, reqs[q as int][a as int].parameters.resource_name@);
        }
        assert forall|i: int| 0 <= i < cr.len() implies {
            let r = #[trigger] cr[i];
            &&& r < names.len()
            &&& exists|k: int| 0 <= k < pos.len() && pos[k].0 < reqs.len() && pos[k].1 < reqs[pos[k].0 as int].len()
                    && names[r as int] == #[trigger] reqs[pos[k].0 as int][pos[k].1 as int].parameters.resource_name@
        } by {
            if i < pc.len() {
                assert(cr[i] == pc[i]);
                let r = pc[i];
                let k = choose|k: int| 0 <= k < prev.len() && prev[k].0 < reqs.len() && prev[k].1 < reqs[prev[k].0 as int].len()
                    && names[r as int] == #[trigger] reqs[prev[k].0 as int][prev[k].1 as int].parameters.resource_name@;
                assert(pos[k] == prev[k]);
            } else {
                assert(pos[last] == (q, a));
                let _ = reqs[pos[last].0 as int][pos[last].1 as int];
            }
        }
        assert forall|k: int, j: int| #![trigger reqs[pos[k].0 as int][pos[k].1 as int], names[j]]
            0 <= k < pos.len() && pos[k].0 < reqs.len() && pos[k].1 < reqs[pos[k].0 as int].len()
            && 0 <= j < names.len() && names[j] == reqs[pos[k].0 as int][pos[k].1 as int].parameters.resource_name@
            implies exists|i: int| 0 <= i < cr.len() && names[#[trigger] cr[i] as int] == names[j] by {
            if k < prev.len() {
                assert(pos[k] == prev[k]);
                let _ = reqs[prev[k].0 as int][prev[k].1 as int];
                let i = choose|i: int| 0 <= i < pc.len() && names[#[trigger] pc[i] as int] == names[j];
                assert(cr[i] == pc[i]);
            } else {
                assert(k == last);
                let i = pc.len() as int;
                assert(cr[i] == resource_index(names, names[j])->0);
            }
        }
    }
}

/// Without hidden indices, index `j` shows `j`.
pub proof fn lemma_kept_all(n: nat)
    requires
        n <= usize::MAX,
    ensures
        kept_indices(n, Set::empty()).len() == n,
        forall|j: int| 0 <= j < n ==> #[trigger] kept_indices(n, Set::empty())[j] == j,
    decreases n,
{
    if n > 0 {
        lemma_kept_all((n - 1) as nat);
    }
}

impl ReservationsKuhnMunkres {
    /// Assigns every request to a resource, minimising the total cost, and
    /// returns that cost with, for each request id, the alternative of the
    /// resource it got (`None` when it got a resource it did not ask for).
    /// `None` when a weight is beyond [`KM_WEIGHT_LIMIT`].
    pub fn solve(&mut self) -> (r: Option<(i64, HashMap<usize, Option<usize>>)>)
        requires
            old(self).wf(),
            old(self).requests().len() <= old(self).resource_names().len(),
            old(self).resource_names().len() <= KM_MAX_COLUMNS,
        ensures
            final(self).wf(),
            final(self).requests() == old(self).requests(),
            final(self).entries() == old(self).entries(),
            final(self).max_cost() == old(self).max_cost(),
            final(self).resource_names() == old(self).resource_names(),
            final(self).rows().visible() == old(self).requests().len(),
            forall|j: int| 0 <= j < final(self).rows().visible() ==> #[trigger] final(self).rows().table()[j] == Some(j as usize),
            final(self).columns().visible() == old(self).resource_names().len(),
            forall|j: int| 0 <= j < final(self).columns().visible() ==> #[trigger] final(self).columns().table()[j] == Some(j as usize),
            r matches Some((cost, m)) ==> exists|w: Seq<Seq<i64>>, a: Seq<usize>, total: int|
                final(self).weights_of(w) && #[trigger] is_max_assignment(w, final(self).columns().visible() as int, a, total)
                && cost == -total && m@ == final(self).assigned_map(a),
            r is None ==> exists|row: int, col: int, x: int| 0 <= row < final(self).rows().visible()
                && 0 <= col < final(self).columns().visible()
                && #[trigger] final(self).weight_ok(row, col, x) && (x < -KM_WEIGHT_LIMIT || x > KM_WEIGHT_LIMIT),
    {
        let mut mask: Vec<usize> = Vec::new();
        let mut resource_mask: Vec<usize> = Vec::new();
        proof {
            assert(mask@.to_set() =~= Set::<usize>::empty());
            assert(resource_mask@.to_set() =~= Set::<usize>::empty());
            lemma_kept_all(self.requests().len());
            lemma_kept_all(self.resource_names().len());
        }
        self.masked_solve(&mut mask, &mut resource_mask)
    }

    /// [`ReservationsKuhnMunkres::solve`] with requests held to constraints:
    /// each `(request, alternative)` of `positive_constraints` naming an
    /// alternative takes that request and the alternative's resource out of
    /// the assignment, and the resources `removed_resources` are left out.
    /// The map gives the requests assigned.
    pub fn solve_with_constraint(&mut self, positive_constraints: Vec<(usize, usize)>, removed_resources: Vec<usize>)
        -> (r: Option<(i64, HashMap<usize, Option<usize>>)>)
        requires
            old(self).wf(),
            old(self).resource_names().len() <= KM_MAX_COLUMNS,
            kept_indices(old(self).requests().len(),
                constrained_requests(old(self).requests(), positive_constraints@).to_set()).len()
            <= kept_indices(old(self).resource_names().len(),
                (constrained_resources(old(self).requests(), old(self).resource_names(), positive_constraints@)
                    + removed_resources@).to_set()).len(),
        ensures
            final(self).wf(),
            final(self).requests() == old(self).requests(),
            final(self).entries() == old(self).entries(),
            final(self).max_cost() == old(self).max_cost(),
            final(self).resource_names() == old(self).resource_names(),
            ({
                let rows = kept_indices(old(self).requests().len(), constrained_requests(old(self).requests(), positive_constraints@).to_set());
                &&& final(self).rows().visible() == rows.len()
                &&& forall|j: int| 0 <= j < rows.len() ==> #[trigger] final(self).rows().table()[j] == Some(rows[j])
            }),
            ({
                let cols = kept_indices(old(self).resource_names().len(),
                    (constrained_resources(old(self).requests(), old(self).resource_names(), positive_constraints@) + removed_resources@).to_set());
                &&& final(self).columns().visible() == cols.len()
                &&& forall|j: int| 0 <= j < cols.len() ==> #[trigger] final(self).columns().table()[j] == Some(cols[j])
            }),
            r matches Some((cost, m)) ==> exists|w: Seq<Seq<i64>>, a: Seq<usize>, total: int|
                final(self).weights_of(w) && #[trigger] is_max_assignment(w, final(self).columns().visible() as int, a, total)
                && cost == -total && m@ == final(self).assigned_map(a),
            r is None ==> exists|row: int, col: int, x: int| 0 <= row < final(self).rows().visible()
                && 0 <= col < final(self).columns().visible()
                && #[trigger] final(self).weight_ok(row, col, x) && (x < -KM_WEIGHT_LIMIT || x > KM_WEIGHT_LIMIT),
    {
        let ghost reqs = self.requests();
        let ghost names = self.resource_names();
        let mut resource_mask: Vec<usize> = Vec::new();
        let mut request_mask: Vec<usize> = Vec::new();
        let mut i: usize = 0;
        while i < positive_constraints.len()
            invariant
                reqs == self.requests(),
                names == self.resource_names(),
                self == old(self),
                i <= positive_constraints@.len(),
                request_mask@ == constrained_requests(reqs, positive_constraints@.take(i as int)),
                resource_mask@ == constrained_resources(reqs, names, positive_constraints@.take(i as int)),
            decreases positive_constraints@.len() - i,
        {
            let (request_id, satisfied_resource) = positive_constraints[i];
            proof { assert(positive_constraints@.take(i + 1).drop_last() =~= positive_constraints@.take(i as int)); }
            if request_id < self.requests.len() {
                if satisfied_resource < self.requests[request_id].len() {
                    request_mask.push(request_id);
                    let alt = &self.requests[request_id][satisfied_resource];
                    proof { assert(reqs[request_id as int][satisfied_resource as int] == *alt); }
                    if let Some(res) = self.resource_id(&alt.parameters.resource_name) {
                        resource_mask.push(res);
                    }
                }
            }
            i = i + 1;
        }
        proof { assert(positive_constraints@.take(positive_constraints@.len() as int) =~= positive_constraints@); }
        let ghost constrained = resource_mask@;
        let mut k: usize = 0;
        while k < removed_resources.len()
            invariant
                k <= removed_resources@.len(),
                resource_mask@ == constrained + removed_resources@.take(k as int),
            decreases removed_resources@.len() - k,
        {
            resource_mask.push(removed_resources[k]);
            proof { assert(resource_mask@ =~= constrained + removed_resources@.take(k + 1)); }
            k = k + 1;
        }
        proof { assert(removed_resources@.take(removed_resources@.len() as int) =~= removed_resources@); }
        self.masked_solve(&mut request_mask, &mut resource_mask)
    }
}

} // verus!
