//! A queue of holders per wait point; a wait point is free for a request at
//! a time when nobody holds it, or its last holder left before that time.

use vstd::prelude::*;
use uuid::Uuid;

verus! {

/// A wait point handed out: the position of the chosen wait point in the
/// request list, and a unique identifier.
#[derive(Debug)]
pub struct TicketResponse {
    /// Position of the chosen wait point in the request list.
    pub selected_index: usize,
    uuid: String,
}

impl Clone for TicketResponse {
    fn clone(&self) -> (r: Self)
        ensures
            r.index() == self.index(),
            r.id() == self.id(),
    {
        TicketResponse { selected_index: self.selected_index, uuid: self.uuid.clone() }
    }
}

impl TicketResponse {
    /// Position of the chosen wait point in the request list.
    pub closed spec fn index(&self) -> usize {
        self.selected_index
    }

    /// The identifier.
    pub closed spec fn id(&self) -> Seq<char> {
        self.uuid@
    }

    /// Position of the chosen wait point in the request list.
    pub fn selected(&self) -> (r: usize)
        ensures
            r == self.index(),
    {
        self.selected_index
    }

    /// The identifier.
    pub fn uuid(&self) -> (r: &String)
        ensures
            r@ == self.id(),
    {
        &self.uuid
    }
}

/// A holder of a wait point: the time it leaves, once known.
#[derive(Debug)]
pub struct WaitPointInfo {
    time: Option<i64>,
    uuid: String,
}

/// A request for wait point `wait_point` from time `time` (milliseconds since
/// the Unix epoch).
#[derive(Debug)]
pub struct WaitPointRequest {
    /// Name of the wait point.
    pub wait_point: String,
    /// Time from which it is wanted.
    pub time: i64,
}

/// `Uuid::new_v4` in its hyphenated text form: a random identifier of 36
/// characters. Nothing else is promised of it.
#[verifier::external_body]
fn new_uuid() -> (r: String)
    ensures
        r@.len() == 36,
{
    Uuid::new_v4().to_string()
}

/// The holders of each wait point, by name: the times they leave.
pub type Queues = Seq<(Seq<char>, Seq<Option<i64>>)>;

/// The names of `q` are pairwise distinct.
pub open spec fn queue_names_unique(q: Queues) -> bool {
    forall|i: int, j: int| 0 <= i < j < q.len() ==> q[i].0 != q[j].0
}

/// Position of wait point `name` in `q`.
pub open spec fn queue_index(q: Queues, name: Seq<char>) -> Option<int> {
    if exists|i: int| 0 <= i < q.len() && q[i].0 == name {
        Some(choose|i: int| 0 <= i < q.len() && q[i].0 == name)
    } else {
        None
    }
}

/// Wait point `name` is free from `time`: nobody holds it, or its last
/// holder leaves before `time`.
pub open spec fn is_free(q: Queues, name: Seq<char>, time: i64) -> bool {
    match queue_index(q, name) {
        None => true,
        Some(i) => q[i].1.len() == 0 || (q[i].1.last() matches Some(t) && t < time),
    }
}

/// `q` with a new holder of wait point `name`, whose leaving time is not known.
pub open spec fn with_holder(q: Queues, name: Seq<char>) -> Queues {
    match queue_index(q, name) {
        Some(i) => q.update(i, (name, q[i].1.push(None))),
        None => q.push((name, seq![None])),
    }
}

/// Position of the first request of `list` whose wait point is free.
pub open spec fn first_free(q: Queues, list: Seq<WaitPointRequest>) -> Option<int> {
    if exists|i: int| 0 <= i < list.len() && is_free(q, #[trigger] list[i].wait_point@, list[i].time) {
        Some(choose|i: int| 0 <= i < list.len() && is_free(q, #[trigger] list[i].wait_point@, list[i].time)
            && forall|j: int| 0 <= j < i ==> !is_free(q, #[trigger] list[j].wait_point@, list[j].time))
    } else {
        None
    }
}

/// The first free request is one of the list, and free.
pub proof fn lemma_first_free(q: Queues, list: Seq<WaitPointRequest>)
    ensures
        first_free(q, list) matches Some(i) ==> 0 <= i < list.len() && is_free(q, list[i].wait_point@, list[i].time),
{
    if exists|i: int| 0 <= i < list.len() && is_free(q, #[trigger] list[i].wait_point@, list[i].time) {
        let i = choose|i: int| 0 <= i < list.len() && is_free(q, #[trigger] list[i].wait_point@, list[i].time);
        assert(exists|i: int| 0 <= i < list.len() && is_free(q, #[trigger] list[i].wait_point@, list[i].time)
            && forall|j: int| 0 <= j < i ==> !is_free(q, #[trigger] list[j].wait_point@, list[j].time)) by {
            lemma_first_free_exists(q, list, i);
        }
    }
}

proof fn lemma_first_free_exists(q: Queues, list: Seq<WaitPointRequest>, i: int)
    requires
        0 <= i < list.len(),
        is_free(q, list[i].wait_point@, list[i].time),
    ensures
        exists|k: int| 0 <= k < list.len() && is_free(q, #[trigger] list[k].wait_point@, list[k].time)
            && forall|j: int| 0 <= j < k ==> !is_free(q, #[trigger] list[j].wait_point@, list[j].time),
    decreases i,
{
    if exists|j: int| 0 <= j < i && is_free(q, #[trigger] list[j].wait_point@, list[j].time) {
        let j = choose|j: int| 0 <= j < i && is_free(q, #[trigger] list[j].wait_point@, list[j].time);
        lemma_first_free_exists(q, list, j);
    }
}

/// A wait point just handed out is free for nobody, at any time, until its
/// holder's leaving time is set.
pub proof fn lemma_held_after_request(q: Queues, name: Seq<char>, t: i64)
    requires
        queue_names_unique(q),
    ensures
        !is_free(with_holder(q, name), name, t),
        occupied(with_holder(q, name), name),
{
    let q2 = with_holder(q, name);
    match queue_index(q, name) {
        Some(i) => {
            assert(q2[i].0 == name);
            let j = choose|j: int| 0 <= j < q2.len() && q2[j].0 == name;
            assert(j == i) by {
                if j != i { assert(q2[j] == q[j]); assert(q[i].0 == name); }
            }
            assert(q2[i].1.last() == None::<i64>);
        },
        None => {
            let n = q.len() as int;
            assert(q2[n].0 == name);
            let j = choose|j: int| 0 <= j < q2.len() && q2[j].0 == name;
            assert(j == n) by {
                if j < n { assert(q2[j] == q[j]); }
            }
            assert(q2[n].1 =~= seq![None::<i64>]);
        },
    }
}

/// Once the holder of a wait point has a leaving time `t0`, the wait point
/// is free from exactly the times after `t0`.
pub proof fn lemma_free_after_release(q: Queues, name: Seq<char>, t0: i64, t: i64)
    requires
        queue_names_unique(q),
        queue_index(q, name) matches Some(i) && q[i].1.len() > 0,
    ensures
        ({
            let i = queue_index(q, name)->0;
            let q2 = q.update(i, (name, q[i].1.update(q[i].1.len() - 1, Some(t0))));
            is_free(q2, name, t) <==> t0 < t
        }),
{
    let i = queue_index(q, name)->0;
    let q2 = q.update(i, (name, q[i].1.update(q[i].1.len() - 1, Some(t0))));
    assert(q[i].0 == name);
    assert(q2[i].0 == name);
    let j = choose|j: int| 0 <= j < q2.len() && q2[j].0 == name;
    assert(j == i) by {
        if j != i { assert(q2[j] == q[j]); }
    }
}

/// `s` without its leading holders that leave before `time`.
pub open spec fn flushed(s: Seq<Option<i64>>, time: i64) -> Seq<Option<i64>>
    decreases s.len(),
{
    if s.len() > 0 && (s[0] matches Some(t) && t < time) { flushed(s.drop_first(), time) } else { s }
}

/// Wait point `name` has a holder in `q`.
pub open spec fn occupied(q: Queues, name: Seq<char>) -> bool {
    queue_index(q, name) matches Some(i) && q[i].1.len() > 0
}

/// `q` after blocking the first `k` wait points of `names`.
pub open spec fn blocked_upto(q: Queues, names: Seq<Seq<char>>, k: nat) -> Queues
    decreases k,
{
    if k == 0 { q } else { with_holder(blocked_upto(q, names, (k - 1) as nat), names[k - 1]) }
}

/// Wait point `names[k]` is held once the ones before it are blocked.
pub open spec fn block_fails_at(q: Queues, names: Seq<Seq<char>>, k: nat) -> bool {
    occupied(blocked_upto(q, names, k), names[k as int])
}

/// `q` with the holders of every wait point that leave before `time` removed
/// from the front of its queue.
pub open spec fn flushed_all(q: Queues, time: i64) -> Queues {
    q.map_values(|e: (Seq<char>, Seq<Option<i64>>)| (e.0, flushed(e.1, time)))
}

/// Wait points are safe holding spots. There should be as many wait points
/// as robots, or more.
#[derive(Debug)]
pub struct WaitPointSystem {
    wait_points: Vec<(String, Vec<WaitPointInfo>)>,
    uuid_map: Vec<(String, String)>,
}

impl Default for WaitPointSystem {
    fn default() -> (r: Self)
        ensures
            r.queues() == Seq::<(Seq<char>, Seq<Option<i64>>)>::empty(),
    {
        let r = WaitPointSystem { wait_points: Vec::new(), uuid_map: Vec::new() };
        proof { assert(r.queues() =~= Seq::<(Seq<char>, Seq<Option<i64>>)>::empty()); }
        r
    }
}

impl WaitPointSystem {
    #[verifier::type_invariant]
    spec fn well_formed(self) -> bool {
        queue_names_unique(self.queues())
    }

    /// The holders of each wait point, by name.
    pub closed spec fn queues(&self) -> Queues {
        self.wait_points@.map_values(|e: (String, Vec<WaitPointInfo>)| (e.0@, e.1@.map_values(|w: WaitPointInfo| w.time)))
    }

    /// Position of wait point `name`.
    fn find(&self, name: &String) -> (r: Option<usize>)
        ensures
            r matches Some(i) ==> queue_index(self.queues(), name@) == Some(i as int) && i < self.queues().len(),
            r is None ==> queue_index(self.queues(), name@) is None,
    {
        proof { use_type_invariant(self); }
        let ghost q = self.queues();
        let mut i: usize = 0;
        while i < self.wait_points.len()
            invariant
                q == self.queues(),
                queue_names_unique(q),
                i <= q.len(),
                q.len() == self.wait_points@.len(),
                forall|j: int| 0 <= j < i ==> q[j].0 != name@,
            decreases q.len() - i,
        {
            assert(q[i as int].0 == self.wait_points@[i as int].0@);
            if self.wait_points[i].0 == *name {
                proof {
                    let c = choose|c: int| 0 <= c < q.len() && q[c].0 == name@;
                    assert(c == i) by { if c < i { } else if c > i { assert(q[i as int].0 == q[c].0); } }
                }
                return Some(i);
            }
            i = i + 1;
        }
        None
    }

    /// Whether wait point `name` is free from `time`.
    fn free_at(&self, name: &String, time: i64) -> (r: bool)
        ensures
            r == is_free(self.queues(), name@, time),
    {
        match self.find(name) {
            None => true,
            Some(i) => {
                let list = &self.wait_points[i].1;
                proof { assert(self.queues()[i as int].1 == list@.map_values(|w: WaitPointInfo| w.time)); }
                if list.len() == 0 {
                    true
                } else {
                    match list[list.len() - 1].time {
                        Some(t) => t < time,
                        None => false,
                    }
                }
            },
        }
    }

    /// Adds a holder of wait point `name` with identifier `uuid`.
    fn add_holder(&mut self, name: &String, uuid: String)
        ensures
            final(self).queues() == with_holder(old(self).queues(), name@),
    {
        proof { use_type_invariant(&*self); }
        let ghost q = self.queues();
        let found = self.find(name);
        let mut entries: Vec<(String, Vec<WaitPointInfo>)> = Vec::new();
        std::mem::swap(&mut entries, &mut self.wait_points);
        let ghost raw = entries@;
        match found {
            Some(i) => {
                let mut entry = entries.remove(i);
                let ghost old_list = entry.1@;
                entry.1.push(WaitPointInfo { time: None, uuid });
                entries.insert(i, entry);
                proof {
                    let f = |e: (String, Vec<WaitPointInfo>)| (e.0@, e.1@.map_values(|w: WaitPointInfo| w.time));
                    assert(entry.1@.map_values(|w: WaitPointInfo| w.time) =~= old_list.map_values(|w: WaitPointInfo| w.time).push(None));
                    assert(entries@.map_values(f) =~= q.update(i as int, (name@, q[i as int].1.push(None)))) by {
                        assert forall|k: int| 0 <= k < entries@.len() implies #[trigger] entries@[k] == (if k == i { entry } else { raw[k] }) by {
                            if k < i { } else if k > i { }
                        }
                    }
                    assert(queue_names_unique(entries@.map_values(f))) by {
                        assert forall|a: int, b: int| 0 <= a < b < entries@.len() implies entries@.map_values(f)[a].0 != entries@.map_values(f)[b].0 by {
                            assert(entries@.map_values(f)[a].0 == q[a].0);
                            assert(entries@.map_values(f)[b].0 == q[b].0);
                        }
                    }
                }
            },
            None => {
                let mut list: Vec<WaitPointInfo> = Vec::new();
                list.push(WaitPointInfo { time: None, uuid });
                entries.push((name.clone(), list));
                proof {
                    let f = |e: (String, Vec<WaitPointInfo>)| (e.0@, e.1@.map_values(|w: WaitPointInfo| w.time));
                    assert(list@.map_values(|w: WaitPointInfo| w.time) =~= seq![None::<i64>]);
                    assert(entries@.map_values(f) =~= q.push((name@, seq![None::<i64>])));
                    assert(queue_names_unique(entries@.map_values(f))) by {
                        assert forall|a: int, b: int| 0 <= a < b < entries@.len() implies entries@.map_values(f)[a].0 != entries@.map_values(f)[b].0 by {
                            if b == q.len() { assert(entries@.map_values(f)[a].0 == q[a].0); }
                        }
                    }
                }
            },
        }
        self.wait_points = entries;
    }

    /// Hands out the first wait point of `wait_point_list` that is free from
    /// the time it is asked for; its new holder's leaving time is not known yet.
    pub fn request_waitpoint(&mut self, wait_point_list: &Vec<WaitPointRequest>) -> (r: Result<TicketResponse, String>)
        ensures
            r is Ok <==> first_free(old(self).queues(), wait_point_list@) is Some,
            r matches Ok(t) ==> first_free(old(self).queues(), wait_point_list@) == Some(t.index() as int)
                && final(self).queues() == with_holder(old(self).queues(), wait_point_list@[t.index() as int].wait_point@)
                && t.id().len() == 36,
            r matches Err(e) ==> e@ == "No solution found"@ && final(self).queues() == old(self).queues(),
    {
        let ghost q = self.queues();
        let mut res: usize = 0;
        while res < wait_point_list.len()
            invariant
                q == self.queues(),
                q == old(self).queues(),
                res <= wait_point_list@.len(),
                forall|j: int| 0 <= j < res ==> !is_free(q, #[trigger] wait_point_list@[j].wait_point@, wait_point_list@[j].time),
            decreases wait_point_list@.len() - res,
        {
            let wait_point = &wait_point_list[res];
            if self.free_at(&wait_point.wait_point, wait_point.time) {
                let uuid = new_uuid();
                let ticket = TicketResponse { selected_index: res, uuid: uuid.clone() };
                let mut uuids: Vec<(String, String)> = Vec::new();
                proof { use_type_invariant(&*self); }
                std::mem::swap(&mut uuids, &mut self.uuid_map);
                uuids.push((uuid.clone(), wait_point.wait_point.clone()));
                self.uuid_map = uuids;
                self.add_holder(&wait_point.wait_point, uuid);
                proof {
                    let list = wait_point_list@;
                    assert(is_free(q, list[res as int].wait_point@, list[res as int].time));
                    let c = choose|i: int| 0 <= i < list.len() && is_free(q, #[trigger] list[i].wait_point@, list[i].time)
                        && forall|j: int| 0 <= j < i ==> !is_free(q, #[trigger] list[j].wait_point@, list[j].time);
                    assert(c == res) by {
                        if c < res { } else if c > res { }
                    }
                }
                return Ok(ticket);
            }
            res = res + 1;
        }
        Err("No solution found".to_string())
    }

    /// Sets the leaving time of the last holder of wait point `wait_point`.
    pub fn release_waitpoint_at_time(&mut self, wait_point: &String, time: &i64) -> (r: Result<(), &'static str>)
        ensures
            match queue_index(old(self).queues(), wait_point@) {
                None => r matches Err(e) && e@ == "No waitpoint with given name found."@ && final(self).queues() == old(self).queues(),
                Some(i) => if old(self).queues()[i].1.len() == 0 {
                    r matches Err(e) && e@ == "Wait point was empty"@ && final(self).queues() == old(self).queues()
                } else {
                    r is Ok && final(self).queues() == old(self).queues().update(i, (wait_point@,
                        old(self).queues()[i].1.update(old(self).queues()[i].1.len() - 1, Some(*time))))
                },
            },
    {
        proof { use_type_invariant(&*self); }
        let ghost q = self.queues();
        let found = match self.find(wait_point) {
            Some(i) => i,
            None => { return Err("No waitpoint with given name found."); },
        };
        if self.wait_points[found].1.len() == 0 {
            proof { assert(q[found as int].1 == self.wait_points@[found as int].1@.map_values(|w: WaitPointInfo| w.time)); }
            return Err("Wait point was empty");
        }
        let mut entries: Vec<(String, Vec<WaitPointInfo>)> = Vec::new();
        std::mem::swap(&mut entries, &mut self.wait_points);
        let ghost raw = entries@;
        let mut entry = entries.remove(found);
        let last = entry.1.len() - 1;
        let ghost old_list = entry.1@;
        let info = entry.1.remove(last);
        entry.1.push(WaitPointInfo { time: Some(*time), uuid: info.uuid });
        entries.insert(found, entry);
        proof {
            let f = |e: (String, Vec<WaitPointInfo>)| (e.0@, e.1@.map_values(|w: WaitPointInfo| w.time));
            assert(q[found as int] == f(raw[found as int]));
            assert(entry.1@.map_values(|w: WaitPointInfo| w.time) =~= old_list.map_values(|w: WaitPointInfo| w.time).update(last as int, Some(*time)));
            assert(entries@.map_values(f) =~= q.update(found as int, (wait_point@, q[found as int].1.update(q[found as int].1.len() - 1, Some(*time))))) by {
                assert forall|k: int| 0 <= k < entries@.len() implies #[trigger] entries@[k] == (if k == found { entry } else { raw[k] }) by {
                    if k < found { } else if k > found { }
                }
            }
            assert(queue_names_unique(entries@.map_values(f))) by {
                assert forall|a: int, b: int| 0 <= a < b < entries@.len() implies entries@.map_values(f)[a].0 != entries@.map_values(f)[b].0 by {
                    assert(entries@.map_values(f)[a].0 == q[a].0);
                    assert(entries@.map_values(f)[b].0 == q[b].0);
                }
            }
        }
        self.wait_points = entries;
        Ok(())
    }
}

/// Whether the first holder of `list` leaves before `time`.
fn leaves_before(list: &Vec<WaitPointInfo>, time: i64) -> (r: bool)
    ensures
        r == (list@.len() > 0 && (list@[0].time matches Some(t) && t < time)),
{
    if list.len() == 0 {
        return false;
    }
    match list[0].time {
        Some(t) => t < time,
        None => false,
    }
}

impl WaitPointSystem {
    /// Gives every wait point of `wait_points`, in order, a holder whose
    /// leaving time is not known; fails (with the ones before it blocked) at
    /// the first that already has a holder.
    pub fn block_waitpoints(&mut self, wait_points: &Vec<String>) -> (r: Result<(), &'static str>)
        ensures
            ({
                let names = wait_points@.map_values(|w: String| w@);
                &&& r is Ok <==> forall|k: int| 0 <= k < names.len() ==> !#[trigger] block_fails_at(old(self).queues(), names, k as nat)
                &&& r is Ok ==> final(self).queues() == blocked_upto(old(self).queues(), names, names.len())
                &&& r matches Err(e) ==> e@ == ""@ && exists|k: int| 0 <= k < names.len()
                        && #[trigger] block_fails_at(old(self).queues(), names, k as nat)
                        && (forall|j: int| 0 <= j < k ==> !#[trigger] block_fails_at(old(self).queues(), names, j as nat))
                        && final(self).queues() == blocked_upto(old(self).queues(), names, k as nat)
            }),
    {
        let ghost q = self.queues();
        let ghost names = wait_points@.map_values(|w: String| w@);
        let mut k: usize = 0;
        while k < wait_points.len()
            invariant
                q == old(self).queues(),
                names == wait_points@.map_values(|w: String| w@),
                k <= names.len(),
                self.queues() == blocked_upto(q, names, k as nat),
                forall|j: int| 0 <= j < k ==> !#[trigger] block_fails_at(q, names, j as nat),
            decreases names.len() - k,
        {
            let name = &wait_points[k];
            assert(names[k as int] == name@);
            let held = match self.find(name) {
                Some(i) => self.wait_points[i].1.len() > 0,
                None => false,
            };
            proof {
                if let Some(i) = queue_index(self.queues(), name@) {
                    assert(self.queues()[i].1 == self.wait_points@[i].1@.map_values(|w: WaitPointInfo| w.time));
                }
            }
            if held {
                proof {
                    let ki = k as int;
                    assert(block_fails_at(q, names, ki as nat));
                    assert(self.queues() == blocked_upto(q, names, ki as nat));
                }
                return Err("");
            }
            let uuid = new_uuid();
            self.add_holder(name, uuid);
            k = k + 1;
        }
        Ok(())
    }

    /// Removes, from the front of every wait point's queue, the holders that
    /// left before `time`.
    pub fn flush_until(&mut self, time: &i64)
        ensures
            final(self).queues() == flushed_all(old(self).queues(), *time),
    {
        proof { use_type_invariant(&*self); }
        let ghost q = self.queues();
        let mut entries: Vec<(String, Vec<WaitPointInfo>)> = Vec::new();
        std::mem::swap(&mut entries, &mut self.wait_points);
        let ghost f = |e: (String, Vec<WaitPointInfo>)| (e.0@, e.1@.map_values(|w: WaitPointInfo| w.time));
        let mut i: usize = 0;
        while i < entries.len()
            invariant
                q == old(self).queues(),
                entries@.len() == q.len(),
                f == |e: (String, Vec<WaitPointInfo>)| (e.0@, e.1@.map_values(|w: WaitPointInfo| w.time)),
                i <= q.len(),
                forall|k: int| 0 <= k < i ==> #[trigger] f(entries@[k]) == (q[k].0, flushed(q[k].1, *time)),
                forall|k: int| i <= k < q.len() ==> #[trigger] f(entries@[k]) == q[k],
                self.wait_points@.len() == 0,
                self.uuid_map == old(self).uuid_map,
            decreases q.len() - i,
        {
            let ghost raw = entries@;
            let mut entry = entries.remove(i);
            let ghost start = entry.1@.map_values(|w: WaitPointInfo| w.time);
            assert(f(raw[i as int]) == q[i as int]);
            assert(entry == raw[i as int]);
            assert(start == q[i as int].1);
            let mut leaving = leaves_before(&entry.1, *time);
            while leaving
                invariant
                    flushed(entry.1@.map_values(|w: WaitPointInfo| w.time), *time) == flushed(start, *time),
                    leaving == (entry.1@.len() > 0 && (entry.1@[0].time matches Some(t) && t < *time)),
                    entry.0 == raw[i as int].0,
                decreases entry.1@.len(),
            {
                let ghost before = entry.1@.map_values(|w: WaitPointInfo| w.time);
                entry.1.remove(0);
                proof { assert(entry.1@.map_values(|w: WaitPointInfo| w.time) =~= before.drop_first()); }
                leaving = leaves_before(&entry.1, *time);
            }
            proof {
                let cur = entry.1@.map_values(|w: WaitPointInfo| w.time);
                assert(flushed(cur, *time) == cur);
            }
            entries.insert(i, entry);
            proof {
                assert forall|k: int| 0 <= k < q.len() implies #[trigger] entries@[k] == (if k == i { entry } else { raw[k] }) by {
                    if k < i { } else if k > i { }
                }
            }
            i = i + 1;
        }
        proof {
            assert(entries@.map_values(f) =~= flushed_all(q, *time));
            assert(queue_names_unique(entries@.map_values(f))) by {
                assert forall|a: int, b: int| 0 <= a < b < entries@.len() implies entries@.map_values(f)[a].0 != entries@.map_values(f)[b].0 by {
                    assert(entries@.map_values(f)[a].0 == q[a].0);
                    assert(entries@.map_values(f)[b].0 == q[b].0);
                }
            }
        }
        self.wait_points = entries;
    }
}

} // verus!
