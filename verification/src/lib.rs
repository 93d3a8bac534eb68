//! An in-memory task tracker: short text records, each under a numeric
//! identifier that the store hands out in strictly increasing order and
//! never reuses. The store offers exactly five operations — create, get,
//! list, mark_done, delete — and every one of them is total: a missing
//! identifier is an ordinary absent result, never a panic or an error.

use vstd::prelude::*;

verus! {

/// A single record: an identifier, a title, and a completion flag.
/// The identifier and the title never change after creation; the flag
/// moves from `false` to `true` at most once.
#[derive(Debug, Clone)]
pub struct Task {
    pub id: u32,
    pub title: String,
    pub done: bool,
}

/// True when some entry of `s` carries the identifier `id`.
pub open spec fn contains_id(s: Seq<Task>, id: u32) -> bool {
    exists|i: int| 0 <= i < s.len() && (#[trigger] s[i].id) == id
}

/// The position of the entry carrying `id`; meaningful only when
/// `contains_id(s, id)` holds (and then unique in a well-formed store).
pub open spec fn id_index(s: Seq<Task>, id: u32) -> int {
    choose|i: int| 0 <= i < s.len() && (#[trigger] s[i].id) == id
}

/// Identifiers strictly increase along the sequence; in particular they
/// are pairwise distinct.
pub open spec fn ids_increasing(s: Seq<Task>) -> bool {
    forall|i: int, j: int|
        0 <= i < j < s.len() ==> (#[trigger] s[i].id) < (#[trigger] s[j].id)
}

/// Every identifier present lies in `1 ..= next - 1`, so `next` itself is
/// still free (and so is everything above it).
pub open spec fn ids_below(s: Seq<Task>, next: u32) -> bool {
    &&& next >= 1
    &&& forall|i: int| 0 <= i < s.len() ==> 1 <= (#[trigger] s[i].id) && s[i].id < next
}

/// The store's invariant over its task sequence and its counter.
pub open spec fn store_inv(s: Seq<Task>, next: u32) -> bool {
    &&& ids_increasing(s)
    &&& ids_below(s, next)
}

/// The sequence after marking the entry carrying `id` as done: its flag
/// becomes `true`, its identifier and title stay, and every other entry
/// is untouched. Without such an entry this is `s` itself.
pub open spec fn mark_done_seq(s: Seq<Task>, id: u32) -> Seq<Task> {
    Seq::new(
        s.len(),
        |i: int|
            if s[i].id == id {
                Task { id: s[i].id, title: s[i].title, done: true }
            } else {
                s[i]
            },
    )
}

/// In a sequence whose identifiers strictly increase, at most one entry
/// carries a given identifier, so `id_index` names exactly the position
/// where the identifier was seen.
pub proof fn lemma_id_unique(s: Seq<Task>, id: u32, i: int)
    requires
        ids_increasing(s),
        0 <= i < s.len(),
        s[i].id == id,
    ensures
        contains_id(s, id),
        id_index(s, id) == i,
{
    assert(contains_id(s, id));
    let k = id_index(s, id);
    if k < i {
        assert(s[k].id < s[i].id);
    } else if k > i {
        assert(s[i].id < s[k].id);
    }
}

/// A freshly created task is found under the identifier `create`
/// returned, and it carries the given title with its flag still down:
/// appending `Task { id: next, title, done: false }` to a well-formed
/// store makes the lookup of `next` yield exactly that record.
pub proof fn lemma_create_then_get(s: Seq<Task>, next: u32, title: String)
    requires
        store_inv(s, next),
    ensures
        ({
            let s2 = s.push((Task { id: next, title, done: false }));
            &&& contains_id(s2, next)
            &&& id_index(s2, next) == s.len()
            &&& s2[id_index(s2, next)] == (Task { id: next, title, done: false })
        }),
{
    let s2 = s.push((Task { id: next, title, done: false }));
    assert forall|i: int, j: int| 0 <= i < j < s2.len() implies
        (#[trigger] s2[i].id) < (#[trigger] s2[j].id) by {
        if j < s2.len() - 1 {
            assert(s[i].id < s[j].id);
        }
    }
    lemma_id_unique(s2, next, s.len() as int);
}

/// Marking an identifier touches no other entry's presence: every
/// identifier is in the marked sequence exactly when it was in the
/// original, and the length never changes.
pub proof fn lemma_mark_done_preserves_ids(s: Seq<Task>, id: u32, k: u32)
    ensures
        mark_done_seq(s, id).len() == s.len(),
        contains_id(mark_done_seq(s, id), k) == contains_id(s, k),
{
    let s2 = mark_done_seq(s, id);
    assert forall|i: int| 0 <= i < s.len() implies (#[trigger] s2[i].id) == s[i].id by {}
    if contains_id(s, k) {
        let i = id_index(s, k);
        assert(s2[i].id == k);
    }
    if contains_id(s2, k) {
        let i = id_index(s2, k);
        assert(s[i].id == k);
    }
}

/// After a successful `mark_done` the looked-up task shows `done == true`,
/// under the same identifier and with its title untouched.
pub proof fn lemma_mark_done_then_get(s: Seq<Task>, id: u32)
    requires
        ids_increasing(s),
        contains_id(s, id),
    ensures
        ({
            let s2 = mark_done_seq(s, id);
            &&& contains_id(s2, id)
            &&& id_index(s2, id) == id_index(s, id)
            &&& s2[id_index(s2, id)].done
            &&& s2[id_index(s2, id)].id == id
            &&& s2[id_index(s2, id)].title == s[id_index(s, id)].title
        }),
{
    let s2 = mark_done_seq(s, id);
    let i = id_index(s, id);
    lemma_id_unique(s, id, i);
    assert forall|p: int, q: int| 0 <= p < q < s2.len() implies
        (#[trigger] s2[p].id) < (#[trigger] s2[q].id) by {
        assert(s[p].id < s[q].id);
    }
    lemma_id_unique(s2, id, i);
}

/// Marking done is idempotent: marking the same identifier a second time
/// changes nothing at all.
pub proof fn lemma_mark_done_idempotent(s: Seq<Task>, id: u32)
    ensures
        mark_done_seq(mark_done_seq(s, id), id) == mark_done_seq(s, id),
{
    assert(mark_done_seq(mark_done_seq(s, id), id) =~= mark_done_seq(s, id));
}

/// Marking an identifier that no entry carries leaves the sequence exactly
/// as it was: together with `mark_done`'s contract, a failed `mark_done`
/// alters neither the store's size nor its contents.
pub proof fn lemma_mark_done_absent(s: Seq<Task>, id: u32)
    requires
        !contains_id(s, id),
    ensures
        mark_done_seq(s, id) == s,
{
    assert(mark_done_seq(s, id) =~= s);
}

/// Deleting an identifier removes exactly it: afterwards no entry carries
/// it, while every other identifier is present exactly as before (and the
/// survivors keep their relative order, `remove` shifting them by at most
/// one position).
pub proof fn lemma_delete_removes_id(s: Seq<Task>, id: u32)
    requires
        ids_increasing(s),
        contains_id(s, id),
    ensures
        !contains_id(s.remove(id_index(s, id)), id),
        forall|k: u32| k != id ==>
            contains_id(s.remove(id_index(s, id)), k) == contains_id(s, k),
{
    let i = id_index(s, id);
    lemma_id_unique(s, id, i);
    let s2 = s.remove(i);
    assert forall|j: int| 0 <= j < s2.len() implies
        (#[trigger] s2[j].id) != id by {
        let j0: int = if j < i { j } else { j + 1 };
        assert(s2[j] == s[j0]);
        if s[j0].id == id {
            lemma_id_unique(s, id, j0);
        }
    }
    assert forall|k: u32| k != id implies
        contains_id(s2, k) == contains_id(s, k) by {
        if contains_id(s, k) {
            let j = id_index(s, k);
            let j2: int = if j < i { j } else { j - 1 };
            assert(s2[j2] == s[j]);
            assert(contains_id(s2, k));
        }
        if contains_id(s2, k) {
            let j = id_index(s2, k);
            let j0: int = if j < i { j } else { j + 1 };
            assert(s2[j] == s[j0]);
            assert(contains_id(s, k));
        }
    }
}

/// A deleted identifier is never reissued: every identifier present in a
/// well-formed store lies strictly below the counter, `delete` and
/// `mark_done` leave the counter alone, and `create` returns the counter's
/// value — so no later creation can return an identifier seen before.
pub proof fn lemma_no_id_reuse(s: Seq<Task>, next: u32, id: u32)
    requires
        store_inv(s, next),
        contains_id(s, id),
    ensures
        id < next,
{
    let i = id_index(s, id);
    assert(s[i].id < next);
}

/// The owning collection: an ordered sequence of tasks plus the counter
/// for the next identifier. Insertion order is the listing order.
pub struct TaskManager {
    tasks: Vec<Task>,
    next_id: u32,
}

impl View for TaskManager {
    type V = Seq<Task>;

    closed spec fn view(&self) -> Seq<Task> {
        self.tasks@
    }
}

impl TaskManager {
    /// The identifier the next successful `create` will return.
    pub closed spec fn spec_next_id(&self) -> u32 {
        self.next_id
    }

    /// Well-formedness: identifiers strictly increase along the sequence
    /// and every one of them lies below the counter.
    pub open spec fn wf(&self) -> bool {
        store_inv(self@, self.spec_next_id())
    }

    /// An empty store whose first identifier will be 1.
    pub fn new() -> (m: TaskManager)
        ensures
            m.wf(),
            m@ == Seq::<Task>::empty(),
            m.spec_next_id() == 1,
    {
        TaskManager { tasks: Vec::new(), next_id: 1 }
    }

    /// Appends a fresh task titled `title`, not done, under the next free
    /// identifier, and returns that identifier. The counter advances by
    /// one, so consecutive creations return consecutive identifiers.
    ///
    /// The counter is a `u32`, so creation is possible only while it has
    /// not reached the type's maximum.
    pub fn create(&mut self, title: String) -> (id: u32)
        requires
            old(self).wf(),
            old(self).spec_next_id() < u32::MAX,
        ensures
            final(self).wf(),
            id == old(self).spec_next_id(),
            final(self).spec_next_id() == old(self).spec_next_id() + 1,
            final(self)@ == old(self)@.push((Task { id, title, done: false })),
    {
        let id = self.next_id;
        self.next_id = self.next_id + 1;
        let task = Task { id, title, done: false };
        proof {
            let s2 = self.tasks@.push(task);
            assert forall|i: int, j: int| 0 <= i < j < s2.len() implies
                (#[trigger] s2[i].id) < (#[trigger] s2[j].id) by {
                if j < s2.len() - 1 {
                    assert(self.tasks@[i].id < self.tasks@[j].id);
                }
            }
        }
        self.tasks.push(task);
        id
    }

    /// Looks a task up by its identifier: the entry carrying `id` when one
    /// exists, absent otherwise. Absence is a normal outcome, not an error.
    pub fn get(&self, id: u32) -> (r: Option<&Task>)
        requires
            self.wf(),
        ensures
            r is Some <==> contains_id(self@, id),
            r matches Some(t) ==> *t == self@[id_index(self@, id)] && t.id == id,
    {
        let mut i: usize = 0;
        while i < self.tasks.len()
            invariant
                self.wf(),
                i <= self@.len(),
                forall|j: int| 0 <= j < i ==> (#[trigger] self@[j].id) != id,
            decreases self@.len() - i,
        {
            if self.tasks[i].id == id {
                proof {
                    lemma_id_unique(self@, id, i as int);
                }
                return Some(&self.tasks[i]);
            }
            i = i + 1;
        }
        None
    }

    /// Marks the task carrying `id` as done and reports whether one was
    /// found. Marking an already-done task is a no-op success; a missing
    /// identifier yields `false` and leaves the store exactly as it was
    /// (`mark_done_seq` is then the identity). Size, order, identifiers,
    /// titles and the counter never change.
    pub fn mark_done(&mut self, id: u32) -> (found: bool)
        requires
            old(self).wf(),
        ensures
            final(self).wf(),
            found == contains_id(old(self)@, id),
            final(self).spec_next_id() == old(self).spec_next_id(),
            final(self)@ == mark_done_seq(old(self)@, id),
    {
        let mut i: usize = 0;
        while i < self.tasks.len()
            invariant
                *self == *old(self),
                self.wf(),
                i <= self@.len(),
                forall|j: int| 0 <= j < i ==> (#[trigger] self@[j].id) != id,
            decreases self@.len() - i,
        {
            if self.tasks[i].id == id {
                proof {
                    lemma_id_unique(self@, id, i as int);
                }
                self.tasks[i].done = true;
                proof {
                    let s0 = old(self)@;
                    assert forall|j: int| 0 <= j < s0.len() implies
                        self@[j] == mark_done_seq(s0, id)[j] by {
                        if j != i as int && s0[j].id == id {
                            lemma_id_unique(s0, id, j);
                            lemma_id_unique(s0, id, i as int);
                        }
                    }
                    assert(self@ =~= mark_done_seq(s0, id));
                }
                return true;
            }
            i = i + 1;
        }
        proof {
            assert(self@ =~= mark_done_seq(self@, id));
        }
        false
    }

    /// Removes the task carrying `id` and returns it; a missing identifier
    /// yields an absent result and leaves the store exactly as it was. The
    /// remaining tasks keep their relative order, and the counter is
    /// unaffected: a removed identifier is never reissued.
    pub fn delete(&mut self, id: u32) -> (r: Option<Task>)
        requires
            old(self).wf(),
        ensures
            final(self).wf(),
            final(self).spec_next_id() == old(self).spec_next_id(),
            r is Some <==> contains_id(old(self)@, id),
            r matches Some(t) ==> t == old(self)@[id_index(old(self)@, id)]
                && t.id == id
                && final(self)@ == old(self)@.remove(id_index(old(self)@, id)),
            r is None ==> final(self)@ == old(self)@,
    {
        let mut i: usize = 0;
        while i < self.tasks.len()
            invariant
                *self == *old(self),
                self.wf(),
                i <= self@.len(),
                forall|j: int| 0 <= j < i ==> (#[trigger] self@[j].id) != id,
            decreases self@.len() - i,
        {
            if self.tasks[i].id == id {
                proof {
                    lemma_id_unique(self@, id, i as int);
                }
                let t = self.tasks.remove(i);
                proof {
                    let s0 = old(self)@;
                    let s2 = s0.remove(i as int);
                    assert forall|p: int, q: int| 0 <= p < q < s2.len() implies
                        (#[trigger] s2[p].id) < (#[trigger] s2[q].id) by {
                        let p0: int = if p < i as int { p } else { p + 1 };
                        let q0: int = if q < i as int { q } else { q + 1 };
                        assert(s2[p] == s0[p0]);
                        assert(s2[q] == s0[q0]);
                        assert(s0[p0].id < s0[q0].id);
                    }
                    assert forall|j: int| 0 <= j < s2.len() implies
                        1 <= (#[trigger] s2[j].id) && s2[j].id < self.spec_next_id() by {
                        let j0: int = if j < i as int { j } else { j + 1 };
                        assert(s2[j] == s0[j0]);
                    }
                }
                return Some(t);
            }
            i = i + 1;
        }
        None
    }

    /// The identifier the next successful `create` will return. While this
    /// is below `u32::MAX`, `create` is available.
    pub fn next_id(&self) -> (n: u32)
        ensures
            n == self.spec_next_id(),
    {
        self.next_id
    }

    /// The full sequence of tasks, in insertion order, as a read-only view.
    pub fn list(&self) -> (r: &[Task])
        ensures
            r@ == self@,
    {
        self.tasks.as_slice()
    }
}

} // verus!
