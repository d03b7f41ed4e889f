//! The task store: owns the collection of tasks, assigns ids, keeps
//! parent/child integrity, deletes whole subtrees, and lists tasks in
//! ascending id order.
//!
//! The collection is held as a vector sorted by id. Ids are handed out
//! monotonically, so a parent's id is always smaller than its child's,
//! and the parent graph is acyclic by construction.

use vstd::prelude::*;

use crate::item::{ItemView, TodoItem};

verus! {

broadcast use vstd::seq_lib::group_filter_ensures, vstd::prelude::Seq::lemma_filter_push, vstd::prelude::Seq::lemma_push_map_commute;

/// The mathematical value of the whole collection: the tasks in storage
/// order (strictly ascending by id) and the id the next insertion takes.
#[verifier::ext_equal]
pub ghost struct ListView {
    pub items: Seq<ItemView>,
    pub next_id: u32,
}

/// The views of a sequence of stored tasks.
pub open spec fn views_of(s: Seq<TodoItem>) -> Seq<ItemView> {
    s.map_values(|t: TodoItem| t@)
}

/// Does some task in `s` carry the id `id`?
pub open spec fn contains_id(s: Seq<ItemView>, id: u32) -> bool {
    exists|i: int| 0 <= i < s.len() && s[i].id == id
}

/// An index of the task with id `id`, if one exists.
pub open spec fn index_of_id(s: Seq<ItemView>, id: u32) -> int {
    choose|i: int| 0 <= i < s.len() && s[i].id == id
}

/// The task with id `id` (meaningful only when `contains_id` holds).
pub open spec fn item_of(s: Seq<ItemView>, id: u32) -> ItemView {
    s[index_of_id(s, id)]
}

/// Well-formedness of one entry: a positive id below `next_id`, and a
/// parent (if any) that exists and has a strictly smaller id.
pub open spec fn entry_ok(s: Seq<ItemView>, next_id: u32, i: int) -> bool {
    &&& 1 <= s[i].id < next_id
    &&& match s[i].parent_id {
        Some(p) => p < s[i].id && contains_id(s, p),
        None => true,
    }
}

/// The collection invariant: every entry is well formed and the entries
/// are strictly sorted by id (so ids are unique).
pub open spec fn wf(v: ListView) -> bool {
    &&& v.next_id >= 1
    &&& forall|i: int| 0 <= i < v.items.len() ==> #[trigger] entry_ok(v.items, v.next_id, i)
    &&& forall|i: int, j: int|
        #![trigger v.items[i].id, v.items[j].id]
        0 <= i < j < v.items.len() ==> v.items[i].id < v.items[j].id
}

/// The fresh, empty collection.
pub open spec fn empty_view() -> ListView {
    ListView { items: Seq::empty(), next_id: 1u32 }
}

/// The collection after one insertion: the new task is appended with the
/// freshly minted id, and the counter moves up by one.
pub open spec fn add_view(
    v: ListView,
    text: Seq<char>,
    parent_id: Option<u32>,
    created_at: Seq<char>,
) -> ListView
    recommends
        v.next_id < u32::MAX,
{
    ListView {
        items: v.items.push(
            ItemView { id: v.next_id, text, completed: false, parent_id, created_at },
        ),
        next_id: (v.next_id + 1) as u32,
    }
}

/// The change one completion flip makes to a single task.
pub open spec fn set_done_fn(id: u32, done: bool) -> spec_fn(ItemView) -> ItemView {
    |it: ItemView|
        if it.id == id {
            ItemView { completed: done, ..it }
        } else {
            it
        }
}

/// The collection after setting the completion flag of the task with id
/// `id` (a no-op when no task carries that id).
pub open spec fn set_done_view(v: ListView, id: u32, done: bool) -> ListView {
    ListView { items: v.items.map_values(set_done_fn(id, done)), next_id: v.next_id }
}

/// Is the task with id `id` inside the subtree rooted at `root` — that is,
/// does its parent chain pass through `root`? The chain is only followed
/// through strictly decreasing ids, which the invariant guarantees.
pub open spec fn reaches(s: Seq<ItemView>, root: u32, id: u32) -> bool
    decreases id,
{
    contains_id(s, id) && (id == root || (match item_of(s, id).parent_id {
        Some(p) => p < id && reaches(s, root, p),
        None => false,
    }))
}

/// Keep a task when it is outside the subtree being deleted.
pub open spec fn delete_pred(v: ListView, id: u32) -> spec_fn(ItemView) -> bool {
    |it: ItemView| !reaches(v.items, id, it.id)
}

/// The collection after deleting the task with id `id` together with
/// every descendant (a no-op when no task carries that id).
pub open spec fn delete_view(v: ListView, id: u32) -> ListView {
    ListView { items: v.items.filter(delete_pred(v, id)), next_id: v.next_id }
}

/// Select a task by its parent field.
pub open spec fn parent_pred(want: Option<u32>) -> spec_fn(ItemView) -> bool {
    |it: ItemView| it.parent_id == want
}

/// The tasks whose parent field equals `want`, in storage order.
pub open spec fn with_parent(s: Seq<ItemView>, want: Option<u32>) -> Seq<ItemView> {
    s.filter(parent_pred(want))
}

/// The root-level tasks, in storage order.
pub open spec fn roots_view(s: Seq<ItemView>) -> Seq<ItemView> {
    with_parent(s, None)
}

/// The direct children of the task with id `pid`, in storage order.
pub open spec fn children_view(s: Seq<ItemView>, pid: u32) -> Seq<ItemView> {
    with_parent(s, Some(pid))
}

/// Two entries with the same id are the same entry.
pub proof fn lemma_id_unique(v: ListView, i: int, j: int)
    requires
        wf(v),
        0 <= i < v.items.len(),
        0 <= j < v.items.len(),
        v.items[i].id == v.items[j].id,
    ensures
        i == j,
{
}

/// Under the invariant, `item_of` picks exactly the entry at a known index.
pub proof fn lemma_item_of_resolves(v: ListView, i: int)
    requires
        wf(v),
        0 <= i < v.items.len(),
    ensures
        index_of_id(v.items, v.items[i].id) == i,
        item_of(v.items, v.items[i].id) == v.items[i],
{
    let id = v.items[i].id;
    assert(contains_id(v.items, id));
    let j = index_of_id(v.items, id);
    lemma_id_unique(v, i, j);
}

/// Filtering a strictly sorted sequence keeps it strictly sorted, and
/// every kept element occurs in the original.
pub proof fn lemma_filter_sorted(s: Seq<ItemView>, pred: spec_fn(ItemView) -> bool)
    requires
        forall|i: int, j: int|
            #![trigger s[i].id, s[j].id]
            0 <= i < j < s.len() ==> s[i].id < s[j].id,
    ensures
        forall|i: int, j: int|
            #![trigger s.filter(pred)[i].id, s.filter(pred)[j].id]
            0 <= i < j < s.filter(pred).len() ==> s.filter(pred)[i].id < s.filter(pred)[j].id,
        forall|i: int| 0 <= i < s.filter(pred).len() ==> s.contains(#[trigger] s.filter(pred)[i]),
    decreases s.len(),
{
    reveal(Seq::filter);
    if s.len() > 0 {
        let butlast = s.drop_last();
        assert(forall|i: int, j: int|
            #![trigger butlast[i].id, butlast[j].id]
            0 <= i < j < butlast.len() ==> butlast[i].id < butlast[j].id) by {
            assert(forall|i: int| 0 <= i < butlast.len() ==> butlast[i] == s[i]);
        }
        lemma_filter_sorted(butlast, pred);
        let f = s.filter(pred);
        let fb = butlast.filter(pred);
        assert forall|i: int| 0 <= i < fb.len() implies s.contains(#[trigger] fb[i]) && fb[i].id
            < s.last().id by {
            let w = choose|w: int| 0 <= w < butlast.len() && butlast[w] == fb[i];
            assert(s[w] == fb[i]);
            assert(s[w].id < s[s.len() - 1].id);
        }
        if pred(s.last()) {
            assert(f == fb.push(s.last()));
            assert(s[s.len() - 1] == s.last());
            assert forall|i: int, j: int|
                #![trigger f[i].id, f[j].id]
                0 <= i < j < f.len() implies f[i].id < f[j].id by {
                if j < fb.len() {
                    assert(f[i] == fb[i] && f[j] == fb[j]);
                } else {
                    assert(f[j] == s.last());
                    assert(f[i] == fb[i]);
                }
            }
            assert forall|i: int| 0 <= i < f.len() implies s.contains(#[trigger] f[i]) by {
                if i < fb.len() {
                    assert(f[i] == fb[i]);
                } else {
                    assert(f[i] == s[s.len() - 1]);
                }
            }
        } else {
            assert(f == fb);
        }
    }
}

/// When no task carries the id, nothing lies in its subtree.
pub proof fn lemma_reaches_absent(s: Seq<ItemView>, root: u32, id: u32)
    requires
        !contains_id(s, root),
    ensures
        !reaches(s, root, id),
    decreases id,
{
    if contains_id(s, id) && id != root {
        match item_of(s, id).parent_id {
            Some(p) => {
                if p < id {
                    lemma_reaches_absent(s, root, p);
                }
            },
            None => {},
        }
    }
}

/// A filter whose predicate holds of every element keeps the sequence.
pub proof fn lemma_filter_keeps_all(s: Seq<ItemView>, pred: spec_fn(ItemView) -> bool)
    requires
        forall|i: int| 0 <= i < s.len() ==> pred(#[trigger] s[i]),
    ensures
        s.filter(pred) == s,
    decreases s.len(),
{
    if s.len() > 0 {
        let butlast = s.drop_last();
        assert(forall|i: int| 0 <= i < butlast.len() ==> pred(#[trigger] butlast[i]));
        lemma_filter_keeps_all(butlast, pred);
        assert(pred(s[s.len() - 1]));
        assert(butlast.push(s.last()) =~= s);
        assert(butlast.push(s.last()).filter(pred) == butlast.filter(pred).push(s.last()));
        assert(s.filter(pred) =~= s);
    } else {
        s.lemma_filter_len(pred);
        assert(s.filter(pred) =~= s);
    }
}

/// A filter whose predicate holds of no element drops everything.
pub proof fn lemma_filter_drops_all(s: Seq<ItemView>, pred: spec_fn(ItemView) -> bool)
    requires
        forall|i: int| 0 <= i < s.len() ==> !pred(#[trigger] s[i]),
    ensures
        s.filter(pred) == Seq::<ItemView>::empty(),
    decreases s.len(),
{
    if s.len() > 0 {
        let butlast = s.drop_last();
        assert(forall|i: int| 0 <= i < butlast.len() ==> !pred(#[trigger] butlast[i]));
        lemma_filter_drops_all(butlast, pred);
        assert(!pred(s[s.len() - 1]));
        assert(butlast.push(s.last()) =~= s);
        assert(butlast.push(s.last()).filter(pred) == butlast.filter(pred));
    } else {
        s.lemma_filter_len(pred);
        assert(s.filter(pred) =~= Seq::<ItemView>::empty());
    }
}

/// Deleting an id that no task carries leaves the collection unchanged.
pub proof fn lemma_delete_absent(v: ListView, id: u32)
    requires
        !contains_id(v.items, id),
    ensures
        delete_view(v, id) == v,
{
    assert forall|k: int| 0 <= k < v.items.len() implies delete_pred(v, id)(
        #[trigger] v.items[k],
    ) by {
        lemma_reaches_absent(v.items, id, v.items[k].id);
    }
    lemma_filter_keeps_all(v.items, delete_pred(v, id));
    assert(delete_view(v, id) =~= v);
}

/// Deleting a subtree preserves the collection invariant, and every kept
/// task's parent is kept with it.
pub proof fn lemma_delete_wf(v: ListView, id: u32)
    requires
        wf(v),
    ensures
        wf(delete_view(v, id)),
{
    let pred = delete_pred(v, id);
    let d = delete_view(v, id);
    lemma_filter_sorted(v.items, pred);
    assert forall|i: int| 0 <= i < d.items.len() implies #[trigger] entry_ok(
        d.items,
        d.next_id,
        i,
    ) by {
        let it = d.items[i];
        assert(v.items.contains(it));
        let w = choose|w: int| 0 <= w < v.items.len() && v.items[w] == it;
        assert(entry_ok(v.items, v.next_id, w));
        assert(pred(it));
        match it.parent_id {
            Some(p) => {
                let k = index_of_id(v.items, p);
                lemma_item_of_resolves(v, k);
                assert(!reaches(v.items, id, p)) by {
                    if reaches(v.items, id, p) {
                        lemma_item_of_resolves(v, w);
                        assert(contains_id(v.items, it.id));
                        assert(item_of(v.items, it.id) == it);
                        assert(reaches(v.items, id, it.id));
                    }
                }
                assert(pred(v.items[k]));
                v.items.lemma_filter_contains(pred, k);
                let q = choose|q: int| 0 <= q < d.items.len() && d.items[q] == v.items[k];
                assert(d.items[q].id == p);
                assert(contains_id(d.items, p));
            },
            None => {},
        }
    }
}

/// The store itself: the sorted vector of tasks and the insertion counter.
pub struct TodoList {
    items: Vec<TodoItem>,
    next_id: u32,
}

impl View for TodoList {
    type V = ListView;

    closed spec fn view(&self) -> ListView {
        ListView { items: views_of(self.items@), next_id: self.next_id }
    }
}

impl TodoList {
    /// A fresh, empty collection whose first insertion will take id 1.
    pub fn new() -> (r: TodoList)
        ensures
            r@ == empty_view(),
            wf(r@),
    {
        let r = TodoList { items: Vec::new(), next_id: 1 };
        proof {
            assert(r@.items =~= empty_view().items);
            assert(r@ =~= empty_view());
        }
        r
    }

    /// Builds a store from raw parts (the codec uses this after parsing).
    pub fn from_parts(items: Vec<TodoItem>, next_id: u32) -> (r: TodoList)
        ensures
            r@ == (ListView { items: views_of(items@), next_id }),
    {
        TodoList { items, next_id }
    }

    /// The id the next successful insertion will take.
    pub fn get_next_id(&self) -> (r: u32)
        ensures
            r == self@.next_id,
    {
        self.next_id
    }

    /// The stored tasks, in ascending id order.
    pub fn items_vec(&self) -> (r: &Vec<TodoItem>)
        ensures
            views_of(r@) == self@.items,
    {
        &self.items
    }

    /// The index of the task with id `id`, if one exists.
    fn find_index(&self, id: u32) -> (r: Option<usize>)
        ensures
            match r {
                Some(i) => i < self@.items.len() && self@.items[i as int].id == id && contains_id(
                    self@.items,
                    id,
                ),
                None => !contains_id(self@.items, id),
            },
    {
        let n = self.items.len();
        let mut i: usize = 0;
        while i < n
            invariant
                i <= n,
                n == self@.items.len(),
                forall|j: int| 0 <= j < i ==> self@.items[j].id != id,
            decreases n - i,
        {
            if self.items[i].id == id {
                return Some(i);
            }
            i += 1;
        }
        None
    }

    /// Does some task carry the id `id`?
    pub fn contains(&self, id: u32) -> (r: bool)
        ensures
            r == contains_id(self@.items, id),
    {
        match self.find_index(id) {
            Some(_) => true,
            None => false,
        }
    }

    /// Inserts a task with the given text, parent and creation stamp. The
    /// caller must have validated the parent; the fresh id is returned.
    pub fn add_item_at(&mut self, text: String, parent_id: Option<u32>, created_at: String) -> (id:
        u32)
        requires
            wf(old(self)@),
            old(self)@.next_id < u32::MAX,
            parent_id matches Some(p) ==> contains_id(old(self)@.items, p),
        ensures
            id == old(self)@.next_id,
            final(self)@ == add_view(old(self)@, text@, parent_id, created_at@),
            wf(final(self)@),
    {
        let ghost prev = self@;
        let ghost tv = text@;
        let ghost cv = created_at@;
        let id = self.next_id;
        let item = TodoItem { id, text, completed: false, parent_id, created_at };
        self.items.push(item);
        self.next_id = self.next_id + 1;
        proof {
            let w = add_view(prev, tv, parent_id, cv);
            assert(self@.items =~= w.items);
            assert(self@ =~= w);
            assert forall|i: int| 0 <= i < w.items.len() implies #[trigger] entry_ok(
                w.items,
                w.next_id,
                i,
            ) by {
                if i < prev.items.len() {
                    assert(entry_ok(prev.items, prev.next_id, i));
                    assert(w.items[i] == prev.items[i]);
                    match prev.items[i].parent_id {
                        Some(p) => {
                            let k = index_of_id(prev.items, p);
                            assert(w.items[k] == prev.items[k]);
                            assert(contains_id(w.items, p));
                        },
                        None => {},
                    }
                } else {
                    match parent_id {
                        Some(p) => {
                            let k = index_of_id(prev.items, p);
                            assert(entry_ok(prev.items, prev.next_id, k));
                            assert(w.items[k] == prev.items[k]);
                            assert(contains_id(w.items, p));
                        },
                        None => {},
                    }
                }
            }
            assert forall|i: int, j: int|
                #![trigger w.items[i].id, w.items[j].id]
                0 <= i < j < w.items.len() implies w.items[i].id < w.items[j].id by {
                if j < prev.items.len() {
                    assert(w.items[i] == prev.items[i]);
                    assert(w.items[j] == prev.items[j]);
                } else {
                    assert(entry_ok(prev.items, prev.next_id, i));
                    assert(w.items[i] == prev.items[i]);
                }
            }
            assert(wf(w));
        }
        id
    }

    /// Inserts a task stamped with the current time. The caller must have
    /// validated the parent; the fresh id is returned.
    pub fn add_item(&mut self, text: String, parent_id: Option<u32>) -> (id: u32)
        requires
            wf(old(self)@),
            old(self)@.next_id < u32::MAX,
            parent_id matches Some(p) ==> contains_id(old(self)@.items, p),
        ensures
            id == old(self)@.next_id,
            wf(final(self)@),
            exists|ts: Seq<char>| final(self)@ == add_view(old(self)@, text@, parent_id, ts),
    {
        let created = now_string();
        let ghost ts = created@;
        let ghost tv = text@;
        let id = self.add_item_at(text, parent_id, created);
        proof {
            assert(self@ == add_view(old(self)@, tv, parent_id, ts));
        }
        id
    }

    /// Validated insertion of a sub-task: when the parent id exists the
    /// task is inserted and its id returned; otherwise nothing changes.
    pub fn add_sub_item(&mut self, text: String, parent_id: u32) -> (r: Option<u32>)
        requires
            wf(old(self)@),
            old(self)@.next_id < u32::MAX,
        ensures
            wf(final(self)@),
            contains_id(old(self)@.items, parent_id) ==> r == Some(old(self)@.next_id) && (exists|
                ts: Seq<char>,
            |
                final(self)@ == add_view(old(self)@, text@, Some(parent_id), ts)),
            !contains_id(old(self)@.items, parent_id) ==> r is None && final(self)@ == old(self)@,
    {
        if self.contains(parent_id) {
            Some(self.add_item(text, Some(parent_id)))
        } else {
            None
        }
    }

    /// Sets the completion flag of the task with id `id`; reports whether
    /// such a task exists.
    fn set_done(&mut self, id: u32, done: bool) -> (r: bool)
        requires
            wf(old(self)@),
        ensures
            r == contains_id(old(self)@.items, id),
            final(self)@ == set_done_view(old(self)@, id, done),
            wf(final(self)@),
            !r ==> final(self)@ == old(self)@,
    {
        let ghost prev = self@;
        let ghost f = set_done_fn(id, done);
        match self.find_index(id) {
            Some(i) => {
                self.items[i].completed = done;
                proof {
                    assert forall|j: int| 0 <= j < prev.items.len() implies self@.items[j] == f(
                        prev.items[j],
                    ) by {
                        if j != i {
                            if prev.items[j].id == id {
                                lemma_id_unique(prev, i as int, j);
                            }
                        }
                    }
                    assert(self@.items =~= set_done_view(prev, id, done).items);
                    assert(self@ =~= set_done_view(prev, id, done));
                    assert forall|j: int| 0 <= j < self@.items.len() implies #[trigger] entry_ok(
                        self@.items,
                        self@.next_id,
                        j,
                    ) by {
                        assert(entry_ok(prev.items, prev.next_id, j));
                        match prev.items[j].parent_id {
                            Some(p) => {
                                let k = index_of_id(prev.items, p);
                                assert(self@.items[k].id == prev.items[k].id);
                                assert(contains_id(self@.items, p));
                            },
                            None => {},
                        }
                    }
                }
                true
            },
            None => {
                proof {
                    assert forall|j: int| 0 <= j < prev.items.len() implies f(prev.items[j])
                        == prev.items[j] by {
                        assert(prev.items[j].id != id);
                    }
                    assert(self@.items =~= set_done_view(prev, id, done).items);
                    assert(self@ =~= set_done_view(prev, id, done));
                }
                false
            },
        }
    }

    /// Marks the task as completed; reports whether the id exists.
    /// Completing an already completed task changes nothing further.
    pub fn complete_item(&mut self, id: u32) -> (r: bool)
        requires
            wf(old(self)@),
        ensures
            r == contains_id(old(self)@.items, id),
            final(self)@ == set_done_view(old(self)@, id, true),
            wf(final(self)@),
            !r ==> final(self)@ == old(self)@,
    {
        self.set_done(id, true)
    }

    /// Marks the task as not completed; reports whether the id exists.
    pub fn uncomplete_item(&mut self, id: u32) -> (r: bool)
        requires
            wf(old(self)@),
        ensures
            r == contains_id(old(self)@.items, id),
            final(self)@ == set_done_view(old(self)@, id, false),
            wf(final(self)@),
            !r ==> final(self)@ == old(self)@,
    {
        self.set_done(id, false)
    }

    /// Does the parent chain of the task with id `id` pass through `root`?
    fn id_in_subtree(&self, root: u32, id: u32) -> (r: bool)
        requires
            wf(self@),
        ensures
            r == reaches(self@.items, root, id),
    {
        let mut cur = id;
        loop
            invariant
                wf(self@),
                reaches(self@.items, root, id) == reaches(self@.items, root, cur),
            decreases cur,
        {
            match self.find_index(cur) {
                None => {
                    return false;
                },
                Some(i) => {
                    proof {
                        lemma_item_of_resolves(self@, i as int);
                    }
                    if cur == root {
                        return true;
                    }
                    let parent = self.items[i].parent_id;
                    match parent {
                        None => {
                            return false;
                        },
                        Some(p) => {
                            proof {
                                assert(entry_ok(self@.items, self@.next_id, i as int));
                            }
                            cur = p;
                        },
                    }
                },
            }
        }
    }

    /// Deletes the task with id `id` and every descendant at every depth;
    /// reports whether the id existed. Nothing else changes.
    pub fn delete_item(&mut self, id: u32) -> (r: bool)
        requires
            wf(old(self)@),
        ensures
            r == contains_id(old(self)@.items, id),
            final(self)@ == delete_view(old(self)@, id),
            wf(final(self)@),
            !r ==> final(self)@ == old(self)@,
    {
        let ghost prev = self@;
        let found = self.contains(id);
        if !found {
            proof {
                lemma_delete_absent(prev, id);
            }
            return false;
        }
        let n = self.items.len();
        let mut kept: Vec<TodoItem> = Vec::new();
        let mut i: usize = 0;
        while i < n
            invariant
                wf(self@),
                self@ == prev,
                n == self.items.len(),
                i <= n,
                views_of(kept@) == prev.items.take(i as int).filter(delete_pred(prev, id)),
            decreases n - i,
        {
            let keep = !self.id_in_subtree(id, self.items[i].id);
            let ghost before = views_of(kept@);
            proof {
                assert(self@.items[i as int] == prev.items[i as int]);
                assert(delete_pred(prev, id)(prev.items[i as int]) == keep);
            }
            if keep {
                let copy = self.items[i].duplicate();
                kept.push(copy);
                proof {
                    assert(views_of(kept@) =~= before.push(prev.items[i as int]));
                }
            }
            proof {
                assert(prev.items.take(i + 1) =~= prev.items.take(i as int).push(
                    prev.items[i as int],
                ));
            }
            i += 1;
        }
        proof {
            assert(prev.items.take(n as int) =~= prev.items);
        }
        self.items = kept;
        proof {
            assert(self@ =~= delete_view(prev, id));
            lemma_delete_wf(prev, id);
        }
        true
    }

    /// The tasks whose parent field equals `want`, copied in id order.
    fn collect_with_parent(&self, want: Option<u32>) -> (r: Vec<TodoItem>)
        ensures
            views_of(r@) == with_parent(self@.items, want),
    {
        let n = self.items.len();
        let mut out: Vec<TodoItem> = Vec::new();
        let mut i: usize = 0;
        while i < n
            invariant
                n == self@.items.len(),
                i <= n,
                views_of(out@) == self@.items.take(i as int).filter(parent_pred(want)),
            decreases n - i,
        {
            let ghost before = views_of(out@);
            let matches_want = match (self.items[i].parent_id, want) {
                (Some(p), Some(w)) => p == w,
                (None, None) => true,
                _ => false,
            };
            proof {
                assert(parent_pred(want)(self@.items[i as int]) == matches_want);
            }
            if matches_want {
                let copy = self.items[i].duplicate();
                out.push(copy);
                proof {
                    assert(views_of(out@) =~= before.push(self@.items[i as int]));
                }
            }
            proof {
                assert(self@.items.take(i + 1) =~= self@.items.take(i as int).push(
                    self@.items[i as int],
                ));
            }
            i += 1;
        }
        proof {
            assert(self@.items.take(n as int) =~= self@.items);
        }
        out
    }

    /// All root-level tasks, in ascending id order.
    pub fn get_root_items(&self) -> (r: Vec<TodoItem>)
        ensures
            views_of(r@) == roots_view(self@.items),
    {
        self.collect_with_parent(None)
    }

    /// The direct children of the task with id `parent_id`, in ascending
    /// id order.
    pub fn get_sub_items(&self, parent_id: u32) -> (r: Vec<TodoItem>)
        ensures
            views_of(r@) == children_view(self@.items, parent_id),
    {
        self.collect_with_parent(Some(parent_id))
    }

    /// Decides the collection invariant: ids positive, below the counter,
    /// strictly ascending, and every parent present with a smaller id.
    pub fn well_formed(&self) -> (r: bool)
        ensures
            r == wf(self@),
    {
        if self.next_id < 1 {
            return false;
        }
        let n = self.items.len();
        let mut i: usize = 0;
        while i < n
            invariant
                i <= n,
                n == self@.items.len(),
                self@.next_id >= 1,
                forall|k: int| 0 <= k < i ==> #[trigger] entry_ok(self@.items, self@.next_id, k),
                forall|a: int, b: int|
                    #![trigger self@.items[a].id, self@.items[b].id]
                    0 <= a < b < i ==> self@.items[a].id < self@.items[b].id,
            decreases n - i,
        {
            let it_id = self.items[i].id;
            if it_id < 1 || it_id >= self.next_id {
                proof {
                    assert(!entry_ok(self@.items, self@.next_id, i as int));
                }
                return false;
            }
            if i > 0 && self.items[i - 1].id >= it_id {
                proof {
                    assert(self@.items[i - 1].id >= self@.items[i as int].id);
                    assert(!wf(self@));
                }
                return false;
            }
            match self.items[i].parent_id {
                Some(p) => {
                    if p >= it_id {
                        proof {
                            assert(!entry_ok(self@.items, self@.next_id, i as int));
                        }
                        return false;
                    }
                    if !self.contains(p) {
                        proof {
                            assert(!entry_ok(self@.items, self@.next_id, i as int));
                        }
                        return false;
                    }
                },
                None => {},
            }
            proof {
                assert(entry_ok(self@.items, self@.next_id, i as int));
                if i > 0 {
                    assert forall|a: int| 0 <= a < i implies self@.items[a].id
                        < self@.items[i as int].id by {
                        if a < i - 1 {
                            assert(self@.items[a].id < self@.items[i - 1].id);
                        }
                    }
                }
            }
            i += 1;
        }
        true
    }
}

/// Relies on chrono's `Utc::now` and `DateTime::format`: the current time,
/// rendered as `YYYY-MM-DD HH:MM:SS`. The result depends on the clock, so
/// nothing is promised of it.
#[verifier::external_body]
fn now_string() -> String {
    chrono::Utc::now().format("%Y-%m-%d %H:%M:%S").to_string()
}

} // verus!
