//! General laws of the store, stated over the spec-level transforms that
//! the executable operations are proved to implement.

use vstd::prelude::*;

use crate::item::ItemView;
use crate::store::{
    add_view, children_view, contains_id, delete_pred, delete_view, empty_view, entry_ok,
    index_of_id, item_of, lemma_delete_wf, lemma_filter_drops_all, lemma_filter_sorted,
    lemma_item_of_resolves, parent_pred, reaches, roots_view, set_done_fn, set_done_view, wf,
    ListView,
};

verus! {

broadcast use vstd::seq_lib::group_filter_ensures, vstd::prelude::Seq::lemma_filter_push;

/// Inserting a root task and then a child under it: the child listing of
/// the root holds exactly the child, and the root listing does not hold
/// the child.
pub proof fn lemma_root_then_child(
    v: ListView,
    t1: Seq<char>,
    c1: Seq<char>,
    t2: Seq<char>,
    c2: Seq<char>,
)
    requires
        wf(v),
        v.next_id + 1 < u32::MAX,
    ensures
        ({
            let root_id = v.next_id;
            let v1 = add_view(v, t1, None, c1);
            let v2 = add_view(v1, t2, Some(root_id), c2);
            let child = ItemView {
                id: (v.next_id + 1) as u32,
                text: t2,
                completed: false,
                parent_id: Some(root_id),
                created_at: c2,
            };
            &&& children_view(v2.items, root_id) == seq![child]
            &&& !roots_view(v2.items).contains(child)
        }),
{
    let root_id = v.next_id;
    let v1 = add_view(v, t1, None, c1);
    let v2 = add_view(v1, t2, Some(root_id), c2);
    let root = ItemView { id: root_id, text: t1, completed: false, parent_id: None, created_at: c1 };
    let child = ItemView {
        id: (v.next_id + 1) as u32,
        text: t2,
        completed: false,
        parent_id: Some(root_id),
        created_at: c2,
    };
    let pred = parent_pred(Some(root_id));
    assert forall|i: int| 0 <= i < v.items.len() implies !pred(#[trigger] v.items[i]) by {
        assert(entry_ok(v.items, v.next_id, i));
        match v.items[i].parent_id {
            Some(p) => {
                assert(p < v.items[i].id < v.next_id);
            },
            None => {},
        }
    }
    lemma_filter_drops_all(v.items, pred);
    assert(v2.items == v.items.push(root).push(child));
    assert(v.items.push(root).filter(pred) == v.items.filter(pred));
    assert(v2.items.filter(pred) == v.items.filter(pred).push(child));
    assert(children_view(v2.items, root_id) =~= seq![child]);
    let rpred = parent_pred(None);
    assert(!roots_view(v2.items).contains(child)) by {
        let rv = v2.items.filter(rpred);
        if rv.contains(child) {
            let q = choose|q: int| 0 <= q < rv.len() && rv[q] == child;
            assert(rpred(rv[q]));
        }
    }
}

/// No two tasks ever share an id.
pub proof fn lemma_ids_unique(v: ListView)
    requires
        wf(v),
    ensures
        forall|i: int, j: int|
            #![trigger v.items[i].id, v.items[j].id]
            0 <= i < v.items.len() && 0 <= j < v.items.len() && i != j ==> v.items[i].id
                != v.items[j].id,
{
}

/// One insertion, as the store performs it.
#[verifier::ext_equal]
pub ghost struct AddOp {
    pub text: Seq<char>,
    pub parent_id: Option<u32>,
    pub created_at: Seq<char>,
}

/// A whole run of insertions, first element first.
pub open spec fn apply_adds(v: ListView, ops: Seq<AddOp>) -> ListView
    decreases ops.len(),
{
    if ops.len() == 0 {
        v
    } else {
        apply_adds(
            add_view(v, ops[0].text, ops[0].parent_id, ops[0].created_at),
            ops.subrange(1, ops.len() as int),
        )
    }
}

/// Each successful insertion moves the counter up by exactly one.
pub proof fn lemma_adds_count(v: ListView, ops: Seq<AddOp>)
    requires
        v.next_id + ops.len() <= u32::MAX,
    ensures
        apply_adds(v, ops).next_id == v.next_id + ops.len(),
    decreases ops.len(),
{
    if ops.len() > 0 {
        lemma_adds_count(
            add_view(v, ops[0].text, ops[0].parent_id, ops[0].created_at),
            ops.subrange(1, ops.len() as int),
        );
    }
}

/// After N successful insertions into the fresh collection, the counter
/// reads 1 + N.
pub proof fn lemma_next_id_after_n(ops: Seq<AddOp>)
    requires
        ops.len() + 1 <= u32::MAX,
    ensures
        apply_adds(empty_view(), ops).next_id == 1 + ops.len(),
{
    lemma_adds_count(empty_view(), ops);
}

/// Deletion removes the task and every descendant at every depth: none
/// of those ids remain, and no remaining task's parent points into the
/// deleted subtree (in particular, not at the deleted id).
pub proof fn lemma_delete_cascades(v: ListView, id: u32)
    requires
        wf(v),
    ensures
        ({
            let d = delete_view(v, id);
            &&& forall|k: u32| reaches(v.items, id, k) ==> !contains_id(d.items, k)
            &&& forall|i: int|
                0 <= i < d.items.len() ==> match (#[trigger] d.items[i]).parent_id {
                    Some(p) => contains_id(d.items, p) && !reaches(v.items, id, p),
                    None => true,
                }
        }),
{
    let pred = delete_pred(v, id);
    let d = delete_view(v, id);
    lemma_delete_wf(v, id);
    lemma_filter_sorted(v.items, pred);
    assert forall|k: u32| reaches(v.items, id, k) implies !contains_id(d.items, k) by {
        if contains_id(d.items, k) {
            let q = index_of_id(d.items, k);
            assert(pred(d.items[q]));
        }
    }
    assert forall|i: int| 0 <= i < d.items.len() implies match (#[trigger] d.items[i]).parent_id {
        Some(p) => contains_id(d.items, p) && !reaches(v.items, id, p),
        None => true,
    } by {
        let it = d.items[i];
        assert(pred(it));
        assert(v.items.contains(it));
        let w = choose|w: int| 0 <= w < v.items.len() && v.items[w] == it;
        assert(entry_ok(v.items, v.next_id, w));
        assert(entry_ok(d.items, d.next_id, i));
        match it.parent_id {
            Some(p) => {
                if reaches(v.items, id, p) {
                    lemma_item_of_resolves(v, w);
                    assert(contains_id(v.items, it.id));
                    assert(item_of(v.items, it.id) == it);
                    assert(reaches(v.items, id, it.id));
                }
            },
            None => {},
        }
    }
}

/// Completing and then un-completing a task that was not completed
/// returns the collection to its original state. (A task that was
/// already completed would come out un-completed instead, so those
/// collections are left out.)
pub proof fn lemma_complete_then_uncomplete(v: ListView, id: u32)
    requires
        forall|i: int|
            0 <= i < v.items.len() && v.items[i].id == id ==> !(#[trigger] v.items[i]).completed,
    ensures
        set_done_view(set_done_view(v, id, true), id, false) == v,
{
    let v1 = set_done_view(v, id, true);
    let v2 = set_done_view(v1, id, false);
    assert forall|i: int| 0 <= i < v.items.len() implies v2.items[i] == v.items[i] by {
        assert(v1.items[i] == set_done_fn(id, true)(v.items[i]));
        assert(v2.items[i] == set_done_fn(id, false)(v1.items[i]));
        assert(v2.items[i] =~= v.items[i]);
    }
    assert(v2.items =~= v.items);
    assert(v2 =~= v);
}

/// Completing a task twice is the same as completing it once.
pub proof fn lemma_complete_idempotent(v: ListView, id: u32)
    ensures
        set_done_view(set_done_view(v, id, true), id, true) == set_done_view(v, id, true),
{
    let v1 = set_done_view(v, id, true);
    let v2 = set_done_view(v1, id, true);
    assert forall|i: int| 0 <= i < v.items.len() implies v2.items[i] == v1.items[i] by {
        assert(v1.items[i] == set_done_fn(id, true)(v.items[i]));
        assert(v2.items[i] == set_done_fn(id, true)(v1.items[i]));
        assert(v2.items[i] =~= v1.items[i]);
    }
    assert(v2.items =~= v1.items);
    assert(v2 =~= v1);
}

} // verus!
