//! The tree display: each root task, then its children recursively, two
//! spaces deeper per level, one line per task showing the id, a marker
//! for the completion state, and the text.

use vstd::prelude::*;
use vstd::string::StrSliceExecFns;
use vstd::string::StringExecFns;

use crate::chars::push_char;
use crate::item::{ItemView, TodoItem};
use crate::num::{dec_rep, u64_to_dec};
use crate::store::{
    children_view, entry_ok, parent_pred, roots_view, views_of, wf, lemma_filter_sorted, ListView,
    TodoList,
};

verus! {

/// Two spaces per depth level.
pub open spec fn indent_sp(depth: nat) -> Seq<char>
    decreases depth,
{
    if depth == 0 {
        Seq::empty()
    } else {
        indent_sp((depth - 1) as nat) + seq![' ', ' ']
    }
}

/// The completion marker.
pub open spec fn marker(done: bool) -> char {
    if done {
        '✓'
    } else {
        '○'
    }
}

/// One display line: indent, `[id]`, the marker, the text, a line break.
pub open spec fn line_of(it: ItemView, depth: nat) -> Seq<char> {
    indent_sp(depth) + seq!['['] + dec_rep(it.id as nat) + seq![']', ' ', marker(it.completed), ' ']
        + it.text + seq!['\n']
}

/// The rendering of one task and, below it, of its whole subtree.
pub open spec fn render_item(s: Seq<ItemView>, it: ItemView, depth: nat) -> Seq<char>
    decreases u32::MAX - it.id, 1int,
{
    line_of(it, depth) + render_kids(s, it.id, children_view(s, it.id), depth + 1)
}

/// The rendering of a run of tasks that all carry ids above `pid` (their
/// parent's id; the guard also carries the termination argument).
pub open spec fn render_kids(s: Seq<ItemView>, pid: u32, kids: Seq<ItemView>, depth: nat) -> Seq<
    char,
>
    decreases u32::MAX - pid, 0int, kids.len(),
{
    if kids.len() == 0 {
        Seq::empty()
    } else {
        (if kids[0].id > pid {
            render_item(s, kids[0], depth)
        } else {
            Seq::empty()
        }) + render_kids(s, pid, kids.subrange(1, kids.len() as int), depth)
    }
}

/// The line shown when there is nothing to display.
pub open spec fn empty_message() -> Seq<char> {
    "No todos found. Use 'todo add <text>' to add a new todo.\n"@
}

/// The full display of a collection.
pub open spec fn render_view(v: ListView) -> Seq<char> {
    if roots_view(v.items).len() == 0 {
        empty_message()
    } else {
        render_kids(v.items, 0, roots_view(v.items), 0)
    }
}

impl TodoList {
    /// Appends the display line of one task.
    fn render_line(&self, item: &TodoItem, depth: usize, out: &mut String)
        ensures
            final(out)@ == old(out)@ + line_of(item@, depth as nat),
    {
        let base: Ghost<Seq<char>> = Ghost(out@);
        let mut d: usize = 0;
        while d < depth
            invariant
                d <= depth,
                out@ == base@ + indent_sp(d as nat),
            decreases depth - d,
        {
            push_char(out, ' ');
            push_char(out, ' ');
            proof {
                assert(out@ =~= base@ + indent_sp((d + 1) as nat));
            }
            d += 1;
        }
        push_char(out, '[');
        let digits = u64_to_dec(item.id as u64);
        let ghost mid = out@;
        let n = digits.len();
        let mut k: usize = 0;
        while k < n
            invariant
                k <= n,
                n == digits@.len(),
                digits@ == dec_rep(item@.id as nat),
                out@ == mid + digits@.take(k as int),
            decreases n - k,
        {
            push_char(out, digits[k]);
            proof {
                assert(out@ =~= mid + digits@.take(k + 1));
            }
            k += 1;
        }
        proof {
            assert(digits@.take(n as int) =~= digits@);
        }
        push_char(out, ']');
        push_char(out, ' ');
        if item.completed {
            push_char(out, '✓');
        } else {
            push_char(out, '○');
        }
        push_char(out, ' ');
        out.append(item.text.as_str());
        push_char(out, '\n');
        proof {
            assert(final(out)@ =~= base@ + line_of(item@, depth as nat));
        }
    }

    /// Appends the rendering of one task and its subtree.
    fn render_one(&self, item: &TodoItem, depth: usize, out: &mut String)
        requires
            wf(self@),
            (depth as int) < item@.id as int,
        ensures
            final(out)@ == old(out)@ + render_item(self@.items, item@, depth as nat),
        decreases u32::MAX - item@.id, 1int,
    {
        let ghost base = out@;
        self.render_line(item, depth, out);
        let kids = self.get_sub_items(item.id);
        proof {
            let s = self@.items;
            let kv = views_of(kids@);
            lemma_filter_sorted(s, parent_pred(Some(item@.id)));
            assert forall|k: int| 0 <= k < kv.len() implies kv[k].id > item@.id by {
                assert(s.contains(kv[k]));
                let w = choose|w: int| 0 <= w < s.len() && s[w] == kv[k];
                assert(entry_ok(s, self@.next_id, w));
                assert(kv[k].parent_id == Some(item@.id));
            }
        }
        self.render_list(item.id, &kids, depth + 1, out);
        proof {
            assert(final(out)@ =~= base + render_item(self@.items, item@, depth as nat));
        }
    }

    /// Appends the rendering of a run of tasks, each with its subtree.
    fn render_list(&self, pid: u32, kids: &Vec<TodoItem>, depth: usize, out: &mut String)
        requires
            wf(self@),
            (depth as int) <= pid as int,
            forall|k: int| 0 <= k < kids@.len() ==> views_of(kids@)[k].id > pid,
        ensures
            final(out)@ == old(out)@ + render_kids(
                self@.items,
                pid,
                views_of(kids@),
                depth as nat,
            ),
        decreases u32::MAX - pid, 0int,
    {
        let ghost s = self@.items;
        let ghost kv = views_of(kids@);
        let ghost base = out@;
        let n = kids.len();
        proof {
            assert(kv.skip(0) =~= kv);
        }
        let mut k: usize = 0;
        while k < n
            invariant
                wf(self@),
                s == self@.items,
                kv == views_of(kids@),
                (depth as int) <= pid as int,
                forall|q: int| 0 <= q < kv.len() ==> kv[q].id > pid,
                k <= n,
                n == kids@.len(),
                kv.len() == n,
                out@ + render_kids(s, pid, kv.skip(k as int), depth as nat) == base + render_kids(
                    s,
                    pid,
                    kv,
                    depth as nat,
                ),
            decreases n - k,
        {
            proof {
                let rest = kv.skip(k as int);
                assert(rest[0] == kv[k as int]);
                assert(rest[0].id > pid);
                assert(rest.subrange(1, rest.len() as int) =~= kv.skip(k + 1));
            }
            self.render_one(&kids[k], depth, out);
            proof {
                assert(kids@[k as int]@ == kv[k as int]);
            }
            k += 1;
        }
        proof {
            assert(kv.skip(n as int) =~= Seq::<ItemView>::empty());
            assert(render_kids(s, pid, kv.skip(n as int), depth as nat) =~= Seq::<char>::empty());
            assert(final(out)@ =~= base + render_kids(s, pid, kv, depth as nat));
        }
    }

    /// The full display: every root and its subtree in id order, or a
    /// single informational line when there are no tasks to show.
    pub fn render(&self) -> (r: String)
        requires
            wf(self@),
        ensures
            r@ == render_view(self@),
    {
        let roots = self.get_root_items();
        if roots.len() == 0 {
            let out = String::from_str("No todos found. Use 'todo add <text>' to add a new todo.\n");
            proof {
                assert(views_of(roots@).len() == 0);
            }
            return out;
        }
        let mut out = String::new();
        proof {
            let s = self@.items;
            let rv = views_of(roots@);
            lemma_filter_sorted(s, parent_pred(None));
            assert forall|k: int| 0 <= k < rv.len() implies rv[k].id > 0 by {
                assert(s.contains(rv[k]));
                let w = choose|w: int| 0 <= w < s.len() && s[w] == rv[k];
                assert(entry_ok(s, self@.next_id, w));
            }
        }
        self.render_list(0, &roots, 0, &mut out);
        proof {
            assert(out@ =~= render_view(self@));
        }
        out
    }
}

} // verus!
