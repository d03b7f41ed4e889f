//! The storage codec: a line-oriented text form of the whole collection.
//!
//! The document holds the insertion counter, the task count, and then
//! each task as five fields — id, completion flag, parent (`-` for a
//! root), and the two strings, each length-prefixed so that any text
//! round-trips. Reading back the written form of a collection yields
//! that collection; anything else falls back to the empty collection.

use vstd::prelude::*;
use vstd::string::StrSliceExecFns;
use vstd::string::StringExecFns;

use crate::chars::{chars_vec, push_char};
use crate::item::{ItemView, TodoItem};
use crate::num::{
    char_to_digit, dec_rep, is_digit, is_digit_ch, lemma_dec_rep_digits, lemma_dec_rep_len,
    lemma_num_val_of_dec, lemma_pow10_20, lemma_pow10_mono, num_val, pow10, u64_to_dec,
};
use crate::store::{empty_view, views_of, wf, ListView, TodoList};

verus! {

/// A line break.
pub open spec fn nl() -> Seq<char> {
    seq!['\n']
}

/// A number on a line of its own.
pub open spec fn ser_num(n: nat) -> Seq<char> {
    dec_rep(n) + nl()
}

/// A string, length-prefixed and closed by a line break.
pub open spec fn ser_text(t: Seq<char>) -> Seq<char> {
    ser_num(t.len()) + t + nl()
}

/// A completion flag: `1` or `0` on a line of its own.
pub open spec fn ser_flag(b: bool) -> Seq<char> {
    (if b {
        seq!['1']
    } else {
        seq!['0']
    }) + nl()
}

/// A parent field: `-` for a root, else the parent id.
pub open spec fn ser_parent(p: Option<u32>) -> Seq<char> {
    match p {
        None => seq!['-'] + nl(),
        Some(q) => ser_num(q as nat),
    }
}

/// One task: id, flag, parent, text, creation stamp.
pub open spec fn ser_item(it: ItemView) -> Seq<char> {
    ser_num(it.id as nat) + ser_flag(it.completed) + ser_parent(it.parent_id) + ser_text(it.text)
        + ser_text(it.created_at)
}

/// The tasks, one after the other in storage order.
pub open spec fn ser_items(s: Seq<ItemView>) -> Seq<char>
    decreases s.len(),
{
    if s.len() == 0 {
        Seq::empty()
    } else {
        ser_item(s[0]) + ser_items(s.subrange(1, s.len() as int))
    }
}

/// The whole document: counter, count, tasks.
pub open spec fn ser_view(v: ListView) -> Seq<char> {
    ser_num(v.next_id as nat) + ser_num(v.items.len()) + ser_items(v.items)
}

/// Where the digit run starting at `i` ends.
pub open spec fn digits_end(s: Seq<char>, i: int) -> int
    decreases s.len() - i,
{
    if 0 <= i < s.len() && is_digit(s[i]) {
        digits_end(s, i + 1)
    } else {
        i
    }
}

/// Reads a number closed by a line break: at least one digit, at most
/// twenty of them, and a value that fits 64 bits. Yields the value and
/// the position after the break.
pub open spec fn parse_num(s: Seq<char>, i: int) -> Option<(nat, int)> {
    let j = digits_end(s, i);
    if i < j && j - i <= 20 && num_val(s, i, j) <= u64::MAX && j < s.len() && s[j] == '\n' {
        Some((num_val(s, i, j), j + 1))
    } else {
        None
    }
}

/// Reads a length-prefixed string closed by a line break.
pub open spec fn parse_text(s: Seq<char>, i: int) -> Option<(Seq<char>, int)> {
    match parse_num(s, i) {
        Some((n, j)) => if j + n < s.len() && s[j + n] == '\n' {
            Some((s.subrange(j, j + n), j + n + 1))
        } else {
            None
        },
        None => None,
    }
}

/// Reads a completion flag.
pub open spec fn parse_flag(s: Seq<char>, i: int) -> Option<(bool, int)> {
    if i + 1 < s.len() && (s[i] == '0' || s[i] == '1') && s[i + 1] == '\n' {
        Some((s[i] == '1', i + 2))
    } else {
        None
    }
}

/// Reads a parent field.
pub open spec fn parse_parent(s: Seq<char>, i: int) -> Option<(Option<u32>, int)> {
    if 0 <= i && i + 1 < s.len() && s[i] == '-' && s[i + 1] == '\n' {
        Some((None, i + 2))
    } else {
        match parse_num(s, i) {
            Some((n, j)) => if n <= u32::MAX {
                Some((Some(n as u32), j))
            } else {
                None
            },
            None => None,
        }
    }
}

/// Reads one task.
pub open spec fn parse_item(s: Seq<char>, i: int) -> Option<(ItemView, int)> {
    match parse_num(s, i) {
        None => None,
        Some((idn, i1)) => if idn > u32::MAX {
            None
        } else {
            match parse_flag(s, i1) {
                None => None,
                Some((done, i2)) => match parse_parent(s, i2) {
                    None => None,
                    Some((par, i3)) => match parse_text(s, i3) {
                        None => None,
                        Some((text, i4)) => match parse_text(s, i4) {
                            None => None,
                            Some((created, i5)) => Some(
                                (
                                    ItemView {
                                        id: idn as u32,
                                        text,
                                        completed: done,
                                        parent_id: par,
                                        created_at: created,
                                    },
                                    i5,
                                ),
                            ),
                        },
                    },
                },
            }
        },
    }
}

/// Reads `count` tasks, one after the other.
pub open spec fn parse_items(s: Seq<char>, i: int, count: nat) -> Option<(Seq<ItemView>, int)>
    decreases count,
{
    if count == 0 {
        Some((Seq::empty(), i))
    } else {
        match parse_item(s, i) {
            None => None,
            Some((it, j)) => match parse_items(s, j, (count - 1) as nat) {
                None => None,
                Some((rest, k)) => Some((seq![it] + rest, k)),
            },
        }
    }
}

/// Reads a whole document; the document must end exactly with the tasks.
pub open spec fn parse_view(s: Seq<char>) -> Option<ListView> {
    match parse_num(s, 0) {
        None => None,
        Some((nid, i1)) => if nid > u32::MAX {
            None
        } else {
            match parse_num(s, i1) {
                None => None,
                Some((cnt, i2)) => match parse_items(s, i2, cnt) {
                    None => None,
                    Some((items, j)) => if j == s.len() {
                        Some(ListView { items, next_id: nid as u32 })
                    } else {
                        None
                    },
                },
            }
        },
    }
}

/// What loading a document yields: the parsed collection when it parses
/// and satisfies the invariant, else the fresh empty collection.
pub open spec fn load_result(s: Seq<char>) -> ListView {
    match parse_view(s) {
        Some(v) => if wf(v) {
            v
        } else {
            empty_view()
        },
        None => empty_view(),
    }
}

/// Every length in the collection fits the written number format. Any
/// collection held in memory satisfies this.
pub open spec fn bounded_view(v: ListView) -> bool {
    &&& v.items.len() <= u64::MAX
    &&& forall|i: int|
        0 <= i < v.items.len() ==> (#[trigger] v.items[i]).text.len() <= u64::MAX
            && v.items[i].created_at.len() <= u64::MAX
}

/// Splitting a known concatenation out of a larger sequence.
proof fn lemma_split_at(s: Seq<char>, i: int, a: Seq<char>, b: Seq<char>)
    requires
        0 <= i,
        i + a.len() + b.len() <= s.len(),
        s.subrange(i, i + a.len() + b.len()) == a + b,
    ensures
        s.subrange(i, i + a.len()) == a,
        s.subrange(i + a.len(), i + a.len() + b.len()) == b,
{
    let whole = s.subrange(i, i + a.len() + b.len());
    assert forall|k: int| 0 <= k < a.len() implies s.subrange(i, i + a.len())[k] == a[k] by {
        assert(whole[k] == (a + b)[k]);
    }
    assert(s.subrange(i, i + a.len()) =~= a);
    assert forall|k: int| 0 <= k < b.len() implies s.subrange(
        i + a.len(),
        i + a.len() + b.len(),
    )[k] == b[k] by {
        assert(whole[a.len() + k] == (a + b)[a.len() + k]);
    }
    assert(s.subrange(i + a.len(), i + a.len() + b.len()) =~= b);
}

/// A digit run bounded on both sides fixes `digits_end`.
proof fn lemma_digits_end_run(s: Seq<char>, i: int, j: int)
    requires
        0 <= i <= j <= s.len(),
        forall|k: int| i <= k < j ==> is_digit(#[trigger] s[k]),
        j == s.len() || !is_digit(s[j]),
    ensures
        digits_end(s, i) == j,
    decreases j - i,
{
    if i < j {
        lemma_digits_end_run(s, i + 1, j);
    }
}

/// Reading back a written number yields that number.
proof fn lemma_parse_num_at(s: Seq<char>, i: int, n: nat)
    requires
        n <= u64::MAX,
        0 <= i,
        i + ser_num(n).len() <= s.len(),
        s.subrange(i, i + ser_num(n).len()) == ser_num(n),
    ensures
        parse_num(s, i) == Some((n, i + ser_num(n).len())),
{
    let d = dec_rep(n);
    let dl = d.len() as int;
    lemma_dec_rep_digits(n);
    lemma_pow10_20();
    lemma_dec_rep_len(n, 20);
    let sn = ser_num(n);
    assert forall|k: int| 0 <= k < dl implies s[i + k] == #[trigger] d[k] by {
        assert(s.subrange(i, i + sn.len())[k] == sn[k]);
        assert(sn[k] == d[k]);
    }
    assert(s[i + dl] == '\n') by {
        assert(s.subrange(i, i + sn.len())[dl] == sn[dl]);
    }
    assert forall|k: int| i <= k < i + dl implies is_digit(#[trigger] s[k]) by {
        assert(s[k] == d[k - i]);
    }
    assert(!is_digit('\n'));
    lemma_digits_end_run(s, i, i + dl);
    lemma_num_val_of_dec(s, i, n);
}

/// Reading back a written string yields that string.
proof fn lemma_parse_text_at(s: Seq<char>, i: int, t: Seq<char>)
    requires
        t.len() <= u64::MAX,
        0 <= i,
        i + ser_text(t).len() <= s.len(),
        s.subrange(i, i + ser_text(t).len()) == ser_text(t),
    ensures
        parse_text(s, i) == Some((t, i + ser_text(t).len())),
{
    let sn = ser_num(t.len());
    let st = ser_text(t);
    assert(st == sn + (t + nl())) by {
        assert(sn + t + nl() =~= sn + (t + nl()));
    }
    lemma_split_at(s, i, sn, t + nl());
    lemma_parse_num_at(s, i, t.len());
    let j = i + sn.len();
    lemma_split_at(s, j, t, nl());
    assert(s[j + t.len()] == '\n') by {
        assert(s.subrange(j + t.len(), j + t.len() + 1)[0] == nl()[0]);
    }
    assert(s.subrange(j, j + t.len()) == t);
}

/// Reading back a written flag yields that flag.
proof fn lemma_parse_flag_at(s: Seq<char>, i: int, b: bool)
    requires
        0 <= i,
        i + 2 <= s.len(),
        s.subrange(i, i + 2) == ser_flag(b),
    ensures
        parse_flag(s, i) == Some((b, i + 2)),
{
    assert(s[i] == ser_flag(b)[0]) by {
        assert(s.subrange(i, i + 2)[0] == ser_flag(b)[0]);
    }
    assert(s[i + 1] == '\n') by {
        assert(s.subrange(i, i + 2)[1] == ser_flag(b)[1]);
    }
}

/// Reading back a written parent field yields that field.
proof fn lemma_parse_parent_at(s: Seq<char>, i: int, p: Option<u32>)
    requires
        0 <= i,
        i + ser_parent(p).len() <= s.len(),
        s.subrange(i, i + ser_parent(p).len()) == ser_parent(p),
    ensures
        parse_parent(s, i) == Some((p, i + ser_parent(p).len())),
{
    match p {
        None => {
            assert(s[i] == '-') by {
                assert(s.subrange(i, i + 2)[0] == ser_parent(p)[0]);
            }
            assert(s[i + 1] == '\n') by {
                assert(s.subrange(i, i + 2)[1] == ser_parent(p)[1]);
            }
        },
        Some(q) => {
            lemma_parse_num_at(s, i, q as nat);
            assert(s[i] == dec_rep(q as nat)[0]) by {
                assert(s.subrange(i, i + ser_parent(p).len())[0] == ser_parent(p)[0]);
            }
            lemma_dec_rep_digits(q as nat);
            assert(is_digit(s[i]));
            assert(s[i] != '-');
        },
    }
}

/// Reading back a written task yields that task.
proof fn lemma_parse_item_at(s: Seq<char>, i: int, it: ItemView)
    requires
        it.text.len() <= u64::MAX,
        it.created_at.len() <= u64::MAX,
        0 <= i,
        i + ser_item(it).len() <= s.len(),
        s.subrange(i, i + ser_item(it).len()) == ser_item(it),
    ensures
        parse_item(s, i) == Some((it, i + ser_item(it).len())),
{
    let a1 = ser_num(it.id as nat);
    let a2 = ser_flag(it.completed);
    let a3 = ser_parent(it.parent_id);
    let a4 = ser_text(it.text);
    let a5 = ser_text(it.created_at);
    assert(ser_item(it) == (a1 + a2 + a3 + a4) + a5);
    lemma_split_at(s, i, a1 + a2 + a3 + a4, a5);
    lemma_split_at(s, i, a1 + a2 + a3, a4);
    lemma_split_at(s, i, a1 + a2, a3);
    lemma_split_at(s, i, a1, a2);
    let p1 = i + a1.len();
    let p2 = p1 + a2.len();
    let p3 = p2 + a3.len();
    let p4 = p3 + a4.len();
    let p5 = p4 + a5.len();
    lemma_parse_num_at(s, i, it.id as nat);
    lemma_parse_flag_at(s, p1, it.completed);
    lemma_parse_parent_at(s, p2, it.parent_id);
    lemma_parse_text_at(s, p3, it.text);
    lemma_parse_text_at(s, p4, it.created_at);
    let parsed = parse_item(s, i)->Some_0.0;
    assert(parsed =~= it);
}

/// Reading back a written run of tasks yields those tasks.
proof fn lemma_parse_items_at(s: Seq<char>, i: int, items: Seq<ItemView>)
    requires
        forall|k: int|
            0 <= k < items.len() ==> (#[trigger] items[k]).text.len() <= u64::MAX
                && items[k].created_at.len() <= u64::MAX,
        0 <= i,
        i + ser_items(items).len() <= s.len(),
        s.subrange(i, i + ser_items(items).len()) == ser_items(items),
    ensures
        parse_items(s, i, items.len() as nat) == Some((items, i + ser_items(items).len())),
    decreases items.len(),
{
    if items.len() == 0 {
        assert(parse_items(s, i, 0) == Some((Seq::<ItemView>::empty(), i)));
        assert(items =~= Seq::<ItemView>::empty());
    } else {
        let head = items[0];
        let rest = items.subrange(1, items.len() as int);
        assert(ser_items(items) == ser_item(head) + ser_items(rest));
        lemma_split_at(s, i, ser_item(head), ser_items(rest));
        lemma_parse_item_at(s, i, head);
        let j = i + ser_item(head).len();
        assert(forall|k: int|
            0 <= k < rest.len() ==> (#[trigger] rest[k]).text.len() <= u64::MAX
                && rest[k].created_at.len() <= u64::MAX) by {
            assert(forall|k: int| 0 <= k < rest.len() ==> rest[k] == #[trigger] items[k + 1]);
        }
        lemma_parse_items_at(s, j, rest);
        assert(seq![head] + rest =~= items);
    }
}

/// Reading back a written collection yields that collection exactly.
pub proof fn lemma_parse_ser_view(v: ListView)
    requires
        bounded_view(v),
    ensures
        parse_view(ser_view(v)) == Some(v),
{
    let s = ser_view(v);
    let a1 = ser_num(v.next_id as nat);
    let a2 = ser_num(v.items.len());
    let a3 = ser_items(v.items);
    assert(s == (a1 + a2) + a3);
    assert(s.subrange(0, s.len() as int) =~= s);
    lemma_split_at(s, 0, a1 + a2, a3);
    lemma_split_at(s, 0, a1, a2);
    lemma_parse_num_at(s, 0, v.next_id as nat);
    lemma_parse_num_at(s, a1.len() as int, v.items.len());
    lemma_parse_items_at(s, (a1.len() + a2.len()) as int, v.items);
    let parsed = parse_view(s)->Some_0;
    assert(parsed =~= v);
}

/// The round trip: writing a well-formed collection and loading the
/// written text yields an identical collection — same ids, texts,
/// completion flags, parent links, creation stamps, and counter.
pub proof fn lemma_save_load_round_trip(v: ListView)
    requires
        wf(v),
        bounded_view(v),
    ensures
        load_result(ser_view(v)) == v,
{
    lemma_parse_ser_view(v);
}

/// Writing one more task extends the written run at its end.
proof fn lemma_ser_items_snoc(s: Seq<ItemView>, x: ItemView)
    ensures
        ser_items(s.push(x)) == ser_items(s) + ser_item(x),
    decreases s.len(),
{
    let sp = s.push(x);
    assert(ser_items(sp) == ser_item(sp[0]) + ser_items(sp.subrange(1, sp.len() as int)));
    if s.len() == 0 {
        assert(sp[0] == x);
        assert(sp.subrange(1, sp.len() as int) =~= Seq::<ItemView>::empty());
        assert(ser_items(Seq::<ItemView>::empty()) == Seq::<char>::empty());
        assert(ser_item(x) + Seq::<char>::empty() =~= ser_item(x));
        assert(ser_items(s) == Seq::<char>::empty());
        assert(Seq::<char>::empty() + ser_item(x) =~= ser_item(x));
    } else {
        let tail = s.subrange(1, s.len() as int);
        assert(sp[0] == s[0]);
        assert(sp.subrange(1, sp.len() as int) =~= tail.push(x));
        lemma_ser_items_snoc(tail, x);
        assert(ser_items(sp) == ser_item(s[0]) + (ser_items(tail) + ser_item(x)));
        assert(ser_items(s) == ser_item(s[0]) + ser_items(tail));
        assert(ser_item(s[0]) + (ser_items(tail) + ser_item(x)) =~= (ser_item(s[0]) + ser_items(
            tail,
        )) + ser_item(x));
    }
}

/// The end of the digit run starting at `i`.
fn scan_digits(cs: &Vec<char>, i: usize) -> (j: usize)
    requires
        i <= cs.len(),
    ensures
        i <= j <= cs@.len(),
        j as int == digits_end(cs@, i as int),
        forall|q: int| i <= q < j ==> is_digit(#[trigger] cs@[q]),
{
    let n = cs.len();
    let mut j = i;
    while j < n && is_digit_ch(cs[j])
        invariant
            i <= j <= n,
            n == cs@.len(),
            digits_end(cs@, i as int) == digits_end(cs@, j as int),
            forall|q: int| i <= q < j ==> is_digit(#[trigger] cs@[q]),
        decreases n - j,
    {
        j += 1;
    }
    j
}

/// Reads a number line; mirrors `parse_num` exactly.
fn parse_num_exec(cs: &Vec<char>, i: usize) -> (r: Option<(u64, usize)>)
    requires
        i <= cs.len(),
    ensures
        match parse_num(cs@, i as int) {
            Some((n, j)) => r matches Some((rn, rj)) && rn as nat == n && rj as int == j && j
                <= cs@.len(),
            None => r is None,
        },
{
    let n = cs.len();
    let j = scan_digits(cs, i);
    if j == i || j - i > 20 || j >= n {
        return None;
    }
    if cs[j] != '\n' {
        return None;
    }
    let mut va: u128 = 0;
    let mut k = i;
    proof {
        lemma_pow10_20();
    }
    while k < j
        invariant
            i <= k <= j <= cs@.len(),
            j - i <= 20,
            forall|q: int| i <= q < j ==> is_digit(#[trigger] cs@[q]),
            va as nat == num_val(cs@, i as int, k as int),
            (va as nat) < pow10((k - i) as nat),
            pow10(20) == 100_000_000_000_000_000_000nat,
        decreases j - k,
    {
        let d = match char_to_digit(cs[k]) {
            Some(d) => d,
            None => {
                proof {
                    assert(false);
                }
                0
            },
        };
        proof {
            lemma_pow10_mono((k - i) as nat, 20);
            assert(va < 100_000_000_000_000_000_000u128);
            assert(pow10((k + 1 - i) as nat) == 10 * pow10((k - i) as nat));
        }
        va = va * 10 + (d as u128);
        k += 1;
    }
    if va > u64::MAX as u128 {
        return None;
    }
    Some((va as u64, j + 1))
}

/// Reads a length-prefixed string; mirrors `parse_text` exactly.
fn parse_text_exec(cs: &Vec<char>, i: usize) -> (r: Option<(String, usize)>)
    requires
        i <= cs.len(),
    ensures
        match parse_text(cs@, i as int) {
            Some((t, j)) => r matches Some((rt, rj)) && rt@ == t && rj as int == j && j
                <= cs@.len(),
            None => r is None,
        },
{
    match parse_num_exec(cs, i) {
        None => None,
        Some((n, j)) => {
            let total = cs.len();
            let remaining = total - j;
            if n >= remaining as u64 {
                return None;
            }
            let nn = n as usize;
            let mut t = String::new();
            let mut k: usize = 0;
            while k < nn
                invariant
                    k <= nn,
                    total == cs@.len(),
                    j + nn < total,
                    t@ == cs@.subrange(j as int, j + k),
                decreases nn - k,
            {
                push_char(&mut t, cs[j + k]);
                proof {
                    assert(t@ =~= cs@.subrange(j as int, j + k + 1));
                }
                k += 1;
            }
            if cs[j + nn] != '\n' {
                return None;
            }
            Some((t, j + nn + 1))
        },
    }
}

/// Reads a flag line; mirrors `parse_flag` exactly.
fn parse_flag_exec(cs: &Vec<char>, i: usize) -> (r: Option<(bool, usize)>)
    requires
        i <= cs.len(),
    ensures
        match parse_flag(cs@, i as int) {
            Some((b, j)) => r matches Some((rb, rj)) && rb == b && rj as int == j && j
                <= cs@.len(),
            None => r is None,
        },
{
    if cs.len() >= 2 && i < cs.len() - 1 {
        let c0 = cs[i];
        let c1 = cs[i + 1];
        if (c0 == '0' || c0 == '1') && c1 == '\n' {
            return Some((c0 == '1', i + 2));
        }
    }
    None
}

/// Reads a parent line; mirrors `parse_parent` exactly.
fn parse_parent_exec(cs: &Vec<char>, i: usize) -> (r: Option<(Option<u32>, usize)>)
    requires
        i <= cs.len(),
    ensures
        match parse_parent(cs@, i as int) {
            Some((p, j)) => r matches Some((rp, rj)) && rp == p && rj as int == j && j
                <= cs@.len(),
            None => r is None,
        },
{
    if cs.len() >= 2 && i < cs.len() - 1 {
        if cs[i] == '-' && cs[i + 1] == '\n' {
            return Some((None, i + 2));
        }
    }
    match parse_num_exec(cs, i) {
        Some((nv, j)) => {
            if nv > u32::MAX as u64 {
                None
            } else {
                Some((Some(nv as u32), j))
            }
        },
        None => None,
    }
}

/// Reads one task; mirrors `parse_item` exactly.
fn parse_item_exec(cs: &Vec<char>, i: usize) -> (r: Option<(TodoItem, usize)>)
    requires
        i <= cs.len(),
    ensures
        match parse_item(cs@, i as int) {
            Some((it, j)) => r matches Some((rt, rj)) && rt@ == it && rj as int == j && j
                <= cs@.len(),
            None => r is None,
        },
{
    let (idv, i1) = match parse_num_exec(cs, i) {
        Some(x) => x,
        None => {
            return None;
        },
    };
    if idv > u32::MAX as u64 {
        return None;
    }
    let (done, i2) = match parse_flag_exec(cs, i1) {
        Some(x) => x,
        None => {
            return None;
        },
    };
    let (par, i3) = match parse_parent_exec(cs, i2) {
        Some(x) => x,
        None => {
            return None;
        },
    };
    let (text, i4) = match parse_text_exec(cs, i3) {
        Some(x) => x,
        None => {
            return None;
        },
    };
    let (created, i5) = match parse_text_exec(cs, i4) {
        Some(x) => x,
        None => {
            return None;
        },
    };
    let item = TodoItem {
        id: idv as u32,
        text,
        completed: done,
        parent_id: par,
        created_at: created,
    };
    proof {
        assert(item@ =~= parse_item(cs@, i as int)->Some_0.0);
    }
    Some((item, i5))
}

/// Reads a run of tasks; mirrors `parse_items` exactly.
fn parse_items_exec(cs: &Vec<char>, i: usize, count: u64) -> (r: Option<(Vec<TodoItem>, usize)>)
    requires
        i <= cs.len(),
    ensures
        match parse_items(cs@, i as int, count as nat) {
            Some((its, j)) => r matches Some((rv, rj)) && views_of(rv@) == its && rj as int == j
                && j <= cs@.len(),
            None => r is None,
        },
{
    let mut out: Vec<TodoItem> = Vec::new();
    let mut cur = i;
    let mut rem = count;
    proof {
        assert(views_of(out@) =~= Seq::<ItemView>::empty());
    }
    while rem > 0
        invariant
            cur <= cs@.len(),
            parse_items(cs@, i as int, count as nat) == (match parse_items(
                cs@,
                cur as int,
                rem as nat,
            ) {
                None => None::<(Seq<ItemView>, int)>,
                Some((rest, j)) => Some((views_of(out@) + rest, j)),
            }),
        decreases rem,
    {
        let ghost before = views_of(out@);
        match parse_item_exec(cs, cur) {
            None => {
                return None;
            },
            Some((item, j)) => {
                proof {
                    assert(views_of(out@.push(item)) =~= before.push(item@));
                }
                out.push(item);
                cur = j;
                proof {
                    match parse_items(cs@, cur as int, (rem - 1) as nat) {
                        None => {},
                        Some((rest, jj)) => {
                            assert(before.push(item@) + rest =~= before + (seq![item@] + rest));
                        },
                    }
                }
                rem = rem - 1;
            },
        }
    }
    proof {
        assert(views_of(out@) + Seq::<ItemView>::empty() =~= views_of(out@));
    }
    Some((out, cur))
}

/// Appends a number line.
fn push_num(out: &mut String, n: u64)
    ensures
        final(out)@ == old(out)@ + ser_num(n as nat),
{
    let digits = u64_to_dec(n);
    let m = digits.len();
    let mut k: usize = 0;
    while k < m
        invariant
            k <= m,
            m == digits@.len(),
            digits@ == dec_rep(n as nat),
            out@ == old(out)@ + digits@.take(k as int),
        decreases m - k,
    {
        push_char(out, digits[k]);
        proof {
            assert(out@ =~= old(out)@ + digits@.take(k + 1));
        }
        k += 1;
    }
    proof {
        assert(digits@.take(m as int) =~= digits@);
    }
    push_char(out, '\n');
    proof {
        assert(out@ =~= old(out)@ + ser_num(n as nat));
    }
}

/// Appends a length-prefixed string.
fn push_text(out: &mut String, t: &String)
    ensures
        final(out)@ == old(out)@ + ser_text(t@),
        t@.len() <= u64::MAX,
{
    let tl = t.as_str().unicode_len();
    push_num(out, tl as u64);
    out.append(t.as_str());
    push_char(out, '\n');
    proof {
        assert(tl as u64 as nat == t@.len());
        assert(out@ =~= old(out)@ + ser_text(t@));
    }
}

/// Appends one task in the storage format.
fn push_item(out: &mut String, it: &TodoItem)
    ensures
        final(out)@ == old(out)@ + ser_item(it@),
        it@.text.len() <= u64::MAX,
        it@.created_at.len() <= u64::MAX,
{
    push_num(out, it.id as u64);
    if it.completed {
        push_char(out, '1');
    } else {
        push_char(out, '0');
    }
    push_char(out, '\n');
    match it.parent_id {
        None => {
            push_char(out, '-');
            push_char(out, '\n');
        },
        Some(p) => {
            push_num(out, p as u64);
        },
    }
    push_text(out, &it.text);
    push_text(out, &it.created_at);
    proof {
        assert(out@ =~= old(out)@ + ser_item(it@));
    }
}

impl TodoList {
    /// Writes the collection in the storage format.
    pub fn save_to_string(&self) -> (r: String)
        ensures
            r@ == ser_view(self@),
            bounded_view(self@),
    {
        let mut out = String::new();
        push_num(&mut out, self.get_next_id() as u64);
        let items = self.items_vec();
        let n = items.len();
        proof {
            assert(n as u64 as nat == self@.items.len());
        }
        push_num(&mut out, n as u64);
        let ghost iv = self@.items;
        let ghost head = out@;
        let mut k: usize = 0;
        while k < n
            invariant
                k <= n,
                n == items@.len(),
                iv == views_of(items@),
                out@ == head + ser_items(iv.take(k as int)),
                forall|q: int|
                    0 <= q < k ==> (#[trigger] iv[q]).text.len() <= u64::MAX
                        && iv[q].created_at.len() <= u64::MAX,
            decreases n - k,
        {
            let it = &items[k];
            let ghost mid = out@;
            push_item(&mut out, it);
            proof {
                assert(it@ == iv[k as int]);
                assert(iv.take(k + 1) =~= iv.take(k as int).push(iv[k as int]));
                lemma_ser_items_snoc(iv.take(k as int), iv[k as int]);
                assert(out@ =~= head + ser_items(iv.take(k + 1)));
            }
            k += 1;
        }
        proof {
            assert(iv.take(n as int) =~= iv);
            assert(out@ =~= ser_view(self@));
        }
        out
    }

    /// Reads a collection from the storage format. A document that does
    /// not parse, or that breaks the invariant, yields the fresh empty
    /// collection instead — absent or corrupt data means "no data yet".
    pub fn load_from_string(s: &str) -> (r: TodoList)
        ensures
            r@ == load_result(s@),
            wf(r@),
    {
        let cs = chars_vec(s);
        match parse_num_exec(&cs, 0) {
            None => TodoList::new(),
            Some((nid, i1)) => {
                if nid > u32::MAX as u64 {
                    return TodoList::new();
                }
                match parse_num_exec(&cs, i1) {
                    None => TodoList::new(),
                    Some((cnt, i2)) => {
                        match parse_items_exec(&cs, i2, cnt) {
                            None => TodoList::new(),
                            Some((items, j)) => {
                                if j != cs.len() {
                                    return TodoList::new();
                                }
                                let tl = TodoList::from_parts(items, nid as u32);
                                proof {
                                    assert(tl@ =~= parse_view(s@)->Some_0);
                                }
                                if tl.well_formed() {
                                    tl
                                } else {
                                    TodoList::new()
                                }
                            },
                        }
                    },
                }
            },
        }
    }
}

} // verus!
