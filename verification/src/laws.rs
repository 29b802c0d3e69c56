//! The properties the tree and the renderer promise across operations,
//! each proved once and for all inputs.

use vstd::prelude::*;
use crate::item::TaskView;
use crate::item::node_at;
use crate::item::resolve_at;
use crate::item::update_at;
use crate::item::push_child_view;
use crate::item::set_status_view;
use crate::item::remove_child_view;
use crate::render::name_need;
use crate::render::name_width;
use crate::render::due_width;
use crate::render::desc_width;
use crate::render::total_width;
use crate::render::row_line;
use crate::render::header_line;
use crate::render::dash_row;
use crate::render::sub_lines;
use crate::render::top_lines;
use crate::render::table_lines;
use crate::render::dec_chars;
use crate::render::dig_count;
use crate::render::digit_char_of;

verus! {

/// The empty path never names a task.
pub proof fn lemma_resolve_empty(t: TaskView)
    ensures
        resolve_at(t, Seq::<usize>::empty()) is None,
{
}

/// Each segment of the path indexes within its level.
pub open spec fn path_in_range(t: TaskView, path: Seq<usize>) -> bool
    decreases path.len(),
{
    path.len() > 0 && (path[0] as int) < t.subitems.len() && (path.len() == 1 || path_in_range(
        t.subitems[path[0] as int],
        path.subrange(1, path.len() as int),
    ))
}

/// A path resolves exactly when every segment is in range at its level,
/// and no out-of-range prefix can be mended by what follows it.
pub proof fn lemma_resolve_in_range(t: TaskView, path: Seq<usize>)
    ensures
        (resolve_at(t, path) is Some) <==> path_in_range(t, path),
    decreases path.len(),
{
    if path.len() > 0 {
        let k = path[0] as int;
        if 0 <= k < t.subitems.len() {
            let rest = path.subrange(1, path.len() as int);
            if path.len() == 1 {
                assert(rest =~= Seq::<usize>::empty());
                assert(node_at(t.subitems[k], rest) == Some(t.subitems[k]));
            } else {
                lemma_resolve_in_range(t.subitems[k], rest);
            }
        }
    }
}

/// After a node is replaced, the same path leads to the replacement.
pub proof fn lemma_node_at_update(t: TaskView, p: Seq<usize>, nv: TaskView)
    requires
        node_at(t, p) is Some,
    ensures
        node_at(update_at(t, p, nv), p) == Some(nv),
    decreases p.len(),
{
    if p.len() > 0 {
        let k = p[0] as int;
        lemma_node_at_update(t.subitems[k], p.subrange(1, p.len() as int), nv);
    }
}

/// Resolving one segment further means resolving to that child of the
/// parent, when the parent has one there.
pub proof fn lemma_node_at_snoc(t: TaskView, p: Seq<usize>, j: usize)
    ensures
        node_at(t, p.push(j)) == (match node_at(t, p) {
            Some(parent) => if (j as int) < parent.subitems.len() {
                Some(parent.subitems[j as int])
            } else {
                None::<TaskView>
            },
            None => None::<TaskView>,
        }),
    decreases p.len(),
{
    if p.len() == 0 {
        assert(p.push(j)[0] == j);
        assert(p.push(j).subrange(1, 1) =~= Seq::<usize>::empty());
        if (j as int) < t.subitems.len() {
            assert(node_at(t.subitems[j as int], Seq::<usize>::empty()) == Some(
                t.subitems[j as int],
            ));
        }
    } else {
        let k = p[0] as int;
        if 0 <= k < t.subitems.len() {
            lemma_node_at_snoc(t.subitems[k], p.subrange(1, p.len() as int), j);
            assert(p.push(j).subrange(1, p.push(j).len() as int) =~= p.subrange(
                1,
                p.len() as int,
            ).push(j));
            assert(p.push(j)[0] == p[0]);
        } else {
            assert(p.push(j)[0] == p[0]);
        }
    }
}

/// Adding a task under a resolvable container and then marking it done
/// round-trips: the path of the new task resolves to it, and after the
/// mark it resolves to the same task with its done-flag set and its
/// name, due, description and sub-tasks untouched.
pub proof fn lemma_add_check_resolve(t: TaskView, parent_path: Seq<usize>, item: TaskView)
    requires
        node_at(t, parent_path) is Some,
        node_at(t, parent_path).unwrap().subitems.len() < usize::MAX,
    ensures
        ({
            let parent = node_at(t, parent_path).unwrap();
            let grown = update_at(t, parent_path, push_child_view(parent, item));
            let q = parent_path.push(parent.subitems.len() as usize);
            let checked = update_at(grown, q, set_status_view(item, true));
            &&& resolve_at(grown, q) == Some(item)
            &&& resolve_at(checked, q) == Some(set_status_view(item, true))
            &&& set_status_view(item, true).status == true
            &&& set_status_view(item, true).name == item.name
            &&& set_status_view(item, true).due == item.due
            &&& set_status_view(item, true).description == item.description
            &&& set_status_view(item, true).subitems == item.subitems
        }),
{
    let parent = node_at(t, parent_path).unwrap();
    let grown = update_at(t, parent_path, push_child_view(parent, item));
    let j = parent.subitems.len() as usize;
    let q = parent_path.push(j);
    lemma_node_at_update(t, parent_path, push_child_view(parent, item));
    lemma_node_at_snoc(grown, parent_path, j);
    assert(push_child_view(parent, item).subitems[j as int] == item);
    lemma_node_at_update(grown, q, set_status_view(item, true));
}

/// The paths a deletion at `pre.push(k)` cannot touch: those that leave
/// `pre` before its end, and those that go through an earlier sibling
/// of the removed task.
pub open spec fn branches_before(q: Seq<usize>, pre: Seq<usize>, k: usize) -> bool {
    ||| (exists|m: int| 0 <= m < pre.len() && m < q.len() && q[m] != pre[m])
    ||| (q.len() > pre.len() && q.subrange(0, pre.len() as int) == pre && (q[pre.len() as int]
        as int) < k)
}

/// Deleting one subtree leaves every untouched branch resolving as it
/// did before.
pub proof fn lemma_delete_keeps_sibling(t: TaskView, pre: Seq<usize>, k: usize, q: Seq<usize>)
    requires
        node_at(t, pre) is Some,
        (k as int) < node_at(t, pre).unwrap().subitems.len(),
        branches_before(q, pre, k),
    ensures
        resolve_at(
            update_at(t, pre, remove_child_view(node_at(t, pre).unwrap(), k as int)),
            q,
        ) == resolve_at(t, q),
    decreases pre.len(),
{
    let parent = node_at(t, pre).unwrap();
    let t1 = update_at(t, pre, remove_child_view(parent, k as int));
    if pre.len() == 0 {
        // only an earlier sibling can be unaffected here
        let j = q[0] as int;
        assert(j < k);
        assert(t1.subitems =~= t.subitems.remove(k as int));
        assert(t.subitems.remove(k as int)[j] == t.subitems[j]);
        assert(node_at(t1, q) == node_at(t.subitems[j], q.subrange(1, q.len() as int)));
    } else {
        let p0 = pre[0] as int;
        let pre2 = pre.subrange(1, pre.len() as int);
        let child = t.subitems[p0];
        assert(node_at(child, pre2) == node_at(t, pre));
        assert(t1.subitems == t.subitems.update(
            p0,
            update_at(child, pre2, remove_child_view(parent, k as int)),
        ));
        let j = q[0] as int;
        if j != p0 {
            if 0 <= j < t.subitems.len() {
                assert(t1.subitems[j] == t.subitems[j]);
                assert(node_at(t1, q) == node_at(t.subitems[j], q.subrange(1, q.len() as int)));
            }
        } else {
            let q2 = q.subrange(1, q.len() as int);
            assert(branches_before(q2, pre2, k)) by {
                if exists|m: int| 0 <= m < pre.len() && m < q.len() && q[m] != pre[m] {
                    let m = choose|m: int|
                        0 <= m < pre.len() && m < q.len() && q[m] != pre[m];
                    assert(m >= 1);
                    assert(q2[m - 1] == q[m]);
                    assert(pre2[m - 1] == pre[m]);
                } else {
                    assert(q.len() > pre.len());
                    assert(q.subrange(0, pre.len() as int) == pre);
                    assert(q2.subrange(0, pre2.len() as int) =~= pre2) by {
                        assert forall|x: int| 0 <= x < pre2.len() implies q2.subrange(
                            0,
                            pre2.len() as int,
                        )[x] == pre2[x] by {
                            assert(q2.subrange(0, pre2.len() as int)[x] == q[x + 1]);
                            assert(q.subrange(0, pre.len() as int)[x + 1] == q[x + 1]);
                            assert(pre2[x] == pre[x + 1]);
                        }
                    }
                    assert(q2[pre2.len() as int] == q[pre.len() as int]);
                }
            }
            lemma_delete_keeps_sibling(child, pre2, k, q2);
            assert(q2.len() > 0);
            assert(node_at(t1, q) == node_at(t1.subitems[p0], q2));
        }
    }
}

/// Deleting the last child of a parent leaves that child's path naming
/// nothing.
pub proof fn lemma_delete_last_resolves_none(t: TaskView, pre: Seq<usize>, k: usize)
    requires
        node_at(t, pre) is Some,
        k as int == node_at(t, pre).unwrap().subitems.len() - 1,
    ensures
        resolve_at(
            update_at(t, pre, remove_child_view(node_at(t, pre).unwrap(), k as int)),
            pre.push(k),
        ) is None,
{
    let parent = node_at(t, pre).unwrap();
    let t1 = update_at(t, pre, remove_child_view(parent, k as int));
    lemma_node_at_update(t, pre, remove_child_view(parent, k as int));
    lemma_node_at_snoc(t1, pre, k);
}

/// A decimal digit character.
pub open spec fn is_dec_digit(c: char) -> bool {
    c == '0' || c == '1' || c == '2' || c == '3' || c == '4' || c == '5' || c == '6' || c == '7'
        || c == '8' || c == '9'
}

/// A number prints as exactly its digit count of digit characters.
pub proof fn lemma_dec_chars_shape(n: nat)
    ensures
        dec_chars(n).len() == dig_count(n),
        forall|i: int| 0 <= i < dec_chars(n).len() ==> is_dec_digit(#[trigger] dec_chars(n)[i]),
    decreases n,
{
    if n >= 10 {
        lemma_dec_chars_shape(n / 10);
    }
}

/// Every row is exactly as wide as the whole table, with the column
/// borders at the same places whatever the task's depth, position, or
/// text, as long as the widths cover the row; the prefix before the due
/// cell always spans the name width.
pub proof fn lemma_row_alignment(t: TaskView, depth: nat, pos1: nat, nw: int, dw: int, cw: int)
    requires
        name_need(t, depth, pos1) <= nw,
        t.due.len() <= dw,
        t.description.len() <= cw,
    ensures
        row_line(t, depth, pos1, nw, dw, cw).len() == total_width(nw, dw, cw),
        row_line(t, depth, pos1, nw, dw, cw)[0] == '|',
        row_line(t, depth, pos1, nw, dw, cw)[nw + 3] == '|',
        row_line(t, depth, pos1, nw, dw, cw)[nw + dw + 6] == '|',
        row_line(t, depth, pos1, nw, dw, cw)[nw + dw + cw + 9] == '|',
{
    reveal_strlit("| ");
    reveal_strlit(". [");
    reveal_strlit("x");
    reveal_strlit(" ");
    reveal_strlit("] ");
    reveal_strlit("|");
    lemma_dec_chars_shape(pos1);
}

proof fn lemma_due_width_covers(ts: Seq<TaskView>)
    ensures
        due_width(ts) >= 3,
        forall|i: int|
            0 <= i < ts.len() ==> (#[trigger] ts[i].due).len() <= due_width(ts),
        forall|i: int|
            0 <= i < ts.len() ==> #[trigger] due_width(ts[i].subitems) <= due_width(ts),
    decreases ts,
{
    if ts.len() > 0 {
        let rest = ts.subrange(1, ts.len() as int);
        lemma_due_width_covers(rest);
        assert forall|i: int| 0 <= i < ts.len() implies (#[trigger] ts[i].due).len()
            <= due_width(ts) by {
            if i > 0 {
                assert(rest[i - 1] == ts[i]);
                assert(rest[i - 1].due.len() <= due_width(rest));
            }
        }
        assert forall|i: int| 0 <= i < ts.len() implies #[trigger] due_width(ts[i].subitems)
            <= due_width(ts) by {
            if i > 0 {
                assert(rest[i - 1] == ts[i]);
                assert(due_width(rest[i - 1].subitems) <= due_width(rest));
            }
        }
    }
}

proof fn lemma_desc_width_covers(ts: Seq<TaskView>)
    ensures
        desc_width(ts) >= 11,
        forall|i: int|
            0 <= i < ts.len() ==> (#[trigger] ts[i].description).len() <= desc_width(ts),
        forall|i: int|
            0 <= i < ts.len() ==> #[trigger] desc_width(ts[i].subitems) <= desc_width(ts),
    decreases ts,
{
    if ts.len() > 0 {
        let rest = ts.subrange(1, ts.len() as int);
        lemma_desc_width_covers(rest);
        assert forall|i: int| 0 <= i < ts.len() implies (#[trigger] ts[i].description).len()
            <= desc_width(ts) by {
            if i > 0 {
                assert(rest[i - 1] == ts[i]);
                assert(rest[i - 1].description.len() <= desc_width(rest));
            }
        }
        assert forall|i: int| 0 <= i < ts.len() implies #[trigger] desc_width(ts[i].subitems)
            <= desc_width(ts) by {
            if i > 0 {
                assert(rest[i - 1] == ts[i]);
                assert(desc_width(rest[i - 1].subitems) <= desc_width(rest));
            }
        }
    }
}

/// A line that fits the table: exactly as wide as the three cells and
/// their borders, and, unless it is a divider, bordered at the same
/// four columns as every other row.
pub open spec fn aligned_line(l: Seq<char>, nw: int, dw: int, cw: int) -> bool {
    l.len() == total_width(nw, dw, cw) && (l == dash_row(total_width(nw, dw, cw)) || (l[0] == '|'
        && l[nw + 3] == '|' && l[nw + dw + 6] == '|' && l[nw + dw + cw + 9] == '|'))
}

proof fn lemma_sub_lines_aligned(
    ts: Seq<TaskView>,
    depth: nat,
    pos1: nat,
    nw: int,
    dw: int,
    cw: int,
)
    requires
        name_width(ts, depth, pos1) <= nw,
        due_width(ts) <= dw,
        desc_width(ts) <= cw,
    ensures
        forall|i: int|
            0 <= i < sub_lines(ts, depth, pos1, nw, dw, cw).len() ==> aligned_line(
                #[trigger] sub_lines(ts, depth, pos1, nw, dw, cw)[i],
                nw,
                dw,
                cw,
            ),
    decreases ts,
{
    if ts.len() > 0 {
        crate::render::lemma_name_width_covers(ts, depth, pos1);
        lemma_due_width_covers(ts);
        lemma_desc_width_covers(ts);
        assert(name_need(ts[0], depth, (pos1 + 0) as nat) <= name_width(ts, depth, pos1));
        lemma_row_alignment(ts[0], depth, pos1, nw, dw, cw);
        lemma_sub_lines_aligned(ts[0].subitems, (depth + 1) as nat, 1, nw, dw, cw);
        lemma_sub_lines_aligned(
            ts.subrange(1, ts.len() as int),
            depth,
            (pos1 + 1) as nat,
            nw,
            dw,
            cw,
        );
        let a = seq![row_line(ts[0], depth, pos1, nw, dw, cw)];
        let b = sub_lines(ts[0].subitems, (depth + 1) as nat, 1, nw, dw, cw);
        let c = sub_lines(ts.subrange(1, ts.len() as int), depth, (pos1 + 1) as nat, nw, dw, cw);
        assert(sub_lines(ts, depth, pos1, nw, dw, cw) == (a + b) + c);
        assert forall|i: int| 0 <= i < ((a + b) + c).len() implies aligned_line(
            #[trigger] ((a + b) + c)[i],
            nw,
            dw,
            cw,
        ) by {
            if i < a.len() + b.len() {
                assert(((a + b) + c)[i] == (a + b)[i]);
                if i >= a.len() {
                    assert((a + b)[i] == b[i - 1]);
                }
            } else {
                assert(((a + b) + c)[i] == c[i - a.len() - b.len()]);
            }
        }
    }
}

proof fn lemma_top_lines_aligned(
    ts: Seq<TaskView>,
    depth: nat,
    pos1: nat,
    nw: int,
    dw: int,
    cw: int,
)
    requires
        name_width(ts, depth, pos1) <= nw,
        due_width(ts) <= dw,
        desc_width(ts) <= cw,
    ensures
        forall|i: int|
            0 <= i < top_lines(ts, depth, pos1, nw, dw, cw).len() ==> aligned_line(
                #[trigger] top_lines(ts, depth, pos1, nw, dw, cw)[i],
                nw,
                dw,
                cw,
            ),
    decreases ts,
{
    if ts.len() > 0 {
        crate::render::lemma_name_width_covers(ts, depth, pos1);
        lemma_due_width_covers(ts);
        lemma_desc_width_covers(ts);
        assert(name_need(ts[0], depth, (pos1 + 0) as nat) <= name_width(ts, depth, pos1));
        lemma_row_alignment(ts[0], depth, pos1, nw, dw, cw);
        lemma_sub_lines_aligned(ts[0].subitems, (depth + 1) as nat, 1, nw, dw, cw);
        lemma_top_lines_aligned(
            ts.subrange(1, ts.len() as int),
            depth,
            (pos1 + 1) as nat,
            nw,
            dw,
            cw,
        );
        let a = seq![
            dash_row(total_width(nw, dw, cw)),
            row_line(ts[0], depth, pos1, nw, dw, cw),
        ];
        let b = sub_lines(ts[0].subitems, (depth + 1) as nat, 1, nw, dw, cw);
        let c = top_lines(ts.subrange(1, ts.len() as int), depth, (pos1 + 1) as nat, nw, dw, cw);
        assert(top_lines(ts, depth, pos1, nw, dw, cw) == (a + b) + c);
        assert forall|i: int| 0 <= i < ((a + b) + c).len() implies aligned_line(
            #[trigger] ((a + b) + c)[i],
            nw,
            dw,
            cw,
        ) by {
            if i < a.len() + b.len() {
                assert(((a + b) + c)[i] == (a + b)[i]);
                if i >= a.len() {
                    assert((a + b)[i] == b[i - 2]);
                }
            } else {
                assert(((a + b) + c)[i] == c[i - a.len() - b.len()]);
            }
        }
    }
}

/// In a table measured on its own tree, every line spans exactly the
/// measured total width, and every row's four borders stand at the same
/// columns, whatever each task's depth, position, or text.
pub proof fn lemma_table_alignment(t: TaskView)
    ensures
        ({
            let nw = name_width(t.subitems, 0, 1);
            let dw = due_width(t.subitems);
            let cw = desc_width(t.subitems);
            let lines = table_lines(t, nw, dw, cw);
            forall|i: int|
                0 <= i < lines.len() ==> aligned_line(#[trigger] lines[i], nw, dw, cw)
        }),
{
    let nw = name_width(t.subitems, 0, 1);
    let dw = due_width(t.subitems);
    let cw = desc_width(t.subitems);
    let lines = table_lines(t, nw, dw, cw);
    let total = total_width(nw, dw, cw);
    crate::render::lemma_name_width_covers(t.subitems, 0, 1);
    lemma_due_width_covers(t.subitems);
    lemma_desc_width_covers(t.subitems);
    reveal_strlit("| Name ");
    reveal_strlit("| Due ");
    reveal_strlit("| Description ");
    reveal_strlit("|");
    assert(header_line(nw, dw, cw).len() == total);
    assert(header_line(nw, dw, cw)[0] == '|');
    assert(header_line(nw, dw, cw)[nw + 3] == '|');
    assert(header_line(nw, dw, cw)[nw + dw + 6] == '|');
    assert(header_line(nw, dw, cw)[nw + dw + cw + 9] == '|');
    lemma_top_lines_aligned(t.subitems, 0, 1, nw, dw, cw);
    let tl = top_lines(t.subitems, 0, 1, nw, dw, cw);
    assert forall|i: int| 0 <= i < lines.len() implies aligned_line(
        #[trigger] lines[i],
        nw,
        dw,
        cw,
    ) by {
        if i == 0 || i == lines.len() - 1 {
            assert(lines[i] == dash_row(total));
        } else if i == 1 {
            assert(lines[1] == header_line(nw, dw, cw));
        } else {
            assert(lines[i] == tl[i - 2]);
        }
    }
}

/// A line of nothing but dashes.
pub open spec fn all_dashes(l: Seq<char>) -> bool {
    l.len() > 0 && (forall|j: int| 0 <= j < l.len() ==> l[j] == '-')
}

/// What any line of a task group can look like: a full-width divider,
/// or a bordered row that cannot be mistaken for the header.
pub open spec fn dash_or_row(l: Seq<char>, total: int) -> bool {
    l == dash_row(total) || (l.len() > 2 && l[0] == '|' && l[2] != 'N')
}

proof fn lemma_row_shape(t: TaskView, depth: nat, pos1: nat, nw: int, dw: int, cw: int)
    ensures
        row_line(t, depth, pos1, nw, dw, cw).len() > 2,
        row_line(t, depth, pos1, nw, dw, cw)[0] == '|',
        row_line(t, depth, pos1, nw, dw, cw)[2] != 'N',
{
    reveal_strlit("| ");
    reveal_strlit(". [");
    reveal_strlit("x");
    reveal_strlit(" ");
    reveal_strlit("] ");
    reveal_strlit("|");
    lemma_dec_chars_shape(pos1);
    if depth == 0 {
        assert(row_line(t, depth, pos1, nw, dw, cw)[2] == dec_chars(pos1)[0]);
        assert(is_dec_digit(dec_chars(pos1)[0]));
    } else {
        assert(row_line(t, depth, pos1, nw, dw, cw)[2] == ' ');
    }
}

proof fn lemma_sub_lines_shape(ts: Seq<TaskView>, depth: nat, pos1: nat, nw: int, dw: int, cw: int)
    ensures
        forall|i: int|
            0 <= i < sub_lines(ts, depth, pos1, nw, dw, cw).len() ==> dash_or_row(
                #[trigger] sub_lines(ts, depth, pos1, nw, dw, cw)[i],
                total_width(nw, dw, cw),
            ),
    decreases ts,
{
    if ts.len() > 0 {
        lemma_row_shape(ts[0], depth, pos1, nw, dw, cw);
        lemma_sub_lines_shape(ts[0].subitems, (depth + 1) as nat, 1, nw, dw, cw);
        lemma_sub_lines_shape(ts.subrange(1, ts.len() as int), depth, (pos1 + 1) as nat, nw, dw, cw);
        let a = seq![row_line(ts[0], depth, pos1, nw, dw, cw)];
        let b = sub_lines(ts[0].subitems, (depth + 1) as nat, 1, nw, dw, cw);
        let c = sub_lines(ts.subrange(1, ts.len() as int), depth, (pos1 + 1) as nat, nw, dw, cw);
        assert(sub_lines(ts, depth, pos1, nw, dw, cw) == (a + b) + c);
        assert forall|i: int| 0 <= i < ((a + b) + c).len() implies dash_or_row(
            #[trigger] ((a + b) + c)[i],
            total_width(nw, dw, cw),
        ) by {
            if i < a.len() + b.len() {
                assert(((a + b) + c)[i] == (a + b)[i]);
                if i >= a.len() {
                    assert((a + b)[i] == b[i - 1]);
                }
            } else {
                assert(((a + b) + c)[i] == c[i - a.len() - b.len()]);
            }
        }
    }
}

proof fn lemma_top_lines_shape(ts: Seq<TaskView>, depth: nat, pos1: nat, nw: int, dw: int, cw: int)
    ensures
        forall|i: int|
            0 <= i < top_lines(ts, depth, pos1, nw, dw, cw).len() ==> dash_or_row(
                #[trigger] top_lines(ts, depth, pos1, nw, dw, cw)[i],
                total_width(nw, dw, cw),
            ),
    decreases ts,
{
    if ts.len() > 0 {
        lemma_row_shape(ts[0], depth, pos1, nw, dw, cw);
        lemma_sub_lines_shape(ts[0].subitems, (depth + 1) as nat, 1, nw, dw, cw);
        lemma_top_lines_shape(ts.subrange(1, ts.len() as int), depth, (pos1 + 1) as nat, nw, dw, cw);
        let a = seq![
            dash_row(total_width(nw, dw, cw)),
            row_line(ts[0], depth, pos1, nw, dw, cw),
        ];
        let b = sub_lines(ts[0].subitems, (depth + 1) as nat, 1, nw, dw, cw);
        let c = top_lines(ts.subrange(1, ts.len() as int), depth, (pos1 + 1) as nat, nw, dw, cw);
        assert(top_lines(ts, depth, pos1, nw, dw, cw) == (a + b) + c);
        assert forall|i: int| 0 <= i < ((a + b) + c).len() implies dash_or_row(
            #[trigger] ((a + b) + c)[i],
            total_width(nw, dw, cw),
        ) by {
            if i < a.len() + b.len() {
                assert(((a + b) + c)[i] == (a + b)[i]);
                if i >= a.len() {
                    assert((a + b)[i] == b[i - 2]);
                }
            } else {
                assert(((a + b) + c)[i] == c[i - a.len() - b.len()]);
            }
        }
    }
}

/// In the rendered table of any non-empty tree, measured on that same
/// tree, the header stands exactly once, and every divider line is
/// exactly as wide as the three measured columns and their borders.
pub proof fn lemma_table_shape(t: TaskView)
    requires
        t.subitems.len() > 0,
    ensures
        ({
            let nw = name_width(t.subitems, 0, 1);
            let dw = due_width(t.subitems);
            let cw = desc_width(t.subitems);
            let lines = table_lines(t, nw, dw, cw);
            let total = total_width(nw, dw, cw);
            &&& lines[1] == header_line(nw, dw, cw)
            &&& forall|i: int|
                0 <= i < lines.len() && i != 1 ==> lines[i] != header_line(nw, dw, cw)
            &&& forall|i: int|
                0 <= i < lines.len() && all_dashes(#[trigger] lines[i]) ==> lines[i].len()
                    == total
        }),
{
    let nw = name_width(t.subitems, 0, 1);
    let dw = due_width(t.subitems);
    let cw = desc_width(t.subitems);
    let lines = table_lines(t, nw, dw, cw);
    let total = total_width(nw, dw, cw);
    let tl = top_lines(t.subitems, 0, 1, nw, dw, cw);
    assert(nw >= 4);
    assert(dw >= 3);
    assert(cw >= 11);
    reveal_strlit("| Name ");
    assert(header_line(nw, dw, cw)[0] == '|');
    assert(header_line(nw, dw, cw)[2] == 'N');
    lemma_top_lines_shape(t.subitems, 0, 1, nw, dw, cw);
    assert(lines[0] == dash_row(total));
    assert(lines[1] == header_line(nw, dw, cw));
    assert(lines[lines.len() - 1] == dash_row(total));
    assert(dash_row(total).len() == total);
    assert(dash_row(total)[2] == '-');
    assert forall|i: int| 0 <= i < lines.len() && i != 1 implies lines[i] != header_line(
        nw,
        dw,
        cw,
    ) by {
        if i == 0 || i == lines.len() - 1 {
            assert(lines[i][2] == '-');
        } else {
            assert(lines[i] == tl[i - 2]);
            assert(dash_or_row(tl[i - 2], total));
        }
    }
    assert forall|i: int| 0 <= i < lines.len() && all_dashes(#[trigger] lines[i]) implies lines[i].len()
        == total by {
        if i == 1 {
            assert(lines[1][0] == '|');
        } else if 0 < i < lines.len() - 1 {
            assert(lines[i] == tl[i - 2]);
            assert(dash_or_row(tl[i - 2], total));
            if tl[i - 2] != dash_row(total) {
                assert(lines[i][0] == '|');
            }
        }
    }
}

} // verus!
