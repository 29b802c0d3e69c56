//! The task tree: each task owns an ordered sequence of sub-tasks, and a
//! node is addressed by a path of 0-based child indices, one per level.

use vstd::prelude::*;

verus! {

/// One entry of the to-do tree. A task owns its sub-tasks outright, so the
/// structure is always a tree.
pub struct ToDoItem {
    pub name: String,
    pub status: bool,
    pub due: String,
    pub description: String,
    pub subitems: Vec<ToDoItem>,
}

/// The mathematical model of a task: every string as a sequence of
/// characters and the sub-tasks as a sequence of models.
pub ghost struct TaskView {
    pub name: Seq<char>,
    pub status: bool,
    pub due: Seq<char>,
    pub description: Seq<char>,
    pub subitems: Seq<TaskView>,
}

/// The models of a sequence of tasks, in order.
pub open spec fn task_views(ts: Seq<ToDoItem>) -> Seq<TaskView>
    decreases ts,
{
    if ts.len() == 0 {
        Seq::empty()
    } else {
        let t0 = ts[0];
        seq![TaskView {
            name: t0.name@,
            status: t0.status,
            due: t0.due@,
            description: t0.description@,
            subitems: task_views(t0.subitems@),
        }] + task_views(ts.subrange(1, ts.len() as int))
    }
}

/// The model of a single task.
pub open spec fn task_view(t: ToDoItem) -> TaskView {
    TaskView {
        name: t.name@,
        status: t.status,
        due: t.due@,
        description: t.description@,
        subitems: task_views(t.subitems@),
    }
}

impl View for ToDoItem {
    type V = TaskView;

    open spec fn view(&self) -> TaskView {
        task_view(*self)
    }
}

pub broadcast proof fn lemma_task_views_index(ts: Seq<ToDoItem>)
    ensures
        #[trigger] task_views(ts).len() == ts.len(),
        forall|i: int| 0 <= i < ts.len() ==> task_views(ts)[i] == ts[i]@,
    decreases ts,
{
    if ts.len() > 0 {
        lemma_task_views_index(ts.subrange(1, ts.len() as int));
        assert forall|i: int| 0 <= i < ts.len() implies task_views(ts)[i] == ts[i]@ by {
            if i > 0 {
                assert(ts.subrange(1, ts.len() as int)[i - 1] == ts[i]);
            }
        }
    }
}

/// The node a (possibly empty) index path leads to, one 0-based child
/// index per level; the empty path names the starting node itself.
pub open spec fn node_at(t: TaskView, path: Seq<usize>) -> Option<TaskView>
    decreases path.len(),
{
    if path.len() == 0 {
        Some(t)
    } else {
        let k = path[0] as int;
        if 0 <= k < t.subitems.len() {
            node_at(t.subitems[k], path.subrange(1, path.len() as int))
        } else {
            None
        }
    }
}

/// Path resolution as the user sees it: the empty path names no task, and
/// every segment must be in range at its level.
pub open spec fn resolve_at(t: TaskView, path: Seq<usize>) -> Option<TaskView> {
    if path.len() == 0 {
        None
    } else {
        node_at(t, path)
    }
}

/// The tree with the node the path leads to replaced by `nv`; where the
/// path does not resolve, the tree unchanged.
pub open spec fn update_at(t: TaskView, path: Seq<usize>, nv: TaskView) -> TaskView
    decreases path.len(),
{
    if path.len() == 0 {
        nv
    } else {
        let k = path[0] as int;
        if 0 <= k < t.subitems.len() {
            TaskView {
                name: t.name,
                status: t.status,
                due: t.due,
                description: t.description,
                subitems: t.subitems.update(
                    k,
                    update_at(t.subitems[k], path.subrange(1, path.len() as int), nv),
                ),
            }
        } else {
            t
        }
    }
}

pub proof fn lemma_task_views_update(ts: Seq<ToDoItem>, k: int, x: ToDoItem)
    requires
        0 <= k < ts.len(),
    ensures
        task_views(ts.update(k, x)) == task_views(ts).update(k, x@),
{
    lemma_task_views_index(ts);
    lemma_task_views_index(ts.update(k, x));
    assert(task_views(ts.update(k, x)) =~= task_views(ts).update(k, x@));
}

pub proof fn lemma_task_views_push(ts: Seq<ToDoItem>, x: ToDoItem)
    ensures
        task_views(ts.push(x)) == task_views(ts).push(x@),
{
    lemma_task_views_index(ts);
    lemma_task_views_index(ts.push(x));
    assert(task_views(ts.push(x)) =~= task_views(ts).push(x@));
}

pub proof fn lemma_task_views_remove(ts: Seq<ToDoItem>, k: int)
    requires
        0 <= k < ts.len(),
    ensures
        task_views(ts.remove(k)) == task_views(ts).remove(k),
{
    lemma_task_views_index(ts);
    lemma_task_views_index(ts.remove(k));
    assert(task_views(ts.remove(k)) =~= task_views(ts).remove(k));
}

impl ToDoItem {
    /// A fresh task: not yet done, with no sub-tasks.
    pub fn new(name: String, due: String, description: String) -> (t: ToDoItem)
        ensures
            t@ == (TaskView {
                name: name@,
                status: false,
                due: due@,
                description: description@,
                subitems: Seq::<TaskView>::empty(),
            }),
    {
        ToDoItem { name, status: false, due, description, subitems: Vec::new() }
    }
}

/// Walks the tasks below `t` along `path[pos..end]` and hands back the
/// task that segment of the path leads to, as a place the caller may
/// mutate.
fn nth_from<'a>(t: &'a mut ToDoItem, path: &Vec<usize>, pos: usize, end: usize) -> (r: Option<
    &'a mut ToDoItem,
>)
    requires
        pos < end <= path@.len(),
    ensures
        r.is_some() == (node_at(old(t)@, path@.subrange(pos as int, end as int)) is Some),
        r.is_some() ==> (*r.unwrap())@ == node_at(
            old(t)@,
            path@.subrange(pos as int, end as int),
        ).unwrap() && final(t)@ == update_at(
            old(t)@,
            path@.subrange(pos as int, end as int),
            (*final(r.unwrap()))@,
        ),
        r.is_none() ==> final(t)@ == old(t)@,
    decreases end - pos,
{
    broadcast use lemma_task_views_index;

    let ghost seg = path@.subrange(pos as int, end as int);
    let ghost oview = t@;
    let ghost osubs = t.subitems@;
    let k = path[pos];
    if k < t.subitems.len() {
        proof {
            assert(oview.subitems[k as int] == osubs[k as int]@);
            assert(seg.subrange(1, seg.len() as int) =~= path@.subrange(
                pos as int + 1,
                end as int,
            ));
            assert forall|x: ToDoItem|
                #[trigger] task_views(osubs.update(k as int, x)) == task_views(osubs).update(
                    k as int,
                    x@,
                ) by {
                lemma_task_views_update(osubs, k as int, x);
            }
            assert forall|x: ToDoItem| #[trigger] x@ == osubs[k as int]@ implies task_views(
                osubs,
            ).update(k as int, x@) == task_views(osubs) by {
                lemma_task_views_index(osubs);
                assert(task_views(osubs).update(k as int, x@) =~= task_views(osubs));
            }
            assert forall|nv: TaskView|
                #[trigger] update_at(oview, seg, nv) == (TaskView {
                    name: oview.name,
                    status: oview.status,
                    due: oview.due,
                    description: oview.description,
                    subitems: oview.subitems.update(
                        k as int,
                        update_at(
                            oview.subitems[k as int],
                            seg.subrange(1, seg.len() as int),
                            nv,
                        ),
                    ),
                }) by {}
        }
        let child = &mut t.subitems[k];
        if pos + 1 == end {
            proof {
                assert(seg.len() == 1);
                assert(seg.subrange(1, seg.len() as int) =~= Seq::<usize>::empty());
                assert(node_at(oview.subitems[k as int], Seq::<usize>::empty())
                    == Some(oview.subitems[k as int]));
                assert forall|nv: TaskView|
                    #[trigger] update_at(oview.subitems[k as int], Seq::<usize>::empty(), nv)
                        == nv by {}
                lemma_task_views_update(osubs, k as int, *final(child));
            }
            Some(child)
        } else {
            nth_from(child, path, pos + 1, end)
        }
    } else {
        proof {
            lemma_task_views_index(osubs);
            assert(node_at(oview, seg) is None);
        }
        None
    }
}

/// The task at a dotted index path, ready for in-place mutation.
///
/// The empty path and any out-of-range segment resolve to nothing, and
/// the tree is then left as it was.
pub fn get_nth_todo<'a>(todo_list: &'a mut ToDoItem, index_list: Vec<usize>) -> (r: Option<
    &'a mut ToDoItem,
>)
    ensures
        r.is_some() == (resolve_at(old(todo_list)@, index_list@) is Some),
        r.is_some() ==> (*r.unwrap())@ == resolve_at(old(todo_list)@, index_list@).unwrap()
            && final(todo_list)@ == update_at(
            old(todo_list)@,
            index_list@,
            (*final(r.unwrap()))@,
        ),
        r.is_none() ==> final(todo_list)@ == old(todo_list)@,
{
    if index_list.len() == 0 {
        None
    } else {
        proof {
            assert(index_list@.subrange(0, index_list@.len() as int) =~= index_list@);
        }
        nth_from(todo_list, &index_list, 0, index_list.len())
    }
}

/// The direct parent container of the node the path names, together with
/// the final path segment, ready for a bounds-checked mutation; all but
/// the last segment must resolve. For a one-segment path the parent is
/// the tree's root container itself.
pub fn get_nth_parent<'a>(todo_list: &'a mut ToDoItem, index_list: Vec<usize>) -> (r: Option<
    (&'a mut ToDoItem, usize),
>)
    ensures
        r.is_some() == (index_list@.len() > 0 && node_at(
            old(todo_list)@,
            index_list@.take(index_list@.len() - 1),
        ) is Some),
        r.is_some() ==> r.unwrap().1 == index_list@.last() && (*r.unwrap().0)@ == node_at(
            old(todo_list)@,
            index_list@.take(index_list@.len() - 1),
        ).unwrap() && final(todo_list)@ == update_at(
            old(todo_list)@,
            index_list@.take(index_list@.len() - 1),
            (*final(r.unwrap().0))@,
        ),
        r.is_none() ==> final(todo_list)@ == old(todo_list)@,
{
    let n = index_list.len();
    if n == 0 {
        None
    } else if n == 1 {
        proof {
            assert(index_list@.take(index_list@.len() - 1) =~= Seq::<usize>::empty());
        }
        let last = index_list[0];
        Some((todo_list, last))
    } else {
        proof {
            assert(index_list@.take(index_list@.len() - 1) =~= index_list@.subrange(
                0,
                n - 1 as int,
            ));
        }
        let last = index_list[n - 1];
        match nth_from(todo_list, &index_list, 0, n - 1) {
            Some(parent) => Some((parent, last)),
            None => None,
        }
    }
}

/// A task's model after its done-mark is set.
pub open spec fn set_status_view(t: TaskView, value: bool) -> TaskView {
    TaskView {
        name: t.name,
        status: value,
        due: t.due,
        description: t.description,
        subitems: t.subitems,
    }
}

/// A task's model after one more sub-task is appended.
pub open spec fn push_child_view(t: TaskView, c: TaskView) -> TaskView {
    TaskView {
        name: t.name,
        status: t.status,
        due: t.due,
        description: t.description,
        subitems: t.subitems.push(c),
    }
}

/// A task's model after the sub-task at `k` is removed with its whole
/// subtree; out of range, the task unchanged.
pub open spec fn remove_child_view(t: TaskView, k: int) -> TaskView {
    if 0 <= k < t.subitems.len() {
        TaskView {
            name: t.name,
            status: t.status,
            due: t.due,
            description: t.description,
            subitems: t.subitems.remove(k),
        }
    } else {
        t
    }
}

/// Marks the task the path resolves to as done or not done; an
/// unresolved path leaves the tree untouched.
pub fn set_status(todo_list: &mut ToDoItem, index_list: Vec<usize>, value: bool) -> (ok: bool)
    ensures
        ok == (resolve_at(old(todo_list)@, index_list@) is Some),
        ok ==> final(todo_list)@ == update_at(
            old(todo_list)@,
            index_list@,
            set_status_view(resolve_at(old(todo_list)@, index_list@).unwrap(), value),
        ),
        !ok ==> final(todo_list)@ == old(todo_list)@,
{
    match get_nth_todo(todo_list, index_list) {
        Some(item) => {
            let ghost before = *item;
            item.status = value;
            proof {
                assert((*final(item))@ == set_status_view(before@, value));
            }
            true
        },
        None => false,
    }
}

/// Appends one more top-level task to the root container.
pub fn push_item(todo_list: &mut ToDoItem, item: ToDoItem)
    ensures
        final(todo_list)@ == push_child_view(old(todo_list)@, item@),
{
    let ghost before = *todo_list;
    proof {
        lemma_task_views_push(before.subitems@, item);
    }
    todo_list.subitems.push(item);
}

/// Appends a new sub-task under the task the path resolves to; an
/// unresolved path leaves the tree untouched.
pub fn add_subitem(todo_list: &mut ToDoItem, index_list: Vec<usize>, item: ToDoItem) -> (ok: bool)
    ensures
        ok == (resolve_at(old(todo_list)@, index_list@) is Some),
        ok ==> final(todo_list)@ == update_at(
            old(todo_list)@,
            index_list@,
            push_child_view(resolve_at(old(todo_list)@, index_list@).unwrap(), item@),
        ),
        !ok ==> final(todo_list)@ == old(todo_list)@,
{
    let ghost iview = item@;
    match get_nth_todo(todo_list, index_list) {
        Some(parent) => {
            let ghost before = *parent;
            proof {
                lemma_task_views_push(before.subitems@, item);
            }
            parent.subitems.push(item);
            proof {
                assert((*final(parent))@ == push_child_view(before@, iview));
            }
            true
        },
        None => false,
    }
}

proof fn lemma_update_self(t: TaskView, path: Seq<usize>)
    requires
        node_at(t, path) is Some,
    ensures
        update_at(t, path, node_at(t, path).unwrap()) == t,
    decreases path.len(),
{
    if path.len() == 0 {
    } else {
        let k = path[0] as int;
        lemma_update_self(t.subitems[k], path.subrange(1, path.len() as int));
        assert(t.subitems.update(k, t.subitems[k]) =~= t.subitems);
    }
}

/// Removes the subtree the path names: all but the last segment must
/// resolve to the parent, and the last segment must be in range there;
/// otherwise nothing is removed.
pub fn delete_item(todo_list: &mut ToDoItem, index_list: Vec<usize>) -> (deleted: bool)
    ensures
        deleted == (index_list@.len() > 0 && node_at(
            old(todo_list)@,
            index_list@.take(index_list@.len() - 1),
        ) is Some && (index_list@.last() as int) < node_at(
            old(todo_list)@,
            index_list@.take(index_list@.len() - 1),
        ).unwrap().subitems.len()),
        deleted ==> final(todo_list)@ == update_at(
            old(todo_list)@,
            index_list@.take(index_list@.len() - 1),
            remove_child_view(
                node_at(old(todo_list)@, index_list@.take(index_list@.len() - 1)).unwrap(),
                index_list@.last() as int,
            ),
        ),
        !deleted ==> final(todo_list)@ == old(todo_list)@,
{
    broadcast use lemma_task_views_index;

    let ghost oview = todo_list@;
    let ghost pre = index_list@.take(index_list@.len() - 1);
    match get_nth_parent(todo_list, index_list) {
        Some((parent, k)) => {
            let ghost before = *parent;
            if k < parent.subitems.len() {
                proof {
                    lemma_task_views_remove(before.subitems@, k as int);
                }
                parent.subitems.remove(k);
                proof {
                    assert((*final(parent))@ == remove_child_view(before@, k as int));
                }
                true
            } else {
                proof {
                    lemma_update_self(oview, pre);
                }
                false
            }
        },
        None => false,
    }
}

} // verus!
