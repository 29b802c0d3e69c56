//! The table renderer. One pass measures the widest name, due and
//! description over the whole tree, counting per-level indentation and
//! the row label in the name column; a second pass lays every row out
//! against exactly those widths, so that the borders line up at every
//! depth.

use vstd::prelude::*;
use crate::item::ToDoItem;
use crate::item::TaskView;
use crate::item::task_views;
use crate::item::lemma_task_views_index;

verus! {

/// How many decimal digits a number prints as.
pub open spec fn dig_count(n: nat) -> nat
    decreases n,
{
    if n < 10 {
        1
    } else {
        1 + dig_count(n / 10)
    }
}

/// An integer clamped to what a machine word holds.
pub open spec fn clamp_usize(x: int) -> int {
    if x <= usize::MAX {
        x
    } else {
        usize::MAX as int
    }
}

/// The width the name cell of one row asks for: the name itself, four
/// columns of indentation per level, the digits of the 1-based row
/// label, and six characters of fixed decoration around them.
pub open spec fn name_need(t: TaskView, depth: nat, pos1: nat) -> int {
    t.name.len() + depth * 4 + dig_count(pos1) + (6 as int)
}

pub open spec fn wmax(a: int, b: int) -> int {
    if a >= b {
        a
    } else {
        b
    }
}

/// The widest name cell over `ts` and everything below it, the tasks of
/// `ts` sitting at `depth` with 1-based positions starting at `pos1`;
/// never under the four columns the header label needs.
pub open spec fn name_width(ts: Seq<TaskView>, depth: nat, pos1: nat) -> int
    decreases ts,
{
    if ts.len() == 0 {
        4
    } else {
        wmax(
            wmax(
                wmax(4, name_need(ts[0], depth, pos1)),
                name_width(ts[0].subitems, (depth + 1) as nat, 1),
            ),
            name_width(ts.subrange(1, ts.len() as int), depth, (pos1 + 1) as nat),
        )
    }
}

/// The widest due entry over the whole tree; never under the three
/// columns of the header label.
pub open spec fn due_width(ts: Seq<TaskView>) -> int
    decreases ts,
{
    if ts.len() == 0 {
        3
    } else {
        wmax(
            wmax(wmax(3, ts[0].due.len() as int), due_width(ts[0].subitems)),
            due_width(ts.subrange(1, ts.len() as int)),
        )
    }
}

/// The widest description over the whole tree; never under the eleven
/// columns of the header label.
pub open spec fn desc_width(ts: Seq<TaskView>) -> int
    decreases ts,
{
    if ts.len() == 0 {
        11
    } else {
        wmax(
            wmax(wmax(11, ts[0].description.len() as int), desc_width(ts[0].subitems)),
            desc_width(ts.subrange(1, ts.len() as int)),
        )
    }
}

/// Addition that stops at the largest machine word.
fn sat_add(a: usize, b: usize) -> (r: usize)
    ensures
        r as int == clamp_usize(a + b),
{
    if a <= usize::MAX - b {
        a + b
    } else {
        usize::MAX
    }
}

/// Four times a number, stopped at the largest machine word.
fn sat_mul4(a: usize) -> (r: usize)
    ensures
        r as int == clamp_usize(4 * a),
{
    if a <= usize::MAX / 4 {
        a * 4
    } else {
        usize::MAX
    }
}

pub open spec fn pow10(k: nat) -> nat
    decreases k,
{
    if k == 0 {
        1
    } else {
        10 * pow10((k - 1) as nat)
    }
}

proof fn lemma_dig_count_lt_pow(n: nat, k: nat)
    requires
        k >= 1,
        n < pow10(k),
    ensures
        dig_count(n) <= k,
    decreases k,
{
    if n >= 10 {
        assert(pow10(k) == 10 * pow10((k - 1) as nat));
        assert(n / 10 < pow10((k - 1) as nat));
        lemma_dig_count_lt_pow(n / 10, (k - 1) as nat);
    }
}

proof fn lemma_dig_count_word(n: nat)
    requires
        n <= usize::MAX,
    ensures
        dig_count(n) <= 20,
{
    lemma_pow10_20();
    lemma_dig_count_lt_pow(n, 20);
}

proof fn lemma_pow10_20()
    ensures
        pow10(20) == 100000000000000000000,
{
    assert(pow10(0) == 1);
    assert(pow10(1) == 10);
    assert(pow10(2) == 100);
    assert(pow10(3) == 1000);
    assert(pow10(4) == 10000);
    assert(pow10(5) == 100000);
    assert(pow10(6) == 1000000);
    assert(pow10(7) == 10000000);
    assert(pow10(8) == 100000000);
    assert(pow10(9) == 1000000000);
    assert(pow10(10) == 10000000000);
    assert(pow10(11) == 100000000000);
    assert(pow10(12) == 1000000000000);
    assert(pow10(13) == 10000000000000);
    assert(pow10(14) == 100000000000000);
    assert(pow10(15) == 1000000000000000);
    assert(pow10(16) == 10000000000000000);
    assert(pow10(17) == 100000000000000000);
    assert(pow10(18) == 1000000000000000000);
    assert(pow10(19) == 10000000000000000000);
    assert(pow10(20) == 100000000000000000000);
}

/// How many decimal digits a number prints as.
pub fn digit_count(n: usize) -> (d: usize)
    ensures
        d as nat == dig_count(n as nat),
{
    let mut cur = n;
    let mut d: usize = 1;
    while cur >= 10
        invariant
            dig_count(n as nat) == d - 1 + dig_count(cur as nat),
            1 <= d <= 21,
        decreases cur,
    {
        proof {
            lemma_dig_count_word(n as nat);
        }
        cur = cur / 10;
        d = d + 1;
    }
    d
}

/// Every row below `ts` asks no more of the name column than the
/// measured width, and the width is at least the header's four columns.
pub(crate) proof fn lemma_name_width_covers(ts: Seq<TaskView>, depth: nat, pos1: nat)
    ensures
        name_width(ts, depth, pos1) >= 4,
        forall|i: int|
            0 <= i < ts.len() ==> #[trigger] name_need(ts[i], depth, (pos1 + i) as nat)
                <= name_width(ts, depth, pos1),
        forall|i: int|
            0 <= i < ts.len() ==> #[trigger] name_width(ts[i].subitems, (depth + 1) as nat, 1)
                <= name_width(ts, depth, pos1),
    decreases ts,
{
    if ts.len() > 0 {
        let rest = ts.subrange(1, ts.len() as int);
        lemma_name_width_covers(rest, depth, (pos1 + 1) as nat);
        assert forall|i: int|
            0 <= i < ts.len() implies #[trigger] name_need(ts[i], depth, (pos1 + i) as nat)
            <= name_width(ts, depth, pos1) by {
            if i > 0 {
                assert(rest[i - 1] == ts[i]);
                assert(name_need(rest[i - 1], depth, ((pos1 + 1) as nat + (i - 1)) as nat)
                    <= name_width(rest, depth, (pos1 + 1) as nat));
                assert(((pos1 + 1) as nat + (i - 1)) as nat == (pos1 + i) as nat);
            }
        }
        assert forall|i: int|
            0 <= i < ts.len() implies #[trigger] name_width(ts[i].subitems, (depth + 1) as nat, 1)
            <= name_width(ts, depth, pos1) by {
            if i > 0 {
                assert(rest[i - 1] == ts[i]);
                assert(name_width(rest[i - 1].subitems, (depth + 1) as nat, 1) <= name_width(
                    rest,
                    depth,
                    (pos1 + 1) as nat,
                ));
            }
        }
    }
}

/// When the tasks sit so deep that the indentation alone overruns a
/// machine word, the clamped name width is the word's maximum.
proof fn lemma_name_width_deep(ts: Seq<TaskView>, d1: nat, d2: nat, pos1: nat)
    requires
        ts.len() > 0,
        4 * d1 > usize::MAX - 7,
        4 * d2 > usize::MAX - 7,
    ensures
        clamp_usize(name_width(ts, d1, pos1)) == clamp_usize(name_width(ts, d2, pos1)),
{
    assert(name_width(ts, d1, pos1) >= name_need(ts[0], d1, pos1));
    assert(name_width(ts, d2, pos1) >= name_need(ts[0], d2, pos1));
    assert(name_need(ts[0], d1, pos1) > usize::MAX);
    assert(name_need(ts[0], d2, pos1) > usize::MAX);
}

/// The first measuring pass: the widths the name, due and description
/// columns need over `todos` and everything below it, each stopped at
/// the largest machine word, the tasks of `todos` sitting `indent`
/// levels deep.
pub fn calculate_lengths(todos: &Vec<ToDoItem>, indent: usize) -> (r: (usize, usize, usize))
    ensures
        r.0 as int == clamp_usize(name_width(task_views(todos@), indent as nat, 1)),
        r.1 as int == clamp_usize(due_width(task_views(todos@))),
        r.2 as int == clamp_usize(desc_width(task_views(todos@))),
    decreases todos@,
{
    broadcast use lemma_task_views_index;

    let ghost views = task_views(todos@);
    let mut longest_name: usize = 4;
    let mut longest_due: usize = 3;
    let mut longest_desc: usize = 11;
    let mut index: usize = 0;
    let n = todos.len();
    proof {
        assert(views.subrange(0, views.len() as int) =~= views);
    }
    while index < n
        invariant
            0 <= index <= n == todos@.len(),
            views == task_views(todos@),
            clamp_usize(name_width(views, indent as nat, 1)) == wmax(
                longest_name as int,
                clamp_usize(
                    name_width(
                        views.subrange(index as int, views.len() as int),
                        indent as nat,
                        (index + 1) as nat,
                    ),
                ),
            ),
            clamp_usize(due_width(views)) == wmax(
                longest_due as int,
                clamp_usize(due_width(views.subrange(index as int, views.len() as int))),
            ),
            clamp_usize(desc_width(views)) == wmax(
                longest_desc as int,
                clamp_usize(desc_width(views.subrange(index as int, views.len() as int))),
            ),
            longest_name >= 4,
            longest_due >= 3,
            longest_desc >= 11,
        decreases n - index,
    {
        let ghost tail = views.subrange(index as int, views.len() as int);
        let ghost tail2 = views.subrange(index as int + 1, views.len() as int);
        proof {
            lemma_task_views_index(todos@);
            assert(tail[0] == views[index as int]);
            assert(tail.subrange(1, tail.len() as int) =~= tail2);
            assert(views[index as int] == todos@[index as int]@);
        }
        let t = &todos[index];
        let current_name_width = sat_add(
            sat_add(sat_add(t.name.unicode_len(), sat_mul4(indent)), digit_count(index + 1)),
            6,
        );
        let current_due_width = t.due.unicode_len();
        let current_desc_width = t.description.unicode_len();
        if current_name_width > longest_name {
            longest_name = current_name_width;
        }
        if current_due_width > longest_due {
            longest_due = current_due_width;
        }
        if current_desc_width > longest_desc {
            longest_desc = current_desc_width;
        }
        let sub = calculate_lengths(&t.subitems, if indent < usize::MAX {
            indent + 1
        } else {
            usize::MAX
        });
        proof {
            if indent == usize::MAX && task_views(t.subitems@).len() > 0 {
                lemma_name_width_deep(
                    task_views(t.subitems@),
                    usize::MAX as nat,
                    (indent + 1) as nat,
                    1,
                );
            }
        }
        if sub.0 > longest_name {
            longest_name = sub.0;
        }
        if sub.1 > longest_due {
            longest_due = sub.1;
        }
        if sub.2 > longest_desc {
            longest_desc = sub.2;
        }
        index = index + 1;
    }
    proof {
        assert(views.subrange(n as int, views.len() as int) =~= Seq::<TaskView>::empty());
    }
    (longest_name, longest_due, longest_desc)
}

/// `n` copies of one character.
pub open spec fn repeat_char(c: char, n: nat) -> Seq<char> {
    Seq::new(n, |i: int| c)
}

/// `n` spaces; none for a non-positive count.
pub open spec fn blanks(n: int) -> Seq<char> {
    repeat_char(' ', (if n > 0 { n } else { 0 }) as nat)
}

/// `n` dashes; none for a non-positive count.
pub open spec fn dash_row(n: int) -> Seq<char> {
    repeat_char('-', (if n > 0 { n } else { 0 }) as nat)
}

/// The character a decimal digit prints as.
pub open spec fn digit_char_of(n: nat) -> char {
    if n == 0 {
        '0'
    } else if n == 1 {
        '1'
    } else if n == 2 {
        '2'
    } else if n == 3 {
        '3'
    } else if n == 4 {
        '4'
    } else if n == 5 {
        '5'
    } else if n == 6 {
        '6'
    } else if n == 7 {
        '7'
    } else if n == 8 {
        '8'
    } else {
        '9'
    }
}

/// A number printed in decimal, most significant digit first.
pub open spec fn dec_chars(n: nat) -> Seq<char>
    decreases n,
{
    if n < 10 {
        seq![digit_char_of(n)]
    } else {
        dec_chars(n / 10).push(digit_char_of(n % 10))
    }
}

/// The width of the whole table: the three cells and ten characters of
/// borders and spacing.
pub open spec fn total_width(nw: int, dw: int, cw: int) -> int {
    nw + dw + cw + (10 as int)
}

/// One printed row: the indented, numbered, check-marked name padded to
/// the name column, then the due and description cells padded to theirs.
pub open spec fn row_line(t: TaskView, depth: nat, pos1: nat, nw: int, dw: int, cw: int) -> Seq<
    char,
> {
    "| "@ + blanks(4 * depth as int) + dec_chars(pos1) + ". ["@ + (if t.status {
        "x"@
    } else {
        " "@
    }) + "] "@ + t.name + " "@ + blanks(nw - name_need(t, depth, pos1)) + "| "@ + t.due + " "@
        + blanks(dw - t.due.len()) + "| "@ + t.description + " "@ + blanks(
        cw - t.description.len(),
    ) + "|"@
}

/// The header row, its three labels padded to the measured widths.
pub open spec fn header_line(nw: int, dw: int, cw: int) -> Seq<char> {
    "| Name "@ + blanks(nw - 4) + "| Due "@ + blanks(dw - 3) + "| Description "@ + blanks(cw - 11)
        + "|"@
}

/// The rows of `ts` and all their subtrees, depth first, without
/// dividers: each task's row, then its whole subtree, then its sibling.
pub open spec fn sub_lines(ts: Seq<TaskView>, depth: nat, pos1: nat, nw: int, dw: int, cw: int) -> Seq<
    Seq<char>,
>
    decreases ts,
{
    if ts.len() == 0 {
        Seq::empty()
    } else {
        seq![row_line(ts[0], depth, pos1, nw, dw, cw)] + sub_lines(
            ts[0].subitems,
            (depth + 1) as nat,
            1,
            nw,
            dw,
            cw,
        ) + sub_lines(ts.subrange(1, ts.len() as int), depth, (pos1 + 1) as nat, nw, dw, cw)
    }
}

/// The rows of the top-level tasks, a full-width divider before each
/// task's group; sub-rows carry no divider of their own.
pub open spec fn top_lines(ts: Seq<TaskView>, depth: nat, pos1: nat, nw: int, dw: int, cw: int) -> Seq<
    Seq<char>,
>
    decreases ts,
{
    if ts.len() == 0 {
        Seq::empty()
    } else {
        seq![dash_row(total_width(nw, dw, cw)), row_line(ts[0], depth, pos1, nw, dw, cw)]
            + sub_lines(ts[0].subitems, (depth + 1) as nat, 1, nw, dw, cw) + top_lines(
            ts.subrange(1, ts.len() as int),
            depth,
            (pos1 + 1) as nat,
            nw,
            dw,
            cw,
        )
    }
}

/// The whole table: a divider, the header, the top-level groups, and a
/// closing divider.
pub open spec fn table_lines(t: TaskView, nw: int, dw: int, cw: int) -> Seq<Seq<char>> {
    seq![dash_row(total_width(nw, dw, cw)), header_line(nw, dw, cw)] + top_lines(
        t.subitems,
        0,
        1,
        nw,
        dw,
        cw,
    ) + seq![dash_row(total_width(nw, dw, cw))]
}

/// The printed text: every line followed by a newline.
pub open spec fn join_lines(lines: Seq<Seq<char>>) -> Seq<char>
    decreases lines.len(),
{
    if lines.len() == 0 {
        Seq::empty()
    } else {
        lines[0].push('\n') + join_lines(lines.subrange(1, lines.len() as int))
    }
}

pub proof fn lemma_join_concat(a: Seq<Seq<char>>, b: Seq<Seq<char>>)
    ensures
        join_lines(a + b) == join_lines(a) + join_lines(b),
    decreases a.len(),
{
    if a.len() == 0 {
        assert(a + b =~= b);
        assert(Seq::<char>::empty() + join_lines(b) =~= join_lines(b));
    } else {
        assert((a + b).subrange(1, (a + b).len() as int) =~= a.subrange(1, a.len() as int) + b);
        assert((a + b)[0] == a[0]);
        lemma_join_concat(a.subrange(1, a.len() as int), b);
        assert(a[0].push('\n') + (join_lines(a.subrange(1, a.len() as int)) + join_lines(b)) =~= (
        a[0].push('\n') + join_lines(a.subrange(1, a.len() as int))) + join_lines(b));
    }
}

pub proof fn lemma_join_one(l: Seq<char>)
    ensures
        join_lines(seq![l]) == l.push('\n'),
{
    assert(seq![l].subrange(1, 1) =~= Seq::<Seq<char>>::empty());
    assert(join_lines(Seq::<Seq<char>>::empty()) == Seq::<char>::empty());
    assert(l.push('\n') + Seq::<char>::empty() =~= l.push('\n'));
}

proof fn lemma_push_nl(s: Seq<char>)
    ensures
        s + "\n"@ == s.push('\n'),
{
    reveal_strlit("\n");
    assert(s + "\n"@ =~= s.push('\n'));
}

/// A run of one repeated character, as the rows' padding and the
/// dividers need it.
pub fn print_char_n_times(character: char, times: usize) -> (r: String)
    requires
        character == ' ' || character == '-',
    ensures
        r@ == repeat_char(character, times as nat),
{
    let unit: &str = if character == '-' {
        "-"
    } else {
        " "
    };
    proof {
        reveal_strlit("-");
        reveal_strlit(" ");
        assert(unit@ =~= seq![character]);
        assert(Seq::<char>::empty() =~= repeat_char(character, 0));
    }
    let mut out = String::new();
    let mut i: usize = 0;
    while i < times
        invariant
            i <= times,
            unit@ == seq![character],
            out@ == repeat_char(character, i as nat),
        decreases times - i,
    {
        out.append(unit);
        proof {
            assert(repeat_char(character, i as nat) + seq![character] =~= repeat_char(
                character,
                (i + 1) as nat,
            ));
        }
        i = i + 1;
    }
    out
}

fn digit_to_str(d: usize) -> (s: &'static str)
    requires
        d < 10,
    ensures
        s@ == seq![digit_char_of(d as nat)],
{
    let s: &'static str = if d == 0 {
        "0"
    } else if d == 1 {
        "1"
    } else if d == 2 {
        "2"
    } else if d == 3 {
        "3"
    } else if d == 4 {
        "4"
    } else if d == 5 {
        "5"
    } else if d == 6 {
        "6"
    } else if d == 7 {
        "7"
    } else if d == 8 {
        "8"
    } else {
        "9"
    };
    proof {
        reveal_strlit("0");
        reveal_strlit("1");
        reveal_strlit("2");
        reveal_strlit("3");
        reveal_strlit("4");
        reveal_strlit("5");
        reveal_strlit("6");
        reveal_strlit("7");
        reveal_strlit("8");
        reveal_strlit("9");
        assert(s@ =~= seq![digit_char_of(d as nat)]);
    }
    s
}

/// A number printed in decimal.
pub fn usize_to_string(n: usize) -> (r: String)
    ensures
        r@ == dec_chars(n as nat),
    decreases n,
{
    if n < 10 {
        String::from_str(digit_to_str(n))
    } else {
        let mut r = usize_to_string(n / 10);
        let ghost head = r@;
        r.append(digit_to_str(n % 10));
        proof {
            assert(head + seq![digit_char_of(n as nat % 10)] =~= head.push(
                digit_char_of(n as nat % 10),
            ));
        }
        r
    }
}

/// A full-width divider row and its newline.
pub fn print_divider(length: usize) -> (r: String)
    ensures
        r@ == dash_row(length as int).push('\n'),
{
    let mut out = print_char_n_times('-', length);
    let ghost line = out@;
    out.append("\n");
    proof {
        lemma_push_nl(line);
    }
    out
}

/// The header row and its newline, the labels padded to the measured
/// widths.
pub fn print_header(longest_name: usize, longest_due: usize, longest_desc: usize) -> (r: String)
    requires
        longest_name >= 4,
        longest_due >= 3,
        longest_desc >= 11,
    ensures
        r@ == header_line(longest_name as int, longest_due as int, longest_desc as int).push(
            '\n',
        ),
{
    let mut out = String::new();
    out.append("| Name ");
    let p1 = print_char_n_times(' ', longest_name - 4);
    out.append(p1.as_str());
    out.append("| Due ");
    let p2 = print_char_n_times(' ', longest_due - 3);
    out.append(p2.as_str());
    out.append("| Description ");
    let p3 = print_char_n_times(' ', longest_desc - 11);
    out.append(p3.as_str());
    out.append("|");
    let ghost line = out@;
    out.append("\n");
    proof {
        lemma_push_nl(line);
        assert(Seq::<char>::empty() + "| Name "@ =~= "| Name "@);
    }
    out
}

/// One row and its newline: the bordered, indented, numbered entry for
/// a task at 1-based position `index` sitting `indent` levels deep.
pub fn print_todo_item(
    item: &ToDoItem,
    longest_name: usize,
    longest_due: usize,
    longest_desc: usize,
    index: usize,
    indent: usize,
) -> (r: String)
    requires
        name_need(item@, indent as nat, index as nat) <= usize::MAX,
    ensures
        r@ == row_line(
            item@,
            indent as nat,
            index as nat,
            longest_name as int,
            longest_due as int,
            longest_desc as int,
        ).push('\n'),
{
    let mut out = String::new();
    out.append("| ");
    let ind = print_char_n_times(' ', indent * 4);
    out.append(ind.as_str());
    let num = usize_to_string(index);
    out.append(num.as_str());
    out.append(". [");
    if item.status {
        out.append("x");
    } else {
        out.append(" ");
    }
    out.append("] ");
    out.append(item.name.as_str());
    out.append(" ");
    let name_len = item.name.unicode_len();
    let digits = digit_count(index);
    let need = name_len + indent * 4 + digits + 6;
    let pad = if longest_name > need {
        longest_name - need
    } else {
        0
    };
    let p1 = print_char_n_times(' ', pad);
    out.append(p1.as_str());
    out.append("| ");
    out.append(item.due.as_str());
    out.append(" ");
    let due_len = item.due.unicode_len();
    let dpad = if longest_due > due_len {
        longest_due - due_len
    } else {
        0
    };
    let p2 = print_char_n_times(' ', dpad);
    out.append(p2.as_str());
    out.append("| ");
    out.append(item.description.as_str());
    out.append(" ");
    let desc_len = item.description.unicode_len();
    let cpad = if longest_desc > desc_len {
        longest_desc - desc_len
    } else {
        0
    };
    let p3 = print_char_n_times(' ', cpad);
    out.append(p3.as_str());
    out.append("|");
    let ghost line = out@;
    out.append("\n");
    proof {
        lemma_push_nl(line);
        assert(Seq::<char>::empty() + "| "@ =~= "| "@);
    }
    out
}

/// The rows of `todos` and every subtree below them, without dividers,
/// depth first: each task's row, then its subtree, then its sibling.
#[verifier::rlimit(60)]
pub fn print_todo_subitems(
    todos: &Vec<ToDoItem>,
    longest_name: usize,
    longest_due: usize,
    longest_desc: usize,
    indent: usize,
) -> (r: String)
    requires
        name_width(task_views(todos@), indent as nat, 1) <= usize::MAX,
    ensures
        r@ == join_lines(
            sub_lines(
                task_views(todos@),
                indent as nat,
                1,
                longest_name as int,
                longest_due as int,
                longest_desc as int,
            ),
        ),
    decreases todos@,
{
    broadcast use lemma_task_views_index;

    let ghost views = task_views(todos@);
    let ghost nw = longest_name as int;
    let ghost dw = longest_due as int;
    let ghost cw = longest_desc as int;
    let mut out = String::new();
    let n = todos.len();
    let mut index: usize = 0;
    proof {
        lemma_task_views_index(todos@);
        assert(views.subrange(0, views.len() as int) =~= views);
    }
    while index < n
        invariant
            0 <= index <= n == todos@.len(),
            views == task_views(todos@),
            nw == longest_name as int,
            dw == longest_due as int,
            cw == longest_desc as int,
            name_width(views, indent as nat, 1) <= usize::MAX,
            out@ + join_lines(
                sub_lines(
                    views.subrange(index as int, views.len() as int),
                    indent as nat,
                    (index + 1) as nat,
                    nw,
                    dw,
                    cw,
                ),
            ) == join_lines(sub_lines(views, indent as nat, 1, nw, dw, cw)),
        decreases n - index,
    {
        let ghost tail = views.subrange(index as int, views.len() as int);
        let ghost tail2 = views.subrange(index as int + 1, views.len() as int);
        let ghost prev = out@;
        proof {
            lemma_task_views_index(todos@);
            assert(tail[0] == views[index as int]);
            assert(views[index as int] == todos@[index as int]@);
            assert(tail.subrange(1, tail.len() as int) =~= tail2);
            lemma_name_width_covers(views, indent as nat, 1);
            assert(name_need(views[index as int], indent as nat, (1 + index as int) as nat)
                <= name_width(views, indent as nat, 1));
            assert((1 + index as int) as nat == (index + 1) as nat);
        }
        let row = print_todo_item(
            &todos[index],
            longest_name,
            longest_due,
            longest_desc,
            index + 1,
            indent,
        );
        out.append(row.as_str());
        let ghost r = row_line(tail[0], indent as nat, (index + 1) as nat, nw, dw, cw);
        let ghost subviews = task_views(todos@[index as int].subitems@);
        let ghost ca = sub_lines(subviews, (indent as nat + 1) as nat, 1, nw, dw, cw);
        let ghost cb = sub_lines(tail2, indent as nat, (index + 2) as nat, nw, dw, cw);
        if todos[index].subitems.len() > 0 {
            proof {
                lemma_task_views_index(todos@[index as int].subitems@);
                assert(name_width(views[index as int].subitems, (indent as nat + 1) as nat, 1)
                    <= name_width(views, indent as nat, 1));
                lemma_name_width_covers(subviews, (indent as nat + 1) as nat, 1);
                assert(name_need(subviews[0], (indent as nat + 1) as nat, 1) <= usize::MAX);
                assert(4 * (indent as int + 1) <= name_need(
                    subviews[0],
                    (indent as nat + 1) as nat,
                    1,
                ));
            }
            let sub = print_todo_subitems(
                &todos[index].subitems,
                longest_name,
                longest_due,
                longest_desc,
                indent + 1,
            );
            out.append(sub.as_str());
        } else {
            proof {
                assert(subviews =~= Seq::<TaskView>::empty());
                assert(ca == Seq::<Seq<char>>::empty());
                assert(join_lines(ca) == Seq::<char>::empty());
                assert(prev + r.push('\n') + Seq::<char>::empty() =~= prev + r.push('\n'));
            }
        }
        proof {
            assert(views[index as int].subitems == subviews);
            assert(sub_lines(tail, indent as nat, (index + 1) as nat, nw, dw, cw) == (seq![r] + ca)
                + cb);
            lemma_join_concat(seq![r] + ca, cb);
            lemma_join_concat(seq![r], ca);
            lemma_join_one(r);
            assert(((prev + r.push('\n')) + join_lines(ca)) + join_lines(cb) =~= prev + ((r.push(
                '\n',
            ) + join_lines(ca)) + join_lines(cb)));
        }
        index = index + 1;
    }
    proof {
        assert(views.subrange(n as int, views.len() as int) =~= Seq::<TaskView>::empty());
        assert(join_lines(sub_lines(Seq::<TaskView>::empty(), indent as nat, (n + 1) as nat, nw, dw, cw))
            == Seq::<char>::empty());
        assert(out@ + Seq::<char>::empty() =~= out@);
    }
    out
}

/// The top-level rows with a full-width divider before each task's
/// group, every subtree expanded beneath its task without dividers.
#[verifier::rlimit(100)]
pub fn print_todo_items(
    todos: &Vec<ToDoItem>,
    longest_name: usize,
    longest_due: usize,
    longest_desc: usize,
    indent: usize,
) -> (r: String)
    requires
        name_width(task_views(todos@), indent as nat, 1) <= usize::MAX,
        longest_name + longest_due + longest_desc + 10 <= usize::MAX,
    ensures
        r@ == join_lines(
            top_lines(
                task_views(todos@),
                indent as nat,
                1,
                longest_name as int,
                longest_due as int,
                longest_desc as int,
            ),
        ),
{
    broadcast use lemma_task_views_index;

    let ghost views = task_views(todos@);
    let ghost nw = longest_name as int;
    let ghost dw = longest_due as int;
    let ghost cw = longest_desc as int;
    let mut out = String::new();
    let n = todos.len();
    let mut index: usize = 0;
    proof {
        lemma_task_views_index(todos@);
        assert(views.subrange(0, views.len() as int) =~= views);
    }
    while index < n
        invariant
            0 <= index <= n == todos@.len(),
            views == task_views(todos@),
            nw == longest_name as int,
            dw == longest_due as int,
            cw == longest_desc as int,
            name_width(views, indent as nat, 1) <= usize::MAX,
            longest_name + longest_due + longest_desc + 10 <= usize::MAX,
            out@ + join_lines(
                top_lines(
                    views.subrange(index as int, views.len() as int),
                    indent as nat,
                    (index + 1) as nat,
                    nw,
                    dw,
                    cw,
                ),
            ) == join_lines(top_lines(views, indent as nat, 1, nw, dw, cw)),
        decreases n - index,
    {
        let ghost tail = views.subrange(index as int, views.len() as int);
        let ghost tail2 = views.subrange(index as int + 1, views.len() as int);
        let ghost prev = out@;
        proof {
            lemma_task_views_index(todos@);
            assert(tail[0] == views[index as int]);
            assert(views[index as int] == todos@[index as int]@);
            assert(tail.subrange(1, tail.len() as int) =~= tail2);
            lemma_name_width_covers(views, indent as nat, 1);
            assert(name_need(views[index as int], indent as nat, (1 + index as int) as nat)
                <= name_width(views, indent as nat, 1));
            assert((1 + index as int) as nat == (index + 1) as nat);
        }
        let div = print_divider(longest_name + longest_due + longest_desc + 10);
        out.append(div.as_str());
        let row = print_todo_item(
            &todos[index],
            longest_name,
            longest_due,
            longest_desc,
            index + 1,
            indent,
        );
        out.append(row.as_str());
        let ghost d = dash_row(total_width(nw, dw, cw));
        let ghost r = row_line(tail[0], indent as nat, (index + 1) as nat, nw, dw, cw);
        let ghost subviews = task_views(todos@[index as int].subitems@);
        let ghost ca = sub_lines(subviews, (indent as nat + 1) as nat, 1, nw, dw, cw);
        let ghost cb = top_lines(tail2, indent as nat, (index + 2) as nat, nw, dw, cw);
        if todos[index].subitems.len() > 0 {
            proof {
                lemma_task_views_index(todos@[index as int].subitems@);
                assert(name_width(views[index as int].subitems, (indent as nat + 1) as nat, 1)
                    <= name_width(views, indent as nat, 1));
                lemma_name_width_covers(subviews, (indent as nat + 1) as nat, 1);
                assert(name_need(subviews[0], (indent as nat + 1) as nat, 1) <= usize::MAX);
                assert(4 * (indent as int + 1) <= name_need(
                    subviews[0],
                    (indent as nat + 1) as nat,
                    1,
                ));
            }
            let sub = print_todo_subitems(
                &todos[index].subitems,
                longest_name,
                longest_due,
                longest_desc,
                indent + 1,
            );
            out.append(sub.as_str());
        } else {
            proof {
                assert(subviews =~= Seq::<TaskView>::empty());
                assert(ca == Seq::<Seq<char>>::empty());
                assert(join_lines(ca) == Seq::<char>::empty());
                assert(((prev + d.push('\n')) + r.push('\n')) + Seq::<char>::empty() =~= (prev
                    + d.push('\n')) + r.push('\n'));
            }
        }
        proof {
            assert(views[index as int].subitems == subviews);
            assert(top_lines(tail, indent as nat, (index + 1) as nat, nw, dw, cw) == (seq![d, r]
                + ca) + cb);
            lemma_join_concat(seq![d, r] + ca, cb);
            lemma_join_concat(seq![d, r], ca);
            assert(seq![d, r] =~= seq![d] + seq![r]);
            lemma_join_concat(seq![d], seq![r]);
            lemma_join_one(d);
            lemma_join_one(r);
            assert((((prev + d.push('\n')) + r.push('\n')) + join_lines(ca)) + join_lines(cb)
                =~= prev + (((d.push('\n') + r.push('\n')) + join_lines(ca)) + join_lines(cb)));
        }
        index = index + 1;
    }
    proof {
        assert(views.subrange(n as int, views.len() as int) =~= Seq::<TaskView>::empty());
        assert(join_lines(
            top_lines(Seq::<TaskView>::empty(), indent as nat, (n + 1) as nat, nw, dw, cw),
        ) == Seq::<char>::empty());
        assert(out@ + Seq::<char>::empty() =~= out@);
    }
    out
}

/// The whole table for the tree below the root container: a divider,
/// the header, every top-level group, and a closing divider, all
/// measured and padded to consistent widths. Nothing is returned only
/// when a measured width would overrun a machine word.
pub fn print_todo_list(todo_list: &ToDoItem) -> (r: Option<String>)
    ensures
        r is Some == (total_width(
            name_width(todo_list@.subitems, 0, 1),
            due_width(todo_list@.subitems),
            desc_width(todo_list@.subitems),
        ) <= usize::MAX),
        r is Some ==> r.unwrap()@ == join_lines(
            table_lines(
                todo_list@,
                name_width(todo_list@.subitems, 0, 1),
                due_width(todo_list@.subitems),
                desc_width(todo_list@.subitems),
            ),
        ),
{
    broadcast use lemma_task_views_index;

    let ghost views = todo_list@.subitems;
    let ghost nw = name_width(views, 0, 1);
    let ghost dw = due_width(views);
    let ghost cw = desc_width(views);
    let widths = calculate_lengths(&todo_list.subitems, 0);
    let (longest_name, longest_due, longest_desc) = widths;
    proof {
        lemma_name_width_covers(views, 0, 1);
        assert(dw >= 3);
        assert(cw >= 11);
    }
    let fits = longest_due <= usize::MAX - 10 && longest_desc <= usize::MAX - 10 - longest_due
        && longest_name <= usize::MAX - 10 - longest_due - longest_desc;
    if !fits {
        proof {
            assert(longest_name as int <= nw);
            assert(longest_due as int <= dw);
            assert(longest_desc as int <= cw);
        }
        return None;
    }
    let total = longest_name + longest_due + longest_desc + 10;
    proof {
        assert(longest_name as int == nw);
        assert(longest_due as int == dw);
        assert(longest_desc as int == cw);
    }
    let mut out = print_divider(total);
    let ghost d = dash_row(total_width(nw, dw, cw));
    let hdr = print_header(longest_name, longest_due, longest_desc);
    out.append(hdr.as_str());
    let ghost h = header_line(nw, dw, cw);
    let body = print_todo_items(&todo_list.subitems, longest_name, longest_due, longest_desc, 0);
    out.append(body.as_str());
    let tail = print_divider(total);
    out.append(tail.as_str());
    proof {
        let tls = top_lines(views, 0, 1, nw, dw, cw);
        assert(table_lines(todo_list@, nw, dw, cw) == (seq![d, h] + tls) + seq![d]);
        lemma_join_concat(seq![d, h] + tls, seq![d]);
        lemma_join_concat(seq![d, h], tls);
        assert(seq![d, h] =~= seq![d] + seq![h]);
        lemma_join_concat(seq![d], seq![h]);
        lemma_join_one(d);
        lemma_join_one(h);
        assert(((d.push('\n') + h.push('\n')) + join_lines(tls)) + d.push('\n') =~= ((d.push(
            '\n',
        ) + h.push('\n')) + join_lines(tls)) + join_lines(seq![d]));
    }
    Some(out)
}

} // verus!
