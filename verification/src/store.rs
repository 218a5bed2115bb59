//! The task store: an ordered list of tasks, the ordering rule, and the
//! mutations a frame can apply to it. The sort is proved stable: a task
//! never passes another task of the same ordering class.

use vstd::prelude::*;
use crate::calendar::{InvalidDate, MAX_CAL_YEAR, MIN_CAL_YEAR, days_in_month, end_of_day_ts, valid_ymd};
use crate::clock::{local_end_of_day, today_local};
use crate::task::TodoItem;
use crate::timer::Timer;
use crate::timer::timer_wf;

verus! {

/// The ordering class of a task: tasks agreeing on completion flag and due
/// date are tied, and a stable sort keeps their relative order.
pub open spec fn class_of(t: TodoItem) -> (bool, Option<i64>) {
    (t.completed, t.due_date)
}

/// The task order: incomplete before completed; within one completion
/// state, dated before undated; among dated, ascending by due date.
pub open spec fn key_le(a: TodoItem, b: TodoItem) -> bool {
    if a.completed != b.completed {
        !a.completed
    } else {
        match (a.due_date, b.due_date) {
            (Option::Some(x), Option::Some(y)) => x <= y,
            (Option::Some(_), Option::None) => true,
            (Option::None, Option::Some(_)) => false,
            (Option::None, Option::None) => true,
        }
    }
}

/// The order is total: two tasks always compare one way or the other.
pub proof fn lemma_key_le_total(a: TodoItem, b: TodoItem)
    ensures
        key_le(a, b) || key_le(b, a),
        !key_le(a, b) ==> class_of(a) != class_of(b),
        class_of(a) == class_of(b) ==> key_le(a, b),
{
}

/// The order is transitive.
pub proof fn lemma_key_le_trans(a: TodoItem, b: TodoItem, c: TodoItem)
    requires
        key_le(a, b),
        key_le(b, c),
    ensures
        key_le(a, c),
{
}

/// A sequence sorted by the task order.
pub open spec fn sorted_by_key(s: Seq<TodoItem>) -> bool {
    forall|m: int, n: int| 0 <= m < n < s.len() ==> key_le(#[trigger] s[m], #[trigger] s[n])
}

/// Membership test for one ordering class.
pub open spec fn class_pred(k: (bool, Option<i64>)) -> spec_fn(TodoItem) -> bool {
    |t: TodoItem| class_of(t) == k
}

/// The subsequence of tasks in one ordering class, in their current order.
pub open spec fn class_seq(s: Seq<TodoItem>, k: (bool, Option<i64>)) -> Seq<TodoItem> {
    s.filter(class_pred(k))
}

/// `b` rearranges `a` without disturbing the relative order inside any
/// ordering class: the statement of a stable permutation.
pub open spec fn stable_rearrangement(a: Seq<TodoItem>, b: Seq<TodoItem>) -> bool {
    forall|k: (bool, Option<i64>)| #[trigger] class_seq(b, k) == class_seq(a, k)
}

/// Filtering keeps nothing when nothing satisfies the predicate.
proof fn lemma_filter_none<A>(s: Seq<A>, pred: spec_fn(A) -> bool)
    requires
        forall|m: int| 0 <= m < s.len() ==> !pred(#[trigger] s[m]),
    ensures
        s.filter(pred) =~= Seq::<A>::empty(),
    decreases s.len(),
{
    reveal(Seq::filter);
    if s.len() != 0 {
        lemma_filter_none(s.drop_last(), pred);
    }
}

/// Filtering a single element keeps it exactly when the predicate holds.
proof fn lemma_filter_singleton<A>(x: A, pred: spec_fn(A) -> bool)
    ensures
        pred(x) ==> seq![x].filter(pred) =~= seq![x],
        !pred(x) ==> seq![x].filter(pred) =~= Seq::<A>::empty(),
{
    reveal_with_fuel(Seq::filter, 2);
    assert(seq![x].drop_last() =~= Seq::<A>::empty());
    assert(seq![x].last() == x);
}

/// Moving one element left past elements of other classes leaves every
/// class subsequence unchanged.
proof fn lemma_stable_move(
    p1: Seq<TodoItem>,
    p2: Seq<TodoItem>,
    s: Seq<TodoItem>,
    x: TodoItem,
)
    requires
        forall|m: int| 0 <= m < p2.len() ==> class_of(#[trigger] p2[m]) != class_of(x),
    ensures
        forall|k: (bool, Option<i64>)|
            #[trigger] class_seq(p1 + seq![x] + p2 + s, k) == class_seq(p1 + p2 + seq![x] + s, k),
{
    assert forall|k: (bool, Option<i64>)|
        #[trigger] class_seq(p1 + seq![x] + p2 + s, k) == class_seq(
            p1 + p2 + seq![x] + s,
            k,
        ) by {
        let pred = class_pred(k);
        Seq::<TodoItem>::filter_distributes_over_add(p1 + seq![x] + p2, s, pred);
        Seq::<TodoItem>::filter_distributes_over_add(p1 + seq![x], p2, pred);
        Seq::<TodoItem>::filter_distributes_over_add(p1, seq![x], pred);
        Seq::<TodoItem>::filter_distributes_over_add(p1 + p2 + seq![x], s, pred);
        Seq::<TodoItem>::filter_distributes_over_add(p1 + p2, seq![x], pred);
        Seq::<TodoItem>::filter_distributes_over_add(p1, p2, pred);
        if k == class_of(x) {
            lemma_filter_none(p2, pred);
            assert(class_seq(p1 + seq![x] + p2 + s, k) =~= class_seq(p1 + p2 + seq![x] + s, k));
        } else {
            lemma_filter_singleton(x, pred);
            assert(class_seq(p1 + seq![x] + p2 + s, k) =~= class_seq(p1 + p2 + seq![x] + s, k));
        }
    }
}

/// Compares two tasks by the task order.
pub fn key_le_exec(a: &TodoItem, b: &TodoItem) -> (r: bool)
    ensures
        r == key_le(*a, *b),
{
    if a.completed != b.completed {
        !a.completed
    } else {
        match (a.due_date, b.due_date) {
            (Option::Some(x), Option::Some(y)) => x <= y,
            (Option::Some(_), Option::None) => true,
            (Option::None, Option::Some(_)) => false,
            (Option::None, Option::None) => true,
        }
    }
}

/// Insertion sort by the task order: the result is sorted and is a stable
/// rearrangement of the input.
pub fn sort_items(items: &mut Vec<TodoItem>)
    ensures
        sorted_by_key(final(items)@),
        stable_rearrangement(old(items)@, final(items)@),
        final(items)@.len() == old(items)@.len(),
{
    let ghost orig = items@;
    if items.len() <= 1 {
        return;
    }
    let mut i: usize = 1;
    while i < items.len()
        invariant
            1 <= i <= items@.len(),
            items@.len() == orig.len(),
            sorted_by_key(items@.take(i as int)),
            stable_rearrangement(orig, items@),
        decreases items@.len() - i,
    {
        let ghost pre = items@;
        let x = items.remove(i);
        assert(items@ =~= pre.take(i as int) + pre.skip(i as int + 1));
        let mut j: usize = i;
        while j > 0 && !key_le_exec(&items[j - 1], &x)
            invariant
                0 <= j <= i,
                i < pre.len(),
                items@.len() == pre.len() - 1,
                items@ == pre.take(i as int) + pre.skip(i as int + 1),
                x == pre[i as int],
                sorted_by_key(pre.take(i as int)),
                forall|m: int| j <= m < i ==> !key_le(#[trigger] items@[m], x),
            decreases j,
        {
            j = j - 1;
        }
        let ghost mid = items@;
        items.insert(j, x);
        proof {
            let ji = j as int;
            let ii = i as int;
            let p1 = mid.take(ji);
            let p2 = mid.subrange(ji, ii);
            let rest = mid.skip(ii);
            // The skipped tasks are strictly after `x`, hence of other classes.
            assert forall|m: int| 0 <= m < p2.len() implies class_of(#[trigger] p2[m])
                != class_of(x) by {
                assert(p2[m] == mid[ji + m]);
                assert(!key_le(mid[ji + m], x));
                lemma_key_le_total(mid[ji + m], x);
            }
            lemma_stable_move(p1, p2, rest, x);
            assert(items@ =~= p1 + seq![x] + p2 + rest);
            assert(pre =~= p1 + p2 + seq![x] + rest);
            assert(class_seq(p1 + seq![x] + p2 + rest, class_of(x)) == class_seq(
                p1 + p2 + seq![x] + rest,
                class_of(x),
            ));
            assert forall|k: (bool, Option<i64>)| #[trigger] class_seq(items@, k) == class_seq(
                orig,
                k,
            ) by {
                assert(class_seq(p1 + seq![x] + p2 + rest, k) == class_seq(
                    p1 + p2 + seq![x] + rest,
                    k,
                ));
                assert(class_seq(pre, k) == class_seq(orig, k));
            }
            // The enlarged prefix is sorted: everything before `x` is at
            // most `x`, everything it passed is at least `x`.
            assert forall|m: int, n: int| 0 <= m < n < ii + 1 implies key_le(
                #[trigger] items@[m],
                #[trigger] items@[n],
            ) by {
                if ji > 0 {
                    lemma_key_le_total(mid[ji - 1], x);
                }
                if m < ji && n == ji {
                    if m < ji - 1 {
                        assert(key_le(mid[m], mid[ji - 1]));
                        lemma_key_le_trans(mid[m], mid[ji - 1], x);
                    }
                } else if m == ji && n > ji {
                    assert(!key_le(mid[n - 1], x));
                    lemma_key_le_total(mid[n - 1], x);
                } else if m < ji && n > ji {
                    assert(key_le(mid[m], mid[n - 1]));
                } else if n < ji {
                    assert(items@[m] == mid[m] && items@[n] == mid[n]);
                } else if ji < m {
                    assert(items@[m] == mid[m - 1] && items@[n] == mid[n - 1]);
                }
            }
        }
        i = i + 1;
    }
    assert(items@.take(items@.len() as int) =~= items@);
}

/// The ordering law, spelled out pairwise: wherever task `a` stands
/// before task `b` in a sorted list, the incomplete one of a mixed pair
/// comes first; among tasks of one completion state an undated task
/// never precedes a dated one; and dated tasks stand in ascending order
/// of due date.
pub proof fn lemma_sorted_pairwise(s: Seq<TodoItem>, m: int, n: int)
    requires
        sorted_by_key(s),
        0 <= m < n < s.len(),
    ensures
        s[m].completed != s[n].completed ==> !s[m].completed,
        s[m].completed == s[n].completed && s[m].due_date is None ==> s[n].due_date is None,
        s[m].completed == s[n].completed && s[m].due_date is Some && s[n].due_date is Some
            ==> s[m].due_date->0 <= s[n].due_date->0,
{
    assert(key_le(s[m], s[n]));
}

/// The tasks that survive a bulk clear: the incomplete ones.
pub open spec fn keep_incomplete() -> spec_fn(TodoItem) -> bool {
    |t: TodoItem| !t.completed
}

/// Overwriting the completion flag of a task with a fixed value.
pub open spec fn with_completed(value: bool) -> spec_fn(TodoItem) -> TodoItem {
    |t: TodoItem| TodoItem { completed: value, ..t }
}

/// A character `str::trim` removes: the Unicode `White_Space` set.
pub open spec fn is_space_char(c: char) -> bool {
    ||| 0x9 <= c as int <= 0xd
    ||| c as int == 0x20
    ||| c as int == 0x85
    ||| c as int == 0xa0
    ||| c as int == 0x1680
    ||| 0x2000 <= c as int <= 0x200a
    ||| c as int == 0x2028
    ||| c as int == 0x2029
    ||| c as int == 0x202f
    ||| c as int == 0x205f
    ||| c as int == 0x3000
}

/// A text that trims to nothing: every character is blank.
pub open spec fn is_blank(s: Seq<char>) -> bool {
    forall|m: int| 0 <= m < s.len() ==> is_space_char(#[trigger] s[m])
}

/// Whether a string trims to nothing.
pub fn is_blank_exec(s: &str) -> (r: bool)
    ensures
        r == is_blank(s@),
{
    let n = s.unicode_len();
    let mut i: usize = 0;
    while i < n
        invariant
            0 <= i <= n,
            n == s@.len(),
            forall|m: int| 0 <= m < i ==> is_space_char(#[trigger] s@[m]),
        decreases n - i,
    {
        let c = s.get_char(i) as u32;
        let blank = (0x9 <= c && c <= 0xd) || c == 0x20 || c == 0x85 || c == 0xa0 || c == 0x1680
            || (0x2000 <= c && c <= 0x200a) || c == 0x2028 || c == 0x2029 || c == 0x202f
            || c == 0x205f || c == 0x3000;
        if !blank {
            return false;
        }
        i = i + 1;
    }
    true
}

/// Overwrites the completion flag of one entry, in place.
fn set_item_completed(items: &mut Vec<TodoItem>, i: usize, value: bool)
    requires
        i < old(items)@.len(),
    ensures
        final(items)@ == old(items)@.update(
            i as int,
            TodoItem { completed: value, ..old(items)@[i as int] },
        ),
{
    let mut it = items.remove(i);
    it.completed = value;
    items.insert(i, it);
    assert(items@ =~= old(items)@.update(
        i as int,
        TodoItem { completed: value, ..old(items)@[i as int] },
    ));
}

/// The whole application state of one frame: the task list, the pending
/// new-task entry, the calendar cursor, and the countdown timer.
pub struct TodoApp {
    pub items: Vec<TodoItem>,
    pub new_item_text: String,
    pub new_item_date: Option<i64>,
    pub show_date_picker: bool,
    pub selected_year: i32,
    pub selected_month: u32,
    pub selected_day: u32,
    pub timer: Timer,
}

/// The state invariant: the calendar cursor shows a real month and the
/// timer is well formed.
pub open spec fn app_wf(app: TodoApp) -> bool {
    &&& 1 <= app.selected_month <= 12
    &&& timer_wf(app.timer)
}

/// Everything but the task list is the same in `a` and `b`.
pub open spec fn same_but_items(a: TodoApp, b: TodoApp) -> bool {
    &&& a.new_item_text == b.new_item_text
    &&& a.new_item_date == b.new_item_date
    &&& a.show_date_picker == b.show_date_picker
    &&& a.selected_year == b.selected_year
    &&& a.selected_month == b.selected_month
    &&& a.selected_day == b.selected_day
    &&& a.timer == b.timer
}

impl TodoApp {
    /// Fresh state over a previously loaded task list, with the calendar
    /// cursor on the given date.
    pub fn new_at(items: Vec<TodoItem>, year: i32, month: u32, day: u32) -> (app: TodoApp)
        requires
            1 <= month <= 12,
        ensures
            app.items == items,
            app.new_item_text@ == Seq::<char>::empty(),
            app.new_item_date is None,
            !app.show_date_picker,
            app.selected_year == year,
            app.selected_month == month,
            app.selected_day == day,
            app.timer == (Timer { start_time: None, duration: None, is_running: false }),
            app_wf(app),
    {
        TodoApp {
            items,
            new_item_text: String::new(),
            new_item_date: None,
            show_date_picker: false,
            selected_year: year,
            selected_month: month,
            selected_day: day,
            timer: Timer::new(),
        }
    }

    /// Fresh state over a previously loaded task list, with the calendar
    /// cursor on today's local date.
    pub fn new(items: Vec<TodoItem>) -> (app: TodoApp)
        ensures
            app.items == items,
            app.new_item_text@ == Seq::<char>::empty(),
            app.new_item_date is None,
            !app.show_date_picker,
            app.timer == (Timer { start_time: None, duration: None, is_running: false }),
            1 <= app.selected_day <= 31,
            app_wf(app),
    {
        let (year, month, day) = today_local();
        TodoApp::new_at(items, year, month, day)
    }

    /// Re-sorts the task list by the task order, stably.
    pub fn sort_tasks(&mut self)
        ensures
            sorted_by_key(final(self).items@),
            stable_rearrangement(old(self).items@, final(self).items@),
            final(self).items@.len() == old(self).items@.len(),
            same_but_items(*old(self), *final(self)),
    {
        sort_items(&mut self.items);
    }

    /// Appends a new incomplete task and re-sorts, unless the text is
    /// blank, in which case nothing changes at all.
    pub fn add(&mut self, text: String, due_date: Option<i64>) -> (changed: bool)
        ensures
            changed == !is_blank(text@),
            !changed ==> *final(self) == *old(self),
            changed ==> {
                let appended = old(self).items@.push(
                    TodoItem { text, completed: false, due_date },
                );
                &&& sorted_by_key(final(self).items@)
                &&& stable_rearrangement(appended, final(self).items@)
                &&& final(self).items@.len() == old(self).items@.len() + 1
                &&& same_but_items(*old(self), *final(self))
            },
    {
        if is_blank_exec(text.as_str()) {
            return false;
        }
        self.items.push(TodoItem { text, completed: false, due_date });
        sort_items(&mut self.items);
        true
    }

    /// Takes the pending entry fields as a new task: on success the entry
    /// text and date are cleared for the next input.
    pub fn submit_new_item(&mut self) -> (changed: bool)
        ensures
            changed == !is_blank(old(self).new_item_text@),
            !changed ==> *final(self) == *old(self),
            changed ==> {
                let appended = old(self).items@.push(
                    TodoItem {
                        text: old(self).new_item_text,
                        completed: false,
                        due_date: old(self).new_item_date,
                    },
                );
                &&& sorted_by_key(final(self).items@)
                &&& stable_rearrangement(appended, final(self).items@)
                &&& final(self).items@.len() == old(self).items@.len() + 1
                &&& final(self).new_item_text@ == Seq::<char>::empty()
                &&& final(self).new_item_date is None
                &&& final(self).show_date_picker == old(self).show_date_picker
                &&& final(self).selected_year == old(self).selected_year
                &&& final(self).selected_month == old(self).selected_month
                &&& final(self).selected_day == old(self).selected_day
                &&& final(self).timer == old(self).timer
            },
    {
        if is_blank_exec(self.new_item_text.as_str()) {
            return false;
        }
        let text = self.new_item_text.clone();
        let due_date = self.new_item_date;
        self.items.push(TodoItem { text, completed: false, due_date });
        self.new_item_text = String::new();
        self.new_item_date = None;
        sort_items(&mut self.items);
        true
    }

    /// Sets the completion flag of the task at `index` and re-sorts;
    /// an out-of-bounds index changes nothing.
    pub fn set_completed(&mut self, index: usize, value: bool) -> (changed: bool)
        ensures
            changed == (index < old(self).items@.len()),
            !changed ==> *final(self) == *old(self),
            changed ==> {
                let updated = old(self).items@.update(
                    index as int,
                    TodoItem { completed: value, ..old(self).items@[index as int] },
                );
                &&& sorted_by_key(final(self).items@)
                &&& stable_rearrangement(updated, final(self).items@)
                &&& final(self).items@.len() == old(self).items@.len()
                &&& same_but_items(*old(self), *final(self))
            },
    {
        if index >= self.items.len() {
            return false;
        }
        set_item_completed(&mut self.items, index, value);
        sort_items(&mut self.items);
        true
    }

    /// Removes the task at `index` and re-sorts; an out-of-bounds index
    /// changes nothing.
    pub fn remove(&mut self, index: usize) -> (changed: bool)
        ensures
            changed == (index < old(self).items@.len()),
            !changed ==> *final(self) == *old(self),
            changed ==> {
                let removed = old(self).items@.remove(index as int);
                &&& sorted_by_key(final(self).items@)
                &&& stable_rearrangement(removed, final(self).items@)
                &&& final(self).items@.len() == old(self).items@.len() - 1
                &&& same_but_items(*old(self), *final(self))
            },
    {
        if index >= self.items.len() {
            return false;
        }
        self.items.remove(index);
        sort_items(&mut self.items);
        true
    }

    /// Sets every task's completion flag to `value` and re-sorts.
    pub fn set_all_completed(&mut self, value: bool)
        ensures
            ({
                let flagged = old(self).items@.map_values(with_completed(value));
                &&& sorted_by_key(final(self).items@)
                &&& stable_rearrangement(flagged, final(self).items@)
                &&& final(self).items@.len() == old(self).items@.len()
                &&& same_but_items(*old(self), *final(self))
            }),
    {
        let ghost orig = old(self).items@;
        let mut i: usize = 0;
        while i < self.items.len()
            invariant
                0 <= i <= self.items@.len(),
                orig == old(self).items@,
                self.items@.len() == orig.len(),
                same_but_items(*old(self), *self),
                forall|m: int|
                    0 <= m < i ==> self.items@[m] == with_completed(value)(#[trigger] orig[m]),
                forall|m: int| i <= m < orig.len() ==> #[trigger] self.items@[m] == orig[m],
            decreases self.items@.len() - i,
        {
            set_item_completed(&mut self.items, i, value);
            i = i + 1;
        }
        assert(self.items@ =~= orig.map_values(with_completed(value)));
        sort_items(&mut self.items);
    }

    /// Drops every completed task; the remaining tasks keep their order.
    pub fn remove_completed(&mut self)
        ensures
            final(self).items@ == old(self).items@.filter(keep_incomplete()),
            same_but_items(*old(self), *final(self)),
    {
        let ghost orig = old(self).items@;
        let n = self.items.len();
        assert(orig.len() == n);
        let mut kept: Vec<TodoItem> = Vec::new();
        let mut processed: usize = 0;
        proof {
            assert(orig.take(0).filter(keep_incomplete()) =~= Seq::<TodoItem>::empty()) by {
                reveal(Seq::filter);
                assert(orig.take(0) =~= Seq::<TodoItem>::empty());
            }
        }
        while self.items.len() > 0
            invariant
                orig == old(self).items@,
                orig.len() <= usize::MAX,
                same_but_items(*old(self), *self),
                processed + self.items@.len() == orig.len(),
                self.items@ == orig.skip(processed as int),
                kept@ == orig.take(processed as int).filter(keep_incomplete()),
            decreases self.items@.len(),
        {
            let ghost pi = processed as int;
            let t = self.items.remove(0);
            proof {
                assert(t == orig[pi]);
                assert(self.items@ =~= orig.skip(pi + 1));
                assert(orig.take(pi + 1) =~= orig.take(pi) + seq![orig[pi]]);
                Seq::<TodoItem>::filter_distributes_over_add(
                    orig.take(pi),
                    seq![orig[pi]],
                    keep_incomplete(),
                );
                lemma_filter_singleton(orig[pi], keep_incomplete());
            }
            if !t.completed {
                kept.push(t);
                assert(kept@ =~= orig.take(pi + 1).filter(keep_incomplete()));
            } else {
                assert(kept@ =~= orig.take(pi + 1).filter(keep_incomplete()));
            }
            processed = processed + 1;
        }
        self.items = kept;
        assert(orig.take(orig.len() as int) =~= orig);
    }

    /// Opens or closes the date picker.
    pub fn toggle_date_picker(&mut self)
        ensures
            final(self).show_date_picker == !old(self).show_date_picker,
            *final(self) == (TodoApp {
                show_date_picker: !old(self).show_date_picker,
                ..*old(self)
            }),
    {
        self.show_date_picker = !self.show_date_picker;
    }

    /// Closes the date picker without touching anything else.
    pub fn close_date_picker(&mut self)
        ensures
            *final(self) == (TodoApp { show_date_picker: false, ..*old(self) }),
    {
        self.show_date_picker = false;
    }

    /// Moves the calendar cursor one month forward or backward, wrapping
    /// December to January of the next year and January to December of
    /// the previous one.
    pub fn advance_month(&mut self, forward: bool)
        requires
            1 <= old(self).selected_month <= 12,
            forward && old(self).selected_month == 12 ==> old(self).selected_year < i32::MAX,
            !forward && old(self).selected_month == 1 ==> old(self).selected_year > i32::MIN,
        ensures
            forward ==> {
                if old(self).selected_month == 12 {
                    final(self).selected_year == old(self).selected_year + 1
                        && final(self).selected_month == 1
                } else {
                    final(self).selected_year == old(self).selected_year
                        && final(self).selected_month == old(self).selected_month + 1
                }
            },
            !forward ==> {
                if old(self).selected_month == 1 {
                    final(self).selected_year == old(self).selected_year - 1
                        && final(self).selected_month == 12
                } else {
                    final(self).selected_year == old(self).selected_year
                        && final(self).selected_month == old(self).selected_month - 1
                }
            },
            1 <= final(self).selected_month <= 12,
            final(self).items == old(self).items,
            final(self).new_item_text == old(self).new_item_text,
            final(self).new_item_date == old(self).new_item_date,
            final(self).show_date_picker == old(self).show_date_picker,
            final(self).selected_day == old(self).selected_day,
            final(self).timer == old(self).timer,
    {
        if forward {
            if self.selected_month == 12 {
                self.selected_month = 1;
                self.selected_year = self.selected_year + 1;
            } else {
                self.selected_month = self.selected_month + 1;
            }
        } else {
            if self.selected_month == 1 {
                self.selected_month = 12;
                self.selected_year = self.selected_year - 1;
            } else {
                self.selected_month = self.selected_month - 1;
            }
        }
    }

    /// Confirms a day in the date picker: on success the timestamp of
    /// 23:59:59 local time on the selected date becomes the pending due
    /// date and the picker closes; a day the shown month does not have,
    /// or a year outside the supported calendar, is refused and changes
    /// nothing. The local reading depends on the machine's time zone, so
    /// the contract pins it to within a zone offset (at most 90000
    /// seconds) of the UTC end of that day.
    pub fn confirm_day(&mut self, day: u32) -> (r: Result<(), InvalidDate>)
        requires
            1 <= old(self).selected_month <= 12,
        ensures
            r is Ok <==> valid_ymd(
                old(self).selected_year as int,
                old(self).selected_month as int,
                day as int,
            ),
            r is Err ==> *final(self) == *old(self),
            r is Ok ==> {
                let utc_eod = end_of_day_ts(
                    old(self).selected_year as int,
                    old(self).selected_month as int,
                    day as int,
                );
                &&& final(self).new_item_date is Some
                &&& utc_eod - 90000 <= final(self).new_item_date->0 <= utc_eod + 90000
                &&& !final(self).show_date_picker
                &&& final(self).items == old(self).items
                &&& final(self).new_item_text == old(self).new_item_text
                &&& final(self).selected_year == old(self).selected_year
                &&& final(self).selected_month == old(self).selected_month
                &&& final(self).selected_day == old(self).selected_day
                &&& final(self).timer == old(self).timer
            },
    {
        if self.selected_year < MIN_CAL_YEAR || self.selected_year > MAX_CAL_YEAR {
            return Err(InvalidDate);
        }
        if day < 1 || day > days_in_month(self.selected_year, self.selected_month) {
            return Err(InvalidDate);
        }
        let ts = local_end_of_day(self.selected_year, self.selected_month, day);
        self.new_item_date = Some(ts);
        self.show_date_picker = false;
        Ok(())
    }
}

} // verus!
