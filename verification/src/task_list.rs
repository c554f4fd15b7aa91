//! The task list: sorting by urgency, partitioning into overdue and
//! upcoming tasks, and membership by title.

use vstd::prelude::*;
use vstd::seq_lib::group_to_multiset_ensures;
use vstd::multiset::group_multiset_axioms;
use crate::datetime::DateTime;
use crate::datetime::datetime_valid;
use crate::datetime::now_local;
use crate::task::Task;
use crate::task::is_overdue;
use crate::task::is_overdue_exec;
use crate::task::task_le;
use crate::task::task_le_exec;
use crate::task::lemma_task_le_total;
use crate::task::lemma_task_le_trans;

verus! {

/// The tasks the tracker holds, in display order once sorted.
pub struct TaskList {
    pub list: Vec<Task>,
}

/// The sequence stands in the display order for the moment `now`.
pub open spec fn sorted_for(now: DateTime, s: Seq<Task>) -> bool {
    forall|i: int, j: int| 0 <= i < j < s.len() ==> task_le(now, s[i], s[j])
}

/// The index of the first task whose title reads `title`, or -1 when no
/// task carries it.
pub open spec fn first_title_index(s: Seq<Task>, title: Seq<char>) -> int
    decreases s.len(),
{
    if s.len() == 0 {
        -1
    } else if s[0].title@ == title {
        0
    } else {
        let rest = first_title_index(s.drop_first(), title);
        if rest == -1 {
            -1
        } else {
            rest + 1
        }
    }
}

/// What `first_title_index` finds: -1 means no task carries the title;
/// otherwise it is the least index whose task does.
pub proof fn lemma_first_title_index(s: Seq<Task>, title: Seq<char>)
    ensures
        first_title_index(s, title) == -1 ==> (forall|k: int|
            0 <= k < s.len() ==> s[k].title@ != title),
        first_title_index(s, title) != -1 ==> ({
            let j = first_title_index(s, title);
            &&& 0 <= j < s.len()
            &&& s[j].title@ == title
            &&& forall|k: int| 0 <= k < j ==> s[k].title@ != title
        }),
    decreases s.len(),
{
    if s.len() > 0 && s[0].title@ != title {
        lemma_first_title_index(s.drop_first(), title);
        let rest = first_title_index(s.drop_first(), title);
        if rest == -1 {
            assert forall|k: int| 0 <= k < s.len() implies s[k].title@ != title by {
                if k > 0 {
                    assert(s.drop_first()[k - 1] == s[k]);
                }
            }
        } else {
            assert(s.drop_first()[rest] == s[rest + 1]);
            assert forall|k: int| 0 <= k < rest + 1 implies s[k].title@ != title by {
                if k > 0 {
                    assert(s.drop_first()[k - 1] == s[k]);
                }
            }
        }
    }
}

/// At any moment every task is either overdue or upcoming: the overdue
/// filter and the upcoming filter together hold exactly the tasks of
/// the list.
pub proof fn lemma_overdue_upcoming_partition(s: Seq<Task>, now: DateTime)
    ensures
        s.filter(|t: Task| is_overdue(t, now)).to_multiset().add(
            s.filter(|t: Task| !is_overdue(t, now)).to_multiset(),
        ) =~= s.to_multiset(),
    decreases s.len(),
{
    broadcast use group_to_multiset_ensures;
    broadcast use group_multiset_axioms;

    reveal(Seq::filter);
    let over = |t: Task| is_overdue(t, now);
    let upc = |t: Task| !is_overdue(t, now);
    if s.len() == 0 {
        assert(s.filter(over).to_multiset().add(s.filter(upc).to_multiset()) =~= s.to_multiset());
    } else {
        let rest = s.drop_last();
        lemma_overdue_upcoming_partition(rest, now);
        assert(s =~= rest.push(s.last()));
        if is_overdue(s.last(), now) {
            assert(s.filter(over) == rest.filter(over).push(s.last()));
            assert(s.filter(upc) == rest.filter(upc));
        } else {
            assert(s.filter(over) == rest.filter(over));
            assert(s.filter(upc) == rest.filter(upc).push(s.last()));
        }
        assert(s.filter(over).to_multiset().add(s.filter(upc).to_multiset()) =~= s.to_multiset());
    }
}

/// In a list sorted for `now`, the overdue tasks form a prefix: no
/// overdue task stands after an upcoming one.
pub proof fn lemma_sorted_overdue_first(now: DateTime, s: Seq<Task>, i: int, j: int)
    requires
        sorted_for(now, s),
        0 <= i < j < s.len(),
        is_overdue(s[j], now),
    ensures
        is_overdue(s[i], now),
{
    assert(task_le(now, s[i], s[j]));
}

impl TaskList {
    pub fn new(tasks: Vec<Task>) -> (r: TaskList)
        ensures
            r.list@ == tasks@,
    {
        TaskList { list: tasks }
    }

    pub fn len(&self) -> (n: usize)
        ensures
            n == self.list@.len(),
    {
        self.list.len()
    }

    /// Append a task at the end of the list.
    pub fn add_task(&mut self, task: Task)
        ensures
            final(self).list@ == old(self).list@.push(task),
    {
        self.list.push(task);
    }

    /// Sort for a given moment: afterwards the list holds the same
    /// tasks and stands in the display order for `now`.
    pub fn sort_by_status_and_magnitude_at(&mut self, now: DateTime)
        ensures
            final(self).list@.to_multiset() == old(self).list@.to_multiset(),
            final(self).list@.len() == old(self).list@.len(),
            sorted_for(now, final(self).list@),
    {
        let ghost orig = self.list@;
        if self.list.len() < 2 {
            return ;
        }
        let mut i: usize = 1;
        while i < self.list.len()
            invariant
                1 <= i <= self.list@.len(),
                self.list@.len() == orig.len(),
                self.list@.to_multiset() == orig.to_multiset(),
                sorted_for(now, self.list@.take(i as int)),
            decreases self.list@.len() - i,
        {
            let ghost s = self.list@;
            let ghost x_spec = s[i as int];
            let mut j: usize = 0;
            while j < i && task_le_exec(&now, &self.list[j], &self.list[i])
                invariant
                    j <= i < self.list@.len(),
                    self.list@ == s,
                    x_spec == s[i as int],
                    forall|k: int| 0 <= k < j ==> task_le(now, s[k], x_spec),
                decreases i - j,
            {
                j += 1;
            }
            proof {
                // The sorted prefix, restated over the whole sequence.
                assert forall|p: int, q: int| 0 <= p < q < i implies #[trigger] task_le(
                    now,
                    s[p],
                    s[q],
                ) by {
                    assert(task_le(now, s.take(i as int)[p], s.take(i as int)[q]));
                }
                // Everything from j up to i comes no earlier than the
                // task being inserted.
                if j < i {
                    lemma_task_le_total(now, s[j as int], x_spec);
                    assert forall|k: int| j <= k < i implies task_le(now, x_spec, s[k]) by {
                        if k > j {
                            lemma_task_le_trans(now, x_spec, s[j as int], s[k]);
                        }
                    }
                }
            }
            let x = self.list.remove(i);
            self.list.insert(j, x);
            proof {
                let t = self.list@;
                s.remove_ensures(i as int);
                s.remove(i as int).insert_ensures(j as int, x_spec);
                assert(t.len() == s.len());
                assert(forall|k: int| 0 <= k < j ==> t[k] == s[k]);
                assert(t[j as int] == x_spec);
                assert(forall|k: int| j < k <= i ==> t[k] == s[k - 1]);
                assert(forall|k: int| i < k < t.len() ==> t[k] == s[k]);
                assert(t.to_multiset() =~= s.to_multiset()) by {
                    broadcast use group_to_multiset_ensures;
                    broadcast use group_multiset_axioms;

                    assert(s.contains(x_spec)) by {
                        assert(s[i as int] == x_spec);
                    }
                    assert(s.remove(i as int).to_multiset() =~= s.to_multiset().remove(x_spec));
                    assert(t.to_multiset() =~= s.remove(i as int).to_multiset().insert(x_spec));
                }
                assert forall|p: int, q: int| 0 <= p < q <= i implies #[trigger] task_le(
                    now,
                    t[p],
                    t[q],
                ) by {
                    if p < j && q > j {
                        assert(task_le(now, s[p], s[q - 1]));
                    }
                }
                assert forall|p: int, q: int|
                    #![trigger t.take(i + 1)[p], t.take(i + 1)[q]]
                    0 <= p < q < i + 1 implies task_le(now, t.take(i + 1)[p], t.take(i + 1)[q]) by {
                    assert(t.take(i + 1)[p] == t[p] && t.take(i + 1)[q] == t[q]);
                    assert(task_le(now, t[p], t[q]));
                }
                assert(sorted_for(now, t.take(i + 1)));
            }
            i += 1;
        }
        proof {
            assert(self.list@.take(i as int) =~= self.list@);
        }
    }

    /// Sort in the display order for the present moment, read from the
    /// system clock.  The tasks are kept; they stand sorted for some
    /// valid moment, whichever the clock gave.
    pub fn sort_by_status_and_magnitude(&mut self)
        ensures
            final(self).list@.to_multiset() == old(self).list@.to_multiset(),
            final(self).list@.len() == old(self).list@.len(),
            exists|now: DateTime| datetime_valid(now) && sorted_for(now, final(self).list@),
    {
        let now = now_local();
        self.sort_by_status_and_magnitude_at(now);
    }

    /// Append a task, then sort for the present moment.
    pub fn add_and_sort(&mut self, task: Task)
        ensures
            final(self).list@.to_multiset() == old(self).list@.push(task).to_multiset(),
            final(self).list@.len() == old(self).list@.len() + 1,
            exists|now: DateTime| datetime_valid(now) && sorted_for(now, final(self).list@),
    {
        self.list.push(task);
        self.sort_by_status_and_magnitude();
    }

    /// Remove the first task whose title equals the given task's title,
    /// and hand it back; `None` when no title matches, with the list
    /// unchanged.
    pub fn remove_task(&mut self, task_to_remove: &Task) -> (r: Option<Task>)
        ensures
            ({
                let j = first_title_index(old(self).list@, task_to_remove.title@);
                if j == -1 {
                    r == None::<Task> && final(self).list@ == old(self).list@
                } else {
                    r == Some(old(self).list@[j]) && final(self).list@ == old(self).list@.remove(j)
                }
            }),
    {
        proof {
            lemma_first_title_index(self.list@, task_to_remove.title@);
        }
        let ghost s = self.list@;
        let mut idx: usize = 0;
        while idx < self.list.len()
            invariant
                idx <= s.len(),
                self.list@ == s,
                s == old(self).list@,
                forall|k: int| 0 <= k < idx ==> s[k].title@ != task_to_remove.title@,
                first_title_index(s, task_to_remove.title@) != -1 ==> first_title_index(
                    s,
                    task_to_remove.title@,
                ) >= idx,
            decreases s.len() - idx,
        {
            proof {
                lemma_first_title_index(s, task_to_remove.title@);
            }
            if self.list[idx].title == task_to_remove.title {
                proof {
                    let j = first_title_index(s, task_to_remove.title@);
                    assert(j != -1);
                    assert(j == idx as int);
                }
                let removed = self.list.remove(idx);
                return Some(removed);
            }
            idx += 1;
        }
        None
    }

    /// The tasks due strictly before `now`, in list order.
    pub fn get_overdue_tasks_at(&self, now: DateTime) -> (r: Vec<Task>)
        ensures
            r@ == self.list@.filter(|t: Task| is_overdue(t, now)),
    {
        let mut out: Vec<Task> = Vec::new();
        let mut idx: usize = 0;
        proof {
            reveal(Seq::filter);
            assert(self.list@.take(0) =~= Seq::<Task>::empty());
        }
        while idx < self.list.len()
            invariant
                idx <= self.list@.len(),
                out@ == self.list@.take(idx as int).filter(|t: Task| is_overdue(t, now)),
            decreases self.list@.len() - idx,
        {
            proof {
                reveal(Seq::filter);
                assert(self.list@.take(idx as int + 1).drop_last() =~= self.list@.take(
                    idx as int,
                ));
                assert(self.list@.take(idx as int + 1).last() == self.list@[idx as int]);
            }
            if is_overdue_exec(&self.list[idx], &now) {
                out.push(self.list[idx].clone());
            }
            idx += 1;
        }
        proof {
            assert(self.list@.take(self.list@.len() as int) =~= self.list@);
        }
        out
    }

    /// The tasks due at `now` or later, in list order.
    pub fn get_upcoming_tasks_at(&self, now: DateTime) -> (r: Vec<Task>)
        ensures
            r@ == self.list@.filter(|t: Task| !is_overdue(t, now)),
    {
        let mut out: Vec<Task> = Vec::new();
        let mut idx: usize = 0;
        proof {
            reveal(Seq::filter);
            assert(self.list@.take(0) =~= Seq::<Task>::empty());
        }
        while idx < self.list.len()
            invariant
                idx <= self.list@.len(),
                out@ == self.list@.take(idx as int).filter(|t: Task| !is_overdue(t, now)),
            decreases self.list@.len() - idx,
        {
            proof {
                reveal(Seq::filter);
                assert(self.list@.take(idx as int + 1).drop_last() =~= self.list@.take(
                    idx as int,
                ));
                assert(self.list@.take(idx as int + 1).last() == self.list@[idx as int]);
            }
            if !is_overdue_exec(&self.list[idx], &now) {
                out.push(self.list[idx].clone());
            }
            idx += 1;
        }
        proof {
            assert(self.list@.take(self.list@.len() as int) =~= self.list@);
        }
        out
    }

    /// The tasks overdue at the present moment, read from the system
    /// clock: every task handed back is overdue for that moment, and it
    /// is the overdue filter of the list for that moment.
    pub fn get_overdue_tasks(&self) -> (r: Vec<Task>)
        ensures
            exists|now: DateTime|
                datetime_valid(now) && r@ == self.list@.filter(
                    |t: Task| is_overdue(t, now),
                ),
    {
        let now = now_local();
        let r = self.get_overdue_tasks_at(now);
        r
    }

    /// The tasks upcoming at the present moment, read from the system
    /// clock: the upcoming filter of the list for that moment.
    pub fn get_upcoming_tasks(&self) -> (r: Vec<Task>)
        ensures
            exists|now: DateTime|
                datetime_valid(now) && r@ == self.list@.filter(
                    |t: Task| !is_overdue(t, now),
                ),
    {
        let now = now_local();
        let r = self.get_upcoming_tasks_at(now);
        r
    }
}

} // verus!
