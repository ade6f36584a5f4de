//! The wait queue: students join at the back, are served from the front, and may
//! leave from anywhere.
use vstd::prelude::*;
use std::collections::VecDeque;
use crate::student::{now, clock_reading, Student, StudentView, Timestamp};

verus! {

broadcast use vstd::seq_lib::group_seq_properties;

/// The students waiting, first come first served.
pub struct WaitQueue {
    students: VecDeque<Student>,
}

/// The views of a sequence of students.
pub open spec fn views(s: Seq<Student>) -> Seq<StudentView> {
    s.map_values(|st: Student| st@)
}

/// The queue without the students of the given name, the others kept in order.
pub open spec fn without(q: Seq<StudentView>, name: Seq<char>) -> Seq<StudentView> {
    q.filter(other_than(name))
}

/// Holds of the students whose name is not the given one.
pub open spec fn other_than(name: Seq<char>) -> spec_fn(StudentView) -> bool {
    |s: StudentView| s.name != name
}

/// The names of the students, in queue order.
pub open spec fn names_of(q: Seq<StudentView>) -> Seq<Seq<char>> {
    q.map_values(|s: StudentView| s.name)
}

impl View for WaitQueue {
    type V = Seq<StudentView>;

    closed spec fn view(&self) -> Seq<StudentView> {
        views(self.students@)
    }
}

impl WaitQueue {
    /// An empty queue.
    pub fn new() -> (q: Self)
        ensures
            q@ == Seq::<StudentView>::empty(),
    {
        let q = WaitQueue { students: VecDeque::new() };
        assert(q@ =~= Seq::<StudentView>::empty());
        q
    }

    /// The number of students waiting.
    pub fn len(&self) -> (n: usize)
        ensures
            n == self@.len(),
    {
        self.students.len()
    }

    /// The student joins at the back, with the given join time.
    pub fn join(&mut self, student: Student, at: Timestamp)
        ensures
            final(self)@ == old(self)@.push(
                StudentView { name: student@.name, comment: student@.comment, join_time: at },
            ),
    {
        let mut student = student;
        student.join_time = at;
        let ghost v = student@;
        self.students.push_back(student);
        assert(self@ =~= old(self)@.push(v));
    }

    /// The student joins at the back, stamped with the current time (whatever join
    /// time it carried is replaced).
    pub fn push(&mut self, student: Student)
        ensures
            final(self)@.len() == old(self)@.len() + 1,
            final(self)@.drop_last() == old(self)@,
            final(self)@.last().name == student@.name,
            final(self)@.last().comment == student@.comment,
            final(self)@.last().join_time.secs >= 0,
            final(self)@.last().join_time.nanos < 1_000_000_000,
            exists|t: Timestamp|
                clock_reading(t) && final(self)@ == old(self)@.push(
                    StudentView { name: student@.name, comment: student@.comment, join_time: t },
                ),
    {
        let t = now();
        assert(clock_reading(t));
        self.join(student, t);
    }

    /// A student of the given name, with an empty comment, joins at the back, stamped
    /// with the current time.
    pub fn add(&mut self, name: String)
        ensures
            final(self)@.len() == old(self)@.len() + 1,
            final(self)@.drop_last() == old(self)@,
            final(self)@.last().name == name@,
            final(self)@.last().comment == Seq::<char>::empty(),
            final(self)@.last().join_time.secs >= 0,
            final(self)@.last().join_time.nanos < 1_000_000_000,
            exists|t: Timestamp|
                clock_reading(t) && final(self)@ == old(self)@.push(
                    StudentView { name: name@, comment: Seq::<char>::empty(), join_time: t },
                ),
    {
        let t = now();
        assert(clock_reading(t));
        self.join(Student::new(name, String::new(), t), t);
    }

    /// The student at the front leaves the queue to be served; their name is returned.
    /// The queue must not be empty.
    pub fn pop(&mut self) -> (name: String)
        requires
            old(self)@.len() > 0,
        ensures
            name@ == old(self)@[0].name,
            final(self)@ == old(self)@.drop_first(),
    {
        let s = self.students.pop_front().unwrap();
        assert(self@ =~= old(self)@.drop_first());
        s.name
    }

    /// Every student of the given name leaves; the others keep their order.
    pub fn leave(&mut self, name: &String)
        ensures
            final(self)@ == without(old(self)@, name@),
    {
        let ghost orig = self.students@;
        let ghost pred = other_than(name@);
        let mut kept: VecDeque<Student> = VecDeque::new();
        let n = self.students.len();
        let mut i: usize = 0;
        assert(views(orig).take(0).filter(pred) =~= views(kept@)) by {
            reveal(Seq::filter);
        }
        while i < n
            invariant
                n == orig.len(),
                i <= n,
                pred == other_than(name@),
                self.students@ == orig.skip(i as int),
                views(kept@) == views(orig).take(i as int).filter(pred),
            decreases n - i,
        {
            let s = self.students.pop_front().unwrap();
            proof {
                assert(s == orig[i as int]);
                assert(self.students@ =~= orig.skip(i + 1));
                assert(views(orig).take(i + 1) =~= views(orig).take(i as int).push(s@));
                views(orig).take(i as int).lemma_filter_push(s@, pred);
            }
            let ghost k = kept@;
            let ghost sv = s@;
            assert(pred(sv) == (s.name@ != name@));
            if s.name != *name {
                kept.push_back(s);
                assert(views(kept@) =~= views(k).push(sv));
            }
            assert(views(kept@) == views(orig).take(i + 1).filter(pred));
            i = i + 1;
        }
        assert(views(orig).take(n as int) =~= views(orig));
        self.students = kept;
    }

    /// A copy of the queue's students, in order.
    pub fn snapshot(&self) -> (all: Vec<Student>)
        ensures
            views(all@) == self@,
    {
        let mut all: Vec<Student> = Vec::new();
        let n = self.students.len();
        let mut i: usize = 0;
        while i < n
            invariant
                n == self.students@.len(),
                i <= n,
                views(all@) == views(self.students@).take(i as int),
            decreases n - i,
        {
            let s = self.students[i].clone();
            let ghost a = all@;
            all.push(s);
            assert(views(all@) =~= views(self.students@).take(i + 1)) by {
                assert(views(all@) =~= views(a).push(s@));
            }
            i = i + 1;
        }
        assert(views(self.students@).take(n as int) =~= self@);
        all
    }

    /// The names of the students, in order.
    pub fn names(&self) -> (names: Vec<String>)
        ensures
            names@.map_values(|s: String| s@) == names_of(self@),
    {
        let mut names: Vec<String> = Vec::new();
        let n = self.students.len();
        let mut i: usize = 0;
        while i < n
            invariant
                n == self.students@.len(),
                i <= n,
                names@.map_values(|s: String| s@) == names_of(views(self.students@).take(i as int)),
            decreases n - i,
        {
            let s = self.students[i].name.clone();
            let ghost a = names@;
            let ghost vs = views(self.students@);
            names.push(s);
            assert(vs.take(i + 1) =~= vs.take(i as int).push(vs[i as int]));
            assert(names_of(vs.take(i + 1)) =~= names_of(vs.take(i as int)).push(vs[i as int].name));
            assert(names@.map_values(|s: String| s@) =~= a.map_values(|s: String| s@).push(s@));
            i = i + 1;
        }
        assert(views(self.students@).take(n as int) =~= self@);
        names
    }
}

/// Leaving takes away every student of the name and nobody else: afterwards nobody of
/// that name waits, and everyone of another name who waited still waits.
pub proof fn lemma_leave_removes_only_that_name(q: Seq<StudentView>, name: Seq<char>)
    ensures
        forall|i: int| 0 <= i < without(q, name).len() ==> #[trigger] without(q, name)[i].name
            != name,
        forall|i: int| 0 <= i < q.len() && q[i].name != name ==> #[trigger] without(
            q,
            name,
        ).contains(q[i]),
        without(q, name).len() <= q.len(),
{
    broadcast use Seq::lemma_filter_pred, Seq::lemma_filter_contains, Seq::lemma_filter_len;

    assert forall|i: int| 0 <= i < without(q, name).len() implies #[trigger] without(q, name)[i].name
        != name by {
        q.lemma_filter_pred(other_than(name), i);
    }
    assert forall|i: int| 0 <= i < q.len() && q[i].name != name implies #[trigger] without(
        q,
        name,
    ).contains(q[i]) by {
        q.lemma_filter_contains(other_than(name), i);
    }
}

/// Leaving a second time under the same name changes nothing.
pub proof fn lemma_leave_twice(q: Seq<StudentView>, name: Seq<char>)
    ensures
        without(without(q, name), name) == without(q, name),
    decreases q.len(),
{
    reveal(Seq::filter);
    if q.len() > 0 {
        lemma_leave_twice(q.drop_last(), name);
        let f = without(q.drop_last(), name);
        if q.last().name != name {
            f.lemma_filter_push(q.last(), other_than(name));
        }
    }
}

/// Nobody of the name waiting, leaving under that name changes nothing.
pub proof fn lemma_leave_absent_name(q: Seq<StudentView>, name: Seq<char>)
    requires
        forall|i: int| 0 <= i < q.len() ==> #[trigger] q[i].name != name,
    ensures
        without(q, name) == q,
    decreases q.len(),
{
    reveal(Seq::filter);
    if q.len() > 0 {
        lemma_leave_absent_name(q.drop_last(), name);
        assert(q.drop_last().push(q.last()) =~= q);
    }
}

/// Joining does not change who is served next: the front of a non-empty queue stays
/// at the front, and the one who joins an empty queue is served first; after the
/// front is served, the newcomer is last behind everyone else.
pub proof fn lemma_first_come_first_served(q: Seq<StudentView>, s: StudentView)
    ensures
        q.len() > 0 ==> q.push(s)[0] == q[0] && q.push(s).drop_first() == q.drop_first().push(s),
        q.len() == 0 ==> q.push(s)[0] == s && q.push(s).drop_first() == q,
{
    assert(q.len() > 0 ==> q.push(s).drop_first() =~= q.drop_first().push(s));
    assert(q.len() == 0 ==> q.push(s).drop_first() =~= q);
}

} // verus!
