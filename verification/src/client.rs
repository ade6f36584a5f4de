//! The terminal client's state: the queue as last announced, the highlighted row,
//! and what each key press does.
use vstd::prelude::*;
use crate::student::{Student, StudentView};
use crate::queue::views;

verus! {

/// A key press, as far as the client tells keys apart.
pub enum Key {
    Char(char),
    Other,
}

/// What the client does after a key press.
pub enum ClientAction {
    /// Stop reading keys and close the screen.
    Quit,
    /// Draw the screen again.
    Redraw,
    /// Ask the server to serve the student at the front.
    Pop,
    /// Ask the server to remove every student of this name.
    Leave(String),
    /// Nothing.
    Ignore,
}

/// The client's view of the queue.
pub struct App {
    students: Vec<Student>,
    selected: usize,
}

/// The text shown when no student is highlighted.
pub open spec fn nobody_text() -> Seq<char> {
    seq!['N', 'o', ' ', 'o', 'n', 'e', '\'', 's', ' ', 'h', 'e', 'r', 'e', ' ', 'y', 'e', 't', '!']
}

impl App {
    /// The students, as last announced.
    pub closed spec fn students(&self) -> Seq<StudentView> {
        views(self.students@)
    }

    /// The highlighted row.
    pub closed spec fn selected(&self) -> nat {
        self.selected as nat
    }

    /// A client that knows of no student, with the first row highlighted.
    pub fn new() -> (app: Self)
        ensures
            app.students() == Seq::<StudentView>::empty(),
            app.selected() == 0,
    {
        let app = App { students: Vec::new(), selected: 0 };
        assert(app.students() =~= Seq::<StudentView>::empty());
        app
    }

    /// The queue as the server announced it; the highlighted row stays where it was.
    pub fn set_students(&mut self, students: Vec<Student>)
        ensures
            final(self).students() == views(students@),
            final(self).selected() == old(self).selected(),
    {
        self.students = students;
    }

    /// The number of students known.
    pub fn student_count(&self) -> (n: usize)
        ensures
            n == self.students().len(),
    {
        self.students.len()
    }

    /// The highlighted row.
    pub fn selected_row(&self) -> (row: usize)
        ensures
            row == self.selected(),
    {
        self.selected
    }

    /// What a key press does: `q` quits; `j` moves the highlight down a row unless it
    /// is on the last one, `k` up a row unless it is on the first, and both redraw;
    /// `p` asks for the front student to be served; `R` asks for the highlighted
    /// student's name to leave the queue (a row must be highlighted); any other key
    /// does nothing.
    pub fn handle_key(&mut self, key: Key) -> (action: ClientAction)
        requires
            key == Key::Char('R') ==> old(self).selected() < old(self).students().len(),
        ensures
            final(self).students() == old(self).students(),
            old(self).selected() < old(self).students().len() ==> final(self).selected()
                < final(self).students().len(),
            key == Key::Char('j') ==> action is Redraw && final(self).selected() == if old(
                self,
            ).selected() + 1 < old(self).students().len() {
                old(self).selected() + 1
            } else {
                old(self).selected()
            },
            key == Key::Char('k') ==> action is Redraw && final(self).selected() == if old(
                self,
            ).selected() > 0 {
                (old(self).selected() - 1) as nat
            } else {
                old(self).selected()
            },
            key != Key::Char('j') && key != Key::Char('k') ==> final(self).selected() == old(
                self,
            ).selected(),
            key == Key::Char('q') ==> action is Quit,
            key == Key::Char('p') ==> action is Pop,
            key == Key::Char('R') ==> (action matches ClientAction::Leave(n) && n@ == old(
                self,
            ).students()[old(self).selected() as int].name),
            key != Key::Char('q') && key != Key::Char('j') && key != Key::Char('k') && key
                != Key::Char('p') && key != Key::Char('R') ==> action is Ignore,
    {
        match key {
            Key::Char('q') => ClientAction::Quit,
            Key::Char('j') => {
                if self.selected < self.students.len() && self.selected + 1 < self.students.len() {
                    self.selected = self.selected + 1;
                }
                ClientAction::Redraw
            },
            Key::Char('k') => {
                if self.selected > 0 {
                    self.selected = self.selected - 1;
                }
                ClientAction::Redraw
            },
            Key::Char('p') => ClientAction::Pop,
            Key::Char('R') => {
                let name = self.students[self.selected].name.clone();
                ClientAction::Leave(name)
            },
            _ => ClientAction::Ignore,
        }
    }

    /// The names of the students, in order, for the list on screen.
    pub fn names(&self) -> (names: Vec<String>)
        ensures
            names@.map_values(|s: String| s@) == self.students().map_values(
                |s: StudentView| s.name,
            ),
    {
        let mut names: Vec<String> = Vec::new();
        let n = self.students.len();
        let mut i: usize = 0;
        while i < n
            invariant
                n == self.students@.len(),
                i <= n,
                names@.map_values(|s: String| s@) == views(self.students@).take(
                    i as int,
                ).map_values(|s: StudentView| s.name),
            decreases n - i,
        {
            let s = self.students[i].name.clone();
            let ghost a = names@;
            let ghost vs = views(self.students@);
            names.push(s);
            assert(vs.take(i + 1) =~= vs.take(i as int).push(vs[i as int]));
            assert(names@.map_values(|s: String| s@) =~= a.map_values(|s: String| s@).push(s@));
            assert(vs.take(i + 1).map_values(|s: StudentView| s.name) =~= vs.take(
                i as int,
            ).map_values(|s: StudentView| s.name).push(vs[i as int].name));
            i = i + 1;
        }
        assert(views(self.students@).take(n as int) =~= views(self.students@));
        names
    }

    /// The text of the information panel: the highlighted student's comment, or a
    /// note that nobody is waiting when no student is on the highlighted row.
    pub fn info(&self) -> (text: String)
        ensures
            self.selected() < self.students().len() ==> text@ == self.students()[self.selected()
                as int].comment,
            self.selected() >= self.students().len() ==> text@ == nobody_text(),
    {
        if self.selected < self.students.len() {
            self.students[self.selected].comment.clone()
        } else {
            let s = "No one's here yet!";
            proof {
                reveal_strlit("No one's here yet!");
            }
            let t = s.to_owned();
            assert(t@ =~= nobody_text());
            t
        }
    }
}

} // verus!
