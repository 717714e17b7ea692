//! The bundled terminal TODO list's data model: an in-memory list and the
//! parser for its newline-separated file format.  Reading and writing the
//! file itself is I/O and stays outside the crate.

use crate::text::utf8_to_string;
use vstd::prelude::*;
use vstd::string::*;
use vstd::utf8::*;

verus! {

/// One TODO entry: its text and an optional deadline.
pub struct Todo {
    pub content: String,
    pub deadline: Option<String>,
}

/// The in-memory TODO list, in file order.
pub struct TodoList {
    todos: Vec<Todo>,
}

impl View for TodoList {
    type V = Seq<Todo>;

    closed spec fn view(&self) -> Seq<Todo> {
        self.todos@
    }
}

impl TodoList {
    /// An empty list.
    pub fn new() -> (r: Self)
        ensures
            r@ == Seq::<Todo>::empty(),
    {
        let r = TodoList { todos: Vec::new() };
        proof {
            assert(r@ =~= Seq::<Todo>::empty());
        }
        r
    }

    /// Borrows the entries, in order.
    pub fn iter(&self) -> (r: &Vec<Todo>)
        ensures
            r@ == self@,
    {
        &self.todos
    }

    /// Appends one entry at the end.
    pub fn push(&mut self, todo: Todo)
        ensures
            final(self)@ == old(self)@.push(todo),
    {
        self.todos.push(todo);
    }

    /// Removes the entry at this position, keeping the order of the rest.
    pub fn remove(&mut self, index: usize)
        requires
            index < old(self)@.len(),
        ensures
            final(self)@ == old(self)@.remove(index as int),
    {
        let _ = self.todos.remove(index);
    }

    /// Rewrites the entry at this position with the given function; out
    /// of range, the list is unchanged.
    pub fn mutate<F: FnOnce(Todo) -> Todo>(&mut self, index: usize, f: F)
        requires
            index < old(self)@.len() ==> call_requires(f, (old(self)@[index as int],)),
        ensures
            index >= old(self)@.len() ==> final(self)@ == old(self)@,
            index < old(self)@.len() ==> exists|t: Todo|
                call_ensures(f, (old(self)@[index as int],), t) && final(self)@ == old(
                    self,
                )@.update(index as int, t),
    {
        if index >= self.todos.len() {
            return;
        }
        let t = self.todos.remove(index);
        let t2 = f(t);
        self.todos.insert(index, t2);
        proof {
            assert(self@ =~= old(self)@.update(index as int, t2));
        }
    }

    /// How many entries the list holds.
    pub fn len(&self) -> (r: usize)
        ensures
            r == self@.len(),
    {
        self.todos.len()
    }

    /// True when the list holds no entry.
    pub fn is_empty(&self) -> (r: bool)
        ensures
            r == (self@.len() == 0),
    {
        self.todos.is_empty()
    }
}

/// Index of the first newline, or the length if there is none.
pub open spec fn first_nl(s: Seq<char>) -> int
    decreases s.len(),
{
    if s.len() == 0 {
        0
    } else if s[0] == '\n' {
        0
    } else {
        1 + first_nl(s.drop_first())
    }
}

proof fn lemma_first_nl_bounds(s: Seq<char>)
    ensures
        0 <= first_nl(s) <= s.len(),
    decreases s.len(),
{
    if s.len() != 0 && s[0] != '\n' {
        lemma_first_nl_bounds(s.drop_first());
    }
}

proof fn lemma_first_nl_char(s: Seq<char>, i: int)
    requires
        0 <= i <= s.len(),
        forall|j: int| 0 <= j < i ==> s[j] != '\n',
        i == s.len() || s[i] == '\n',
    ensures
        first_nl(s) == i,
    decreases s.len(),
{
    if s.len() == 0 {
    } else if s[0] == '\n' {
        assert(i == 0);
    } else {
        assert(i >= 1);
        lemma_first_nl_char(s.drop_first(), i - 1);
    }
}

/// A line with a carriage return before its newline loses it.
pub open spec fn strip_cr(s: Seq<char>) -> Seq<char> {
    if s.len() > 0 && s[s.len() - 1] == '\r' {
        s.drop_last()
    } else {
        s
    }
}

/// The lines of the file text: split at newlines, each line's trailing
/// carriage return removed, and no empty final line after a trailing
/// newline.
pub open spec fn lines_of(s: Seq<char>) -> Seq<Seq<char>>
    decreases s.len(),
    via lines_of_decreases
{
    if s.len() == 0 {
        Seq::empty()
    } else {
        let i = first_nl(s);
        if i == s.len() {
            seq![s]
        } else {
            seq![strip_cr(s.take(i))] + lines_of(s.skip(i + 1))
        }
    }
}

#[via_fn]
proof fn lines_of_decreases(s: Seq<char>) {
    if s.len() != 0 {
        lemma_first_nl_bounds(s);
    }
}

/// Splits text into its lines, as `lines_of` describes.
fn split_lines(s: &str) -> (r: Vec<String>)
    ensures
        r.deep_view() == lines_of(s@),
{
    let n = s.unicode_len();
    let mut lines: Vec<String> = Vec::new();
    let mut pos: usize = 0;
    proof {
        assert(s@.skip(0) =~= s@);
        assert(lines.deep_view() + lines_of(s@) =~= lines_of(s@));
    }
    while pos < n
        invariant
            pos <= n,
            n == s@.len(),
            lines.deep_view() + lines_of(s@.skip(pos as int)) == lines_of(s@),
        decreases n - pos,
    {
        let start = pos;
        let mut end = pos;
        while end < n && s.get_char(end) != '\n'
            invariant
                start <= end <= n,
                n == s@.len(),
                forall|j: int| start <= j < end ==> s@[j] != '\n',
            decreases n - end,
        {
            end = end + 1;
        }
        let ghost t = s@.skip(start as int);
        proof {
            assert(forall|j: int| 0 <= j < end - start ==> t[j] == s@[start + j]);
            assert(end - start < t.len() ==> t[end - start] == s@[end as int]);
            lemma_first_nl_char(t, end - start);
        }
        let ghost prev = lines.deep_view();
        if end == n {
            let line = String::from_str(s.substring_char(start, end));
            lines.push(line);
            proof {
                assert(t.len() > 0);
                assert(first_nl(t) == t.len());
                assert(t =~= s@.subrange(start as int, end as int));
                assert(lines_of(t) == seq![t]);
                assert(lines.deep_view() =~= prev.push(t));
                assert(lines.deep_view() + lines_of(s@.skip(n as int)) =~= prev + lines_of(t));
                assert(s@.skip(n as int) =~= Seq::<char>::empty());
            }
            pos = n;
        } else {
            let line = if end > start && s.get_char(end - 1) == '\r' {
                String::from_str(s.substring_char(start, end - 1))
            } else {
                String::from_str(s.substring_char(start, end))
            };
            lines.push(line);
            proof {
                assert(t.len() > 0);
                assert(t.take(end - start) =~= s@.subrange(start as int, end as int));
                if end > start && s@[end - 1] == '\r' {
                    assert(strip_cr(t.take(end - start)) =~= s@.subrange(
                        start as int,
                        end - 1,
                    ));
                } else {
                    assert(strip_cr(t.take(end - start)) =~= s@.subrange(start as int, end as int));
                }
                assert(line@ == strip_cr(t.take(end - start)));
                assert(t.skip(end - start + 1) =~= s@.skip(end + 1));
                assert(lines_of(t) == seq![strip_cr(t.take(end - start))] + lines_of(
                    s@.skip(end + 1),
                ));
                assert(lines.deep_view() =~= prev.push(line@));
                assert(lines.deep_view() + lines_of(s@.skip(end + 1)) =~= prev + lines_of(t));
            }
            pos = end + 1;
        }
    }
    proof {
        assert(s@.skip(n as int) =~= Seq::<char>::empty());
        assert(lines.deep_view() + lines_of(s@.skip(n as int)) =~= lines.deep_view());
    }
    lines
}

/// One parsed entry agrees with its two file lines: the first line is
/// the content, and the second is the deadline, with `N/A` for none.
pub open spec fn todo_matches_lines(t: Todo, content: Seq<char>, deadline: Seq<char>) -> bool {
    &&& t.content@ == content
    &&& deadline == "N/A"@ ==> t.deadline is None
    &&& deadline != "N/A"@ ==> (t.deadline matches Some(d) && d@ == deadline)
}

/// Parses the TODO file's bytes: UTF-8 text whose lines alternate entry
/// content and deadline, with `N/A` standing for no deadline.
pub fn parse_todos(todos: Vec<u8>) -> (r: TodoList)
    requires
        valid_utf8(todos@),
        lines_of(decode_utf8(todos@)).len() % 2 == 0,
    ensures
        r@.len() == lines_of(decode_utf8(todos@)).len() / 2,
        forall|k: int|
            0 <= k < r@.len() ==> todo_matches_lines(
                r@[k],
                lines_of(decode_utf8(todos@))[2 * k],
                lines_of(decode_utf8(todos@))[2 * k + 1],
            ),
{
    let text = match utf8_to_string(&todos) {
        Some(t) => t,
        None => {
            proof {
                assert(false);
            }
            String::new()
        },
    };
    let lines = split_lines(text.as_str());
    let ghost lv = lines_of(decode_utf8(todos@));
    let na = String::from_str("N/A");
    let mut list = TodoList::new();
    let mut k: usize = 0;
    proof {
        assert(lines.deep_view() == lv);
        assert(lines@.len() == lv.len());
    }
    let half = lines.len() / 2;
    while k < half
        invariant
            k <= half,
            half == lines@.len() / 2,
            lines@.len() <= usize::MAX,
            lines@.len() % 2 == 0,
            lines.deep_view() == lv,
            lines@.len() == lv.len(),
            na@ == "N/A"@,
            list@.len() == k,
            forall|j: int| 0 <= j < k ==> todo_matches_lines(list@[j], lv[2 * j], lv[2 * j + 1]),
        decreases half - k,
    {
        proof {
            assert(lines@.len() == 2 * (lines@.len() / 2) + lines@.len() % 2);
            assert(2 * k + 1 < lines@.len());
        }
        let content = lines[2 * k].clone();
        let deadline_line = &lines[2 * k + 1];
        let deadline = if *deadline_line == na {
            None
        } else {
            Some(deadline_line.clone())
        };
        list.push(Todo { content, deadline });
        k = k + 1;
    }
    list
}

} // verus!
