//! A single task: identifier, content, and lifecycle status.

use vstd::prelude::*;

use crate::storage::{chars_to_string, nat_chars, push_nat, push_status, status_chars};

verus! {

/// `n` spaces.
pub open spec fn spaces(n: nat) -> Seq<char>
    decreases n,
{
    if n == 0 {
        Seq::empty()
    } else {
        spaces((n - 1) as nat).push(' ')
    }
}

/// `s` left-aligned in a column of width `w`: padded with spaces when
/// shorter, kept whole when not.
pub open spec fn pad_to(s: Seq<char>, w: nat) -> Seq<char> {
    if s.len() >= w {
        s
    } else {
        s + spaces((w - s.len()) as nat)
    }
}

/// The one-line display form of a task: a completion mark, the content in a
/// 20-column field, the status in a 12-column field, and the id — e.g.
/// `[x] Learn Rust           [Done        ] (ID: 42)`. A display
/// convenience, not part of the durable format.
pub open spec fn render_chars(t: TaskModel) -> Seq<char> {
    let tick: char = if t.status == TodoStatus::Done {
        'x'
    } else {
        ' '
    };
    seq!['[', tick, ']', ' '] + pad_to(t.content, 20) + seq![' ', '['] + pad_to(
        status_chars(t.status),
        12,
    ) + seq![']', ' ', '(', 'I', 'D', ':', ' '] + nat_chars(t.id) + seq![')']
}

/// Lifecycle status of a task. A status transitions freely between the three
/// variants; no ordering is enforced.
#[derive(Debug, Clone, Copy, PartialEq, Eq, Structural)]
pub enum TodoStatus {
    Open,
    InProgress,
    Done,
}

/// Mathematical model of one task, used by every contract in this crate.
#[verifier::ext_equal]
pub ghost struct TaskModel {
    pub id: nat,
    pub content: Seq<char>,
    pub status: TodoStatus,
}

/// One tracked unit of work. The id is assigned at creation and immutable
/// thereafter; content and status are mutable through the setters.
#[derive(Debug, Clone, PartialEq)]
pub struct Todo {
    id: usize,
    content: String,
    status: TodoStatus,
}

impl View for Todo {
    type V = TaskModel;

    closed spec fn view(&self) -> TaskModel {
        TaskModel { id: self.id as nat, content: self.content@, status: self.status }
    }
}

impl Todo {
    /// Creates a task with the given id and content, starting `Open`.
    pub fn new(id: usize, content: &str) -> (r: Self)
        ensures
            r@ == (TaskModel { id: id as nat, content: content@, status: TodoStatus::Open }),
    {
        Todo { id, content: content.to_owned(), status: TodoStatus::Open }
    }

    /// The id of the task.
    pub fn id(&self) -> (r: usize)
        ensures
            r as nat == self@.id,
    {
        self.id
    }

    /// The content of the task.
    pub fn content(&self) -> (r: &String)
        ensures
            r@ == self@.content,
    {
        &self.content
    }

    /// The status of the task.
    pub fn status(&self) -> (r: TodoStatus)
        ensures
            r == self@.status,
    {
        self.status
    }

    /// Replaces the content; id and status are untouched.
    pub fn set_content(&mut self, content: &str)
        ensures
            final(self)@ == (TaskModel { content: content@, ..old(self)@ }),
    {
        self.content = content.to_owned();
    }

    /// Replaces the status; id and content are untouched.
    pub fn set_status(&mut self, status: TodoStatus)
        ensures
            final(self)@ == (TaskModel { status, ..old(self)@ }),
    {
        self.status = status;
    }

    /// The one-line display form of the task, as [`render_chars`] gives it.
    pub fn render(&self) -> (r: String)
        ensures
            r@ == render_chars(self@),
    {
        let mut out: Vec<char> = Vec::new();
        out.push('[');
        if self.status == TodoStatus::Done {
            out.push('x');
        } else {
            out.push(' ');
        }
        out.push(']');
        out.push(' ');
        let ghost head = out@;
        proof {
            let tick: char = if self@.status == TodoStatus::Done {
                'x'
            } else {
                ' '
            };
            assert(head =~= seq!['[', tick, ']', ' ']);
        }
        push_field(&mut out, &self.content, 20);
        out.push(' ');
        out.push('[');
        let ghost mid = out@;
        push_status_field(&mut out, self.status);
        out.push(']');
        out.push(' ');
        out.push('(');
        out.push('I');
        out.push('D');
        out.push(':');
        out.push(' ');
        let ghost before_id = out@;
        proof {
            assert(before_id =~= mid + pad_to(status_chars(self@.status), 12) + seq![']', ' ',
                '(', 'I', 'D', ':', ' ']);
        }
        push_nat(&mut out, self.id);
        out.push(')');
        proof {
            assert(out@ =~= render_chars(self@));
        }
        chars_to_string(&out)
    }
}

/// Appends `n` spaces.
fn push_spaces(out: &mut Vec<char>, n: usize)
    ensures
        final(out)@ == old(out)@ + spaces(n as nat),
{
    let mut j: usize = 0;
    while j < n
        invariant
            0 <= j <= n,
            out@ == old(out)@ + spaces(j as nat),
        decreases n - j,
    {
        out.push(' ');
        proof {
            assert(out@ =~= old(out)@ + spaces((j + 1) as nat));
        }
        j += 1;
    }
}

/// Appends `s` left-aligned in a column of width `w`.
fn push_field(out: &mut Vec<char>, s: &String, w: usize)
    ensures
        final(out)@ == old(out)@ + pad_to(s@, w as nat),
{
    let n = s.as_str().unicode_len();
    let mut i: usize = 0;
    while i < n
        invariant
            0 <= i <= n,
            n == s@.len(),
            out@ == old(out)@ + s@.take(i as int),
        decreases n - i,
    {
        let c = s.as_str().get_char(i);
        out.push(c);
        proof {
            assert(out@ =~= old(out)@ + s@.take(i + 1));
        }
        i += 1;
    }
    proof {
        assert(s@.take(n as int) =~= s@);
    }
    if n < w {
        push_spaces(out, w - n);
    } else {
        proof {
            assert(old(out)@ + s@ =~= old(out)@ + pad_to(s@, w as nat));
        }
    }
}

/// Appends the status spelling left-aligned in a 12-column field.
fn push_status_field(out: &mut Vec<char>, st: TodoStatus)
    ensures
        final(out)@ == old(out)@ + pad_to(status_chars(st), 12),
{
    push_status(out, st);
    match st {
        TodoStatus::Open => push_spaces(out, 8),
        TodoStatus::InProgress => push_spaces(out, 2),
        TodoStatus::Done => push_spaces(out, 8),
    }
    proof {
        assert(final(out)@ =~= old(out)@ + pad_to(status_chars(st), 12));
    }
}

} // verus!
