//! The interactive session's input: lines are gathered into a block until a
//! line ends with `;;`, and a line reading `quit` ends the session.
use vstd::prelude::*;
use crate::text::{chars_of, is_whitespace, string_of, unicode_whitespace};

verus! {

/// A text without its leading white space.
pub open spec fn trim_start(s: Seq<char>) -> Seq<char>
    decreases s.len(),
{
    if s.len() > 0 && unicode_whitespace(s[0]) {
        trim_start(s.drop_first())
    } else {
        s
    }
}

/// A text without its trailing white space.
pub open spec fn trim_end(s: Seq<char>) -> Seq<char>
    decreases s.len(),
{
    if s.len() > 0 && unicode_whitespace(s.last()) {
        trim_end(s.drop_last())
    } else {
        s
    }
}

/// A text without white space at either end, as `str::trim` gives it.
pub open spec fn trim(s: Seq<char>) -> Seq<char> {
    trim_end(trim_start(s))
}

/// Whether a text ends with `;;`.
pub open spec fn ends_with_pair(s: Seq<char>) -> bool {
    s.len() >= 2 && s[s.len() - 2] == ';' && s[s.len() - 1] == ';'
}

/// A text with every trailing `;;` removed, as `trim_end_matches(";;")`
/// gives it.
pub open spec fn strip_pairs(s: Seq<char>) -> Seq<char>
    decreases s.len(),
{
    if ends_with_pair(s) {
        strip_pairs(s.subrange(0, s.len() - 2))
    } else {
        s
    }
}

/// What the session does after a line.
#[derive(Debug)]
pub enum ReplAction {
    /// The line reads `quit`: the session ends.
    Quit,
    /// The block goes on.
    Wait,
    /// The block is complete: this source is run.
    Run(String),
}

/// The value of an action.
pub enum ActionView {
    Quit,
    Wait,
    Run(Seq<char>),
}

impl View for ReplAction {
    type V = ActionView;

    open spec fn view(&self) -> ActionView {
        match self {
            ReplAction::Quit => ActionView::Quit,
            ReplAction::Wait => ActionView::Wait,
            ReplAction::Run(s) => ActionView::Run(s@),
        }
    }
}

/// The word that ends the session.
pub open spec fn quit_word() -> Seq<char> {
    seq!['q', 'u', 'i', 't']
}

/// The block after a line, and what the session does: a line that reads
/// `quit` once trimmed ends the session and leaves the block; any other line
/// joins the block, and where it ends with `;;` once trimmed, the block, rid
/// of its trailing `;;`s, is run and a new block starts.
pub open spec fn repl_next(buffer: Seq<char>, line: Seq<char>) -> (Seq<char>, ActionView) {
    let t = trim(line);
    if t == quit_word() {
        (buffer, ActionView::Quit)
    } else if ends_with_pair(t) {
        (Seq::empty(), ActionView::Run(strip_pairs(buffer + line)))
    } else {
        (buffer + line, ActionView::Wait)
    }
}

/// Where the trimmed text of `l` starts and ends.
fn trim_bounds(l: &Vec<char>) -> (r: (usize, usize))
    ensures
        r.0 <= r.1 <= l@.len(),
        trim(l@) == l@.subrange(r.0 as int, r.1 as int),
{
    let mut a: usize = 0;
    assert(l@.subrange(0, l@.len() as int) =~= l@);
    while a < l.len() && is_whitespace(l[a])
        invariant
            a <= l@.len(),
            trim_start(l@) == trim_start(l@.subrange(a as int, l@.len() as int)),
        decreases l.len() - a,
    {
        assert(l@.subrange(a as int, l@.len() as int).drop_first() =~= l@.subrange(a + 1, l@.len() as int));
        a += 1;
    }
    let ghost front = l@.subrange(a as int, l@.len() as int);
    assert(trim_start(front) == front);
    let mut b: usize = l.len();
    while b > a && is_whitespace(l[b - 1])
        invariant
            a <= b <= l@.len(),
            trim_end(front) == trim_end(l@.subrange(a as int, b as int)),
        decreases b - a,
    {
        assert(l@.subrange(a as int, b as int).drop_last() =~= l@.subrange(a as int, b - 1));
        b -= 1;
    }
    assert(trim_end(l@.subrange(a as int, b as int)) == l@.subrange(a as int, b as int));
    (a, b)
}

/// How much of `all` is left once every trailing `;;` is removed.
fn strip_pairs_len(all: &Vec<char>) -> (n: usize)
    ensures
        n <= all@.len(),
        strip_pairs(all@) == all@.subrange(0, n as int),
{
    let mut n = all.len();
    assert(all@.subrange(0, n as int) =~= all@);
    while n >= 2 && all[n - 2] == ';' && all[n - 1] == ';'
        invariant
            n <= all@.len(),
            strip_pairs(all@) == strip_pairs(all@.subrange(0, n as int)),
        decreases n,
    {
        assert(all@.subrange(0, n as int).subrange(0, n - 2) =~= all@.subrange(0, n - 2));
        n -= 2;
    }
    n
}

/// Appends the characters of `l` to `all`.
fn append_chars(all: &mut Vec<char>, l: &Vec<char>)
    ensures
        final(all)@ == old(all)@ + l@,
{
    let ghost start = all@;
    let mut k: usize = 0;
    while k < l.len()
        invariant
            k <= l@.len(),
            all@ == start + l@.subrange(0, k as int),
        decreases l.len() - k,
    {
        all.push(l[k]);
        assert(l@.subrange(0, k + 1) =~= l@.subrange(0, k as int).push(l@[k as int]));
        k += 1;
    }
    assert(l@.subrange(0, l@.len() as int) =~= l@);
}

/// Takes one line of input into the block.
pub fn repl_step(buffer: &mut String, line: &str) -> (a: ReplAction)
    ensures
        (final(buffer)@, a@) == repl_next(old(buffer)@, line@),
{
    let l = chars_of(line);
    let (a, b) = trim_bounds(&l);
    let ghost t = l@.subrange(a as int, b as int);
    if b - a == 4 && l[a] == 'q' && l[a + 1] == 'u' && l[a + 2] == 'i' && l[a + 3] == 't' {
        assert(t =~= quit_word());
        return ReplAction::Quit;
    }
    assert(t != quit_word()) by {
        if t == quit_word() {
            assert(t.len() == 4);
            assert(t[0] == l@[a as int] && t[1] == l@[a + 1] && t[2] == l@[a + 2] && t[3] == l@[a + 3]);
            assert(t[0] == 'q' && t[1] == 'u' && t[2] == 'i' && t[3] == 't');
        }
    }
    let pair = b - a >= 2 && l[b - 2] == ';' && l[b - 1] == ';';
    assert(pair == ends_with_pair(t));
    let mut all = chars_of(buffer.as_str());
    append_chars(&mut all, &l);
    if pair {
        let n = strip_pairs_len(&all);
        let ghost whole = all@;
        all.truncate(n);
        assert(all@ =~= whole.subrange(0, n as int));
        let src = string_of(&all);
        *buffer = String::new();
        ReplAction::Run(src)
    } else {
        *buffer = string_of(&all);
        ReplAction::Wait
    }
}

} // verus!
