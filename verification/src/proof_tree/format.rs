//! Indenting text that is written into a nested block of a proof tree dump.
use vstd::prelude::*;
use vstd::string::StrSliceExecFns;

verus! {

/// Where an indenting writer stands.
#[derive(Clone, Copy, Debug, PartialEq, Eq, Structural)]
pub enum IndentorState {
    /// Nothing was written yet: the block starts on a new line.
    StartWithNewline,
    /// The last character written ended a line.
    OnNewline,
    /// Inside a line.
    Inline,
}

/// What goes before the next character: a newline and four spaces at the
/// start of the block, four spaces at the start of a line, nothing inside
/// a line.
pub open spec fn prefix(st: IndentorState) -> Seq<char> {
    match st {
        IndentorState::StartWithNewline => seq!['\n', ' ', ' ', ' ', ' '],
        IndentorState::OnNewline => seq![' ', ' ', ' ', ' '],
        IndentorState::Inline => Seq::empty(),
    }
}

/// The state after writing `c`.
pub open spec fn state_after(c: char) -> IndentorState {
    if c == '\n' {
        IndentorState::OnNewline
    } else {
        IndentorState::Inline
    }
}

/// The text written for `s` from state `st`: every line of `s` is indented
/// by four spaces, and the block starts on a new line.
pub open spec fn indented(st: IndentorState, s: Seq<char>) -> Seq<char>
    decreases s.len(),
{
    if s.len() == 0 {
        Seq::empty()
    } else {
        let before = indented(st, s.drop_last());
        before + prefix(final_state(st, s.drop_last())) + seq![s.last()]
    }
}

/// The state after writing `s` from state `st`.
pub open spec fn final_state(st: IndentorState, s: Seq<char>) -> IndentorState {
    if s.len() == 0 {
        st
    } else {
        state_after(s.last())
    }
}

/// A writer that indents what is written into it by four spaces.
pub struct Indentor {
    pub state: IndentorState,
}

fn prefix_chars(st: IndentorState) -> (r: Vec<char>)
    ensures
        r@ == prefix(st),
{
    let mut r: Vec<char> = Vec::new();
    match st {
        IndentorState::StartWithNewline => {
            r.push('\n');
            r.push(' ');
            r.push(' ');
            r.push(' ');
            r.push(' ');
        },
        IndentorState::OnNewline => {
            r.push(' ');
            r.push(' ');
            r.push(' ');
            r.push(' ');
        },
        IndentorState::Inline => {},
    }
    assert(r@ =~= prefix(st));
    r
}

impl Indentor {
    /// The text to pass on for `s`: each line is indented, and the first
    /// text of the block starts on a new line.
    pub fn write_str(&mut self, s: &str) -> (r: Vec<char>)
        ensures
            r@ == indented(old(self).state, s@),
            final(self).state == final_state(old(self).state, s@),
    {
        let ghost st0 = self.state;
        let n = s.unicode_len();
        let mut out: Vec<char> = Vec::new();
        let mut i: usize = 0;
        while i < n
            invariant
                n == s@.len(),
                i <= n,
                out@ == indented(st0, s@.take(i as int)),
                self.state == final_state(st0, s@.take(i as int)),
            decreases n - i,
        {
            let c = s.get_char(i);
            let p = prefix_chars(self.state);
            let mut k: usize = 0;
            let ghost start = out@;
            while k < p.len()
                invariant
                    k <= p@.len(),
                    out@ == start + p@.take(k as int),
                decreases p@.len() - k,
            {
                out.push(p[k]);
                assert(p@.take(k + 1) =~= p@.take(k as int).push(p@[k as int]));
                k = k + 1;
            }
            assert(p@.take(p@.len() as int) =~= p@);
            out.push(c);
            self.state = if c == '\n' {
                IndentorState::OnNewline
            } else {
                IndentorState::Inline
            };
            proof {
                let t = s@.take(i + 1);
                assert(t.drop_last() =~= s@.take(i as int));
                assert(t.last() == c);
            }
            i = i + 1;
        }
        assert(s@.take(n as int) =~= s@);
        out
    }
}

} // verus!
