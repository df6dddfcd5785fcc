//! Splitting request text into lines, as `str::lines` does, and walking
//! through them.
use vstd::prelude::*;

use crate::text::{chars_of, string_from_chars};

verus! {

/// The first index `i >= from` holding a line feed, or the length of `s`.
pub open spec fn next_newline(s: Seq<char>, from: int) -> int
    decreases s.len() - from,
{
    if from < 0 || from >= s.len() {
        s.len() as int
    } else if s[from] == '\n' {
        from
    } else {
        next_newline(s, from + 1)
    }
}

/// A found line feed lies in range and none comes before it.
pub proof fn lemma_next_newline(s: Seq<char>, from: int)
    requires
        0 <= from <= s.len(),
    ensures
        from <= next_newline(s, from) <= s.len(),
        next_newline(s, from) < s.len() ==> s[next_newline(s, from)] == '\n',
        forall|k: int| from <= k < next_newline(s, from) ==> s[k] != '\n',
    decreases s.len() - from,
{
    if from < s.len() && s[from] != '\n' {
        lemma_next_newline(s, from + 1);
    }
}

/// A line without the carriage return that ends a `\r\n` line ending.
pub open spec fn strip_carriage_return(line: Seq<char>) -> Seq<char> {
    if line.len() > 0 && line.last() == '\r' {
        line.drop_last()
    } else {
        line
    }
}

/// The lines of `s` from offset `start` on.
pub open spec fn lines_from(s: Seq<char>, start: int) -> Seq<Seq<char>>
    decreases s.len() - start,
{
    if start < 0 || start >= s.len() {
        Seq::empty()
    } else {
        let j = next_newline(s, start);
        if j >= s.len() {
            seq![s.subrange(start, s.len() as int)]
        } else {
            proof {
                lemma_next_newline(s, start);
            }
            seq![strip_carriage_return(s.subrange(start, j))] + lines_from(s, j + 1)
        }
    }
}

/// The lines of `s`, as `str::lines` gives them: split at each `\n`, a
/// `\r` right before the `\n` dropped, and no empty line after a final `\n`.
pub open spec fn spec_lines(s: Seq<char>) -> Seq<Seq<char>> {
    lines_from(s, 0)
}

/// The character views of a list of strings.
pub open spec fn views_of(v: Seq<String>) -> Seq<Seq<char>> {
    v.map_values(|s: String| s@)
}

/// The lines of a text, and how many of them have been taken.
pub struct Lines {
    lines: Vec<String>,
    taken: usize,
}

impl Lines {
    #[verifier::type_invariant]
    spec fn taken_in_range(self) -> bool {
        self.taken <= self.lines.len()
    }

    /// The lines not taken yet.
    pub closed spec fn remaining(self) -> Seq<Seq<char>> {
        views_of(self.lines@).skip(self.taken as int)
    }

    /// The lines of `text`, none taken yet.
    pub fn new(text: &str) -> (res: Lines)
        ensures
            res.remaining() == spec_lines(text@),
    {
        let chars = chars_of(text);
        let ghost s = chars@;
        let mut lines: Vec<String> = Vec::new();
        let mut start: usize = 0;
        let mut i: usize = 0;
        while i < chars.len()
            invariant
                s == chars@,
                s == text@,
                start <= i <= s.len(),
                next_newline(s, start as int) == next_newline(s, i as int),
                spec_lines(s) == views_of(lines@) + lines_from(s, start as int),
            decreases s.len() - i,
        {
            if chars[i] == '\n' {
                proof {
                    lemma_next_newline(s, start as int);
                }
                let end = if i > start && chars[i - 1] == '\r' {
                    i - 1
                } else {
                    i
                };
                let line = string_from_chars(&chars, start, end);
                assert(line@ == strip_carriage_return(s.subrange(start as int, i as int)));
                assert(views_of(lines@.push(line)) =~= views_of(lines@) + seq![line@]);
                assert(lines_from(s, start as int) == seq![line@] + lines_from(s, i + 1));
                assert(views_of(lines@) + (seq![line@] + lines_from(s, i + 1)) =~= (views_of(
                    lines@,
                ) + seq![line@]) + lines_from(s, i + 1));
                lines.push(line);
                start = i + 1;
            }
            i = i + 1;
        }
        proof {
            lemma_next_newline(s, start as int);
        }
        if start < chars.len() {
            let line = string_from_chars(&chars, start, chars.len());
            assert(views_of(lines@.push(line)) =~= views_of(lines@) + seq![line@]);
            lines.push(line);
        } else {
            assert(views_of(lines@) + lines_from(s, start as int) =~= views_of(lines@));
        }
        assert(views_of(lines@).skip(0) =~= views_of(lines@));
        Lines { lines, taken: 0 }
    }

    /// Takes the next line, if there is one.
    pub fn next(&mut self) -> (res: Option<String>)
        ensures
            old(self).remaining().len() == 0 ==> res is None && final(self).remaining()
                == old(self).remaining(),
            old(self).remaining().len() > 0 ==> (res matches Some(l) && l@ == old(
                self,
            ).remaining()[0] && final(self).remaining() == old(self).remaining().drop_first()),
    {
        proof {
            use_type_invariant(&*self);
        }
        if self.taken < self.lines.len() {
            let line = self.lines[self.taken].clone();
            self.taken = self.taken + 1;
            assert(views_of(self.lines@).skip(self.taken as int) =~= views_of(self.lines@).skip(
                self.taken - 1,
            ).drop_first());
            Some(line)
        } else {
            None
        }
    }
}

/// The element after the next line: `get_next_element` skips one line (a
/// bulk string's length header) and gives the line after it, or an empty
/// string where the lines run out.
pub open spec fn next_element(remaining: Seq<Seq<char>>) -> Seq<char> {
    if remaining.len() >= 2 {
        remaining[1]
    } else {
        Seq::empty()
    }
}

/// The lines left after `get_next_element`: two fewer, or none.
pub open spec fn after_next_element(remaining: Seq<Seq<char>>) -> Seq<Seq<char>> {
    if remaining.len() >= 2 {
        remaining.skip(2)
    } else {
        Seq::empty()
    }
}

/// Skips one line and gives the next one, or an empty string where there is
/// none.
pub fn get_next_element(lines: &mut Lines) -> (res: String)
    ensures
        res@ == next_element(old(lines).remaining()),
        final(lines).remaining() == after_next_element(old(lines).remaining()),
{
    let _skipped = lines.next();
    match lines.next() {
        Some(line) => {
            assert(old(lines).remaining().skip(2) =~= old(lines).remaining().drop_first().drop_first());
            line
        },
        None => String::new(),
    }
}

} // verus!
