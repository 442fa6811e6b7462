//! Turning a task's command line into a program and its arguments, with the
//! arguments' placeholders filled from the task's context.
use vstd::prelude::*;

use crate::error::{Error, UserError};
use crate::target::{opt_chars, Task, TaskContext};
use dynfmt::{Format, SimpleCurlyFormat};

verus! {

/// What dynfmt's curly-brace format makes of `template` when the one named
/// argument `key` is `value`; `None` when it fails, as it does on a
/// placeholder of another name.
pub uninterp spec fn curly_format(template: Seq<char>, key: Seq<char>, value: Seq<char>) -> Option<
    Seq<char>,
>;

/// Relies on dynfmt's `SimpleCurlyFormat::format` with a map that holds one
/// named argument: the result depends on the three strings alone, and a
/// template without `{` comes back unchanged.
#[verifier::external_body]
fn format_named(template: &str, key: &str, value: &String) -> (r: Option<String>)
    ensures
        opt_chars(r) == curly_format(template@, key@, value@),
        !template@.contains('{') ==> opt_chars(r) == Some(template@),
{
    let mut args = std::collections::BTreeMap::new();
    args.insert(key, value);
    SimpleCurlyFormat.format(template, &args).ok().map(|s| s.to_string())
}

/// The name by which an argument refers to the target's file name.
pub open spec fn filename_key() -> Seq<char> {
    "target_filename"@
}

/// What `arg` becomes with its placeholders filled from `context`.
pub open spec fn formatted_arg(arg: Seq<char>, context: TaskContext) -> Option<Seq<char>> {
    curly_format(arg, filename_key(), context.target_filename@)
}

/// Fills the placeholders of `arg` from `context`: `{target_filename}` is the
/// target's file name. A placeholder of any other kind is an internal error.
pub fn format_arg(arg: &str, context: &TaskContext) -> (r: Result<String, Error>)
    ensures
        match formatted_arg(arg@, *context) {
            Some(s) => r matches Ok(out) && out@ == s,
            None => r matches Err(Error::Internal { .. }),
        },
        !arg@.contains('{') ==> (r matches Ok(out) && out@ == arg@),
{
    match format_named(arg, "target_filename", &context.target_filename) {
        Some(out) => Ok(out),
        None => Err(Error::internal("an argument that cannot be formatted")),
    }
}

/// The words found so far in a line, and the word being read, after reading
/// `s` one character at a time: a space ends a word, and empty words are
/// dropped.
pub open spec fn split_state(s: Seq<char>) -> (Seq<Seq<char>>, Seq<char>)
    decreases s.len(),
{
    if s.len() == 0 {
        (Seq::empty(), Seq::empty())
    } else {
        let (done, cur) = split_state(s.drop_last());
        if s.last() == ' ' {
            if cur.len() > 0 {
                (done.push(cur), Seq::empty())
            } else {
                (done, cur)
            }
        } else {
            (done, cur.push(s.last()))
        }
    }
}

/// The words of a line: its longest runs of characters other than a space,
/// in order.
pub open spec fn words(s: Seq<char>) -> Seq<Seq<char>> {
    let (done, cur) = split_state(s);
    if cur.len() > 0 {
        done.push(cur)
    } else {
        done
    }
}

/// The words of `line`.
fn split_words(line: &str) -> (r: Vec<String>)
    ensures
        r@.map_values(|w: String| w@) == words(line@),
{
    let n = line.unicode_len();
    let mut out: Vec<String> = Vec::new();
    let mut start: usize = 0;
    let mut i: usize = 0;
    while i < n
        invariant
            n == line@.len(),
            start <= i <= n,
            split_state(line@.take(i as int)) == (
                out@.map_values(|w: String| w@),
                line@.subrange(start as int, i as int),
            ),
        decreases n - i,
    {
        let c = line.get_char(i);
        proof {
            assert(line@.take(i + 1).drop_last() == line@.take(i as int));
            assert(line@.take(i + 1).last() == c);
        }
        if c == ' ' {
            if i > start {
                let w = String::from_str(line.substring_char(start, i));
                let ghost before = out@;
                out.push(w);
                proof {
                    assert(out@.map_values(|w: String| w@) == before.map_values(|w: String| w@).push(
                        line@.subrange(start as int, i as int),
                    ));
                }
            }
            start = i + 1;
            proof {
                assert(line@.subrange(start as int, i + 1) == Seq::<char>::empty());
            }
        } else {
            proof {
                assert(line@.subrange(start as int, i + 1) == line@.subrange(start as int, i as int).push(
                    c,
                ));
            }
        }
        i += 1;
    }
    proof {
        assert(line@.take(n as int) == line@);
    }
    if n > start {
        let w = String::from_str(line.substring_char(start, n));
        let ghost before = out@;
        out.push(w);
        proof {
            assert(out@.map_values(|w: String| w@) == before.map_values(|w: String| w@).push(
                line@.subrange(start as int, n as int),
            ));
        }
    }
    out
}

impl Task {
    /// The program and the arguments of the task's command: its first word,
    /// and each further word with its placeholders filled from `context`.
    /// Fails with `EmptyCommand` when the command has no word.
    pub fn format_command(&self, context: &TaskContext) -> (r: Result<(String, Vec<String>), Error>)
        ensures
            match r {
                Ok((program, args)) => {
                    let ws = words(self.command@);
                    &&& ws.len() > 0
                    &&& program@ == ws[0]
                    &&& args@.len() == ws.len() - 1
                    &&& forall|i: int|
                        0 <= i < args@.len() ==> formatted_arg(ws[i + 1], *context) == Some(
                            #[trigger] args@[i]@,
                        )
                },
                Err(e) => {
                    let ws = words(self.command@);
                    ||| ws.len() == 0 && e matches Error::UserError(UserError::EmptyCommand)
                    ||| ws.len() > 0 && (exists|i: int|
                        1 <= i < ws.len() && #[trigger] formatted_arg(ws[i], *context) is None) && e matches Error::Internal { .. }
                },
            },
    {
        let parts = split_words(self.command.as_str());
        let ghost ws = words(self.command@);
        assert(parts@.len() == ws.len());
        if parts.len() == 0 {
            return Err(Error::UserError(UserError::EmptyCommand));
        }
        let program = parts[0].clone();
        assert(program@ == ws[0]);
        let mut args: Vec<String> = Vec::new();
        let mut i: usize = 1;
        while i < parts.len()
            invariant
                ws == words(self.command@),
                parts@.map_values(|w: String| w@) == ws,
                1 <= i <= parts@.len(),
                args@.len() == i - 1,
                forall|k: int|
                    0 <= k < args@.len() ==> formatted_arg(ws[k + 1], *context) == Some(
                        #[trigger] args@[k]@,
                    ),
            decreases parts@.len() - i,
        {
            assert(parts@[i as int]@ == ws[i as int]);
            match format_arg(parts[i].as_str(), context) {
                Ok(arg) => {
                    args.push(arg);
                },
                Err(e) => {
                    return Err(e);
                },
            }
            i += 1;
        }
        Ok((program, args))
    }
}

} // verus!
