use vstd::prelude::*;
use vstd::string::{StrSliceExecFns, StringExecFns};
use vstd::utf8::encode_utf8;

use crate::roll::RollError;
use crate::roll_command::{
    batch_fits, command_at, command_text, first_error, parse_command, CommandError, TermResult,
};

verus! {

/// The longest reply the chat platform takes, in bytes of UTF-8.
pub const MESSAGE_LENGTH_MAX: usize = 2000;

/// `s` with `p` taken off its front, where `s` starts with `p`.
pub open spec fn after_prefix(s: Seq<char>, p: Seq<char>) -> Option<Seq<char>> {
    if p.len() <= s.len() && s.subrange(0, p.len() as int) == p {
        Some(s.subrange(p.len() as int, s.len() as int))
    } else {
        None
    }
}

/// The text after the first of the command prefixes that `content` starts with.
pub open spec fn command_text_of(content: Seq<char>) -> Option<Seq<char>> {
    match after_prefix(content, "!roll "@) {
        Some(t) => Some(t),
        None => match after_prefix(content, "!r "@) {
            Some(t) => Some(t),
            None => after_prefix(content, "!plsrollformedicechan "@),
        },
    }
}

/// Takes `prefix` off the front of `s`, where `s` starts with it.
pub fn strip_prefix<'a>(s: &'a str, prefix: &str) -> (r: Option<&'a str>)
    ensures
        match after_prefix(s@, prefix@) {
            Some(t) => r is Some && r->Some_0@ == t,
            None => r is None,
        },
{
    let n = s.unicode_len();
    let m = prefix.unicode_len();
    if m > n {
        return None;
    }
    let mut i: usize = 0;
    while i < m
        invariant
            n == s@.len(),
            m == prefix@.len(),
            m <= n,
            i <= m,
            s@.subrange(0, i as int) == prefix@.subrange(0, i as int),
        decreases m - i,
    {
        if s.get_char(i) != prefix.get_char(i) {
            assert(s@.subrange(0, m as int)[i as int] != prefix@[i as int]);
            return None;
        }
        assert(s@.subrange(0, i + 1) =~= s@.subrange(0, i as int).push(s@[i as int]));
        assert(prefix@.subrange(0, i + 1) =~= prefix@.subrange(0, i as int).push(prefix@[i as int]));
        i = i + 1;
    }
    assert(prefix@.subrange(0, m as int) =~= prefix@);
    Some(s.substring_char(m, n))
}

/// The command in a chat message: the text after the first command prefix
/// (`!roll `, `!r `, `!plsrollformedicechan `) that the message starts with.
pub fn strip_command_prefix(content: &str) -> (r: Option<&str>)
    ensures
        match command_text_of(content@) {
            Some(t) => r is Some && r->Some_0@ == t,
            None => r is None,
        },
{
    if let Some(t) = strip_prefix(content, "!roll ") {
        return Some(t);
    }
    if let Some(t) = strip_prefix(content, "!r ") {
        return Some(t);
    }
    strip_prefix(content, "!plsrollformedicechan ")
}

/// The text that tells a user why a term could not be evaluated.
pub open spec fn roll_error_text(e: RollError) -> Seq<char> {
    match e {
        RollError::InvalidDie => "Error, a die needs at least one face"@,
        RollError::FilterOutOfRange => "Error, cannot drop or keep more dice than were rolled"@,
        RollError::Overflow => "Error, the result is too large"@,
    }
}

pub fn roll_error_message(e: RollError) -> (r: String)
    ensures
        r@ == roll_error_text(e),
{
    match e {
        RollError::InvalidDie => String::from_str("Error, a die needs at least one face"),
        RollError::FilterOutOfRange => String::from_str(
            "Error, cannot drop or keep more dice than were rolled",
        ),
        RollError::Overflow => String::from_str("Error, the result is too large"),
    }
}

/// The text that tells a user why a command was not accepted.
pub open spec fn command_error_text(e: CommandError) -> Seq<char> {
    match e {
        CommandError::TrailingInput(rest) => "Error, unexpected character: "@ + rest@,
        CommandError::Malformed(rest) => "Error parsing roll command: "@ + rest@,
    }
}

pub fn command_error_message(e: &CommandError) -> (r: String)
    ensures
        r@ == command_error_text(*e),
{
    match e {
        CommandError::TrailingInput(rest) => {
            let mut m = String::from_str("Error, unexpected character: ");
            m.append(rest.as_str());
            m
        },
        CommandError::Malformed(rest) => {
            let mut m = String::from_str("Error parsing roll command: ");
            m.append(rest.as_str());
            m
        },
    }
}

/// What is sent for an evaluation's outcome, and the batch count (0 for an error).
pub open spec fn output_of(outcome: Result<Seq<char>, RollError>, batches: u128) -> (Seq<char>, u128) {
    match outcome {
        Ok(t) => (t, batches),
        Err(e) => (roll_error_text(e), 0),
    }
}

/// What `command_output` may give for `command`: the text `out` and the count `n`.
pub open spec fn is_command_output(command: Seq<char>, out: Seq<char>, n: u128) -> bool {
    match command_at(command) {
        Err(p) => out == "Error parsing roll command: "@ + command.subrange(p, command.len() as int) && n == 0,
        Ok((end, batches, es)) => if end < command.len() {
            out == "Error, unexpected character: "@ + command.subrange(end, command.len() as int) && n == 0
        } else {
            match first_error(es, es.len() as int) {
                Some(e) => out == roll_error_text(e) && n == 0,
                None => exists|draws: Seq<Seq<TermResult>>|
                    draws.len() == batches && (forall|b: int|
                        0 <= b < draws.len() ==> batch_fits(es, #[trigger] draws[b]))
                        && output_of(#[trigger] command_text(es, draws, draws.len() as int), batches) == (out, n),
            }
        },
    }
}

/// Parses and evaluates a command: the text to send and the batch count, which is
/// 0 where the text is an error message.
pub fn command_output(command: &str) -> (r: (String, u128))
    ensures
        is_command_output(command@, r.0@, r.1),
{
    match parse_command(command) {
        Ok(cmd) => match cmd.evaluate() {
            Ok(text) => (text, cmd.batch_count()),
            Err(e) => (roll_error_message(e), 0),
        },
        Err(e) => (command_error_message(&e), 0),
    }
}

/// The reply to a user: who asked, the command, a header (`Rolls:` and a newline
/// for more than one batch, else `Roll: `) and the output.
pub open spec fn reply_text(author: Seq<char>, command: Seq<char>, output: Seq<char>, batches: u128) -> Seq<char> {
    author + " requested `["@ + command + "]` "@ + (if batches > 1 {
        "Rolls:\n"@
    } else {
        "Roll: "@
    }) + output
}

/// Composes the reply; where its UTF-8 encoding is longer than the platform takes,
/// a short error message stands in its place.
pub fn compose_reply(author: &str, command: &str, output: &str, batches: u128) -> (r: String)
    ensures
        ({
            let full = reply_text(author@, command@, output@, batches);
            if encode_utf8(full).len() <= MESSAGE_LENGTH_MAX {
                r@ == full
            } else {
                r@ == "Error, output length exceeds 2000 characters"@
            }
        }),
{
    let mut m = String::from_str(author);
    m.append(" requested `[");
    m.append(command);
    m.append("]` ");
    if batches > 1 {
        m.append("Rolls:\n");
    } else {
        m.append("Roll: ");
    }
    m.append(output);
    assert(m@ =~= reply_text(author@, command@, output@, batches));
    if m.as_str().as_bytes().len() > MESSAGE_LENGTH_MAX {
        return String::from_str("Error, output length exceeds 2000 characters");
    }
    m
}

} // verus!
