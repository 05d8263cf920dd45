//! What the interactive client works out of a line as it is typed: the
//! words that complete it, and its colours.

use crate::chars::{to_chars, to_string};
use crate::server::number::{as_i32, as_usize, parse_usize};
use crate::server::parser::{
    Command, CommandView, expr_open, key_of, upper, uppercase, value_from,
    value_of,
};
use crate::server::text::{
    has_prefix, join, joined, same_text, slice, split_words, starts_with, texts, words,
};
use crate::storage::error::DatabaseError;
use crate::storage::operations::{byte_slice, slice_string};
use vstd::prelude::*;
use vstd::string::*;
use vstd::utf8::*;

verus! {

/// The help of the client.
pub const HELP: &'static str =
    r#"Available commands:
┌────────────────────────────┬──────────────────────────────────┐
│ Command                    │ Description                      │
├────────────────────────────┼──────────────────────────────────┤
│ GET <key>                  │ Get value by key                 │
│ SET <key> EXPR(<expr>)     │ Set key to expression result     │
│ UPDATE <key> EXPR(<expr>)  │ Update key with expression       │
│ DEL <key>                  │ Delete key-value pair            │
│ ALL                        │ Get all key-value pairs          │
│ STRLEN <key>               │ Get length of value by key       │
│ STRCAT <key> <value>       │ Concatenate value to key         │
│ SUBSTR <key> <start> <len> │ Get substring of value by key    │
│ EXPR(<expression>)         │ Calculate expression             │
│ Expression Examples:       │                                  │
│ EXPR(GET 1 + GET 2)        │ Calculate sum of values          │
│ SET 3 EXPR(GET 1 * 2)      │ Set using expression             │
│ EXPR(GET 1 + 3.14)         │ Mix direct values and GET        │
│ exit                       │ Exit the client                  │
│ help                       │ Show this help message           │
└────────────────────────────┴──────────────────────────────────┘"#;

/// The help of the client, as a string of its own.
pub fn print_help() -> (text: String)
    ensures
        text@ == HELP@,
{
    String::from_str(HELP)
}

/// The texts of a list of strings.
pub open spec fn strings(list: Seq<String>) -> Seq<Seq<char>> {
    Seq::new(list.len(), |i: int| list[i]@)
}

/// The place behind the last blank among the bytes; zero where there is
/// none.
pub open spec fn last_blank(bytes: Seq<u8>) -> nat
    decreases bytes.len(),
{
    if bytes.len() == 0 {
        0
    } else if bytes.last() == 0x20 {
        bytes.len()
    } else {
        last_blank(bytes.drop_last())
    }
}

/// Those of the commands that start with `word`, in their order.
pub open spec fn matching(commands: Seq<Seq<char>>, word: Seq<char>) -> Seq<Seq<char>>
    decreases commands.len(),
{
    if commands.len() == 0 {
        Seq::empty()
    } else if starts_with(commands.last(), word) {
        matching(commands.drop_last(), word).push(commands.last())
    } else {
        matching(commands.drop_last(), word)
    }
}

/// The text `SET`.
pub open spec fn set_word() -> Seq<char> {
    seq!['S', 'E', 'T']
}

/// The text `UPDATE`.
pub open spec fn update_word() -> Seq<char> {
    seq!['U', 'P', 'D', 'A', 'T', 'E']
}

/// The completions of what was typed, and the byte offset in it from
/// which on they replace it. Nothing typed, or blanks alone, is completed
/// by every command. A first word is completed by the commands that start
/// with it in upper case. The third word behind `SET` or `UPDATE` is
/// completed by `EXPR(` where that starts with it in upper case. The word
/// that is replaced starts behind the last blank. Anything else has no
/// completion, and the offset is the end of what was typed.
pub open spec fn completion(commands: Seq<Seq<char>>, typed: Seq<char>) -> (
    nat,
    Seq<Seq<char>>,
) {
    let parts = words(typed);
    if parts.len() == 0 {
        (0, commands)
    } else {
        let word = uppercase(parts.last());
        let start = last_blank(encode_utf8(typed));
        let first = uppercase(parts[0]);
        if parts.len() == 1 {
            (start, matching(commands, word))
        } else if (first == set_word() || first == update_word()) && parts.len() == 3
            && starts_with(expr_open(), word) {
            (start, seq![expr_open()])
        } else {
            (encode_utf8(typed).len(), Seq::empty())
        }
    }
}

/// The place behind the last blank among the bytes.
fn behind_last_blank(bytes: &[u8]) -> (at: usize)
    ensures
        at == last_blank(bytes@),
{
    let mut end: usize = bytes.len();
    assert(bytes@.take(end as int) =~= bytes@);
    while end > 0 && bytes[end - 1] != 0x20
        invariant
            end <= bytes@.len(),
            last_blank(bytes@) == last_blank(bytes@.take(end as int)),
        decreases end,
    {
        assert(bytes@.take(end as int).drop_last() =~= bytes@.take(end - 1));
        end -= 1;
    }
    end
}

/// The strings, each as a string of its own.
fn copies(list: &Vec<String>) -> (res: Vec<String>)
    ensures
        strings(res@) == strings(list@),
{
    let mut res: Vec<String> = Vec::new();
    let mut i: usize = 0;
    while i < list.len()
        invariant
            i <= list@.len(),
            res@.len() == i,
            forall|k: int| 0 <= k < i ==> res@[k]@ == list@[k]@,
        decreases list@.len() - i,
    {
        res.push(list[i].clone());
        i += 1;
    }
    assert(strings(res@) =~= strings(list@));
    res
}

/// Those of the commands that start with `word`.
fn commands_with(commands: &Vec<String>, word: &[char]) -> (res: Vec<String>)
    ensures
        strings(res@) == matching(strings(commands@), word@),
{
    let ghost all = strings(commands@);
    let mut res: Vec<String> = Vec::new();
    let mut i: usize = 0;
    while i < commands.len()
        invariant
            i <= commands@.len(),
            all == strings(commands@),
            strings(res@) == matching(all.take(i as int), word@),
        decreases commands@.len() - i,
    {
        let command = &commands[i];
        let text = to_chars(command.as_str());
        let ghost before = strings(res@);
        proof {
            assert(all.take(i + 1).drop_last() =~= all.take(i as int));
            assert(all.take(i + 1).last() == command@);
        }
        if has_prefix(text.as_slice(), word) {
            res.push(command.clone());
            assert(strings(res@) =~= before.push(command@));
        }
        i += 1;
    }
    assert(all.take(i as int) =~= all);
    res
}

/// The completions of what was typed, and the byte offset in it from
/// which on they replace it.
pub fn complete(commands: &Vec<String>, typed: &str) -> (res: (usize, Vec<String>))
    ensures
        res.0 == completion(strings(commands@), typed@).0,
        strings(res.1@) == completion(strings(commands@), typed@).1,
{
    let chars = to_chars(typed);
    let parts = split_words(chars.as_slice());
    if parts.len() == 0 {
        return (0, copies(commands));
    }
    let word = upper(parts[parts.len() - 1].as_slice());
    let start = behind_last_blank(typed.as_bytes());
    assert(texts(parts@).last() == parts@[parts@.len() - 1]@);
    if parts.len() == 1 {
        return (start, commands_with(commands, word.as_slice()));
    }
    let first = upper(parts[0].as_slice());
    let set = ['S', 'E', 'T'];
    let update = ['U', 'P', 'D', 'A', 'T', 'E'];
    let expr = ['E', 'X', 'P', 'R', '('];
    assert(set@ =~= set_word() && update@ =~= update_word() && expr@ =~= expr_open());
    if (same_text(first.as_slice(), set.as_slice()) || same_text(
        first.as_slice(),
        update.as_slice(),
    )) && parts.len() == 3 && has_prefix(expr.as_slice(), word.as_slice()) {
        let mut found: Vec<String> = Vec::new();
        found.push(to_string(expr.as_slice()));
        assert(strings(found@) =~= seq![expr_open()]);
        return (start, found);
    }
    let none: Vec<String> = Vec::new();
    assert(strings(none@) =~= Seq::<Seq<char>>::empty());
    (typed.as_bytes().len(), none)
}

/// The first of the commands from `from` on that `text` starts with; the
/// number of commands where there is none.
pub open spec fn first_match(commands: Seq<Seq<char>>, text: Seq<char>, from: int) -> int
    decreases commands.len() - from,
{
    if from < 0 || from >= commands.len() {
        commands.len() as int
    } else if starts_with(text, commands[from]) {
        from
    } else {
        first_match(commands, text, from + 1)
    }
}

/// Whether `pattern` occurs in `s`.
pub open spec fn occurs(s: Seq<char>, pattern: Seq<char>) -> bool {
    exists|i: int| occurs_at(s, pattern, i)
}

/// Whether `pattern` occurs in `s` at `i`.
pub open spec fn occurs_at(s: Seq<char>, pattern: Seq<char>, i: int) -> bool {
    0 <= i && i + pattern.len() <= s.len() && s.subrange(i, i + pattern.len()) == pattern
}

/// The line in colours; `None` where it gets none. `upper` is the line in
/// upper case. Where that starts with one of the commands, the first such
/// command gives the number of bytes at the start of the line that are
/// written in green, unless that number of bytes ends inside a character
/// of the line. Else a line with `EXPR(` in it is written in cyan.
pub open spec fn painted(commands: Seq<Seq<char>>, line: Seq<char>, upper: Seq<char>) -> Option<
    Seq<char>,
> {
    let found = first_match(commands, upper, 0);
    if found < commands.len() {
        let bytes = encode_utf8(line);
        let n = encode_utf8(commands[found]).len();
        if n <= bytes.len() && is_char_boundary(bytes, n as int) {
            Some(
                "\x1b[1;32m"@ + byte_slice(line, 0, n as int) + "\x1b[0m"@ + byte_slice(
                    line,
                    n as int,
                    bytes.len() - n,
                ),
            )
        } else {
            None
        }
    } else if occurs(upper, expr_open()) {
        Some("\x1b[1;36m"@ + line + "\x1b[0m"@)
    } else {
        None
    }
}

/// Whether `pattern` occurs in `s`.
fn contains(s: &[char], pattern: &[char]) -> (res: bool)
    ensures
        res == occurs(s@, pattern@),
{
    if pattern.len() > s.len() {
        assert(forall|i: int| !occurs_at(s@, pattern@, i));
        return false;
    }
    let last = s.len() - pattern.len();
    let mut i: usize = 0;
    loop
        invariant
            last == s@.len() - pattern@.len(),
            s@.len() <= usize::MAX,
            i <= last,
            forall|k: int| 0 <= k < i ==> !occurs_at(s@, pattern@, k),
        decreases last - i,
    {
        let part = slice(s, i, i + pattern.len());
        if same_text(part.as_slice(), pattern) {
            assert(occurs_at(s@, pattern@, i as int));
            return true;
        }
        if i == last {
            assert(forall|k: int| !occurs_at(s@, pattern@, k));
            return false;
        }
        i += 1;
    }
}

/// The first of the commands that `text` starts with.
fn find_command(commands: &Vec<String>, text: &[char]) -> (at: usize)
    ensures
        at == first_match(strings(commands@), text@, 0),
        at <= commands@.len(),
{
    let ghost all = strings(commands@);
    let mut i: usize = 0;
    while i < commands.len()
        invariant
            i <= commands@.len(),
            all == strings(commands@),
            first_match(all, text@, 0) == first_match(all, text@, i as int),
        decreases commands@.len() - i,
    {
        let command = to_chars(commands[i].as_str());
        assert(all[i as int] == command@);
        if has_prefix(text, command.as_slice()) {
            return i;
        }
        i += 1;
    }
    i
}

/// The line in colours; `None` where it gets none.
pub fn highlight(commands: &Vec<String>, line: &str) -> (res: Option<String>)
    ensures
        match painted(strings(commands@), line@, uppercase(line@)) {
            Some(text) => res matches Some(shown) && shown@ == text,
            None => res is None,
        },
{
    let chars = to_chars(line);
    let raised = upper(chars.as_slice());
    let found = find_command(commands, raised.as_slice());
    if found < commands.len() {
        let n = commands[found].as_str().as_bytes().len();
        let len = line.as_bytes().len();
        assert(strings(commands@)[found as int] == commands@[found as int]@);
        if n <= len && line.is_char_boundary(n) {
            let whole = String::from_str(line);
            let head = slice_string(&whole, 0, n);
            let tail = slice_string(&whole, n, len - n);
            let shown = String::from_str("\x1b[1;32m").concat(head.as_str()).concat(
                "\x1b[0m",
            ).concat(tail.as_str());
            Some(shown)
        } else {
            None
        }
    } else {
        let expr = ['E', 'X', 'P', 'R', '('];
        assert(expr@ =~= expr_open());
        if contains(raised.as_slice(), expr.as_slice()) {
            Some(String::from_str("\x1b[1;36m").concat(line).concat("\x1b[0m"))
        } else {
            None
        }
    }
}

/// The command that a line typed at the client stands for, given its
/// first word in upper case; `None` where it stands for none. The words of
/// a command are set apart by white space; the command word counts in
/// either case; a value is all that follows the key, with one blank
/// between each two words.
pub open spec fn typed_command(line: Seq<char>, upper: Seq<char>) -> Option<CommandView> {
    let parts = words(line);
    if parts.len() == 0 {
        None
    } else if upper == seq!['G', 'E', 'T'] {
        if parts.len() == 2 && as_i32(parts[1]) is Some {
            Some(CommandView::Get { key: as_i32(parts[1]).unwrap() })
        } else {
            None
        }
    } else if upper == seq!['S', 'E', 'T'] {
        if parts.len() >= 3 && as_i32(parts[1]) is Some {
            Some(
                CommandView::SetValue {
                    key: as_i32(parts[1]).unwrap(),
                    value: value_of(joined(parts, 2)),
                },
            )
        } else {
            None
        }
    } else if upper == seq!['U', 'P', 'D', 'A', 'T', 'E'] {
        if parts.len() >= 3 && as_i32(parts[1]) is Some {
            Some(
                CommandView::Update {
                    key: as_i32(parts[1]).unwrap(),
                    value: value_of(joined(parts, 2)),
                },
            )
        } else {
            None
        }
    } else if upper == seq!['D', 'E', 'L'] {
        if parts.len() == 2 && as_i32(parts[1]) is Some {
            Some(CommandView::Delete { key: as_i32(parts[1]).unwrap() })
        } else {
            None
        }
    } else if upper == seq!['A', 'L', 'L'] {
        Some(CommandView::All)
    } else if upper == seq!['S', 'T', 'R', 'L', 'E', 'N'] {
        if parts.len() == 2 && as_i32(parts[1]) is Some {
            Some(CommandView::Strlen { key: as_i32(parts[1]).unwrap() })
        } else {
            None
        }
    } else if upper == seq!['S', 'T', 'R', 'C', 'A', 'T'] {
        if parts.len() >= 3 && as_i32(parts[1]) is Some {
            Some(
                CommandView::Strcat {
                    key: as_i32(parts[1]).unwrap(),
                    value: value_of(joined(parts, 2)),
                },
            )
        } else {
            None
        }
    } else if upper == seq!['S', 'U', 'B', 'S', 'T', 'R'] {
        if parts.len() == 4 && as_i32(parts[1]) is Some && as_usize(parts[2]) is Some && as_usize(
            parts[3],
        ) is Some {
            Some(
                CommandView::Substr {
                    key: as_i32(parts[1]).unwrap(),
                    start: as_usize(parts[2]).unwrap(),
                    length: as_usize(parts[3]).unwrap(),
                },
            )
        } else {
            None
        }
    } else if upper == seq!['E', 'X', 'I', 'T'] {
        Some(CommandView::Exit)
    } else {
        None
    }
}

/// A number of a command: the word at `at`.
fn number_of(parts: &Vec<Vec<char>>, at: usize) -> (res: Result<usize, DatabaseError>)
    requires
        at < parts@.len(),
    ensures
        match as_usize(texts(parts@)[at as int]) {
            Some(n) => res == Ok::<usize, DatabaseError>(n),
            None => res is Err,
        },
{
    match parse_usize(parts[at].as_slice()) {
        Some(n) => Ok(n),
        None => Err(DatabaseError::ParseError(String::from_str("Invalid number"))),
    }
}

/// The command that a line typed at the client stands for, given its
/// first word in upper case.
pub fn command_typed(line: &[char], upper: &[char]) -> (res: Result<Command, DatabaseError>)
    ensures
        match typed_command(line@, upper@) {
            Some(c) => res matches Ok(command) && command@ == c,
            None => res is Err,
        },
{
    let parts = split_words(line);
    let count = parts.len();
    if count == 0 {
        return Err(DatabaseError::ParseError(String::from_str("Empty command")));
    }
    let get = ['G', 'E', 'T'];
    let set = ['S', 'E', 'T'];
    let update = ['U', 'P', 'D', 'A', 'T', 'E'];
    let del = ['D', 'E', 'L'];
    let all = ['A', 'L', 'L'];
    let strlen = ['S', 'T', 'R', 'L', 'E', 'N'];
    let strcat = ['S', 'T', 'R', 'C', 'A', 'T'];
    let substr = ['S', 'U', 'B', 'S', 'T', 'R'];
    let exit = ['E', 'X', 'I', 'T'];
    if same_text(upper, get.as_slice()) {
        if count != 2 {
            return Err(DatabaseError::ParseError(String::from_str("Usage: GET <key>")));
        }
        Ok(Command::Get { key: key_of(&parts)? })
    } else if same_text(upper, set.as_slice()) {
        if count < 3 {
            return Err(DatabaseError::ParseError(String::from_str("Usage: SET <key> <value>")));
        }
        let key = key_of(&parts)?;
        Ok(Command::SetValue { key, value: value_from(join(&parts, 2).as_slice()) })
    } else if same_text(upper, update.as_slice()) {
        if count < 3 {
            return Err(DatabaseError::ParseError(String::from_str("Usage: SET <key> <value>")));
        }
        let key = key_of(&parts)?;
        Ok(Command::Update { key, value: value_from(join(&parts, 2).as_slice()) })
    } else if same_text(upper, del.as_slice()) {
        if count != 2 {
            return Err(DatabaseError::ParseError(String::from_str("Usage: DEL <key>")));
        }
        Ok(Command::Delete { key: key_of(&parts)? })
    } else if same_text(upper, all.as_slice()) {
        Ok(Command::All)
    } else if same_text(upper, strlen.as_slice()) {
        if count != 2 {
            return Err(DatabaseError::ParseError(String::from_str("Usage: STRLEN <key>")));
        }
        Ok(Command::Strlen { key: key_of(&parts)? })
    } else if same_text(upper, strcat.as_slice()) {
        if count < 3 {
            return Err(
                DatabaseError::ParseError(String::from_str("Usage: STRCAT <key> <value>")),
            );
        }
        let key = key_of(&parts)?;
        Ok(Command::Strcat { key, value: value_from(join(&parts, 2).as_slice()) })
    } else if same_text(upper, substr.as_slice()) {
        if count != 4 {
            return Err(
                DatabaseError::ParseError(
                    String::from_str("Usage: SUBSTR <key> <start> <length>"),
                ),
            );
        }
        let key = key_of(&parts)?;
        let start = number_of(&parts, 2)?;
        let length = number_of(&parts, 3)?;
        Ok(Command::Substr { key, start, length })
    } else if same_text(upper, exit.as_slice()) {
        Ok(Command::Exit)
    } else {
        Err(DatabaseError::ParseError(String::from_str("Unknown command")))
    }
}

/// The command that a line typed at the client stands for.
pub fn parse_command(input: &str) -> (res: Result<Command, DatabaseError>)
    ensures
        words(input@).len() > 0 ==> match typed_command(input@, uppercase(words(input@)[0])) {
            Some(c) => res matches Ok(command) && command@ == c,
            None => res is Err,
        },
        words(input@).len() == 0 ==> res is Err,
{
    let line = to_chars(input);
    let parts = split_words(line.as_slice());
    if parts.len() == 0 {
        return Err(DatabaseError::ParseError(String::from_str("Empty command")));
    }
    let first = upper(parts[0].as_slice());
    command_typed(line.as_slice(), first.as_slice())
}

} // verus!
