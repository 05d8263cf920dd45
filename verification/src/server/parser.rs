//! The commands of the server as text, and the expressions that stand for
//! a value in them.

use crate::chars::{to_chars, to_string};
use crate::database_handler::Database;
use crate::index::laws::distinct_keys;
use crate::index::layout::Entry;
use crate::index::order::has_key;
use crate::server::number::{
    as_i32, as_i64, as_usize, float_bits, parse_float, parse_i32, parse_i64, parse_usize,
};
use crate::server::text::{
    ends_with, has_prefix, has_suffix, join, joined, leading_spaces, lemma_leading_spaces,
    lemma_trailing_spaces, same_text, slice, split_words, starts_with, texts, trim, trimmed,
    words,
};
use crate::storage::error::DatabaseError;
use crate::storage::operations::held;
use crate::storage::value::{difference, product, quotient, sum, Value, ValueView};
use vstd::prelude::*;
use vstd::string::*;
use vstd::utf8::*;

verus! {

/// A command of the server.
#[derive(Debug)]
pub enum Command {
    Get { key: i32 },
    SetValue { key: i32, value: Value },
    Delete { key: i32 },
    Update { key: i32, value: Value },
    All,
    Strlen { key: i32 },
    Strcat { key: i32, value: Value },
    Substr { key: i32, start: usize, length: usize },
    Ping,
    Exit,
    Expression(String),
}

/// The mathematical content of a [`Command`].
pub enum CommandView {
    Get { key: i32 },
    SetValue { key: i32, value: ValueView },
    Delete { key: i32 },
    Update { key: i32, value: ValueView },
    All,
    Strlen { key: i32 },
    Strcat { key: i32, value: ValueView },
    Substr { key: i32, start: usize, length: usize },
    Ping,
    Exit,
    Expression(Seq<char>),
}

impl View for Command {
    type V = CommandView;

    open spec fn view(&self) -> CommandView {
        match self {
            Command::Get { key } => CommandView::Get { key: *key },
            Command::SetValue { key, value } => CommandView::SetValue { key: *key, value: value@ },
            Command::Delete { key } => CommandView::Delete { key: *key },
            Command::Update { key, value } => CommandView::Update { key: *key, value: value@ },
            Command::All => CommandView::All,
            Command::Strlen { key } => CommandView::Strlen { key: *key },
            Command::Strcat { key, value } => CommandView::Strcat { key: *key, value: value@ },
            Command::Substr { key, start, length } => CommandView::Substr {
                key: *key,
                start: *start,
                length: *length,
            },
            Command::Ping => CommandView::Ping,
            Command::Exit => CommandView::Exit,
            Command::Expression(text) => CommandView::Expression(text@),
        }
    }
}

/// The text in upper case.
pub uninterp spec fn uppercase(s: Seq<char>) -> Seq<char>;

/// `str::to_uppercase` of std: the text in upper case, which depends on
/// the text alone.
#[verifier::external_body]
fn to_uppercase(s: &str) -> (r: String)
    ensures
        r@ == uppercase(s@),
{
    s.to_uppercase()
}

/// The characters in upper case.
pub(crate) fn upper(s: &[char]) -> (r: Vec<char>)
    ensures
        r@ == uppercase(s@),
{
    let text = to_string(s);
    let raised = to_uppercase(text.as_str());
    to_chars(raised.as_str())
}

/// The value that a text stands for: `null`, `true` and `false` for
/// themselves, an integer in decimal for itself, a float in decimal for
/// itself, and any other text for the string that it is.
pub open spec fn value_of(s: Seq<char>) -> ValueView {
    if s == seq!['n', 'u', 'l', 'l'] {
        ValueView::Null
    } else if s == seq!['t', 'r', 'u', 'e'] {
        ValueView::Boolean(true)
    } else if s == seq!['f', 'a', 'l', 's', 'e'] {
        ValueView::Boolean(false)
    } else if as_i64(s) is Some {
        ValueView::Integer(as_i64(s).unwrap())
    } else if float_bits(s) is Some {
        ValueView::Float(float_bits(s).unwrap())
    } else {
        ValueView::String(s)
    }
}

/// The value that the characters stand for.
pub fn value_from(s: &[char]) -> (value: Value)
    ensures
        value@ == value_of(s@),
{
    let null = ['n', 'u', 'l', 'l'];
    let yes = ['t', 'r', 'u', 'e'];
    let no = ['f', 'a', 'l', 's', 'e'];
    if same_text(s, null.as_slice()) {
        return Value::Null;
    }
    if same_text(s, yes.as_slice()) {
        return Value::Boolean(true);
    }
    if same_text(s, no.as_slice()) {
        return Value::Boolean(false);
    }
    match parse_i64(s) {
        Some(i) => Value::Integer(i),
        None => match parse_float(s) {
            Some(bits) => Value::Float(bits),
            None => Value::String(to_string(s)),
        },
    }
}

/// The value that a text stands for.
pub fn parse_value(s: &str) -> (res: Result<Value, DatabaseError>)
    ensures
        res matches Ok(value) && value@ == value_of(s@),
{
    let chars = to_chars(s);
    Ok(value_from(chars.as_slice()))
}

/// Whether the character is one of the operators `+`, `-`, `*`, `/` and
/// `=`.
pub open spec fn is_operator(c: char) -> bool {
    c == '+' || c == '-' || c == '*' || c == '/' || c == '='
}

/// The place of the first operator in `s`; the length of `s` where it has
/// none.
pub open spec fn first_operator(s: Seq<char>, from: int) -> int
    decreases s.len() - from,
{
    if from < 0 || from >= s.len() {
        s.len() as int
    } else if is_operator(s[from]) {
        from
    } else {
        first_operator(s, from + 1)
    }
}

/// The place of the first operator among the characters; their number
/// where there is none.
pub fn operator_place(s: &[char]) -> (at: usize)
    ensures
        at == first_operator(s@, 0),
        at <= s@.len(),
{
    let mut i: usize = 0;
    while i < s.len()
        invariant
            i <= s@.len(),
            first_operator(s@, 0) == first_operator(s@, i as int),
        decreases s@.len() - i,
    {
        let c = s[i];
        if c == '+' || c == '-' || c == '*' || c == '/' || c == '=' {
            return i;
        }
        i += 1;
    }
    i
}

/// The place of the first operator in the text, counted in characters.
pub fn parse_operator(tokens: &str) -> (res: Result<usize, DatabaseError>)
    ensures
        first_operator(tokens@, 0) < tokens@.len() ==> res == Ok::<usize, DatabaseError>(
            first_operator(tokens@, 0) as usize,
        ),
        first_operator(tokens@, 0) >= tokens@.len() ==> res matches Err(
            DatabaseError::ParseError(_),
        ),
{
    let chars = to_chars(tokens);
    let at = operator_place(chars.as_slice());
    if at < chars.len() {
        Ok(at)
    } else {
        Err(DatabaseError::ParseError(String::from_str("Operator not found")))
    }
}

/// The place of the first `c` in `s` from `from` on; the length of `s`
/// where there is none.
pub open spec fn index_of(s: Seq<char>, c: char, from: int) -> int
    decreases s.len() - from,
{
    if from < 0 || from >= s.len() {
        s.len() as int
    } else if s[from] == c {
        from
    } else {
        index_of(s, c, from + 1)
    }
}

/// The place of `c` in `s` where it occurs there once, and once only.
pub open spec fn single(s: Seq<char>, c: char) -> Option<int> {
    let first = index_of(s, c, 0);
    if first < s.len() && index_of(s, c, first + 1) >= s.len() {
        Some(first)
    } else {
        None
    }
}

/// The operator that an expression is split at, and its place: the first
/// of `-`, `+`, `*`, `/` and `%` that occurs in it once, and once only.
pub open spec fn split_place(expr: Seq<char>) -> Option<(char, int)> {
    if single(expr, '-') is Some {
        Some(('-', single(expr, '-').unwrap()))
    } else if single(expr, '+') is Some {
        Some(('+', single(expr, '+').unwrap()))
    } else if single(expr, '*') is Some {
        Some(('*', single(expr, '*').unwrap()))
    } else if single(expr, '/') is Some {
        Some(('/', single(expr, '/').unwrap()))
    } else if single(expr, '%') is Some {
        Some(('%', single(expr, '%').unwrap()))
    } else {
        None
    }
}

/// What an operator makes of two values; `None` where it fails, or is none
/// of `+`, `-`, `*` and `/`.
pub open spec fn applied(op: char, left: ValueView, right: ValueView) -> Option<ValueView> {
    if op == '+' {
        sum(left, right)
    } else if op == '-' {
        difference(left, right)
    } else if op == '*' {
        product(left, right)
    } else if op == '/' {
        quotient(left, right)
    } else {
        None
    }
}

/// The value that the entries hold against the key, where they hold one.
pub open spec fn value_at(entries: Seq<Entry>, key: i32) -> Option<ValueView> {
    if has_key(entries, key) {
        Some(choose|v: ValueView| held(entries, key, v))
    } else {
        None
    }
}

/// The text `GET`.
pub open spec fn get_word() -> Seq<char> {
    seq!['G', 'E', 'T']
}

/// The text `STRLEN`.
pub open spec fn strlen_word() -> Seq<char> {
    seq!['S', 'T', 'R', 'L', 'E', 'N']
}

/// The value of an expression over entries with keys that differ; `None`
/// where it has none. An expression with one operator is the operator
/// applied to the values of the expressions before and behind it; `GET` and
/// a key is the value held against the key; `STRLEN` and a key is the
/// length in bytes of the string held against the key; any other text is
/// the value that it stands for.
pub open spec fn evaluate(expr: Seq<char>, entries: Seq<Entry>) -> Option<ValueView>
    decreases expr.len(),
{
    match split_place(expr) {
        Some((op, at)) => {
            if 0 <= at < expr.len() {
                proof {
                    lemma_trimmed_len(expr.take(at));
                    lemma_trimmed_len(expr.skip(at + 1));
                }
                let left = evaluate(trimmed(expr.take(at)), entries);
                let right = evaluate(trimmed(expr.skip(at + 1)), entries);
                if left is Some && right is Some {
                    applied(op, left.unwrap(), right.unwrap())
                } else {
                    None
                }
            } else {
                None
            }
        },
        None => if starts_with(expr, get_word()) {
            if expr.len() >= 4 && (expr[3] as u32) < 0x80 {
                match as_i32(trimmed(expr.skip(4))) {
                    Some(key) => value_at(entries, key),
                    None => None,
                }
            } else {
                None
            }
        } else if starts_with(expr, strlen_word()) {
            match as_i32(trimmed(expr.skip(6))) {
                Some(key) => match value_at(entries, key) {
                    Some(ValueView::String(s)) => if encode_utf8(s).len() <= i64::MAX {
                        Some(ValueView::Integer(encode_utf8(s).len() as i64))
                    } else {
                        None
                    },
                    _ => None,
                },
                None => None,
            }
        } else {
            Some(value_of(expr))
        },
    }
}

/// A text without the white space around it is no longer than the text.
pub proof fn lemma_trimmed_len(s: Seq<char>)
    ensures
        trimmed(s).len() <= s.len(),
{
    lemma_leading_spaces(s);
    lemma_trailing_spaces(s.skip(leading_spaces(s) as int));
}

/// Entries with keys that differ hold one value against a key at most.
pub proof fn lemma_value_at(entries: Seq<Entry>, key: i32, v: ValueView)
    requires
        distinct_keys(entries),
        entries.contains((key, v)),
    ensures
        value_at(entries, key) == Some(v),
{
    let i = choose|i: int| 0 <= i < entries.len() && entries[i] == (key, v);
    assert(entries[i].0 == key);
    assert(held(entries, key, v));
    let w = choose|w: ValueView| held(entries, key, w);
    let j = choose|j: int| 0 <= j < entries.len() && entries[j] == (key, w);
    if i != j {
        if i < j {
            assert(entries[i].0 != entries[j].0);
        } else {
            assert(entries[j].0 != entries[i].0);
        }
    }
}

/// The place of the first `c` in `s` from `from` on.
fn find(s: &[char], c: char, from: usize) -> (at: usize)
    requires
        from <= s@.len(),
    ensures
        at == index_of(s@, c, from as int),
        from <= at <= s@.len(),
{
    let mut i: usize = from;
    while i < s.len() && s[i] != c
        invariant
            from <= i <= s@.len(),
            index_of(s@, c, from as int) == index_of(s@, c, i as int),
        decreases s@.len() - i,
    {
        i += 1;
    }
    i
}

/// The place of `c` in `s` where it occurs there once, and once only.
fn find_single(s: &[char], c: char) -> (at: Option<usize>)
    ensures
        match single(s@, c) {
            Some(p) => at == Some(p as usize) && 0 <= p < s@.len(),
            None => at is None,
        },
        at matches Some(p) ==> p < s@.len(),
{
    let first = find(s, c, 0);
    if first < s.len() && find(s, c, first + 1) >= s.len() {
        Some(first)
    } else {
        None
    }
}

/// The operator that an expression is split at, and its place.
fn find_split(expr: &[char]) -> (res: Option<(char, usize)>)
    ensures
        match split_place(expr@) {
            Some((op, p)) => res == Some((op, p as usize)) && 0 <= p < expr@.len(),
            None => res is None,
        },
        res matches Some((_, p)) ==> p < expr@.len(),
{
    match find_single(expr, '-') {
        Some(p) => {
            return Some(('-', p));
        },
        None => {},
    }
    match find_single(expr, '+') {
        Some(p) => {
            return Some(('+', p));
        },
        None => {},
    }
    match find_single(expr, '*') {
        Some(p) => {
            return Some(('*', p));
        },
        None => {},
    }
    match find_single(expr, '/') {
        Some(p) => {
            return Some(('/', p));
        },
        None => {},
    }
    match find_single(expr, '%') {
        Some(p) => Some(('%', p)),
        None => None,
    }
}

/// What an operator makes of two values.
pub fn handle_expression(left: &Value, right: &Value, method: char) -> (res: Result<
    Value,
    DatabaseError,
>)
    ensures
        match applied(method, left@, right@) {
            Some(v) => res matches Ok(value) && value@ == v,
            None => res is Err,
        },
{
    if method == '+' {
        left.add(right)
    } else if method == '-' {
        left.sub(right)
    } else if method == '*' {
        left.mul(right)
    } else if method == '/' {
        left.div(right)
    } else {
        Err(DatabaseError::ParseError(String::from_str("Unknown operator")))
    }
}

/// The value of an expression.
fn evaluate_chars(expr: &[char], db: &mut Database) -> (res: Result<Value, DatabaseError>)
    ensures
        final(db).pool().capacity == old(db).pool().capacity,
        final(db).tree() == old(db).tree(),
        final(db).log() == old(db).log(),
        final(db).transactions() == old(db).transactions(),
        old(db).wf() ==> final(db).pool() == old(db).pool(),
        old(db).wf() && distinct_keys(old(db).entries()) ==> match evaluate(
            expr@,
            old(db).entries(),
        ) {
            Some(v) => res matches Ok(value) && value@ == v,
            None => res is Err,
        },
    decreases expr@.len(),
{
    let ghost entries = db.entries();
    let ghost ok = db.wf() && distinct_keys(entries);
    match find_split(expr) {
        Some((op, at)) => {
            let len = expr.len();
            let left_text = trim(slice(expr, 0, at).as_slice());
            let right_text = trim(slice(expr, at + 1, len).as_slice());
            proof {
                assert(expr@.take(at as int) =~= expr@.subrange(0, at as int));
                assert(expr@.skip(at + 1) =~= expr@.subrange(at + 1, expr@.len() as int));
                lemma_trimmed_len(expr@.take(at as int));
                lemma_trimmed_len(expr@.skip(at + 1));
            }
            let left = match evaluate_chars(left_text.as_slice(), db) {
                Ok(value) => value,
                Err(_) => {
                    return Err(
                        DatabaseError::ParseError(
                            String::from_str("Error evaluating left operand"),
                        ),
                    );
                },
            };
            let right = match evaluate_chars(right_text.as_slice(), db) {
                Ok(value) => value,
                Err(_) => {
                    return Err(
                        DatabaseError::ParseError(
                            String::from_str("Error evaluating right operand"),
                        ),
                    );
                },
            };
            handle_expression(&left, &right, op)
        },
        None => {
            let get = ['G', 'E', 'T'];
            let strlen = ['S', 'T', 'R', 'L', 'E', 'N'];
            assert(get@ =~= get_word());
            assert(strlen@ =~= strlen_word());
            if has_prefix(expr, get.as_slice()) {
                if expr.len() < 4 {
                    return Err(DatabaseError::ParseError(String::from_str("Invalid GET syntax")));
                }
                let fourth: char = expr[3];
                let code: u32 = fourth as u32;
                if code >= 0x80 {
                    return Err(DatabaseError::ParseError(String::from_str("Invalid GET syntax")));
                }
                let key_text = trim(slice(expr, 4, expr.len()).as_slice());
                assert(expr@.skip(4) =~= expr@.subrange(4, expr@.len() as int));
                let key = match parse_i32(key_text.as_slice()) {
                    Some(key) => key,
                    None => {
                        return Err(DatabaseError::ParseError(String::from_str("Invalid key")));
                    },
                };
                match db.get(key) {
                    Ok(Some(value)) => {
                        proof {
                            if ok {
                                lemma_value_at(entries, key, value@);
                            }
                        }
                        Ok(value)
                    },
                    Ok(None) => Err(DatabaseError::KeyNotFound(key)),
                    Err(_) => Ok(Value::Integer(0)),
                }
            } else if has_prefix(expr, strlen.as_slice()) {
                let key_text = trim(slice(expr, 6, expr.len()).as_slice());
                assert(expr@.skip(6) =~= expr@.subrange(6, expr@.len() as int));
                let key = match parse_i32(key_text.as_slice()) {
                    Some(key) => key,
                    None => {
                        return Err(DatabaseError::ParseError(String::from_str("Invalid key")));
                    },
                };
                match db.get(key) {
                    Ok(Some(Value::String(s))) => {
                        proof {
                            if ok {
                                lemma_value_at(entries, key, ValueView::String(s@));
                            }
                        }
                        let n = s.as_str().as_bytes().len();
                        if n as u64 <= 0x7fff_ffff_ffff_ffff {
                            Ok(Value::Integer(n as i64))
                        } else {
                            Err(
                                DatabaseError::InvalidOperation(
                                    String::from_str("String too long"),
                                ),
                            )
                        }
                    },
                    Ok(Some(other)) => {
                        proof {
                            if ok {
                                lemma_value_at(entries, key, other@);
                            }
                        }
                        Err(
                            DatabaseError::InvalidOperation(
                                String::from_str("Value is not a string"),
                            ),
                        )
                    },
                    Ok(None) => Err(DatabaseError::KeyNotFound(key)),
                    Err(_) => Ok(Value::Integer(0)),
                }
            } else {
                Ok(value_from(expr))
            }
        },
    }
}

/// The value of an expression over what the engine holds.
pub fn evaluate_expression(expr: &str, db: &mut Database) -> (res: Result<Value, DatabaseError>)
    ensures
        final(db).pool().capacity == old(db).pool().capacity,
        final(db).tree() == old(db).tree(),
        final(db).log() == old(db).log(),
        final(db).transactions() == old(db).transactions(),
        old(db).wf() ==> final(db).pool() == old(db).pool(),
        old(db).wf() && distinct_keys(old(db).entries()) ==> match evaluate(
            expr@,
            old(db).entries(),
        ) {
            Some(v) => res matches Ok(value) && value@ == v,
            None => res is Err,
        },
{
    let chars = to_chars(expr);
    evaluate_chars(chars.as_slice(), db)
}

/// The text `EXPR(`.
pub open spec fn expr_open() -> Seq<char> {
    seq!['E', 'X', 'P', 'R', '(']
}

/// The text `)`.
pub open spec fn expr_close() -> Seq<char> {
    seq![')']
}

/// Whether a text is an expression in its brackets: `EXPR(`, the
/// expression, and `)`.
pub open spec fn is_bracketed(s: Seq<char>) -> bool {
    starts_with(s, expr_open()) && ends_with(s, expr_close())
}

/// The expression between the brackets, without the white space around it.
pub open spec fn bracketed(s: Seq<char>) -> Seq<char> {
    trimmed(s.subrange(5, s.len() - 1))
}

/// The value behind the key of a command that stores one: the value of
/// the expression where the text from the third word on is an expression in
/// brackets and `with_expressions` says that such are taken, and else the
/// value that the text stands for. `None` where the expression has no
/// value.
pub open spec fn stored_value(
    parts: Seq<Seq<char>>,
    entries: Seq<Entry>,
    with_expressions: bool,
) -> Option<ValueView> {
    let text = joined(parts, 2);
    if with_expressions && is_bracketed(text) {
        evaluate(bracketed(text), entries)
    } else {
        Some(value_of(text))
    }
}

/// The command that a line of text stands for, given its first word in
/// upper case; `None` where it stands for none. The words of a command are
/// set apart by white space; the command word counts in either case.
pub open spec fn command_of(raw: Seq<char>, upper: Seq<char>, entries: Seq<Entry>) -> Option<
    CommandView,
> {
    let line = trimmed(raw);
    let parts = words(raw);
    if parts.len() == 0 {
        None
    } else if is_bracketed(line) {
        Some(CommandView::Expression(bracketed(line)))
    } else if upper == seq!['G', 'E', 'T'] {
        if parts.len() == 2 && as_i32(parts[1]) is Some {
            Some(CommandView::Get { key: as_i32(parts[1]).unwrap() })
        } else {
            None
        }
    } else if upper == seq!['S', 'E', 'T'] {
        if parts.len() >= 3 && as_i32(parts[1]) is Some && stored_value(parts, entries, true)
            is Some {
            Some(
                CommandView::SetValue {
                    key: as_i32(parts[1]).unwrap(),
                    value: stored_value(parts, entries, true).unwrap(),
                },
            )
        } else {
            None
        }
    } else if upper == seq!['U', 'P', 'D', 'A', 'T', 'E'] {
        if parts.len() >= 3 && as_i32(parts[1]) is Some && stored_value(parts, entries, true)
            is Some {
            Some(
                CommandView::Update {
                    key: as_i32(parts[1]).unwrap(),
                    value: stored_value(parts, entries, true).unwrap(),
                },
            )
        } else {
            None
        }
    } else if upper == seq!['D', 'E', 'L'] {
        if parts.len() == 2 && as_i32(parts[1]) is Some {
            Some(CommandView::Delete { key: as_i32(parts[1]).unwrap() })
        } else {
            None
        }
    } else if upper == seq!['A', 'L', 'L'] {
        Some(CommandView::All)
    } else if upper == seq!['S', 'T', 'R', 'L', 'E', 'N'] {
        if parts.len() == 2 && as_i32(parts[1]) is Some {
            Some(CommandView::Strlen { key: as_i32(parts[1]).unwrap() })
        } else {
            None
        }
    } else if upper == seq!['S', 'T', 'R', 'C', 'A', 'T'] {
        if parts.len() >= 3 && as_i32(parts[1]) is Some {
            Some(
                CommandView::Strcat {
                    key: as_i32(parts[1]).unwrap(),
                    value: value_of(joined(parts, 2)),
                },
            )
        } else {
            None
        }
    } else if upper == seq!['S', 'U', 'B', 'S', 'T', 'R'] {
        if parts.len() == 4 && as_i32(parts[1]) is Some && as_usize(parts[2]) is Some && as_usize(
            parts[3],
        ) is Some {
            Some(
                CommandView::Substr {
                    key: as_i32(parts[1]).unwrap(),
                    start: as_usize(parts[2]).unwrap(),
                    length: as_usize(parts[3]).unwrap(),
                },
            )
        } else {
            None
        }
    } else if upper == seq!['P', 'I', 'N', 'G'] {
        Some(CommandView::Ping)
    } else if upper == seq!['E', 'X', 'I', 'T'] {
        Some(CommandView::Exit)
    } else {
        None
    }
}

/// Whether a text is an expression in its brackets.
fn in_brackets(s: &[char]) -> (res: bool)
    ensures
        res == is_bracketed(s@),
        res ==> s@.len() >= 6,
{
    let open = ['E', 'X', 'P', 'R', '('];
    let close = [')'];
    assert(open@ =~= expr_open());
    assert(close@ =~= expr_close());
    let res = has_prefix(s, open.as_slice()) && has_suffix(s, close.as_slice());
    proof {
        if res {
            assert(s@.take(5)[4] == '(');
            assert(s@.skip(s@.len() - 1)[0] == ')');
        }
    }
    res
}

/// The expression between the brackets.
fn between_brackets(s: &[char]) -> (text: Vec<char>)
    requires
        s@.len() >= 6,
    ensures
        text@ == bracketed(s@),
{
    trim(slice(s, 5, s.len() - 1).as_slice())
}

/// The key of a command: its second word.
pub(crate) fn key_of(parts: &Vec<Vec<char>>) -> (res: Result<i32, DatabaseError>)
    requires
        parts@.len() >= 2,
    ensures
        match as_i32(texts(parts@)[1]) {
            Some(key) => res == Ok::<i32, DatabaseError>(key),
            None => res is Err,
        },
{
    match parse_i32(parts[1].as_slice()) {
        Some(key) => Ok(key),
        None => Err(DatabaseError::ParseError(String::from_str("Invalid key"))),
    }
}

/// The value behind the key of a command that stores one.
fn value_behind_key(parts: &Vec<Vec<char>>, db: &mut Database, with_expressions: bool) -> (res:
    Result<Value, DatabaseError>)
    ensures
        final(db).pool().capacity == old(db).pool().capacity,
        final(db).tree() == old(db).tree(),
        final(db).log() == old(db).log(),
        final(db).transactions() == old(db).transactions(),
        old(db).wf() ==> final(db).pool() == old(db).pool(),
        old(db).wf() && distinct_keys(old(db).entries()) ==> match stored_value(
            texts(parts@),
            old(db).entries(),
            with_expressions,
        ) {
            Some(v) => res matches Ok(value) && value@ == v,
            None => res is Err,
        },
{
    let text = join(parts, 2);
    if with_expressions && in_brackets(text.as_slice()) {
        let expr = between_brackets(text.as_slice());
        evaluate_chars(expr.as_slice(), db)
    } else {
        Ok(value_from(text.as_slice()))
    }
}

/// The command that a line of text stands for, given its first word in
/// upper case.
pub fn command_from(raw: &[char], upper: &[char], db: &mut Database) -> (res: Result<
    Command,
    DatabaseError,
>)
    ensures
        final(db).pool().capacity == old(db).pool().capacity,
        final(db).tree() == old(db).tree(),
        final(db).log() == old(db).log(),
        final(db).transactions() == old(db).transactions(),
        old(db).wf() ==> final(db).pool() == old(db).pool(),
        old(db).wf() && distinct_keys(old(db).entries()) ==> match command_of(
            raw@,
            upper@,
            old(db).entries(),
        ) {
            Some(c) => res matches Ok(command) && command@ == c,
            None => res is Err,
        },
{
    let parts = split_words(raw);
    let count = parts.len();
    if count == 0 {
        return Err(DatabaseError::ParseError(String::from_str("Empty command")));
    }
    let line = trim(raw);
    if in_brackets(line.as_slice()) {
        let expr = between_brackets(line.as_slice());
        return Ok(Command::Expression(to_string(expr.as_slice())));
    }
    let get = ['G', 'E', 'T'];
    let set = ['S', 'E', 'T'];
    let update = ['U', 'P', 'D', 'A', 'T', 'E'];
    let del = ['D', 'E', 'L'];
    let all = ['A', 'L', 'L'];
    let strlen = ['S', 'T', 'R', 'L', 'E', 'N'];
    let strcat = ['S', 'T', 'R', 'C', 'A', 'T'];
    let substr = ['S', 'U', 'B', 'S', 'T', 'R'];
    let ping = ['P', 'I', 'N', 'G'];
    let exit = ['E', 'X', 'I', 'T'];
    if same_text(upper, get.as_slice()) {
        if count != 2 {
            return Err(DatabaseError::ParseError(String::from_str("Usage: GET <key>")));
        }
        Ok(Command::Get { key: key_of(&parts)? })
    } else if same_text(upper, set.as_slice()) {
        if count < 3 {
            return Err(DatabaseError::ParseError(String::from_str("Usage: SET <key> <value>")));
        }
        let value = value_behind_key(&parts, db, true)?;
        Ok(Command::SetValue { key: key_of(&parts)?, value })
    } else if same_text(upper, update.as_slice()) {
        if count < 3 {
            return Err(
                DatabaseError::ParseError(String::from_str("Usage: UPDATE <key> <value>")),
            );
        }
        let value = value_behind_key(&parts, db, true)?;
        Ok(Command::Update { key: key_of(&parts)?, value })
    } else if same_text(upper, del.as_slice()) {
        if count != 2 {
            return Err(DatabaseError::ParseError(String::from_str("Usage: DEL <key>")));
        }
        Ok(Command::Delete { key: key_of(&parts)? })
    } else if same_text(upper, all.as_slice()) {
        Ok(Command::All)
    } else if same_text(upper, strlen.as_slice()) {
        if count != 2 {
            return Err(DatabaseError::ParseError(String::from_str("Usage: STRLEN <key>")));
        }
        Ok(Command::Strlen { key: key_of(&parts)? })
    } else if same_text(upper, strcat.as_slice()) {
        if count < 3 {
            return Err(
                DatabaseError::ParseError(String::from_str("Usage: STRCAT <key> <value>")),
            );
        }
        let key = key_of(&parts)?;
        let value = value_behind_key(&parts, db, false)?;
        Ok(Command::Strcat { key, value })
    } else if same_text(upper, substr.as_slice()) {
        if count != 4 {
            return Err(
                DatabaseError::ParseError(
                    String::from_str("Usage: SUBSTR <key> <start> <length>"),
                ),
            );
        }
        let key = key_of(&parts)?;
        let start = match parse_usize(parts[2].as_slice()) {
            Some(n) => n,
            None => {
                return Err(DatabaseError::ParseError(String::from_str("Invalid start")));
            },
        };
        let length = match parse_usize(parts[3].as_slice()) {
            Some(n) => n,
            None => {
                return Err(DatabaseError::ParseError(String::from_str("Invalid length")));
            },
        };
        Ok(Command::Substr { key, start, length })
    } else if same_text(upper, ping.as_slice()) {
        Ok(Command::Ping)
    } else if same_text(upper, exit.as_slice()) {
        Ok(Command::Exit)
    } else {
        Err(DatabaseError::ParseError(String::from_str("Unknown command")))
    }
}

/// The command that a line of text stands for.
pub fn parse_raw_command(raw_command: &str, db: &mut Database) -> (res: Result<
    Command,
    DatabaseError,
>)
    ensures
        final(db).pool().capacity == old(db).pool().capacity,
        final(db).tree() == old(db).tree(),
        final(db).log() == old(db).log(),
        final(db).transactions() == old(db).transactions(),
        old(db).wf() ==> final(db).pool() == old(db).pool(),
        old(db).wf() && distinct_keys(old(db).entries()) && words(raw_command@).len() > 0
            ==> match command_of(
            raw_command@,
            uppercase(words(raw_command@)[0]),
            old(db).entries(),
        ) {
            Some(c) => res matches Ok(command) && command@ == c,
            None => res is Err,
        },
        words(raw_command@).len() == 0 ==> res is Err,
{
    let raw = to_chars(raw_command);
    let parts = split_words(raw.as_slice());
    if parts.len() == 0 {
        return Err(DatabaseError::ParseError(String::from_str("Empty command")));
    }
    let upper = upper(parts[0].as_slice());
    command_from(raw.as_slice(), upper.as_slice(), db)
}

} // verus!
