//! Expressions given word by word: a value asked of the engine, a value
//! written out, or two operands with an operator between them.

use crate::chars::to_chars;
use crate::database_handler::Database;
use crate::index::laws::distinct_keys;
use crate::index::layout::Entry;
use crate::index::order::has_key;
use crate::server::number::{as_i32, parse_i32};
use crate::server::parser::{
    first_operator, get_word, lemma_value_at, operator_place, strlen_word, value_at,
    value_from, value_of,
};
use crate::server::text::{has_prefix, join, joined, same_text, slice, starts_with, texts};
use crate::storage::error::DatabaseError;
use crate::storage::operations::{held, held_string};
use crate::storage::value::{difference, product, quotient, same, sum, Value, ValueView};
use vstd::prelude::*;
use vstd::string::*;
use vstd::utf8::*;

verus! {

/// Whether the character is a round bracket.
pub open spec fn is_bracket(c: char) -> bool {
    c == '(' || c == ')'
}

/// The number of round brackets that `s` starts with.
pub open spec fn leading_brackets(s: Seq<char>) -> nat
    decreases s.len(),
{
    if s.len() > 0 && is_bracket(s[0]) {
        1 + leading_brackets(s.skip(1))
    } else {
        0
    }
}

/// The number of round brackets that `s` ends with.
pub open spec fn trailing_brackets(s: Seq<char>) -> nat
    decreases s.len(),
{
    if s.len() > 0 && is_bracket(s.last()) {
        1 + trailing_brackets(s.drop_last())
    } else {
        0
    }
}

/// `s` without the round brackets that it starts and ends with.
pub open spec fn unbracketed(s: Seq<char>) -> Seq<char> {
    let front = s.skip(leading_brackets(s) as int);
    front.take(front.len() - trailing_brackets(front))
}

/// The number of brackets from `from` on is found by going on from there.
proof fn lemma_brackets_from(s: Seq<char>, from: int, n: int)
    requires
        0 <= from <= n <= s.len(),
        forall|i: int| from <= i < n ==> is_bracket(#[trigger] s[i]),
        n < s.len() ==> !is_bracket(s[n]),
    ensures
        leading_brackets(s.skip(from)) == n - from,
    decreases n - from,
{
    let t = s.skip(from);
    if from < n {
        assert(t[0] == s[from]);
        assert(t.skip(1) =~= s.skip(from + 1));
        lemma_brackets_from(s, from + 1, n);
    } else if n < s.len() {
        assert(t[0] == s[n]);
    }
}

/// The number of brackets before `to` is found by going back from there.
proof fn lemma_brackets_to(s: Seq<char>, n: int, to: int)
    requires
        0 <= n <= to <= s.len(),
        forall|i: int| n <= i < to ==> is_bracket(#[trigger] s[i]),
        n > 0 ==> !is_bracket(s[n - 1]),
    ensures
        trailing_brackets(s.take(to)) == to - n,
    decreases to - n,
{
    let t = s.take(to);
    if n < to {
        assert(t.last() == s[to - 1]);
        assert(t.drop_last() =~= s.take(to - 1));
        lemma_brackets_to(s, n, to - 1);
    } else if n > 0 {
        assert(t.last() == s[n - 1]);
    }
}

/// `s` without the round brackets that it starts and ends with.
pub fn strip_brackets(s: &[char]) -> (part: Vec<char>)
    ensures
        part@ == unbracketed(s@),
{
    let len = s.len();
    let mut start: usize = 0;
    while start < len && (s[start] == '(' || s[start] == ')')
        invariant
            start <= len == s@.len(),
            forall|i: int| 0 <= i < start ==> is_bracket(#[trigger] s@[i]),
        decreases len - start,
    {
        start += 1;
    }
    let mut end: usize = len;
    while end > start && (s[end - 1] == '(' || s[end - 1] == ')')
        invariant
            start <= end <= len == s@.len(),
            forall|i: int| end <= i < len ==> is_bracket(#[trigger] s@[i]),
        decreases end,
    {
        end -= 1;
    }
    proof {
        lemma_brackets_from(s@, 0, start as int);
        assert(s@.skip(0) =~= s@);
        let front = s@.skip(start as int);
        assert forall|i: int| end - start <= i < front.len() implies is_bracket(
            #[trigger] front[i],
        ) by {
            assert(front[i] == s@[i + start]);
        }
        if end > start {
            assert(front[end - start - 1] == s@[end - 1]);
        }
        lemma_brackets_to(front, end - start, front.len() as int);
        assert(front.take(front.len() as int) =~= front);
        assert(front.take(end - start) =~= s@.subrange(start as int, end as int));
    }
    slice(s, start, end)
}

/// The value that the entries hold against the key, and the null value
/// where they hold none.
pub open spec fn value_or_null(entries: Seq<Entry>, key: i32) -> ValueView {
    match value_at(entries, key) {
        Some(v) => v,
        None => ValueView::Null,
    }
}

/// The value of an operand; `None` where it has none. Without the round
/// brackets around it, `GET`, one character and a key is the value held
/// against the key, or the null value; any other text is the value that it
/// stands for.
pub open spec fn operand_value(text: Seq<char>, entries: Seq<Entry>) -> Option<ValueView> {
    let inner = unbracketed(text);
    if starts_with(inner, get_word()) {
        if inner.len() >= 4 && (inner[3] as u32) < 0x80 {
            match as_i32(inner.skip(4)) {
                Some(key) => Some(value_or_null(entries, key)),
                None => None,
            }
        } else {
            None
        }
    } else {
        Some(value_of(inner))
    }
}

/// What the operator that a word is makes of two values; `None` where it
/// fails, or where the word is none of `+`, `-`, `*`, `/` and `=`.
pub open spec fn applied_word(word: Seq<char>, left: ValueView, right: ValueView) -> Option<
    ValueView,
> {
    if word == seq!['+'] {
        sum(left, right)
    } else if word == seq!['-'] {
        difference(left, right)
    } else if word == seq!['*'] {
        product(left, right)
    } else if word == seq!['/'] {
        quotient(left, right)
    } else if word == seq!['='] {
        Some(ValueView::Boolean(same(left, right)))
    } else {
        None
    }
}

/// The value of an operation of three words or more; `None` where it has
/// none. The place of the first operator among the characters of the words
/// behind the first, joined by blanks, is taken as the place of a word: the
/// words before that word are the left operand, those behind it the right
/// one, and the word itself is the operator.
pub open spec fn operation_value(tokens: Seq<Seq<char>>, entries: Seq<Entry>) -> Option<
    ValueView,
> {
    let rest = joined(tokens, 1);
    let at = first_operator(rest, 0);
    if tokens.len() < 3 || at >= rest.len() || at >= tokens.len() {
        None
    } else {
        let left = operand_value(joined(tokens.take(at), 0), entries);
        let right = operand_value(joined(tokens, at + 1), entries);
        if left is Some && right is Some {
            applied_word(tokens[at], left.unwrap(), right.unwrap())
        } else {
            None
        }
    }
}

/// The value of an expression given as words, over entries with keys that
/// differ; `None` where it has none. `GET` and a key is the value held
/// against the key, or the null value; `STRLEN` and a key is the length in
/// bytes of the string held against the key; words between `(` and `)` are
/// an operation; one word alone is the value that it stands for; and any
/// other words are an operation.
pub open spec fn expression_value(tokens: Seq<Seq<char>>, entries: Seq<Entry>) -> Option<
    ValueView,
> {
    if tokens.len() == 0 {
        None
    } else if tokens[0] == get_word() {
        if tokens.len() == 2 {
            match as_i32(tokens[1]) {
                Some(key) => Some(value_or_null(entries, key)),
                None => None,
            }
        } else {
            None
        }
    } else if tokens[0] == strlen_word() {
        if tokens.len() == 2 {
            match as_i32(tokens[1]) {
                Some(key) => match value_at(entries, key) {
                    Some(ValueView::String(s)) => if encode_utf8(s).len() <= i64::MAX {
                        Some(ValueView::Integer(encode_utf8(s).len() as i64))
                    } else {
                        None
                    },
                    _ => None,
                },
                None => None,
            }
        } else {
            None
        }
    } else if tokens[0] == seq!['('] {
        if tokens.len() >= 4 && tokens.last() == seq![')'] {
            operation_value(tokens.subrange(1, tokens.len() - 1), entries)
        } else {
            None
        }
    } else if tokens.len() == 1 {
        Some(value_of(tokens[0]))
    } else {
        operation_value(tokens, entries)
    }
}

/// The texts of a list of words given as strings.
pub open spec fn word_texts(tokens: Seq<&str>) -> Seq<Seq<char>> {
    Seq::new(tokens.len(), |i: int| tokens[i]@)
}

/// The words as characters.
fn words_of(tokens: &[&str]) -> (parts: Vec<Vec<char>>)
    ensures
        texts(parts@) == word_texts(tokens@),
{
    let mut parts: Vec<Vec<char>> = Vec::new();
    let mut i: usize = 0;
    while i < tokens.len()
        invariant
            i <= tokens@.len(),
            parts@.len() == i,
            forall|k: int| 0 <= k < i ==> parts@[k]@ == tokens@[k]@,
        decreases tokens@.len() - i,
    {
        parts.push(to_chars(tokens[i]));
        i += 1;
    }
    assert(texts(parts@) =~= word_texts(tokens@));
    parts
}

/// The words from `from` to `to`.
fn words_between(parts: &Vec<Vec<char>>, from: usize, to: usize) -> (part: Vec<Vec<char>>)
    requires
        from <= to <= parts@.len(),
    ensures
        texts(part@) == texts(parts@).subrange(from as int, to as int),
{
    let mut part: Vec<Vec<char>> = Vec::new();
    let mut i: usize = from;
    while i < to
        invariant
            from <= i <= to <= parts@.len(),
            part@.len() == i - from,
            forall|k: int| 0 <= k < i - from ==> part@[k]@ == parts@[from + k]@,
        decreases to - i,
    {
        let word = &parts[i];
        part.push(slice(word.as_slice(), 0, word.len()));
        assert(word@.subrange(0, word@.len() as int) =~= word@);
        i += 1;
    }
    assert(texts(part@) =~= texts(parts@).subrange(from as int, to as int));
    part
}

/// The value held against the key, or the null value.
fn stored_or_null(key: i32, db: &mut Database) -> (res: Result<Value, DatabaseError>)
    ensures
        final(db).pool().capacity == old(db).pool().capacity,
        final(db).tree() == old(db).tree(),
        final(db).log() == old(db).log(),
        final(db).transactions() == old(db).transactions(),
        old(db).wf() ==> final(db).pool() == old(db).pool(),
        old(db).wf() && distinct_keys(old(db).entries()) ==> (res matches Ok(value) && value@
            == value_or_null(old(db).entries(), key)),
{
    let ghost entries = db.entries();
    let ghost ok = db.wf() && distinct_keys(entries);
    match db.get(key) {
        Ok(Some(value)) => {
            proof {
                if ok {
                    lemma_value_at(entries, key, value@);
                }
            }
            Ok(value)
        },
        Ok(None) => Ok(Value::Null),
        Err(e) => Err(e),
    }
}

/// The value of an operand.
fn parse_operand(text: &[char], db: &mut Database) -> (res: Result<Value, DatabaseError>)
    ensures
        final(db).pool().capacity == old(db).pool().capacity,
        final(db).tree() == old(db).tree(),
        final(db).log() == old(db).log(),
        final(db).transactions() == old(db).transactions(),
        old(db).wf() ==> final(db).pool() == old(db).pool(),
        old(db).wf() && distinct_keys(old(db).entries()) ==> match operand_value(
            text@,
            old(db).entries(),
        ) {
            Some(v) => res matches Ok(value) && value@ == v,
            None => res is Err,
        },
{
    let inner = strip_brackets(text);
    let get = ['G', 'E', 'T'];
    assert(get@ =~= get_word());
    if has_prefix(inner.as_slice(), get.as_slice()) {
        if inner.len() < 4 {
            return Err(DatabaseError::ParseError(String::from_str("Invalid GET syntax")));
        }
        let fourth: char = inner[3];
        let code: u32 = fourth as u32;
        if code >= 0x80 {
            return Err(DatabaseError::ParseError(String::from_str("Invalid GET syntax")));
        }
        let key_text = slice(inner.as_slice(), 4, inner.len());
        assert(inner@.skip(4) =~= inner@.subrange(4, inner@.len() as int));
        match parse_i32(key_text.as_slice()) {
            Some(key) => stored_or_null(key, db),
            None => Err(DatabaseError::ParseError(String::from_str("Invalid key"))),
        }
    } else {
        Ok(value_from(inner.as_slice()))
    }
}

/// What the operator that a word is makes of two values.
fn apply_word(word: &[char], left: &Value, right: &Value) -> (res: Result<Value, DatabaseError>)
    ensures
        match applied_word(word@, left@, right@) {
            Some(v) => res matches Ok(value) && value@ == v,
            None => res is Err,
        },
{
    let plus = ['+'];
    let minus = ['-'];
    let times = ['*'];
    let over = ['/'];
    let equals = ['='];
    assert(plus@ =~= seq!['+'] && minus@ =~= seq!['-'] && times@ =~= seq!['*'] && over@ =~= seq![
        '/',
    ] && equals@ =~= seq!['=']);
    if same_text(word, plus.as_slice()) {
        left.add(right)
    } else if same_text(word, minus.as_slice()) {
        left.sub(right)
    } else if same_text(word, times.as_slice()) {
        left.mul(right)
    } else if same_text(word, over.as_slice()) {
        left.div(right)
    } else if same_text(word, equals.as_slice()) {
        left.eq(right)
    } else {
        Err(DatabaseError::ParseError(String::from_str("Unknown operator")))
    }
}

/// The value of an operation.
fn parse_operation(parts: &Vec<Vec<char>>, db: &mut Database) -> (res: Result<
    Value,
    DatabaseError,
>)
    ensures
        final(db).pool().capacity == old(db).pool().capacity,
        final(db).tree() == old(db).tree(),
        final(db).log() == old(db).log(),
        final(db).transactions() == old(db).transactions(),
        old(db).wf() ==> final(db).pool() == old(db).pool(),
        old(db).wf() && distinct_keys(old(db).entries()) ==> match operation_value(
            texts(parts@),
            old(db).entries(),
        ) {
            Some(v) => res matches Ok(value) && value@ == v,
            None => res is Err,
        },
{
    if parts.len() < 3 {
        return Err(DatabaseError::ParseError(String::from_str("Invalid operation syntax")));
    }
    let rest = join(parts, 1);
    let at = operator_place(rest.as_slice());
    if at >= rest.len() {
        return Err(DatabaseError::ParseError(String::from_str("Operator not found")));
    }
    if at >= parts.len() {
        return Err(DatabaseError::ParseError(String::from_str("Invalid operation syntax")));
    }
    let before = words_between(parts, 0, at);
    let left_text = join(&before, 0);
    let right_text = join(parts, at + 1);
    assert(texts(parts@).take(at as int) =~= texts(parts@).subrange(0, at as int));
    let left = parse_operand(left_text.as_slice(), db)?;
    let right = parse_operand(right_text.as_slice(), db)?;
    apply_word(parts[at].as_slice(), &left, &right)
}

/// The value of an expression given as words, over what the engine holds.
pub fn parse_expression(tokens: &[&str], db: &mut Database) -> (res: Result<
    Value,
    DatabaseError,
>)
    ensures
        final(db).pool().capacity == old(db).pool().capacity,
        final(db).tree() == old(db).tree(),
        final(db).log() == old(db).log(),
        final(db).transactions() == old(db).transactions(),
        old(db).wf() ==> final(db).pool() == old(db).pool(),
        old(db).wf() && distinct_keys(old(db).entries()) ==> match expression_value(
            word_texts(tokens@),
            old(db).entries(),
        ) {
            Some(v) => res matches Ok(value) && value@ == v,
            None => res is Err,
        },
{
    let ghost entries = db.entries();
    let ghost ok = db.wf() && distinct_keys(entries);
    let parts = words_of(tokens);
    if parts.len() == 0 {
        return Err(DatabaseError::ParseError(String::from_str("Empty expression")));
    }
    let get = ['G', 'E', 'T'];
    let strlen = ['S', 'T', 'R', 'L', 'E', 'N'];
    let open = ['('];
    let close = [')'];
    assert(get@ =~= get_word() && strlen@ =~= strlen_word() && open@ =~= seq!['('] && close@
        =~= seq![')']);
    let first = parts[0].as_slice();
    if same_text(first, get.as_slice()) {
        if parts.len() != 2 {
            return Err(DatabaseError::ParseError(String::from_str("Invalid GET syntax")));
        }
        match parse_i32(parts[1].as_slice()) {
            Some(key) => stored_or_null(key, db),
            None => Err(DatabaseError::ParseError(String::from_str("Invalid key"))),
        }
    } else if same_text(first, strlen.as_slice()) {
        if parts.len() != 2 {
            return Err(DatabaseError::ParseError(String::from_str("Invalid STRLEN syntax")));
        }
        let key = match parse_i32(parts[1].as_slice()) {
            Some(key) => key,
            None => {
                return Err(DatabaseError::ParseError(String::from_str("Invalid key")));
            },
        };
        match db.strlen(key) {
            Ok(Some(n)) => {
                proof {
                    if ok {
                        let s = choose|s: Seq<char>|
                            #[trigger] held_string(entries, key, s) && n == encode_utf8(s).len();
                        lemma_value_at(entries, key, ValueView::String(s));
                    }
                }
                if n as u64 <= 0x7fff_ffff_ffff_ffff {
                    Ok(Value::Integer(n as i64))
                } else {
                    Err(DatabaseError::InvalidOperation(String::from_str("String too long")))
                }
            },
            Ok(None) => Ok(Value::Null),
            Err(e) => {
                proof {
                    if ok {
                        if has_key(entries, key) {
                            let v = choose|v: ValueView|
                                #[trigger] held(entries, key, v) && !(v is String);
                            lemma_value_at(entries, key, v);
                        }
                    }
                }
                Err(e)
            },
        }
    } else if same_text(first, open.as_slice()) {
        let len = parts.len();
        if len < 4 || !same_text(parts[len - 1].as_slice(), close.as_slice()) {
            return Err(DatabaseError::ParseError(String::from_str("Invalid parentheses")));
        }
        let inner = words_between(&parts, 1, len - 1);
        parse_operation(&inner, db)
    } else if parts.len() == 1 {
        Ok(value_from(first))
    } else {
        parse_operation(&parts, db)
    }
}

} // verus!
