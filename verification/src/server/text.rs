//! Text as sequences of characters: white space, words, and numbers
//! written in decimal.

use vstd::prelude::*;

verus! {

/// Whether the character is white space: one of the code points with the
/// Unicode property `White_Space`.
pub open spec fn is_space(c: char) -> bool {
    let u = c as u32;
    ||| 0x09 <= u <= 0x0d
    ||| u == 0x20
    ||| u == 0x85
    ||| u == 0xa0
    ||| u == 0x1680
    ||| 0x2000 <= u <= 0x200a
    ||| u == 0x2028
    ||| u == 0x2029
    ||| u == 0x202f
    ||| u == 0x205f
    ||| u == 0x3000
}

/// Whether the character is white space.
pub fn space(c: char) -> (res: bool)
    ensures
        res == is_space(c),
{
    let u = c as u32;
    (0x09 <= u && u <= 0x0d) || u == 0x20 || u == 0x85 || u == 0xa0 || u == 0x1680 || (0x2000 <= u
        && u <= 0x200a) || u == 0x2028 || u == 0x2029 || u == 0x202f || u == 0x205f || u == 0x3000
}

/// The number of white space characters that `s` starts with.
pub open spec fn leading_spaces(s: Seq<char>) -> nat
    decreases s.len(),
{
    if s.len() > 0 && is_space(s[0]) {
        1 + leading_spaces(s.skip(1))
    } else {
        0
    }
}

/// The number of white space characters that `s` ends with.
pub open spec fn trailing_spaces(s: Seq<char>) -> nat
    decreases s.len(),
{
    if s.len() > 0 && is_space(s.last()) {
        1 + trailing_spaces(s.drop_last())
    } else {
        0
    }
}

/// `s` without the white space that it starts and ends with.
pub open spec fn trimmed(s: Seq<char>) -> Seq<char> {
    let front = s.skip(leading_spaces(s) as int);
    front.take(front.len() - trailing_spaces(front))
}

/// The number of characters other than white space that `s` starts with.
pub open spec fn word_len(s: Seq<char>) -> nat
    decreases s.len(),
{
    if s.len() > 0 && !is_space(s[0]) {
        1 + word_len(s.skip(1))
    } else {
        0
    }
}

/// The words of `s`: its longest runs of characters other than white
/// space, in their order.
pub open spec fn words(s: Seq<char>) -> Seq<Seq<char>>
    decreases s.len(),
{
    if s.len() == 0 {
        Seq::empty()
    } else if is_space(s[0]) {
        words(s.skip(1))
    } else {
        proof {
            lemma_word_len(s);
        }
        seq![s.take(word_len(s) as int)] + words(s.skip(word_len(s) as int))
    }
}

/// The words from `from` on, with one blank between each two.
pub open spec fn joined(parts: Seq<Seq<char>>, from: int) -> Seq<char>
    decreases parts.len() - from,
{
    if from < 0 || from >= parts.len() {
        Seq::empty()
    } else if from == parts.len() - 1 {
        parts[from]
    } else {
        parts[from] + seq![' '] + joined(parts, from + 1)
    }
}

/// The texts of a list of words.
pub open spec fn texts(parts: Seq<Vec<char>>) -> Seq<Seq<char>> {
    Seq::new(parts.len(), |i: int| parts[i]@)
}

/// Whether `s` starts with `prefix`.
pub open spec fn starts_with(s: Seq<char>, prefix: Seq<char>) -> bool {
    prefix.len() <= s.len() && s.take(prefix.len() as int) == prefix
}

/// Whether `s` ends with `suffix`.
pub open spec fn ends_with(s: Seq<char>, suffix: Seq<char>) -> bool {
    suffix.len() <= s.len() && s.skip(s.len() - suffix.len()) == suffix
}

pub proof fn lemma_leading_spaces(s: Seq<char>)
    ensures
        leading_spaces(s) <= s.len(),
        forall|i: int| 0 <= i < leading_spaces(s) ==> is_space(#[trigger] s[i]),
        leading_spaces(s) < s.len() ==> !is_space(s[leading_spaces(s) as int]),
    decreases s.len(),
{
    if s.len() > 0 && is_space(s[0]) {
        lemma_leading_spaces(s.skip(1));
        assert forall|i: int| 0 <= i < leading_spaces(s) implies is_space(#[trigger] s[i]) by {
            if i > 0 {
                assert(s[i] == s.skip(1)[i - 1]);
            }
        }
    }
}

pub proof fn lemma_trailing_spaces(s: Seq<char>)
    ensures
        trailing_spaces(s) <= s.len(),
        forall|i: int| s.len() - trailing_spaces(s) <= i < s.len() ==> is_space(#[trigger] s[i]),
        trailing_spaces(s) < s.len() ==> !is_space(s[s.len() - trailing_spaces(s) - 1]),
    decreases s.len(),
{
    if s.len() > 0 && is_space(s.last()) {
        lemma_trailing_spaces(s.drop_last());
        assert forall|i: int| s.len() - trailing_spaces(s) <= i < s.len() implies is_space(
            #[trigger] s[i],
        ) by {
            if i < s.len() - 1 {
                assert(s[i] == s.drop_last()[i]);
            }
        }
    }
}

pub proof fn lemma_word_len(s: Seq<char>)
    ensures
        word_len(s) <= s.len(),
        forall|i: int| 0 <= i < word_len(s) ==> !is_space(#[trigger] s[i]),
        word_len(s) < s.len() ==> is_space(s[word_len(s) as int]),
    decreases s.len(),
{
    if s.len() > 0 && !is_space(s[0]) {
        lemma_word_len(s.skip(1));
        assert forall|i: int| 0 <= i < word_len(s) implies !is_space(#[trigger] s[i]) by {
            if i > 0 {
                assert(s[i] == s.skip(1)[i - 1]);
            }
        }
    }
}

/// The number of white space characters from `from` on is found by going
/// on from there.
pub proof fn lemma_leading_from(s: Seq<char>, from: int, n: int)
    requires
        0 <= from <= n <= s.len(),
        forall|i: int| from <= i < n ==> is_space(#[trigger] s[i]),
        n < s.len() ==> !is_space(s[n]),
    ensures
        leading_spaces(s.skip(from)) == n - from,
    decreases n - from,
{
    let t = s.skip(from);
    if from < n {
        assert(t[0] == s[from]);
        assert(t.skip(1) =~= s.skip(from + 1));
        lemma_leading_from(s, from + 1, n);
    } else if n < s.len() {
        assert(t[0] == s[n]);
    }
}

/// The number of white space characters before `to` is found by going
/// back from there.
pub proof fn lemma_trailing_to(s: Seq<char>, n: int, to: int)
    requires
        0 <= n <= to <= s.len(),
        forall|i: int| n <= i < to ==> is_space(#[trigger] s[i]),
        n > 0 ==> !is_space(s[n - 1]),
    ensures
        trailing_spaces(s.take(to)) == to - n,
    decreases to - n,
{
    let t = s.take(to);
    if n < to {
        assert(t.last() == s[to - 1]);
        assert(t.drop_last() =~= s.take(to - 1));
        lemma_trailing_to(s, n, to - 1);
    } else if n > 0 {
        assert(t.last() == s[n - 1]);
    }
}

/// The length of the word from `from` on is found by going on from there.
pub proof fn lemma_word_from(s: Seq<char>, from: int, n: int)
    requires
        0 <= from <= n <= s.len(),
        forall|i: int| from <= i < n ==> !is_space(#[trigger] s[i]),
        n < s.len() ==> is_space(s[n]),
    ensures
        word_len(s.skip(from)) == n - from,
    decreases n - from,
{
    let t = s.skip(from);
    if from < n {
        assert(t[0] == s[from]);
        assert(t.skip(1) =~= s.skip(from + 1));
        lemma_word_from(s, from + 1, n);
    } else if n < s.len() {
        assert(t[0] == s[n]);
    }
}

/// The characters from `from` to `to`.
pub fn slice(s: &[char], from: usize, to: usize) -> (part: Vec<char>)
    requires
        from <= to <= s@.len(),
    ensures
        part@ == s@.subrange(from as int, to as int),
{
    let mut part: Vec<char> = Vec::new();
    let mut i: usize = from;
    while i < to
        invariant
            from <= i <= to <= s@.len(),
            part@ == s@.subrange(from as int, i as int),
        decreases to - i,
    {
        part.push(s[i]);
        i += 1;
        assert(s@.subrange(from as int, i as int) =~= s@.subrange(from as int, i - 1).push(
            s@[i - 1],
        ));
    }
    part
}

/// `s` without the white space that it starts and ends with.
pub fn trim(s: &[char]) -> (part: Vec<char>)
    ensures
        part@ == trimmed(s@),
{
    let len = s.len();
    let mut start: usize = 0;
    while start < len && space(s[start])
        invariant
            start <= len == s@.len(),
            forall|i: int| 0 <= i < start ==> is_space(#[trigger] s@[i]),
        decreases len - start,
    {
        start += 1;
    }
    let mut end: usize = len;
    while end > start && space(s[end - 1])
        invariant
            start <= end <= len == s@.len(),
            forall|i: int| end <= i < len ==> is_space(#[trigger] s@[i]),
        decreases end,
    {
        end -= 1;
    }
    proof {
        lemma_leading_from(s@, 0, start as int);
        assert(s@.skip(0) =~= s@);
        let front = s@.skip(start as int);
        assert forall|i: int| end - start <= i < front.len() implies is_space(
            #[trigger] front[i],
        ) by {
            assert(front[i] == s@[i + start]);
        }
        if end > start {
            assert(front[end - start - 1] == s@[end - 1]);
        }
        lemma_trailing_to(front, end - start, front.len() as int);
        assert(front.take(front.len() as int) =~= front);
        assert(front.take(end - start) =~= s@.subrange(start as int, end as int));
    }
    slice(s, start, end)
}

/// The words of `s`.
pub fn split_words(s: &[char]) -> (parts: Vec<Vec<char>>)
    ensures
        texts(parts@) == words(s@),
{
    let len = s.len();
    let mut parts: Vec<Vec<char>> = Vec::new();
    let mut pos: usize = 0;
    assert(texts(parts@) =~= Seq::<Seq<char>>::empty());
    assert(s@.skip(0) =~= s@);
    while pos < len
        invariant
            pos <= len == s@.len(),
            texts(parts@) + words(s@.skip(pos as int)) == words(s@),
        decreases len - pos,
    {
        let ghost rest = s@.skip(pos as int);
        if space(s[pos]) {
            proof {
                assert(rest[0] == s@[pos as int]);
                assert(rest.skip(1) =~= s@.skip(pos + 1));
            }
            pos += 1;
        } else {
            let start = pos;
            while pos < len && !space(s[pos])
                invariant
                    start <= pos <= len == s@.len(),
                    forall|i: int| start <= i < pos ==> !is_space(#[trigger] s@[i]),
                decreases len - pos,
            {
                pos += 1;
            }
            let word = slice(s, start, pos);
            proof {
                lemma_word_from(s@, start as int, pos as int);
                assert(rest[0] == s@[start as int]);
                assert(rest.take(pos - start) =~= word@);
                assert(rest.skip(pos - start) =~= s@.skip(pos as int));
                assert(texts(parts@.push(word)) =~= texts(parts@).push(word@));
                assert(texts(parts@) + (seq![word@] + words(s@.skip(pos as int))) =~= texts(
                    parts@,
                ).push(word@) + words(s@.skip(pos as int)));
            }
            parts.push(word);
        }
    }
    proof {
        assert(s@.skip(len as int) =~= Seq::<char>::empty());
        assert(texts(parts@) + Seq::<Seq<char>>::empty() =~= texts(parts@));
    }
    parts
}

/// The words from `from` on, with one blank between each two.
pub fn join(parts: &Vec<Vec<char>>, from: usize) -> (text: Vec<char>)
    ensures
        text@ == joined(texts(parts@), from as int),
{
    let ghost all = texts(parts@);
    let mut text: Vec<char> = Vec::new();
    let mut i: usize = from;
    while i < parts.len()
        invariant
            from <= i,
            from <= parts@.len() ==> i <= parts@.len(),
            all == texts(parts@),
            i <= parts@.len() ==> text@ + joined(all, i as int) == joined(all, from as int),
            from >= parts@.len() ==> text@ == Seq::<char>::empty(),
        decreases parts@.len() - i,
    {
        let word = &parts[i];
        let ghost before = text@;
        let mut k: usize = 0;
        while k < word.len()
            invariant
                k <= word@.len(),
                text@ == before + word@.take(k as int),
            decreases word@.len() - k,
        {
            text.push(word[k]);
            k += 1;
            assert(word@.take(k as int) =~= word@.take(k - 1).push(word@[k - 1]));
        }
        proof {
            assert(word@.take(k as int) =~= word@);
            assert(all[i as int] == word@);
        }
        if i + 1 < parts.len() {
            text.push(' ');
            proof {
                assert(text@ + joined(all, i + 1) =~= before + (word@ + seq![' '] + joined(
                    all,
                    i + 1,
                )));
            }
        } else {
            proof {
                assert(joined(all, i + 1) =~= Seq::<char>::empty());
                assert(text@ + joined(all, i + 1) =~= before + word@);
            }
        }
        i += 1;
    }
    proof {
        if from >= parts.len() {
            assert(joined(all, from as int) =~= Seq::<char>::empty());
        } else {
            assert(joined(all, i as int) =~= Seq::<char>::empty());
            assert(text@ + Seq::<char>::empty() =~= text@);
        }
    }
    text
}

/// Whether the two texts are the same.
pub fn same_text(a: &[char], b: &[char]) -> (res: bool)
    ensures
        res == (a@ == b@),
{
    if a.len() != b.len() {
        return false;
    }
    let mut i: usize = 0;
    while i < a.len()
        invariant
            i <= a@.len() == b@.len(),
            a@.take(i as int) == b@.take(i as int),
        decreases a@.len() - i,
    {
        if a[i] != b[i] {
            return false;
        }
        i += 1;
        assert(a@.take(i as int) =~= a@.take(i - 1).push(a@[i - 1]));
        assert(b@.take(i as int) =~= b@.take(i - 1).push(b@[i - 1]));
    }
    assert(a@.take(i as int) =~= a@ && b@.take(i as int) =~= b@);
    true
}

/// Whether `s` starts with `prefix`.
pub fn has_prefix(s: &[char], prefix: &[char]) -> (res: bool)
    ensures
        res == starts_with(s@, prefix@),
{
    if prefix.len() > s.len() {
        return false;
    }
    let head = slice(s, 0, prefix.len());
    assert(s@.take(prefix@.len() as int) =~= head@);
    same_text(head.as_slice(), prefix)
}

/// Whether `s` ends with `suffix`.
pub fn has_suffix(s: &[char], suffix: &[char]) -> (res: bool)
    ensures
        res == ends_with(s@, suffix@),
{
    if suffix.len() > s.len() {
        return false;
    }
    let tail = slice(s, s.len() - suffix.len(), s.len());
    assert(s@.skip(s@.len() - suffix@.len()) =~= tail@);
    same_text(tail.as_slice(), suffix)
}

} // verus!
