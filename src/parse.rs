use vstd::prelude::*;

use crate::model::{AllocInfo, AllocRecord, records};

verus! {

/// Whitespace in the sense of Unicode's `White_Space` property, which is what
/// separates the fields of a line.
pub open spec fn is_space(c: char) -> bool {
    c == ' ' || ('\t' <= c && c <= '\r') || c == '\u{85}' || c == '\u{a0}' || c == '\u{1680}'
        || ('\u{2000}' <= c && c <= '\u{200a}') || c == '\u{2028}' || c == '\u{2029}'
        || c == '\u{202f}' || c == '\u{205f}' || c == '\u{3000}'
}

/// Splitting `text` at each '\n': the lines completed so far, and the line still open.
pub open spec fn line_state(text: Seq<char>) -> (Seq<Seq<char>>, Seq<char>)
    decreases text.len(),
{
    if text.len() == 0 {
        (Seq::empty(), Seq::empty())
    } else {
        let (done, open) = line_state(text.drop_last());
        if text.last() == '\n' {
            (done.push(open), Seq::empty())
        } else {
            (done, open.push(text.last()))
        }
    }
}

/// The lines of `text`: the pieces between '\n' separators.
pub open spec fn lines(text: Seq<char>) -> Seq<Seq<char>> {
    line_state(text).0.push(line_state(text).1)
}

/// One step of splitting into words: a space closes the open word, if any.
pub open spec fn word_step(st: (Seq<Seq<char>>, Seq<char>), c: char) -> (Seq<Seq<char>>, Seq<char>) {
    if is_space(c) {
        (close_word(st), Seq::empty())
    } else {
        (st.0, st.1.push(c))
    }
}

/// The words of a splitting state, with the open word added when it is not empty.
pub open spec fn close_word(st: (Seq<Seq<char>>, Seq<char>)) -> Seq<Seq<char>> {
    if st.1.len() > 0 {
        st.0.push(st.1)
    } else {
        st.0
    }
}

/// Splitting `line` into words: the words completed so far, and the word still open.
pub open spec fn word_state(line: Seq<char>) -> (Seq<Seq<char>>, Seq<char>)
    decreases line.len(),
{
    if line.len() == 0 {
        (Seq::empty(), Seq::empty())
    } else {
        word_step(word_state(line.drop_last()), line.last())
    }
}

/// The maximal runs of non-space characters of `line`, in order.
pub open spec fn words(line: Seq<char>) -> Seq<Seq<char>> {
    close_word(word_state(line))
}

pub open spec fn is_digit(c: char) -> bool {
    '0' <= c && c <= '9'
}

/// The value of a string of decimal digits.
pub open spec fn digits_value(s: Seq<char>) -> int
    decreases s.len(),
{
    if s.len() == 0 {
        0
    } else {
        digits_value(s.drop_last()) * 10 + (s.last() as int - '0' as int)
    }
}

/// The digits of a field: the field without one leading '+'.
pub open spec fn unsigned_digits(s: Seq<char>) -> Seq<char> {
    if s.len() > 0 && s[0] == '+' {
        s.drop_first()
    } else {
        s
    }
}

/// A field read as an unsigned number no larger than `max`: an optional '+'
/// followed by one or more decimal digits, of value at most `max`.
pub open spec fn parse_unsigned(s: Seq<char>, max: u64) -> Option<u64> {
    let d = unsigned_digits(s);
    if d.len() > 0 && (forall|i: int| 0 <= i < d.len() ==> is_digit(#[trigger] d[i]))
        && digits_value(d) <= max {
        Some(digits_value(d) as u64)
    } else {
        None
    }
}

/// A field read as an unsigned 64-bit number, or 0 where it is none.
pub open spec fn number_or_zero(s: Seq<char>) -> u64 {
    match parse_unsigned(s, u64::MAX) {
        Some(v) => v,
        None => 0,
    }
}

/// Words joined with single spaces.
pub open spec fn join_words(ws: Seq<Seq<char>>) -> Seq<char>
    decreases ws.len(),
{
    if ws.len() == 0 {
        Seq::empty()
    } else if ws.len() == 1 {
        ws[0]
    } else {
        join_words(ws.drop_last()).push(' ') + ws.last()
    }
}

/// A data line's words as a record: at least three words, the first not `#`.
pub open spec fn record_of_words(ws: Seq<Seq<char>>) -> Option<AllocRecord> {
    if ws.len() >= 3 && ws[0] != seq!['#'] {
        Some(
            AllocRecord {
                size: number_or_zero(ws[0]),
                calls: number_or_zero(ws[1]),
                tag: join_words(ws.subrange(2, ws.len() as int)),
            },
        )
    } else {
        None
    }
}

/// The record of one line, or none for a comment or a line of fewer than three fields.
pub open spec fn parse_line(line: Seq<char>) -> Option<AllocRecord> {
    record_of_words(words(line))
}

/// The records of the lines, in order, skipping those that are no data.
pub open spec fn parse_lines(ls: Seq<Seq<char>>) -> Seq<AllocRecord>
    decreases ls.len(),
{
    if ls.len() == 0 {
        Seq::empty()
    } else {
        let prev = parse_lines(ls.drop_last());
        match parse_line(ls.last()) {
            Some(r) => prev.push(r),
            None => prev,
        }
    }
}

/// The records of a whole report, in file order.
pub open spec fn parse_report(text: Seq<char>) -> Seq<AllocRecord> {
    parse_lines(lines(text))
}

/// Relies on String::push: appends one character.
#[verifier::external_body]
pub(crate) fn push_char(s: &mut String, c: char)
    ensures
        final(s)@ == old(s)@.push(c),
{
    s.push(c)
}

/// The characters of a string, in order.
pub(crate) fn chars_of(s: &String) -> (r: Vec<char>)
    ensures
        r@ == s@,
{
    let mut r: Vec<char> = Vec::new();
    for c in it: s.as_str().chars()
        invariant
            it.seq() == s@,
            r@ == it.seq().take(it.index() as int),
    {
        assert(it.seq().take(it.index() + 1) =~= r@.push(c));
        r.push(c);
    }
    assert(r@ =~= s@);
    r
}

fn char_is_space(c: char) -> (r: bool)
    ensures
        r == is_space(c),
{
    c == ' ' || ('\t' <= c && c <= '\r') || c == '\u{85}' || c == '\u{a0}' || c == '\u{1680}'
        || ('\u{2000}' <= c && c <= '\u{200a}') || c == '\u{2028}' || c == '\u{2029}'
        || c == '\u{202f}' || c == '\u{205f}' || c == '\u{3000}'
}

proof fn lemma_digits_value_grows(s: Seq<char>, k: int)
    requires
        0 <= k <= s.len(),
        forall|i: int| 0 <= i < s.len() ==> is_digit(#[trigger] s[i]),
    ensures
        digits_value(s) >= digits_value(s.take(k)) >= 0,
    decreases s.len(),
{
    if s.len() > 0 {
        if k == s.len() {
            assert(s.take(k) =~= s);
            lemma_digits_value_grows(s.drop_last(), k - 1);
            assert(s.drop_last().take(k - 1) =~= s.drop_last());
        } else {
            lemma_digits_value_grows(s.drop_last(), k);
            assert(s.drop_last().take(k) =~= s.take(k));
        }
    }
}

/// Reads text as an unsigned number no larger than `max`.
pub fn parse_unsigned_chars(s: &Vec<char>, max: u64) -> (r: Option<u64>)
    ensures
        r == parse_unsigned(s@, max),
{
    let start: usize = if s.len() > 0 && s[0] == '+' {
        1
    } else {
        0
    };
    let ghost d = unsigned_digits(s@);
    assert(d =~= s@.subrange(start as int, s@.len() as int));
    if start >= s.len() {
        return None;
    }
    let mut v: u64 = 0;
    let mut i: usize = start;
    while i < s.len()
        invariant
            start <= i <= s.len(),
            d == unsigned_digits(s@),
            d =~= s@.subrange(start as int, s@.len() as int),
            v == digits_value(d.take(i - start)),
            v <= max,
            forall|j: int| 0 <= j < i - start ==> is_digit(#[trigger] d[j]),
        decreases s.len() - i,
    {
        let c = s[i];
        if !('0' <= c && c <= '9') {
            assert(!is_digit(d[i - start]));
            assert(!(forall|j: int| 0 <= j < d.len() ==> is_digit(#[trigger] d[j])));
            return None;
        }
        let digit: u64 = (c as u32 - '0' as u32) as u64;
        assert(d.take(i + 1 - start).drop_last() =~= d.take(i - start));
        if digit > max || v > (max - digit) / 10 {
            proof {
                let t = d.take(i + 1 - start);
                assert(t.last() == c);
                assert(digits_value(t) == v * 10 + digit);
                assert(v * 10 + digit > max) by (nonlinear_arith)
                    requires
                        digit > max || v > (max - digit) / 10,
                        digit <= 9,
                ;
                if forall|j: int| 0 <= j < d.len() ==> is_digit(#[trigger] d[j]) {
                    lemma_digits_value_grows(d, i + 1 - start);
                }
            }
            return None;
        }
        assert(v * 10 + digit <= max) by (nonlinear_arith)
            requires
                v <= (max - digit) / 10,
                digit <= max,
                digit <= 9,
        ;
        assert(is_digit(d[i - start]));
        v = v * 10 + digit;
        i = i + 1;
    }
    assert(d.take(i - start) =~= d);
    Some(v)
}

/// Reads a field as an unsigned number; a field that is not one reads as 0.
pub fn parse_number_or_zero(s: &Vec<char>) -> (r: u64)
    ensures
        r == number_or_zero(s@),
{
    match parse_unsigned_chars(s, u64::MAX) {
        Some(v) => v,
        None => 0,
    }
}

/// Closes the open word: it joins the words when it is not empty, and a new one opens.
fn close_open_word(ws: &mut Vec<Vec<char>>, cur: &mut Vec<char>)
    ensures
        final(ws).deep_view() == close_word((old(ws).deep_view(), old(cur)@)),
        final(cur)@ == Seq::<char>::empty(),
{
    if cur.len() > 0 {
        let mut w: Vec<char> = Vec::new();
        std::mem::swap(cur, &mut w);
        assert(w.deep_view() =~= old(cur)@);
        ws.push(w);
        assert(ws.deep_view() =~= old(ws).deep_view().push(old(cur)@));
    } else {
        assert(cur@ =~= Seq::<char>::empty());
    }
}

/// The words from index `from` on, joined with single spaces.
fn join_from(ws: &Vec<Vec<char>>, from: usize) -> (r: String)
    requires
        from < ws.len(),
    ensures
        r@ == join_words(ws.deep_view().subrange(from as int, ws.len() as int)),
{
    let ghost dv = ws.deep_view();
    let mut r = String::new();
    let mut k: usize = from;
    while k < ws.len()
        invariant
            from <= k <= ws.len(),
            dv == ws.deep_view(),
            r@ == join_words(dv.subrange(from as int, k as int)),
        decreases ws.len() - k,
    {
        let ghost base = r@;
        if k > from {
            push_char(&mut r, ' ');
        }
        let w = &ws[k];
        assert(w@ == dv[k as int]);
        let mut j: usize = 0;
        while j < w.len()
            invariant
                j <= w.len(),
                k > from ==> r@ == base.push(' ') + w@.take(j as int),
                k == from ==> r@ == w@.take(j as int),
            decreases w.len() - j,
        {
            push_char(&mut r, w[j]);
            assert(w@.take(j + 1) =~= w@.take(j as int).push(w[j as int]));
            j = j + 1;
        }
        assert(w@.take(j as int) =~= w@);
        let ghost part = dv.subrange(from as int, k + 1);
        assert(part.drop_last() =~= dv.subrange(from as int, k as int));
        assert(part.last() == w@);
        k = k + 1;
    }
    r
}

/// The record that a line's words make, or none for a comment or a short line.
fn record_from_words(ws: &Vec<Vec<char>>) -> (r: Option<AllocInfo>)
    ensures
        r is None <==> record_of_words(ws.deep_view()) is None,
        r matches Some(x) ==> record_of_words(ws.deep_view()) == Some(x@),
{
    let ghost dv = ws.deep_view();
    if ws.len() < 3 {
        return None;
    }
    assert(ws[0]@ == dv[0]);
    if ws[0].len() == 1 && ws[0][0] == '#' {
        assert(dv[0] =~= seq!['#']);
        return None;
    }
    assert(dv[0] != seq!['#']);
    assert(ws[1]@ == dv[1]);
    let size = parse_number_or_zero(&ws[0]);
    let calls = parse_number_or_zero(&ws[1]);
    let tag = join_from(ws, 2);
    Some(AllocInfo { size, calls, tag })
}

/// Ends the open line: its record, if it is a data line, joins the output.
fn close_line(out: &mut Vec<AllocInfo>, ws: &mut Vec<Vec<char>>, cur: &mut Vec<char>)
    ensures
        records(final(out)@) == match record_of_words(close_word((old(ws).deep_view(), old(cur)@))) {
            Some(x) => records(old(out)@).push(x),
            None => records(old(out)@),
        },
        final(ws).deep_view() == Seq::<Seq<char>>::empty(),
        final(cur)@ == Seq::<char>::empty(),
{
    close_open_word(ws, cur);
    match record_from_words(ws) {
        Some(x) => {
            out.push(x);
            assert(records(out@) =~= records(old(out)@).push(x@));
        },
        None => {},
    }
    ws.clear();
    assert(ws.deep_view() =~= Seq::<Seq<char>>::empty());
}

/// Parses a whole report into its records, in file order.
///
/// Lines are separated by '\n' and fields by whitespace. A line with fewer than
/// three fields, or whose first field is `#`, is skipped. A size or call count
/// that is not a number reads as 0; the fields from the third on, joined with
/// single spaces, form the tag.
pub fn parse_allocinfo(text: &str) -> (r: Vec<AllocInfo>)
    ensures
        records(r@) == parse_report(text@),
{
    let mut out: Vec<AllocInfo> = Vec::new();
    let mut ws: Vec<Vec<char>> = Vec::new();
    let mut cur: Vec<char> = Vec::new();
    assert(records(out@) =~= Seq::<AllocRecord>::empty());
    assert(ws.deep_view() =~= Seq::<Seq<char>>::empty());
    assert(text@.take(0) =~= Seq::<char>::empty());
    for c in it: text.chars()
        invariant
            it.seq() == text@,
            0 <= it.index() <= text@.len(),
            records(out@) == parse_lines(line_state(text@.take(it.index() as int)).0),
            (ws.deep_view(), cur@) == word_state(line_state(text@.take(it.index() as int)).1),
    {
        let ghost pre = text@.take(it.index() as int);
        let ghost next = text@.take(it.index() + 1);
        assert(next.drop_last() =~= pre);
        assert(next.last() == c);
        let ghost open = line_state(pre).1;
        if c == '\n' {
            close_line(&mut out, &mut ws, &mut cur);
            let ghost ls = line_state(pre).0.push(open);
            assert(ls.drop_last() =~= line_state(pre).0);
        } else if char_is_space(c) {
            assert(open.push(c).drop_last() =~= open);
            close_open_word(&mut ws, &mut cur);
        } else {
            assert(open.push(c).drop_last() =~= open);
            cur.push(c);
        }
    }
    let ghost st = line_state(text@.take(text@.len() as int));
    assert(text@.take(text@.len() as int) =~= text@);
    close_line(&mut out, &mut ws, &mut cur);
    assert(lines(text@).drop_last() =~= st.0);
    out
}

} // verus!
