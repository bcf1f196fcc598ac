use vstd::prelude::*;

use crate::bookmark::{Bookmark, BookmarkView};
use crate::text::{
    find_char, find_title_end, is_space, is_space_char, lemma_find_char_bounds,
    lemma_find_char_none, lemma_find_char_some, lemma_find_title_end_none,
    lemma_find_title_end_some, lemma_skip_ws, lemma_skip_ws_props, lemma_trim_leading_space,
    skip_ws, title_break_at, trim_spec, trim_str,
};

verus! {

/// One line matched against the bookmark pattern: optional leading
/// whitespace, a `-`, optional whitespace, `[title]` with the title ending at
/// the first `](`, `(url)` with the url ending at the first `)`, and the rest
/// of the line as tags.  Every capture is trimmed.  A line that does not
/// match produces nothing.
pub open spec fn parse_line_spec(s: Seq<char>) -> Option<BookmarkView> {
    let a = skip_ws(s, 0);
    if a < s.len() && s[a] == '-' {
        let b = skip_ws(s, a + 1);
        if b < s.len() && s[b] == '[' {
            match find_title_end(s, b + 1) {
                Some(j) => match find_char(s, ')', j + 2) {
                    Some(k) => Some(
                        BookmarkView {
                            title: trim_spec(s.subrange(b + 1, j)),
                            url: trim_spec(s.subrange(j + 2, k)),
                            tags: trim_spec(s.subrange(k + 1, s.len() as int)),
                        },
                    ),
                    None => None,
                },
                None => None,
            }
        } else {
            None
        }
    } else {
        None
    }
}

/// Matches one line against the bookmark pattern.
pub fn parse_line(line: &str) -> (r: Option<Bookmark>)
    ensures
        r.deep_view() == parse_line_spec(line@),
{
    let n = line.unicode_len();
    let mut a: usize = 0;
    while a < n && is_space(line.get_char(a))
        invariant
            a <= n,
            n == line@.len(),
            forall|t: int| 0 <= t < a ==> is_space_char(line@[t]),
        decreases n - a,
    {
        a = a + 1;
    }
    proof {
        lemma_skip_ws(line@, 0, a as int);
    }
    if a >= n || line.get_char(a) != '-' {
        return None;
    }
    let mut b: usize = a + 1;
    while b < n && is_space(line.get_char(b))
        invariant
            a + 1 <= b <= n,
            n == line@.len(),
            forall|t: int| a + 1 <= t < b ==> is_space_char(line@[t]),
        decreases n - b,
    {
        b = b + 1;
    }
    proof {
        lemma_skip_ws(line@, a as int + 1, b as int);
    }
    if b >= n || line.get_char(b) != '[' {
        return None;
    }
    let mut j: usize = b + 1;
    while j < n && j + 1 < n && !(line.get_char(j) == ']' && line.get_char(j + 1) == '(')
        invariant
            b + 1 <= j <= n,
            n == line@.len(),
            forall|t: int| b + 1 <= t < j ==> !title_break_at(line@, t),
        decreases n - j,
    {
        j = j + 1;
    }
    if j >= n || j + 1 >= n {
        // a title break takes two characters, so none stands at or after j
        proof {
            lemma_find_title_end_none(line@, b as int + 1);
        }
        return None;
    }
    proof {
        lemma_find_title_end_some(line@, b as int + 1, j as int);
    }
    let mut k: usize = j + 2;
    while k < n && line.get_char(k) != ')'
        invariant
            j + 2 <= k <= n,
            n == line@.len(),
            forall|t: int| j + 2 <= t < k ==> line@[t] != ')',
        decreases n - k,
    {
        k = k + 1;
    }
    if k >= n {
        proof {
            lemma_find_char_none(line@, ')', j as int + 2);
        }
        return None;
    }
    proof {
        lemma_find_char_some(line@, ')', j as int + 2, k as int);
    }
    let title = trim_str(line.substring_char(b + 1, j));
    let url = trim_str(line.substring_char(j + 2, k));
    let tags = trim_str(line.substring_char(k + 1, n));
    Some(Bookmark { title, url, tags })
}

/// Parse completeness: a well-formed line `- [T](U) R` — a title `T` that
/// holds no `](` pair and a url `U` that holds no `)` — parses to exactly
/// the record `{ title: trim(T), url: trim(U), tags: trim(R) }`.
pub proof fn lemma_parse_well_formed_line(t: Seq<char>, u: Seq<char>, r: Seq<char>)
    requires
        forall|x: int| 0 <= x < t.len() - 1 ==> !(#[trigger] t[x] == ']' && t[x + 1] == '('),
        forall|x: int| 0 <= x < u.len() ==> u[x] != ')',
    ensures
        (parse_line_spec(seq!['-', ' ', '['] + t + seq![']', '('] + u + seq![')', ' '] + r)
            == Some(BookmarkView { title: trim_spec(t), url: trim_spec(u), tags: trim_spec(r) })),
{
    let s = seq!['-', ' ', '['] + t + seq![']', '('] + u + seq![')', ' '] + r;
    let tl = t.len() as int;
    let ul = u.len() as int;
    let rl = r.len() as int;
    assert(s.len() == 7 + tl + ul + rl);
    assert(s[0] == '-');
    assert(s[1] == ' ');
    assert(s[2] == '[');
    assert forall|x: int| 0 <= x < tl implies s[3 + x] == t[x] by {}
    assert(s[3 + tl] == ']');
    assert(s[4 + tl] == '(');
    assert forall|x: int| 0 <= x < ul implies s[5 + tl + x] == u[x] by {}
    assert(s[5 + tl + ul] == ')');
    assert(s[6 + tl + ul] == ' ');
    assert forall|x: int| 0 <= x < rl implies s[7 + tl + ul + x] == r[x] by {}
    lemma_skip_ws(s, 0, 0);
    lemma_skip_ws(s, 1, 2);
    assert(title_break_at(s, 3 + tl));
    assert forall|x: int| 3 <= x < 3 + tl implies !title_break_at(s, x) by {
        if s[x] == ']' && s[x + 1] == '(' {
            // inside the title both characters come from t, and at its last
            // position the next character is the closing bracket
            assert(x < 2 + tl);
        }
    }
    lemma_find_title_end_some(s, 3, 3 + tl);
    assert forall|x: int| 5 + tl <= x < 5 + tl + ul implies s[x] != ')' by {}
    lemma_find_char_some(s, ')', 5 + tl, 5 + tl + ul);
    assert(s.subrange(3, 3 + tl) =~= t);
    assert(s.subrange(5 + tl, 5 + tl + ul) =~= u);
    assert(s.subrange(6 + tl + ul, s.len() as int) =~= seq![' '] + r);
    lemma_trim_leading_space(' ', r);
}

/// Parse exclusion: a line in which no `]` stands immediately before a `(`
/// holds no link construct and produces no record.
pub proof fn lemma_parse_line_exclusion(s: Seq<char>)
    requires
        forall|x: int| 0 <= x < s.len() - 1 ==> !(#[trigger] s[x] == ']' && s[x + 1] == '('),
    ensures
        parse_line_spec(s) is None,
{
    lemma_skip_ws_props(s, 0);
    let a = skip_ws(s, 0);
    if a < s.len() && s[a] == '-' {
        lemma_skip_ws_props(s, a + 1);
        let b = skip_ws(s, a + 1);
        if b < s.len() && s[b] == '[' {
            assert forall|x: int| b + 1 <= x < s.len() implies !title_break_at(s, x) by {}
            lemma_find_title_end_none(s, b + 1);
        }
    }
}

/// A line with one carriage return before the line feed removed.
pub open spec fn strip_cr(s: Seq<char>) -> Seq<char> {
    if s.len() > 0 && s[s.len() - 1] == '\r' {
        s.subrange(0, s.len() - 1)
    } else {
        s
    }
}

/// `s` as a sequence of lines: split at each `\n`, a `\r` standing directly
/// before the `\n` removed, and no empty line after a final `\n`.
pub open spec fn split_lines(s: Seq<char>) -> Seq<Seq<char>>
    decreases s.len(),
    via split_lines_decreases
{
    if s.len() == 0 {
        Seq::empty()
    } else {
        match find_char(s, '\n', 0) {
            Some(i) => seq![strip_cr(s.subrange(0, i))] + split_lines(
                s.subrange(i + 1, s.len() as int),
            ),
            None => seq![s],
        }
    }
}

#[via_fn]
proof fn split_lines_decreases(s: Seq<char>) {
    if s.len() != 0 {
        lemma_find_char_bounds(s, '\n', 0);
    }
}

/// Every line matched against the bookmark pattern, the matches kept in line
/// order.
pub open spec fn parse_lines(lines: Seq<Seq<char>>) -> Seq<BookmarkView>
    decreases lines.len(),
{
    if lines.len() == 0 {
        Seq::empty()
    } else {
        (match parse_line_spec(lines.first()) {
            Some(b) => seq![b],
            None => Seq::empty(),
        }) + parse_lines(lines.drop_first())
    }
}

/// The full parse: the bookmark pattern applied to every line of `content`.
pub open spec fn parse_content(content: Seq<char>) -> Seq<BookmarkView> {
    parse_lines(split_lines(content))
}

/// Parsing distributes over taking off the first line.
proof fn lemma_parse_lines_cons(l: Seq<char>, rest: Seq<Seq<char>>)
    ensures
        parse_lines(seq![l] + rest) == (match parse_line_spec(l) {
            Some(b) => seq![b],
            None => Seq::empty(),
        }) + parse_lines(rest),
{
    let all = seq![l] + rest;
    assert(all.first() == l);
    assert(all.drop_first() =~= rest);
}

/// Records come out in line order: the records of a concatenation of line
/// sequences are the records of the first followed by those of the second.
pub proof fn lemma_parse_lines_append(a: Seq<Seq<char>>, b: Seq<Seq<char>>)
    ensures
        parse_lines(a + b) == parse_lines(a) + parse_lines(b),
    decreases a.len(),
{
    if a.len() == 0 {
        assert(a + b =~= b);
        assert(parse_lines(a) + parse_lines(b) =~= parse_lines(b));
    } else {
        assert((a + b).first() == a.first());
        assert((a + b).drop_first() =~= a.drop_first() + b);
        lemma_parse_lines_append(a.drop_first(), b);
        assert((match parse_line_spec(a.first()) {
            Some(x) => seq![x],
            None => Seq::empty(),
        }) + (parse_lines(a.drop_first()) + parse_lines(b)) =~= parse_lines(a) + parse_lines(b));
    }
}

/// A suffix that holds no line feed is one single line.
proof fn lemma_split_last_line(s: Seq<char>, pos: int)
    requires
        0 <= pos < s.len(),
        forall|t: int| pos <= t < s.len() ==> s[t] != '\n',
    ensures
        split_lines(s.subrange(pos, s.len() as int)) == seq![s.subrange(pos, s.len() as int)],
{
    let suf = s.subrange(pos, s.len() as int);
    assert forall|t: int| 0 <= t < suf.len() implies suf[t] != '\n' by {
        assert(suf[t] == s[pos + t]);
    }
    lemma_find_char_none(suf, '\n', 0);
}

/// Splitting off the first line: when the first line feed of `s[pos..]`
/// stands at `e`, the suffix starts with the line `s[pos..line_end]` and goes
/// on with the lines of `s[e+1..]`.
proof fn lemma_split_step(s: Seq<char>, pos: int, e: int, line_end: int)
    requires
        0 <= pos <= e < s.len(),
        s[e] == '\n',
        forall|t: int| pos <= t < e ==> s[t] != '\n',
        line_end == if e > pos && s[e - 1] == '\r' {
            e - 1
        } else {
            e
        },
    ensures
        split_lines(s.subrange(pos, s.len() as int)) == seq![s.subrange(pos, line_end)]
            + split_lines(s.subrange(e + 1, s.len() as int)),
{
    let len = s.len() as int;
    let suf = s.subrange(pos, len);
    assert(suf[e - pos] == '\n');
    assert forall|t: int| 0 <= t < e - pos implies suf[t] != '\n' by {
        assert(suf[t] == s[pos + t]);
    }
    lemma_find_char_some(suf, '\n', 0, e - pos);
    let raw = suf.subrange(0, e - pos);
    assert(raw =~= s.subrange(pos, e));
    assert(strip_cr(raw) =~= s.subrange(pos, line_end));
    assert(suf.subrange(e - pos + 1, suf.len() as int) =~= s.subrange(e + 1, len));
}

/// Parses a Markdown bookmark file: one record per line that matches the
/// bookmark pattern, in the order the lines appear.
pub fn parse_markdown(content: &str) -> (r: Vec<Bookmark>)
    ensures
        r.deep_view() == parse_content(content@),
{
    let n = content.unicode_len();
    let mut out: Vec<Bookmark> = Vec::new();
    let mut pos: usize = 0;
    proof {
        assert(content@.subrange(0, n as int) =~= content@);
    }
    while pos < n
        invariant
            pos <= n,
            n == content@.len(),
            out.deep_view() + parse_content(content@.subrange(pos as int, n as int))
                == parse_content(content@),
        decreases n - pos,
    {
        let ghost prev_out = out.deep_view();
        let mut e: usize = pos;
        while e < n && content.get_char(e) != '\n'
            invariant
                pos <= e <= n,
                n == content@.len(),
                forall|t: int| pos <= t < e ==> content@[t] != '\n',
            decreases n - e,
        {
            e = e + 1;
        }
        let line_end = if e < n && e > pos && content.get_char(e - 1) == '\r' {
            e - 1
        } else {
            e
        };
        let line = content.substring_char(pos, line_end);
        let ghost rest_lines = split_lines(content@.subrange(e + 1, n as int));
        proof {
            if e < n {
                lemma_split_step(content@, pos as int, e as int, line_end as int);
                lemma_parse_lines_cons(line@, rest_lines);
            } else {
                lemma_split_last_line(content@, pos as int);
                lemma_parse_lines_cons(line@, Seq::empty());
                assert(seq![line@] + Seq::<Seq<char>>::empty() =~= seq![line@]);
            }
        }
        match parse_line(line) {
            Some(b) => {
                out.push(b);
                proof {
                    assert(out.deep_view() =~= prev_out + seq![b.deep_view()]);
                }
            },
            None => {},
        }
        proof {
            if e < n {
                assert(prev_out + parse_content(content@.subrange(pos as int, n as int))
                    =~= out.deep_view() + parse_content(content@.subrange(e + 1, n as int)));
            } else {
                assert(parse_lines(Seq::empty()) =~= Seq::<BookmarkView>::empty());
                assert(prev_out + parse_content(content@.subrange(pos as int, n as int))
                    =~= out.deep_view());
            }
        }
        pos = if e < n {
            e + 1
        } else {
            n
        };
        proof {
            if pos == n {
                assert(content@.subrange(n as int, n as int) =~= Seq::<char>::empty());
                assert(out.deep_view() + parse_content(Seq::empty()) =~= out.deep_view());
            }
        }
    }
    proof {
        assert(content@.subrange(n as int, n as int) =~= Seq::<char>::empty());
        assert(out.deep_view() + parse_content(Seq::empty()) =~= out.deep_view());
    }
    out
}

} // verus!
