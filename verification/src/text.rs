use vstd::prelude::*;

verus! {

/// The whitespace characters recognised when skipping and trimming: the
/// Unicode White_Space set, the same set that `char::is_whitespace` and the
/// usual pattern class `\s` accept.
pub open spec fn is_space_char(c: char) -> bool {
    c == ' ' || c == '\t' || c == '\n' || c == '\r' || c == '\u{0B}' || c == '\u{0C}'
        || c == '\u{85}' || c == '\u{A0}' || c == '\u{1680}' || c == '\u{2000}' || c == '\u{2001}'
        || c == '\u{2002}' || c == '\u{2003}' || c == '\u{2004}' || c == '\u{2005}'
        || c == '\u{2006}' || c == '\u{2007}' || c == '\u{2008}' || c == '\u{2009}'
        || c == '\u{200A}' || c == '\u{2028}' || c == '\u{2029}' || c == '\u{202F}'
        || c == '\u{205F}' || c == '\u{3000}'
}

/// Decides `is_space_char`.
pub fn is_space(c: char) -> (r: bool)
    ensures
        r == is_space_char(c),
{
    c == ' ' || c == '\t' || c == '\n' || c == '\r' || c == '\u{0B}' || c == '\u{0C}'
        || c == '\u{85}' || c == '\u{A0}' || c == '\u{1680}' || c == '\u{2000}' || c == '\u{2001}'
        || c == '\u{2002}' || c == '\u{2003}' || c == '\u{2004}' || c == '\u{2005}'
        || c == '\u{2006}' || c == '\u{2007}' || c == '\u{2008}' || c == '\u{2009}'
        || c == '\u{200A}' || c == '\u{2028}' || c == '\u{2029}' || c == '\u{202F}'
        || c == '\u{205F}' || c == '\u{3000}'
}

/// First index at or after `from` whose character is not whitespace, or the
/// length of `s` when everything from `from` on is whitespace.
pub open spec fn skip_ws(s: Seq<char>, from: int) -> int
    decreases s.len() - from,
{
    if from < 0 || from >= s.len() {
        from
    } else if is_space_char(s[from]) {
        skip_ws(s, from + 1)
    } else {
        from
    }
}

/// `skip_ws(s, from)` is exactly the index `i` bounding the whitespace run
/// that starts at `from`.
pub proof fn lemma_skip_ws(s: Seq<char>, from: int, i: int)
    requires
        0 <= from <= i <= s.len(),
        forall|t: int| from <= t < i ==> is_space_char(s[t]),
        i == s.len() || !is_space_char(s[i]),
    ensures
        skip_ws(s, from) == i,
    decreases i - from,
{
    if from < i {
        lemma_skip_ws(s, from + 1, i);
    }
}

/// Last index `i` at or before `upto` such that every character in
/// `[i, upto)` is whitespace and the one before `i`, if any, is not.
pub open spec fn rskip_ws(s: Seq<char>, upto: int) -> int
    decreases upto,
{
    if upto <= 0 || upto > s.len() {
        upto
    } else if is_space_char(s[upto - 1]) {
        rskip_ws(s, upto - 1)
    } else {
        upto
    }
}

/// `rskip_ws(s, upto)` is exactly the index `i` bounding the whitespace run
/// that ends at `upto`.
pub proof fn lemma_rskip_ws(s: Seq<char>, upto: int, i: int)
    requires
        0 <= i <= upto <= s.len(),
        forall|t: int| i <= t < upto ==> is_space_char(s[t]),
        i == 0 || !is_space_char(s[i - 1]),
    ensures
        rskip_ws(s, upto) == i,
    decreases upto - i,
{
    if i < upto {
        lemma_rskip_ws(s, upto - 1, i);
    }
}

/// What `skip_ws` returns: the bound of the whitespace run that starts at
/// `from`.
pub proof fn lemma_skip_ws_props(s: Seq<char>, from: int)
    requires
        0 <= from <= s.len(),
    ensures
        from <= skip_ws(s, from) <= s.len(),
        forall|t: int| from <= t < skip_ws(s, from) ==> is_space_char(s[t]),
        skip_ws(s, from) == s.len() || !is_space_char(s[skip_ws(s, from)]),
    decreases s.len() - from,
{
    if from < s.len() && is_space_char(s[from]) {
        lemma_skip_ws_props(s, from + 1);
    }
}

/// What `rskip_ws` returns: the bound of the whitespace run that ends at
/// `upto`.
pub proof fn lemma_rskip_ws_props(s: Seq<char>, upto: int)
    requires
        0 <= upto <= s.len(),
    ensures
        0 <= rskip_ws(s, upto) <= upto,
        forall|t: int| rskip_ws(s, upto) <= t < upto ==> is_space_char(s[t]),
        rskip_ws(s, upto) == 0 || !is_space_char(s[rskip_ws(s, upto) - 1]),
    decreases upto,
{
    if 0 < upto <= s.len() && is_space_char(s[upto - 1]) {
        lemma_rskip_ws_props(s, upto - 1);
    }
}

/// `s` without its leading and trailing whitespace.
pub open spec fn trim_spec(s: Seq<char>) -> Seq<char> {
    let lo = skip_ws(s, 0);
    let hi = rskip_ws(s, s.len() as int);
    if lo <= hi {
        s.subrange(lo, hi)
    } else {
        Seq::empty()
    }
}

/// Trimming ignores one leading whitespace character.
pub proof fn lemma_trim_leading_space(c: char, s: Seq<char>)
    requires
        is_space_char(c),
    ensures
        trim_spec(seq![c] + s) == trim_spec(s),
{
    let e = seq![c] + s;
    let len = s.len() as int;
    lemma_skip_ws_props(s, 0);
    lemma_rskip_ws_props(s, len);
    let lo = skip_ws(s, 0);
    let hi = rskip_ws(s, len);
    lemma_skip_ws(e, 0, lo + 1);
    if hi > 0 {
        lemma_rskip_ws(e, len + 1, hi + 1);
        // s[hi - 1] is not whitespace, so the first whitespace run cannot
        // pass it
        assert(lo <= hi - 1);
        assert(e.subrange(lo + 1, hi + 1) =~= s.subrange(lo, hi));
    } else {
        // everything in s below upto is whitespace, and c is too
        lemma_rskip_ws(e, len + 1, 0);
        if lo <= hi {
            assert(s.subrange(lo, hi) =~= Seq::<char>::empty());
        }
    }
}

/// Index of the first occurrence of `c` in `s` at or after `from`.
pub open spec fn find_char(s: Seq<char>, c: char, from: int) -> Option<int>
    decreases s.len() - from,
{
    if from < 0 || from >= s.len() {
        None
    } else if s[from] == c {
        Some(from)
    } else {
        find_char(s, c, from + 1)
    }
}

pub proof fn lemma_find_char_some(s: Seq<char>, c: char, from: int, i: int)
    requires
        0 <= from <= i < s.len(),
        s[i] == c,
        forall|t: int| from <= t < i ==> s[t] != c,
    ensures
        find_char(s, c, from) == Some(i),
    decreases i - from,
{
    if from < i {
        lemma_find_char_some(s, c, from + 1, i);
    }
}

/// A found index lies between `from` and the end, and carries `c`.
pub proof fn lemma_find_char_bounds(s: Seq<char>, c: char, from: int)
    requires
        0 <= from,
    ensures
        find_char(s, c, from) matches Some(i) ==> from <= i < s.len() && s[i] == c,
    decreases s.len() - from,
{
    if from < s.len() && s[from] != c {
        lemma_find_char_bounds(s, c, from + 1);
    }
}

pub proof fn lemma_find_char_none(s: Seq<char>, c: char, from: int)
    requires
        0 <= from,
        forall|t: int| from <= t < s.len() ==> s[t] != c,
    ensures
        find_char(s, c, from) is None,
    decreases s.len() - from,
{
    if from < s.len() {
        lemma_find_char_none(s, c, from + 1);
    }
}

/// A `]` immediately followed by a `(` stands at index `j`: the earliest such
/// position ends a lazily matched title capture.
pub open spec fn title_break_at(s: Seq<char>, j: int) -> bool {
    0 <= j < s.len() && s[j] == ']' && j + 1 < s.len() && s[j + 1] == '('
}

/// Index of the first title break in `s` at or after `from`.
pub open spec fn find_title_end(s: Seq<char>, from: int) -> Option<int>
    decreases s.len() - from,
{
    if from < 0 || from >= s.len() {
        None
    } else if title_break_at(s, from) {
        Some(from)
    } else {
        find_title_end(s, from + 1)
    }
}

pub proof fn lemma_find_title_end_some(s: Seq<char>, from: int, j: int)
    requires
        0 <= from <= j < s.len(),
        title_break_at(s, j),
        forall|t: int| from <= t < j ==> !title_break_at(s, t),
    ensures
        find_title_end(s, from) == Some(j),
    decreases j - from,
{
    if from < j {
        lemma_find_title_end_some(s, from + 1, j);
    }
}

pub proof fn lemma_find_title_end_none(s: Seq<char>, from: int)
    requires
        0 <= from,
        forall|t: int| from <= t < s.len() ==> !title_break_at(s, t),
    ensures
        find_title_end(s, from) is None,
    decreases s.len() - from,
{
    if from < s.len() {
        lemma_find_title_end_none(s, from + 1);
    }
}

/// Copies `s` without its leading and trailing whitespace.
pub fn trim_str(s: &str) -> (r: String)
    ensures
        r@ == trim_spec(s@),
{
    let n = s.unicode_len();
    let mut lo: usize = 0;
    while lo < n && is_space(s.get_char(lo))
        invariant
            lo <= n,
            n == s@.len(),
            forall|t: int| 0 <= t < lo ==> is_space_char(s@[t]),
        decreases n - lo,
    {
        lo = lo + 1;
    }
    let mut hi: usize = n;
    while hi > lo && is_space(s.get_char(hi - 1))
        invariant
            lo <= hi <= n,
            n == s@.len(),
            forall|t: int| hi <= t < n ==> is_space_char(s@[t]),
        decreases hi,
    {
        hi = hi - 1;
    }
    proof {
        lemma_skip_ws(s@, 0, lo as int);
        if hi > lo {
            lemma_rskip_ws(s@, n as int, hi as int);
        } else {
            // hi == lo: everything before lo and everything from hi on is
            // whitespace, so the whole string is whitespace
            lemma_rskip_ws(s@, n as int, 0);
        }
    }
    let r = s.substring_char(lo, hi).to_owned();
    proof {
        assert(r@ =~= trim_spec(s@));
    }
    r
}

} // verus!
