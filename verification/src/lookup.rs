use vstd::prelude::*;

use crate::bookmark::{display_view, Bookmark, BookmarkView};

verus! {

/// Index of the first bookmark whose display string equals `sel`, scanning
/// in list order.
pub open spec fn lookup_spec(bs: Seq<BookmarkView>, sel: Seq<char>) -> Option<int>
    decreases bs.len(),
{
    if bs.len() == 0 {
        None
    } else if display_view(bs.first()) == sel {
        Some(0)
    } else {
        match lookup_spec(bs.drop_first(), sel) {
            Some(i) => Some(i + 1),
            None => None,
        }
    }
}

/// An index that matches, before which nothing matches, is what the lookup
/// returns.
pub proof fn lemma_lookup_first_match(bs: Seq<BookmarkView>, sel: Seq<char>, i: int)
    requires
        0 <= i < bs.len(),
        display_view(bs[i]) == sel,
        forall|t: int| 0 <= t < i ==> display_view(bs[t]) != sel,
    ensures
        lookup_spec(bs, sel) == Some(i),
    decreases i,
{
    assert(bs.first() == bs[0]);
    if i > 0 {
        let rest = bs.drop_first();
        assert(rest[i - 1] == bs[i]);
        assert forall|t: int| 0 <= t < i - 1 implies display_view(rest[t]) != sel by {
            assert(rest[t] == bs[t + 1]);
        }
        lemma_lookup_first_match(rest, sel, i - 1);
    }
}

/// When no bookmark's display string equals `sel`, the lookup comes up
/// empty.
pub proof fn lemma_lookup_miss(bs: Seq<BookmarkView>, sel: Seq<char>)
    requires
        forall|t: int| 0 <= t < bs.len() ==> display_view(bs[t]) != sel,
    ensures
        lookup_spec(bs, sel) is None,
    decreases bs.len(),
{
    if bs.len() > 0 {
        assert(bs.first() == bs[0]);
        let rest = bs.drop_first();
        assert forall|t: int| 0 <= t < rest.len() implies display_view(rest[t]) != sel by {
            assert(rest[t] == bs[t + 1]);
        }
        lemma_lookup_miss(rest, sel);
    }
}

/// A found index is in range, matches, and nothing before it matches.
pub proof fn lemma_lookup_bounds(bs: Seq<BookmarkView>, sel: Seq<char>)
    ensures
        lookup_spec(bs, sel) matches Some(i) ==> 0 <= i < bs.len() && display_view(bs[i]) == sel
            && (forall|t: int| 0 <= t < i ==> display_view(bs[t]) != sel),
    decreases bs.len(),
{
    if bs.len() > 0 {
        assert(bs.first() == bs[0]);
        if display_view(bs.first()) != sel {
            let rest = bs.drop_first();
            lemma_lookup_bounds(rest, sel);
            if let Some(i) = lookup_spec(rest, sel) {
                assert(rest[i] == bs[i + 1]);
                assert forall|t: int| 0 <= t < i + 1 implies display_view(bs[t]) != sel by {
                    if t > 0 {
                        assert(rest[t - 1] == bs[t]);
                    }
                }
            }
        }
    }
}

/// Round-trip lookup: the display string of a bookmark, handed back as the
/// selection, locates exactly that bookmark — the first one in list order
/// that carries this display string.
pub proof fn lemma_round_trip_lookup(bs: Seq<BookmarkView>, i: int)
    requires
        0 <= i < bs.len(),
        forall|t: int| 0 <= t < i ==> display_view(bs[t]) != display_view(bs[i]),
    ensures
        lookup_spec(bs, display_view(bs[i])) == Some(i),
{
    lemma_lookup_first_match(bs, display_view(bs[i]), i);
}

/// Finds the first bookmark whose display string equals `selection`.
pub fn find_bookmark(bookmarks: &Vec<Bookmark>, selection: &str) -> (r: Option<usize>)
    ensures
        (match r {
            Some(i) => lookup_spec(bookmarks.deep_view(), selection@) == Some(i as int),
            None => lookup_spec(bookmarks.deep_view(), selection@) is None,
        }),
{
    let sel: String = selection.to_owned();
    let mut i: usize = 0;
    while i < bookmarks.len()
        invariant
            i <= bookmarks@.len(),
            sel@ == selection@,
            forall|t: int| 0 <= t < i ==> display_view(bookmarks.deep_view()[t]) != selection@,
        decreases bookmarks@.len() - i,
    {
        let d = bookmarks[i].to_rofi_string();
        proof {
            assert(bookmarks.deep_view()[i as int] == bookmarks@[i as int]@);
        }
        if d == sel {
            proof {
                lemma_lookup_first_match(bookmarks.deep_view(), selection@, i as int);
            }
            return Some(i);
        }
        i = i + 1;
    }
    proof {
        lemma_lookup_miss(bookmarks.deep_view(), selection@);
    }
    None
}

/// The list-mode output: the display string of every bookmark, one per
/// entry, in parse order.
pub fn display_lines(bookmarks: &Vec<Bookmark>) -> (r: Vec<String>)
    ensures
        r@.len() == bookmarks@.len(),
        forall|t: int| 0 <= t < r@.len() ==> r@[t]@ == display_view(bookmarks.deep_view()[t]),
{
    let mut r: Vec<String> = Vec::new();
    let mut i: usize = 0;
    while i < bookmarks.len()
        invariant
            i == r@.len(),
            i <= bookmarks@.len(),
            forall|t: int| 0 <= t < i ==> r@[t]@ == display_view(bookmarks.deep_view()[t]),
        decreases bookmarks@.len() - i,
    {
        let d = bookmarks[i].to_rofi_string();
        proof {
            assert(bookmarks.deep_view()[i as int] == bookmarks@[i as int]@);
        }
        r.push(d);
        i = i + 1;
    }
    r
}

/// What one run does after parsing: print the whole list, open one URL, or
/// report that the selection was not found.
pub enum Action {
    ShowList,
    Open(String),
    NotFound,
}

/// Decides the run from the parsed list and the optional selection: with no
/// selection the list is shown; with one, the first bookmark whose display
/// string equals it is opened; a selection that matches no display string is
/// reported as not found.
pub fn decide(bookmarks: &Vec<Bookmark>, selection: Option<&str>) -> (r: Action)
    ensures
        (match selection {
            None => r is ShowList,
            Some(sel) => (match lookup_spec(bookmarks.deep_view(), sel@) {
                Some(i) => r matches Action::Open(u) && u@ == bookmarks.deep_view()[i].url,
                None => r is NotFound,
            }),
        }),
{
    match selection {
        None => Action::ShowList,
        Some(sel) => match find_bookmark(bookmarks, sel) {
            Some(i) => {
                proof {
                    lemma_lookup_bounds(bookmarks.deep_view(), sel@);
                    assert(bookmarks.deep_view()[i as int] == bookmarks@[i as int]@);
                }
                Action::Open(bookmarks[i].url.clone())
            },
            None => Action::NotFound,
        },
    }
}

} // verus!
