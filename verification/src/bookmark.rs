use vstd::prelude::*;

verus! {

/// Mathematical model of one parsed list entry: the three captured fields,
/// each already trimmed of surrounding whitespace.
pub ghost struct BookmarkView {
    pub title: Seq<char>,
    pub url: Seq<char>,
    pub tags: Seq<char>,
}

/// One parsed list entry: the link's label, its target, and the free text
/// that followed the link on the same line.
#[derive(Debug, PartialEq, Eq)]
pub struct Bookmark {
    pub title: String,
    pub url: String,
    pub tags: String,
}

impl View for Bookmark {
    type V = BookmarkView;

    open spec fn view(&self) -> BookmarkView {
        BookmarkView { title: self.title@, url: self.url@, tags: self.tags@ }
    }
}

impl DeepView for Bookmark {
    type V = BookmarkView;

    open spec fn deep_view(&self) -> BookmarkView {
        self.view()
    }
}

/// The display string of a bookmark: the title alone when there are no tags,
/// otherwise the title and the tags joined by a single space.  This string is
/// both what list mode prints and the only key by which a selection is matched
/// back to a bookmark.
pub open spec fn display_view(b: BookmarkView) -> Seq<char> {
    if b.tags.len() == 0 {
        b.title
    } else {
        b.title + seq![' '] + b.tags
    }
}

/// The display string is a pure function of title and tags: equal to the
/// title when the tags are empty, else title, one space, tags.
pub proof fn lemma_display_derivation(b: BookmarkView)
    ensures
        b.tags.len() == 0 ==> display_view(b) == b.title,
        b.tags.len() != 0 ==> display_view(b) == b.title + seq![' '] + b.tags,
{
}

impl Bookmark {
    /// The line handed to (and matched against) the selector for this
    /// bookmark.
    pub fn to_rofi_string(&self) -> (r: String)
        ensures
            r@ == display_view(self@),
    {
        if self.tags.as_str().is_empty() {
            self.title.clone()
        } else {
            proof {
                reveal_strlit(" ");
            }
            let r = self.title.clone().concat(" ").concat(self.tags.as_str());
            proof {
                assert(r@ =~= display_view(self@));
            }
            r
        }
    }
}

} // verus!
