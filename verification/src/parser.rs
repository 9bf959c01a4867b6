//! Parsing a text into a document.

use crate::document::{Document, DocumentView};
use crate::headline::{headline_matches, match_chars, match_views, HeadlineMatch};
use crate::keyword::{resolve, resolved_all};
use crate::text::{strings_view, to_chars};
use crate::tree::{build, document_of};
use vstd::prelude::*;

verus! {

/// The document of `text`, with `keywords` as the recognized keywords: its headline
/// lines, each with its keyword settled, nested by their levels.
pub open spec fn parsed(text: Seq<char>, keywords: Seq<Seq<char>>) -> DocumentView {
    document_of(resolved_all(headline_matches(text), keywords), text.len())
}

/// A parser of outline documents. It holds the recognized keywords: a title that starts
/// with one of them gives it up as the headline's keyword.
pub struct DocumentParser {
    todo_keywords: Vec<String>,
}

impl View for DocumentParser {
    type V = Seq<Seq<char>>;

    closed spec fn view(&self) -> Seq<Seq<char>> {
        strings_view(self.todo_keywords@)
    }
}

impl DocumentParser {
    /// The recognized keywords, as the strings they are held in.
    pub closed spec fn keywords(&self) -> Seq<String> {
        self.todo_keywords@
    }

    /// A parser that recognizes no keyword.
    pub fn new() -> (r: Self)
        ensures
            r@ == Seq::<Seq<char>>::empty(),
            r.keywords() == Seq::<String>::empty(),
    {
        let r = DocumentParser { todo_keywords: Vec::new() };
        assert(r@ =~= Seq::empty());
        r
    }

    /// The parser with `keywords` as its recognized keywords, in their order, in place
    /// of those it had.
    pub fn todo_keywords<S: Into<String>>(self, keywords: Vec<S>) -> (r: Self)
        ensures
            r@ == strings_view(r.keywords()),
            r.keywords().len() == keywords.len(),
            forall|i: int|
                0 <= i < keywords.len() ==> call_ensures(
                    S::into,
                    (keywords[i],),
                    #[trigger] r.keywords()[i],
                ),
    {
        let mut out: Vec<String> = Vec::new();
        for s in it: keywords
            invariant
                it.seq() == keywords@,
                out.len() == it.index(),
                forall|i: int|
                    0 <= i < out.len() ==> call_ensures(S::into, (keywords[i],), #[trigger] out[i]),
        {
            let word: String = s.into();
            out.push(word);
        }
        DocumentParser { todo_keywords: out }
    }

    /// Parses `text`. Every text is a document: a line that is no headline line is
    /// section content. The document depends on the text and the recognized keywords
    /// alone.
    pub fn parse(&self, text: &str) -> (r: Result<Document, ()>)
        ensures
            r is Ok,
            r->Ok_0@ == parsed(text@, self@),
    {
        let chars = to_chars(text);
        let matches = match_chars(chars.as_slice());
        let ghost raw = match_views(matches@);
        let mut settled: Vec<HeadlineMatch> = Vec::new();
        assert(match_views(settled@) =~= resolved_all(raw.take(0), self@));
        for m in it: matches
            invariant
                it.seq() == matches@,
                raw == match_views(matches@),
                match_views(settled@) == resolved_all(raw.take(it.index()), self@),
        {
            let ghost before = match_views(settled@);
            let done = resolve(m, &self.todo_keywords);
            assert(match_views(settled@.push(done)) =~= before.push(done@));
            assert(before.push(done@) =~= resolved_all(raw.take(it.index() + 1), self@));
            settled.push(done);
        }
        assert(raw.take(raw.len() as int) =~= raw);
        Ok(build(settled, chars.len()))
    }
}

} // verus!
