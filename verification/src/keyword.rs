//! Keywords that a headline line does not mark out itself: a title may start with one.

use crate::headline::{HeadlineMatch, MatchView};
use crate::text::{
    from_chars, is_whitespace, scan, strings_view, to_chars, trim_start, CharClass, class_has,
};
use vstd::prelude::*;

verus! {

/// Whether `title` starts with `keyword` as a word of its own: the keyword ends where the
/// title ends, or whitespace follows it.
pub open spec fn keyword_fits(title: Seq<char>, keyword: Seq<char>) -> bool {
    &&& keyword.len() <= title.len()
    &&& title.take(keyword.len() as int) == keyword
    &&& (keyword.len() == title.len() || is_whitespace(title[keyword.len() as int]))
}

/// The index of the first keyword at or after `from` that fits `title`; the number of
/// keywords if none does.
pub open spec fn first_fit(title: Seq<char>, keywords: Seq<Seq<char>>, from: int) -> int
    decreases keywords.len() - from,
{
    if from < 0 || from >= keywords.len() {
        keywords.len() as int
    } else if keyword_fits(title, keywords[from]) {
        from
    } else {
        first_fit(title, keywords, from + 1)
    }
}

/// The first keyword that fits is in the list and fits, and no keyword before it does.
pub proof fn lemma_first_fit(title: Seq<char>, keywords: Seq<Seq<char>>, from: int)
    requires
        0 <= from <= keywords.len(),
    ensures
        from <= first_fit(title, keywords, from) <= keywords.len(),
        first_fit(title, keywords, from) < keywords.len() ==> keyword_fits(
            title,
            keywords[first_fit(title, keywords, from)],
        ),
        forall|q: int|
            from <= q < first_fit(title, keywords, from) ==> !keyword_fits(
                title,
                #[trigger] keywords[q],
            ),
    decreases keywords.len() - from,
{
    if from < keywords.len() && !keyword_fits(title, keywords[from]) {
        lemma_first_fit(title, keywords, from + 1);
    }
}

/// The match with its keyword settled. A keyword that the line marks out stays, and the
/// match with it. Otherwise the first of `keywords` that fits the title becomes the
/// keyword, and the title loses it and the whitespace after it.
pub open spec fn resolved(m: MatchView, keywords: Seq<Seq<char>>) -> MatchView {
    let i = first_fit(m.title, keywords, 0);
    if m.keyword is Some || i >= keywords.len() {
        m
    } else {
        MatchView {
            keyword: Some(keywords[i]),
            title: trim_start(m.title.skip(keywords[i].len() as int)),
            ..m
        }
    }
}

/// Every match of `matches` with its keyword settled.
pub open spec fn resolved_all(matches: Seq<MatchView>, keywords: Seq<Seq<char>>) -> Seq<
    MatchView,
> {
    Seq::new(matches.len(), |i: int| resolved(matches[i], keywords))
}

/// Whether `title` starts with `keyword` as a word of its own.
pub fn fits(title: &[char], keyword: &[char]) -> (r: bool)
    ensures
        r == keyword_fits(title@, keyword@),
{
    let k = keyword.len();
    if k > title.len() {
        return false;
    }
    let mut i: usize = 0;
    while i < k
        invariant
            i <= k <= title.len(),
            k == keyword.len(),
            forall|j: int| 0 <= j < i ==> title@[j] == keyword@[j],
        decreases k - i,
    {
        if title[i] != keyword[i] {
            assert(title@.take(k as int)[i as int] != keyword@[i as int]);
            return false;
        }
        i += 1;
    }
    assert(title@.take(k as int) =~= keyword@);
    k == title.len() || class_has(title[k], CharClass::Blank)
}

/// Settles the keyword of `raw` by the recognized `keywords`, tried in their order.
pub fn resolve(raw: HeadlineMatch, keywords: &Vec<String>) -> (r: HeadlineMatch)
    ensures
        r@ == resolved(raw@, strings_view(keywords@)),
        raw@.keyword is Some ==> r@ == raw@,
{
    if raw.keyword.is_some() {
        return raw;
    }
    let ghost ks = strings_view(keywords@);
    let title = to_chars(raw.title.as_str());
    let mut i: usize = 0;
    while i < keywords.len()
        invariant
            i <= keywords.len(),
            ks == strings_view(keywords@),
            raw.keyword is None,
            title@ == raw@.title,
            first_fit(title@, ks, 0) == first_fit(title@, ks, i as int),
        decreases keywords.len() - i,
    {
        let word = to_chars(keywords[i].as_str());
        assert(ks[i as int] == word@);
        if fits(title.as_slice(), word.as_slice()) {
            let from = scan(title.as_slice(), word.len(), CharClass::Blank);
            let rest = from_chars(title.as_slice(), from, title.len());
            assert(title@.subrange(from as int, title@.len() as int) =~= trim_start(
                title@.skip(word@.len() as int),
            ));
            return HeadlineMatch {
                level: raw.level,
                keyword: Some(keywords[i].clone()),
                priority: raw.priority,
                title: rest,
                tags: raw.tags,
                start: raw.start,
                end: raw.end,
            };
        }
        i += 1;
    }
    raw
}

} // verus!
