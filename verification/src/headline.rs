//! Headline lines: what one line of an outline says.

use crate::text::{
    from_chars, is_tag_char, lemma_prefix_len, lemma_suffix_len, option_view, prefix_len, scan,
    scan_back, strings_view, suffix_len, to_chars, trim, trim_bounds, CharClass,
};
use vstd::prelude::*;
use vstd::slice::slice_subrange;

verus! {

/// What one headline line says, and where the line stands in the text: `start` is the
/// position of its first marker, `end` the position after its last character.
#[derive(Debug, PartialEq, Eq)]
pub struct HeadlineMatch {
    pub level: usize,
    pub keyword: Option<String>,
    pub priority: Option<char>,
    pub title: String,
    pub tags: Vec<String>,
    pub start: usize,
    pub end: usize,
}

pub struct MatchView {
    pub level: nat,
    pub keyword: Option<Seq<char>>,
    pub priority: Option<char>,
    pub title: Seq<char>,
    pub tags: Seq<Seq<char>>,
    pub start: nat,
    pub end: nat,
}

impl View for HeadlineMatch {
    type V = MatchView;

    open spec fn view(&self) -> MatchView {
        MatchView {
            level: self.level as nat,
            keyword: option_view(self.keyword),
            priority: self.priority,
            title: self.title@,
            tags: strings_view(self.tags@),
            start: self.start as nat,
            end: self.end as nat,
        }
    }
}

impl Clone for HeadlineMatch {
    fn clone(&self) -> (r: Self)
        ensures
            r@ == self@,
    {
        let keyword = match &self.keyword {
            Some(k) => Some(k.clone()),
            None => None,
        };
        let mut tags: Vec<String> = Vec::new();
        let mut i: usize = 0;
        while i < self.tags.len()
            invariant
                i <= self.tags.len(),
                tags@ == self.tags@.take(i as int),
            decreases self.tags.len() - i,
        {
            tags.push(self.tags[i].clone());
            assert(self.tags@.take(i as int).push(self.tags@[i as int]) =~= self.tags@.take(
                i + 1,
            ));
            i += 1;
        }
        assert(self.tags@.take(i as int) =~= self.tags@);
        HeadlineMatch {
            level: self.level,
            keyword,
            priority: self.priority,
            title: self.title.clone(),
            tags,
            start: self.start,
            end: self.end,
        }
    }
}

/// The views of a sequence of matches.
pub open spec fn match_views(v: Seq<HeadlineMatch>) -> Seq<MatchView> {
    Seq::new(v.len(), |i: int| v[i]@)
}

/// Whether `line` is a headline line: markers at its front, then a space.
pub open spec fn is_headline_line(line: Seq<char>) -> bool {
    let k = prefix_len(line, CharClass::Marker) as int;
    k >= 1 && k < line.len() && line[k] == ' '
}

/// What follows the markers and the space of a headline line.
pub open spec fn headline_body(line: Seq<char>) -> Seq<char> {
    line.skip(prefix_len(line, CharClass::Marker) as int + 1)
}

/// Whether `body` starts with a keyword and a priority cookie: a word, a space, a cookie
/// of the form `[#c]`, and a space.
pub open spec fn has_cookie(body: Seq<char>) -> bool {
    let t = prefix_len(body, CharClass::Solid) as int;
    &&& t >= 1
    &&& body.len() >= t + 6
    &&& body[t] == ' '
    &&& body[t + 1] == '['
    &&& body[t + 2] == '#'
    &&& body[t + 3] != '\n'
    &&& body[t + 4] == ']'
    &&& body[t + 5] == ' '
}

/// What follows the keyword and the cookie in `body`; all of `body` if it has none.
pub open spec fn after_cookie(body: Seq<char>) -> Seq<char> {
    if has_cookie(body) {
        body.skip(prefix_len(body, CharClass::Solid) as int + 6)
    } else {
        body
    }
}

/// Whether `s` is a block of tags: one or more tags, each between two colons.
pub open spec fn is_tag_block(s: Seq<char>) -> bool {
    &&& s.len() >= 3
    &&& s[0] == ':'
    &&& s.last() == ':'
    &&& forall|i: int| 0 <= i < s.len() ==> #[trigger] s[i] == ':' || is_tag_char(s[i])
    &&& forall|i: int| 0 <= i < s.len() - 1 ==> !(#[trigger] s[i] == ':' && s[i + 1] == ':')
}

/// The first position at or after `from` at which the rest of `s` is a block of tags;
/// the length of `s` if there is none.
pub open spec fn first_tag_block(s: Seq<char>, from: int) -> int
    decreases s.len() - from,
{
    if from >= s.len() {
        s.len() as int
    } else if is_tag_block(s.skip(from)) {
        from
    } else {
        first_tag_block(s, from + 1)
    }
}

/// Where the tags of a line start: the longest block of tags at the end of `s` starts
/// there; the length of `s` if no block of tags ends `s`.
pub open spec fn tags_start(s: Seq<char>) -> int {
    first_tag_block(s, 0)
}

/// The tags of a block of tags, in order.
pub open spec fn tag_tokens(block: Seq<char>) -> Seq<Seq<char>>
    decreases block.len(),
{
    if block.len() <= 1 {
        Seq::empty()
    } else {
        let body = block.drop_first();
        let n = prefix_len(body, CharClass::Tag) as int;
        proof {
            lemma_prefix_len(body, CharClass::Tag);
        }
        seq![body.take(n)] + tag_tokens(body.skip(n))
    }
}

/// What `line`, which starts at position `start` of its text, says as a headline line;
/// `None` if it is not one.
pub open spec fn line_match(line: Seq<char>, start: nat) -> Option<MatchView> {
    if is_headline_line(line) {
        let body = headline_body(line);
        let t = prefix_len(body, CharClass::Solid) as int;
        let rest = after_cookie(body);
        let p = tags_start(rest);
        Some(
            MatchView {
                level: prefix_len(line, CharClass::Marker),
                keyword: if has_cookie(body) {
                    Some(body.take(t))
                } else {
                    None
                },
                priority: if has_cookie(body) {
                    Some(body[t + 3])
                } else {
                    None
                },
                title: trim(rest.take(p)),
                tags: tag_tokens(rest.skip(p)),
                start,
                end: start + line.len(),
            },
        )
    } else {
        None
    }
}

/// The position of the first line break of `text` at or after `from`; the length of
/// `text` if there is none.
pub open spec fn line_end(text: Seq<char>, from: int) -> int {
    from + prefix_len(text.skip(from), CharClass::Inline)
}

/// The headline lines of `text` among the lines from the one that starts at `from`.
pub open spec fn matches_from(text: Seq<char>, from: int) -> Seq<MatchView>
    decreases text.len() - from,
{
    if from < 0 || from > text.len() {
        Seq::empty()
    } else {
        let end = line_end(text, from);
        let here = match line_match(text.subrange(from, end), from as nat) {
            Some(m) => seq![m],
            None => Seq::empty(),
        };
        if end < text.len() {
            here + matches_from(text, end + 1)
        } else {
            here
        }
    }
}

/// The headline lines of `text`, in document order.
pub open spec fn headline_matches(text: Seq<char>) -> Seq<MatchView> {
    matches_from(text, 0)
}

/// Whether the rest of `s` from `p` starts and ends with a colon and holds only tag
/// characters and colons, no two colons side by side.
spec fn tag_tail_at(s: Seq<char>, p: int) -> bool {
    &&& 0 <= p < s.len()
    &&& s[p] == ':'
    &&& s[s.len() - 1] == ':'
    &&& forall|i: int| p <= i < s.len() ==> #[trigger] s[i] == ':' || is_tag_char(s[i])
    &&& forall|i: int| p <= i < s.len() - 1 ==> !(#[trigger] s[i] == ':' && s[i + 1] == ':')
}

/// A block of tags from `p` is a tail of tags from `p` of three characters or more.
proof fn lemma_tag_tail(s: Seq<char>, p: int)
    requires
        0 <= p <= s.len(),
    ensures
        is_tag_block(s.skip(p)) <==> tag_tail_at(s, p) && s.len() - p >= 3,
{
    let b = s.skip(p);
    if is_tag_block(b) {
        assert(b[0] == s[p]);
        assert(b.last() == s[s.len() - 1]);
        assert forall|i: int| p <= i < s.len() implies #[trigger] s[i] == ':' || is_tag_char(
            s[i],
        ) by {
            assert(b[i - p] == s[i]);
        }
        assert forall|i: int| p <= i < s.len() - 1 implies !(#[trigger] s[i] == ':' && s[i + 1]
            == ':') by {
            assert(b[i - p] == s[i]);
            assert(b[i - p + 1] == s[i + 1]);
        }
    }
    if tag_tail_at(s, p) && s.len() - p >= 3 {
        assert forall|i: int| 0 <= i < b.len() implies #[trigger] b[i] == ':' || is_tag_char(
            b[i],
        ) by {
            assert(b[i] == s[p + i]);
        }
        assert forall|i: int| 0 <= i < b.len() - 1 implies !(#[trigger] b[i] == ':' && b[i + 1]
            == ':') by {
            assert(b[i] == s[p + i]);
            assert(b[i + 1] == s[p + i + 1]);
        }
    }
}

/// The first block of tags starts at `p` where one starts there and none before.
proof fn lemma_first_tag_block(s: Seq<char>, from: int, p: int)
    requires
        0 <= from <= p <= s.len(),
        forall|q: int| from <= q < p ==> !is_tag_block(#[trigger] s.skip(q)),
        p < s.len() ==> is_tag_block(s.skip(p)),
    ensures
        first_tag_block(s, from) == p,
    decreases p - from,
{
    if from < p {
        assert(!is_tag_block(s.skip(from)));
        lemma_first_tag_block(s, from + 1, p);
    }
}

/// Where the tags of `s` start.
pub fn find_tags(s: &[char]) -> (r: usize)
    ensures
        r == tags_start(s@),
        r <= s.len(),
{
    let n = s.len();
    if n == 0 || s[n - 1] != ':' {
        proof {
            assert forall|q: int| 0 <= q < n implies !is_tag_block(#[trigger] s@.skip(q)) by {
                lemma_tag_tail(s@, q);
            }
            lemma_first_tag_block(s@, 0, n as int);
        }
        return n;
    }
    let mut p: usize = n - 1;
    let mut j: usize = scan_back(s, p, CharClass::Tag);
    while j < p && j > 0 && s[j - 1] == ':'
        invariant
            n == s.len(),
            j <= p < n,
            tag_tail_at(s@, p as int),
            j == p - suffix_len(s@.take(p as int), CharClass::Tag),
        decreases p,
    {
        proof {
            lemma_suffix_len(s@.take(p as int), CharClass::Tag);
            assert forall|i: int| j <= i < p implies is_tag_char(#[trigger] s@[i]) by {
                assert(s@.take(p as int)[i] == s@[i]);
            }
        }
        p = j - 1;
        j = scan_back(s, p, CharClass::Tag);
    }
    proof {
        lemma_suffix_len(s@.take(p as int), CharClass::Tag);
        assert forall|i: int| j <= i < p implies is_tag_char(#[trigger] s@[i]) by {
            assert(s@.take(p as int)[i] == s@[i]);
        }
        if j > 0 {
            assert(s@.take(p as int)[j - 1] == s@[j - 1]);
            assert(!is_tag_char(s@[j - 1]));
        }
        assert forall|q: int| 0 <= q < p implies !is_tag_block(#[trigger] s@.skip(q)) by {
            lemma_tag_tail(s@, q);
            if tag_tail_at(s@, q) {
                if q >= j {
                    assert(is_tag_char(s@[q]));
                } else {
                    assert(s@[j - 1] == ':' || is_tag_char(s@[j - 1]));
                    assert(j == p);
                    assert(!(s@[p - 1] == ':' && s@[p - 1 + 1] == ':'));
                }
            }
        }
        lemma_tag_tail(s@, p as int);
        if p == n - 1 {
            assert forall|q: int| 0 <= q < n implies !is_tag_block(#[trigger] s@.skip(q)) by {
                lemma_tag_tail(s@, q);
            }
            lemma_first_tag_block(s@, 0, n as int);
        } else {
            if p == n - 2 {
                assert(!(s@[p as int] == ':' && s@[p + 1] == ':'));
            }
            lemma_first_tag_block(s@, 0, p as int);
        }
    }
    if p == n - 1 {
        n
    } else {
        p
    }
}

/// The tags of the block of tags that starts at `from` in `s`.
pub fn split_tags(s: &[char], from: usize) -> (r: Vec<String>)
    requires
        from <= s.len(),
    ensures
        strings_view(r@) == tag_tokens(s@.skip(from as int)),
{
    let n = s.len();
    let mut out: Vec<String> = Vec::new();
    let mut p: usize = from;
    assert(strings_view(out@) =~= Seq::empty());
    while n - p > 1
        invariant
            n == s.len(),
            from <= p <= n,
            strings_view(out@) + tag_tokens(s@.skip(p as int)) == tag_tokens(
                s@.skip(from as int),
            ),
        decreases n - p,
    {
        let e = scan(s, p + 1, CharClass::Tag);
        let tag = from_chars(s, p + 1, e);
        proof {
            let block = s@.skip(p as int);
            let body = block.drop_first();
            assert(body =~= s@.skip(p + 1));
            let k = prefix_len(body, CharClass::Tag) as int;
            assert(body.take(k) =~= s@.subrange(p + 1, e as int));
            assert(body.skip(k) =~= s@.skip(e as int));
            assert(strings_view(out@.push(tag)) =~= strings_view(out@).push(tag@));
            assert(strings_view(out@).push(tag@) + tag_tokens(s@.skip(e as int)) =~= strings_view(
                out@,
            ) + tag_tokens(block));
        }
        out.push(tag);
        p = e;
    }
    assert(strings_view(out@) + tag_tokens(s@.skip(p as int)) =~= strings_view(out@));
    out
}

/// What `line`, which starts at position `start` of its text, says as a headline line;
/// `None` if it is not one.
pub fn match_line(line: &[char], start: usize) -> (r: Option<HeadlineMatch>)
    requires
        start + line.len() <= usize::MAX,
    ensures
        match r {
            Some(m) => line_match(line@, start as nat) == Some(m@),
            None => line_match(line@, start as nat) is None,
        },
{
    let n = line.len();
    let k = scan(line, 0, CharClass::Marker);
    assert(line@.skip(0) =~= line@);
    if k == 0 || k >= n || line[k] != ' ' {
        return None;
    }
    let b = k + 1;
    let t = scan(line, b, CharClass::Solid);
    let ghost body = headline_body(line@);
    let ghost tr = prefix_len(body, CharClass::Solid) as int;
    assert(t == b + tr);
    let explicit = t > b && n - t >= 6 && line[t] == ' ' && line[t + 1] == '[' && line[t + 2]
        == '#' && line[t + 3] != '\n' && line[t + 4] == ']' && line[t + 5] == ' ';
    proof {
        if body.len() >= tr + 6 {
            assert(body[tr] == line@[t as int]);
            assert(body[tr + 1] == line@[t + 1]);
            assert(body[tr + 2] == line@[t + 2]);
            assert(body[tr + 3] == line@[t + 3]);
            assert(body[tr + 4] == line@[t + 4]);
            assert(body[tr + 5] == line@[t + 5]);
        }
        assert(explicit == has_cookie(body));
    }
    let mut keyword: Option<String> = None;
    let mut priority: Option<char> = None;
    let mut from: usize = b;
    if explicit {
        keyword = Some(from_chars(line, b, t));
        priority = Some(line[t + 3]);
        from = t + 6;
        assert(body.take(tr) =~= line@.subrange(b as int, t as int));
    }
    let rest = slice_subrange(line, from, n);
    assert(rest@ =~= after_cookie(body));
    let p = find_tags(rest);
    let bounds = trim_bounds(rest, 0, p);
    let title = from_chars(rest, bounds.0, bounds.1);
    assert(rest@.subrange(0, p as int) =~= rest@.take(p as int));
    let tags = split_tags(rest, p);
    Some(HeadlineMatch { level: k, keyword, priority, title, tags, start, end: start + n })
}

/// The headline lines of the text with the characters `s`, in document order.
pub fn match_chars(s: &[char]) -> (r: Vec<HeadlineMatch>)
    ensures
        match_views(r@) == headline_matches(s@),
{
    let n = s.len();
    let mut out: Vec<HeadlineMatch> = Vec::new();
    let mut pos: usize = 0;
    let mut done = false;
    assert(match_views(out@) =~= Seq::empty());
    while !done
        invariant
            n == s.len(),
            pos <= n,
            !done ==> match_views(out@) + matches_from(s@, pos as int) == headline_matches(s@),
            done ==> match_views(out@) == headline_matches(s@),
        decreases n - pos + if done { 0int } else { 1int },
    {
        let end = scan(s, pos, CharClass::Inline);
        let line = slice_subrange(s, pos, end);
        let ghost before = match_views(out@);
        match match_line(line, pos) {
            Some(m) => {
                assert(match_views(out@.push(m)) =~= before.push(m@));
                out.push(m);
            },
            None => {},
        }
        proof {
            let here = match line_match(s@.subrange(pos as int, end as int), pos as nat) {
                Some(m) => seq![m],
                None => Seq::empty(),
            };
            assert(match_views(out@) =~= before + here);
            if end < n {
                assert(before + (here + matches_from(s@, end + 1)) =~= (before + here)
                    + matches_from(s@, end + 1));
            }
        }
        if end < n {
            pos = end + 1;
        } else {
            done = true;
        }
    }
    out
}

/// The headline lines of `text`, in document order.
pub fn match_headlines(text: &str) -> (r: Vec<HeadlineMatch>)
    ensures
        match_views(r@) == headline_matches(text@),
{
    let chars = to_chars(text);
    match_chars(chars.as_slice())
}

} // verus!
