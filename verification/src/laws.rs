//! What holds of every document: the order of its headlines, where each headline hangs,
//! and how its headlines lie in the text.

use crate::document::{bare_section, HeadlineView};
use crate::headline::{
    after_cookie, first_tag_block, headline_body, headline_matches, is_headline_line,
    is_tag_block, line_end, line_match, matches_from, tag_tokens, tags_start, MatchView,
};
use crate::keyword::{first_fit, lemma_first_fit, resolved, resolved_all};
use crate::parser::parsed;
use crate::text::{
    is_whitespace, is_tag_char, lemma_prefix_len, lemma_prefix_len_is, lemma_suffix_len, prefix_len,
    suffix_len, trim, trim_end, trim_start, CharClass,
};
use crate::tree::{
    after_line, deeper_run, forest_of, leaves_of, lemma_deeper_run_bound, lemma_forest_len,
};
use vstd::prelude::*;

verus! {

/// The headlines of a forest in document order, each without its children: a headline
/// comes before its children, and these before the headlines after it.
pub open spec fn flatten(f: Seq<HeadlineView>) -> Seq<HeadlineView>
    decreases f,
{
    if f.len() == 0 {
        Seq::empty()
    } else {
        seq![f[0].alone()] + flatten(f[0].children) + flatten(f.drop_first())
    }
}

/// For each headline of a forest, in document order, the position of its parent in that
/// order, counted from `base`; `up` for a root.
pub open spec fn parents(f: Seq<HeadlineView>, base: int, up: int) -> Seq<int>
    decreases f,
{
    if f.len() == 0 {
        Seq::empty()
    } else {
        seq![up] + parents(f[0].children, base + 1, base) + parents(
            f.drop_first(),
            base + 1 + flatten(f[0].children).len(),
            up,
        )
    }
}

/// Every headline of `s` without its children.
pub open spec fn alone_all(s: Seq<HeadlineView>) -> Seq<HeadlineView> {
    Seq::new(s.len(), |i: int| s[i].alone())
}

/// Whether `p` is the nearest position before `i` at which `s` has a shallower headline
/// than at `i`, or -1 where no headline before `i` is shallower.
pub open spec fn is_nearest_shallower(s: Seq<HeadlineView>, i: int, p: int) -> bool {
    &&& -1 <= p < i
    &&& p >= 0 ==> s[p].level < s[i].level
    &&& forall|j: int| p < j < i ==> (#[trigger] s[j]).level >= s[i].level
}

/// The run of deeper headlines at the front of `t` holds deeper headlines only and ends
/// where `t` ends or a headline is not deeper.
proof fn lemma_deeper_run(t: Seq<HeadlineView>, level: nat)
    ensures
        deeper_run(t, level) <= t.len(),
        forall|j: int| 0 <= j < deeper_run(t, level) ==> (#[trigger] t[j]).level > level,
        deeper_run(t, level) < t.len() ==> t[deeper_run(t, level) as int].level <= level,
    decreases t.len(),
{
    if t.len() > 0 && t[0].level > level {
        let u = t.drop_first();
        lemma_deeper_run(u, level);
        assert forall|j: int| 0 <= j < deeper_run(t, level) implies (#[trigger] t[j]).level
            > level by {
            if j > 0 {
                assert(t[j] == u[j - 1]);
            }
        }
    }
}

/// Read in document order, a forest gives back the headlines it was made of.
pub proof fn lemma_forest_order(s: Seq<HeadlineView>)
    ensures
        flatten(forest_of(s)) == alone_all(s),
    decreases s.len(),
{
    if s.len() > 0 {
        let n = deeper_run(s.drop_first(), s[0].level) as int;
        lemma_deeper_run_bound(s.drop_first(), s[0].level);
        let run = s.subrange(1, 1 + n);
        let rest = s.skip(1 + n);
        lemma_forest_order(run);
        lemma_forest_order(rest);
        let root = s[0].with_children(forest_of(run));
        let f = forest_of(s);
        assert(f[0] == root);
        assert(f.drop_first() =~= forest_of(rest));
        assert(flatten(f) =~= alone_all(s));
    } else {
        assert(flatten(forest_of(s)) =~= alone_all(s));
    }
}

/// Whether `q` is the right parent for the `i`-th headline of `s`, where positions count
/// from `base` and `up` stands for what lies above `s`.
spec fn parent_fits(s: Seq<HeadlineView>, i: int, q: int, base: int, up: int) -> bool {
    ||| q == up && forall|j: int| 0 <= j < i ==> (#[trigger] s[j]).level >= s[i].level
    ||| {
        &&& base <= q < base + i
        &&& s[q - base].level < s[i].level
        &&& forall|j: int| q - base < j < i ==> (#[trigger] s[j]).level >= s[i].level
    }
}

/// Every headline of a forest has the parent that fits it, wherever the count starts.
proof fn lemma_parents_from(s: Seq<HeadlineView>, base: int, up: int)
    requires
        up < base,
    ensures
        parents(forest_of(s), base, up).len() == s.len(),
        forall|i: int|
            0 <= i < s.len() ==> parent_fits(
                s,
                i,
                #[trigger] parents(forest_of(s), base, up)[i],
                base,
                up,
            ),
    decreases s.len(),
{
    if s.len() > 0 {
        let t = s.drop_first();
        let n = deeper_run(t, s[0].level) as int;
        lemma_deeper_run(t, s[0].level);
        let run = s.subrange(1, 1 + n);
        let rest = s.skip(1 + n);
        let root = s[0].with_children(forest_of(run));
        let f = forest_of(s);
        assert(f[0] == root);
        assert(f.drop_first() =~= forest_of(rest));
        lemma_forest_order(run);
        let base2 = base + 1 + n;
        lemma_parents_from(run, base + 1, base);
        lemma_parents_from(rest, base2, up);
        let below = parents(forest_of(run), base + 1, base);
        let after = parents(forest_of(rest), base2, up);
        let ps = parents(f, base, up);
        assert(ps == seq![up] + below + after);
        assert forall|i: int| 0 <= i < s.len() implies parent_fits(
            s,
            i,
            #[trigger] ps[i],
            base,
            up,
        ) by {
            if i == 0 {
            } else if i <= n {
                let q = below[i - 1];
                assert(ps[i] == q);
                assert(parent_fits(run, i - 1, q, base + 1, base));
                assert(run[i - 1] == s[i]);
                assert(t[i - 1] == s[i]);
                if q == base {
                    assert forall|j: int| 0 < j < i implies (#[trigger] s[j]).level
                        >= s[i].level by {
                        assert(run[j - 1] == s[j]);
                    }
                } else {
                    assert(run[q - base - 1] == s[q - base]);
                    assert forall|j: int| q - base < j < i implies (#[trigger] s[j]).level
                        >= s[i].level by {
                        assert(run[j - 1] == s[j]);
                    }
                }
            } else {
                let k = i - 1 - n;
                let q = after[k];
                assert(ps[i] == q);
                assert(parent_fits(rest, k, q, base2, up));
                assert(rest[k] == s[i]);
                assert(rest[0] == t[n]);
                if q == up {
                    assert forall|j: int| 0 <= j < i implies (#[trigger] s[j]).level
                        >= s[i].level by {
                        if j > n {
                            assert(rest[j - 1 - n] == s[j]);
                        } else {
                            if j > 0 {
                                assert(t[j - 1] == s[j]);
                            }
                            if k > 0 {
                                assert(rest[0].level >= rest[k].level);
                            }
                        }
                    }
                } else {
                    assert(rest[q - base2] == s[q - base]);
                    assert forall|j: int| q - base < j < i implies (#[trigger] s[j]).level
                        >= s[i].level by {
                        assert(rest[j - 1 - n] == s[j]);
                    }
                }
            }
        }
    }
}

/// Every headline hangs below the nearest headline before it that is shallower, and is a
/// root where no headline before it is shallower. So a child always lies deeper than its
/// parent.
pub proof fn lemma_parent_is_nearest_shallower(s: Seq<HeadlineView>)
    ensures
        parents(forest_of(s), 0, -1).len() == s.len(),
        forall|i: int|
            0 <= i < s.len() ==> is_nearest_shallower(
                s,
                i,
                #[trigger] parents(forest_of(s), 0, -1)[i],
            ),
{
    lemma_parents_from(s, 0, -1);
    let ps = parents(forest_of(s), 0, -1);
    assert forall|i: int| 0 <= i < s.len() implies is_nearest_shallower(s, i, #[trigger] ps[i]) by {
        assert(parent_fits(s, i, ps[i], 0, -1));
    }
}

/// Where no headline before the parent of the `i`-th headline lies between the two in
/// level, the parent's level is the largest level below that of the `i`-th headline among
/// all headlines before it.
pub proof fn lemma_parent_level_is_largest(s: Seq<HeadlineView>, i: int)
    requires
        0 <= i < s.len(),
        parents(forest_of(s), 0, -1)[i] >= 0,
        forall|j: int|
            0 <= j < parents(forest_of(s), 0, -1)[i] ==> !(s[parents(forest_of(s), 0, -1)[i]].level
                < (#[trigger] s[j]).level < s[i].level),
    ensures
        0 <= parents(forest_of(s), 0, -1)[i] < i,
        s[parents(forest_of(s), 0, -1)[i]].level < s[i].level,
        forall|j: int|
            0 <= j < i && (#[trigger] s[j]).level < s[i].level ==> s[j].level
                <= s[parents(forest_of(s), 0, -1)[i]].level,
{
    lemma_parent_is_nearest_shallower(s);
    let p = parents(forest_of(s), 0, -1)[i];
    assert(is_nearest_shallower(s, i, p));
}

/// Whether every headline of the forest lies above its children, at every depth.
pub open spec fn well_nested(f: Seq<HeadlineView>) -> bool
    decreases f,
{
    forall|i: int|
        0 <= i < f.len() ==> {
            &&& forall|j: int|
                0 <= j < (#[trigger] f[i]).children.len() ==> f[i].children[j].level
                    > f[i].level
            &&& well_nested(f[i].children)
        }
}

/// The roots of a forest of headlines that all lie deeper than `level` lie deeper too.
proof fn lemma_roots_deeper(s: Seq<HeadlineView>, level: nat)
    requires
        forall|j: int| 0 <= j < s.len() ==> (#[trigger] s[j]).level > level,
    ensures
        forall|k: int| 0 <= k < forest_of(s).len() ==> (#[trigger] forest_of(s)[k]).level > level,
    decreases s.len(),
{
    if s.len() > 0 {
        let n = deeper_run(s.drop_first(), s[0].level) as int;
        lemma_deeper_run_bound(s.drop_first(), s[0].level);
        let rest = s.skip(1 + n);
        lemma_roots_deeper(rest, level);
        let f = forest_of(s);
        assert forall|k: int| 0 <= k < f.len() implies (#[trigger] f[k]).level > level by {
            if k > 0 {
                assert(f[k] == forest_of(rest)[k - 1]);
            }
        }
    }
}

/// In a forest every headline lies above its children.
pub proof fn lemma_forest_nested(s: Seq<HeadlineView>)
    ensures
        well_nested(forest_of(s)),
    decreases s.len(),
{
    if s.len() > 0 {
        let t = s.drop_first();
        let n = deeper_run(t, s[0].level) as int;
        lemma_deeper_run(t, s[0].level);
        let run = s.subrange(1, 1 + n);
        let rest = s.skip(1 + n);
        lemma_forest_nested(run);
        lemma_forest_nested(rest);
        assert forall|j: int| 0 <= j < run.len() implies (#[trigger] run[j]).level
            > s[0].level by {
            assert(run[j] == t[j]);
        }
        lemma_roots_deeper(run, s[0].level);
        let f = forest_of(s);
        assert forall|i: int| 0 <= i < f.len() implies {
            &&& forall|j: int|
                0 <= j < (#[trigger] f[i]).children.len() ==> f[i].children[j].level
                    > f[i].level
            &&& well_nested(f[i].children)
        } by {
            if i > 0 {
                assert(f[i] == forest_of(rest)[i - 1]);
            }
        }
    }
}

/// Whether `start..end` is a line of `text`: it starts the text or follows a line break,
/// ends the text or stands before a line break, and holds none.
pub open spec fn is_line(text: Seq<char>, start: int, end: int) -> bool {
    &&& 0 <= start <= end <= text.len()
    &&& start == 0 || text[start - 1] == '\n'
    &&& end == text.len() || text[end] == '\n'
    &&& forall|j: int| start <= j < end ==> #[trigger] text[j] != '\n'
}

/// From the start of a line to the next line break, or to the end, is a line.
proof fn lemma_line_end(text: Seq<char>, from: int)
    requires
        0 <= from <= text.len(),
        from == 0 || text[from - 1] == '\n',
    ensures
        is_line(text, from, line_end(text, from)),
{
    let rest = text.skip(from);
    lemma_prefix_len(rest, CharClass::Inline);
    let end = line_end(text, from);
    assert forall|j: int| from <= j < end implies #[trigger] text[j] != '\n' by {
        assert(rest[j - from] == text[j]);
    }
    if end < text.len() {
        assert(rest[end - from] == text[end]);
    }
}

/// The headlines from a line on are lines at or after it, in their order.
proof fn lemma_matches_from(text: Seq<char>, from: int)
    requires
        0 <= from <= text.len(),
        from == 0 || text[from - 1] == '\n',
    ensures
        forall|i: int|
            0 <= i < matches_from(text, from).len() ==> {
                let m = #[trigger] matches_from(text, from)[i];
                &&& from <= m.start
                &&& is_line(text, m.start as int, m.end as int)
                &&& line_match(text.subrange(m.start as int, m.end as int), m.start) == Some(m)
            },
        forall|i: int, j: int|
            0 <= i < j < matches_from(text, from).len() ==> (#[trigger] matches_from(
                text,
                from,
            )[i]).end < (#[trigger] matches_from(text, from)[j]).start,
    decreases text.len() - from,
{
    let end = line_end(text, from);
    lemma_line_end(text, from);
    let line = text.subrange(from, end);
    let here = match line_match(line, from as nat) {
        Some(m) => seq![m],
        None => Seq::empty(),
    };
    let ms = matches_from(text, from);
    if end < text.len() {
        lemma_matches_from(text, end + 1);
        let tail = matches_from(text, end + 1);
        assert(ms == here + tail);
        assert forall|i: int| 0 <= i < ms.len() implies {
            let m = #[trigger] ms[i];
            &&& from <= m.start
            &&& is_line(text, m.start as int, m.end as int)
            &&& line_match(text.subrange(m.start as int, m.end as int), m.start) == Some(m)
        } by {
            if i >= here.len() {
                assert(ms[i] == tail[i - here.len()]);
            }
        }
        assert forall|i: int, j: int| 0 <= i < j < ms.len() implies (#[trigger] ms[i]).end < (
        #[trigger] ms[j]).start by {
            assert(ms[j] == tail[j - here.len()]);
            if i >= here.len() {
                assert(ms[i] == tail[i - here.len()]);
            }
        }
    } else {
        assert(ms == here);
    }
}

/// Every headline of a text is a line of it that is a headline line; its level is the
/// number of markers at the front of the line, one at least; and the headlines come in
/// the order of their lines.
pub proof fn lemma_headlines_are_lines(text: Seq<char>)
    ensures
        forall|i: int|
            0 <= i < headline_matches(text).len() ==> {
                let m = #[trigger] headline_matches(text)[i];
                let line = text.subrange(m.start as int, m.end as int);
                &&& is_line(text, m.start as int, m.end as int)
                &&& is_headline_line(line)
                &&& line_match(line, m.start) == Some(m)
                &&& m.level == prefix_len(line, CharClass::Marker)
                &&& m.level >= 1
            },
        forall|i: int, j: int|
            0 <= i < j < headline_matches(text).len() ==> (#[trigger] headline_matches(
                text,
            )[i]).end < (#[trigger] headline_matches(text)[j]).start,
{
    lemma_matches_from(text, 0);
}

/// A headline line at or after the line at `from` is among the headlines from there.
proof fn lemma_line_is_matched(text: Seq<char>, from: int, start: int, end: int)
    requires
        0 <= from <= start,
        from == 0 || text[from - 1] == '\n',
        is_line(text, start, end),
        is_headline_line(text.subrange(start, end)),
    ensures
        exists|i: int|
            0 <= i < matches_from(text, from).len() && (#[trigger] matches_from(
                text,
                from,
            )[i]).start == start,
    decreases text.len() - from,
{
    let rest = text.skip(from);
    let stop = line_end(text, from);
    lemma_line_end(text, from);
    let here = match line_match(text.subrange(from, stop), from as nat) {
        Some(m) => seq![m],
        None => Seq::empty(),
    };
    let ms = matches_from(text, from);
    if from == start {
        assert forall|j: int| 0 <= j < end - from implies #[trigger] rest[j] != '\n' by {
            assert(rest[j] == text[from + j]);
        }
        lemma_prefix_len_is(rest, CharClass::Inline, end - from);
        assert(ms[0].start == start);
    } else {
        assert(stop < start) by {
            if stop >= start {
                assert(text[start - 1] != '\n');
            }
        }
        lemma_line_is_matched(text, stop + 1, start, end);
        let tail = matches_from(text, stop + 1);
        let k = choose|k: int| 0 <= k < tail.len() && (#[trigger] tail[k]).start == start;
        assert(ms == here + tail);
        assert(ms[here.len() + k] == tail[k]);
    }
}

/// Every line of a text that is a headline line is among its headlines.
pub proof fn lemma_headline_line_is_matched(text: Seq<char>, start: int, end: int)
    requires
        is_line(text, start, end),
        is_headline_line(text.subrange(start, end)),
    ensures
        exists|i: int|
            0 <= i < headline_matches(text).len() && (#[trigger] headline_matches(
                text,
            )[i]).start == start,
{
    lemma_line_is_matched(text, 0, start, end);
    let ms = matches_from(text, 0);
    let k = choose|k: int| 0 <= k < ms.len() && (#[trigger] ms[k]).start == start;
    assert(headline_matches(text)[k].start == start);
}

/// Settling the keyword of a match changes its keyword and its title at most.
pub proof fn lemma_resolved_keeps(m: MatchView, keywords: Seq<Seq<char>>)
    ensures
        resolved(m, keywords).level == m.level,
        resolved(m, keywords).priority == m.priority,
        resolved(m, keywords).tags == m.tags,
        resolved(m, keywords).start == m.start,
        resolved(m, keywords).end == m.end,
        m.keyword is Some ==> resolved(m, keywords) == m,
{
}

/// A text without a headline line is a document without headlines, and all of it is the
/// preamble; an empty text has no preamble.
pub proof fn lemma_no_headline(text: Seq<char>, keywords: Seq<Seq<char>>)
    requires
        headline_matches(text).len() == 0,
    ensures
        parsed(text, keywords).roots == Seq::<HeadlineView>::empty(),
        parsed(text, keywords).preamble == if text.len() > 0 {
            Some(bare_section(0, text.len()))
        } else {
            None
        },
{
    let ms = resolved_all(headline_matches(text), keywords);
    assert(leaves_of(ms, text.len()).len() == 0);
    assert(parsed(text, keywords).roots =~= Seq::empty());
}

/// Read in document order, the headlines of a document are the headlines of its text,
/// each with its keyword settled and with its section; so their levels are the numbers
/// of markers of the headline lines, in the order of the lines.
pub proof fn lemma_document_order(text: Seq<char>, keywords: Seq<Seq<char>>)
    ensures
        flatten(parsed(text, keywords).roots) == leaves_of(
            resolved_all(headline_matches(text), keywords),
            text.len(),
        ),
        flatten(parsed(text, keywords).roots).len() == headline_matches(text).len(),
        forall|i: int|
            0 <= i < headline_matches(text).len() ==> (#[trigger] flatten(
                parsed(text, keywords).roots,
            )[i]).level == headline_matches(text)[i].level,
{
    let leaves = leaves_of(resolved_all(headline_matches(text), keywords), text.len());
    lemma_forest_order(leaves);
    assert(alone_all(leaves) =~= leaves);
}

/// A document has headlines where its text has headline lines, and only there; and each
/// of its headlines lies above its children.
pub proof fn lemma_document_nested(text: Seq<char>, keywords: Seq<Seq<char>>)
    ensures
        parsed(text, keywords).roots.len() > 0 <==> headline_matches(text).len() > 0,
        well_nested(parsed(text, keywords).roots),
{
    let leaves = leaves_of(resolved_all(headline_matches(text), keywords), text.len());
    lemma_forest_len(leaves);
    lemma_forest_nested(leaves);
}

/// In a document every headline hangs below the nearest headline before it that is
/// shallower, and is a root where none is.
pub proof fn lemma_document_parents(text: Seq<char>, keywords: Seq<Seq<char>>)
    ensures
        parents(parsed(text, keywords).roots, 0, -1).len() == headline_matches(text).len(),
        forall|i: int|
            0 <= i < headline_matches(text).len() ==> is_nearest_shallower(
                flatten(parsed(text, keywords).roots),
                i,
                #[trigger] parents(parsed(text, keywords).roots, 0, -1)[i],
            ),
{
    let leaves = leaves_of(resolved_all(headline_matches(text), keywords), text.len());
    lemma_document_order(text, keywords);
    lemma_parent_is_nearest_shallower(leaves);
}

/// The section of every headline lies in the text, after the headline's line and before
/// the line of the next headline.
pub proof fn lemma_sections_in_text(text: Seq<char>, keywords: Seq<Seq<char>>, i: int)
    requires
        0 <= i < headline_matches(text).len(),
    ensures
        ({
            let ms = headline_matches(text);
            let leaf = flatten(parsed(text, keywords).roots)[i];
            let from = after_line(ms[i].end, text.len());
            let to = if i + 1 < ms.len() {
                ms[i + 1].start
            } else {
                text.len()
            };
            &&& ms[i].end <= from <= to <= text.len()
            &&& leaf.section == if from < to {
                Some(bare_section(from, to))
            } else {
                None
            }
        }),
{
    lemma_document_order(text, keywords);
    lemma_headlines_are_lines(text);
    let ms = headline_matches(text);
    let rs = resolved_all(ms, keywords);
    lemma_resolved_keeps(ms[i], keywords);
    if i + 1 < ms.len() {
        lemma_resolved_keeps(ms[i + 1], keywords);
        assert(ms[i].end < ms[i + 1].start);
        assert(is_line(text, ms[i + 1].start as int, ms[i + 1].end as int));
    }
    assert(is_line(text, ms[i].start as int, ms[i].end as int));
}

/// Whether `t` is a tag: one or more tag characters.
pub open spec fn is_tag(t: Seq<char>) -> bool {
    &&& t.len() >= 1
    &&& forall|j: int| 0 <= j < t.len() ==> is_tag_char(#[trigger] t[j])
}

/// What is left of `s` without the whitespace at its ends is a part of `s`.
pub proof fn lemma_trim_is_part(s: Seq<char>)
    ensures
        ({
            let to = s.len() - suffix_len(s, CharClass::Blank);
            let from = prefix_len(s.take(to), CharClass::Blank) as int;
            &&& 0 <= from <= to <= s.len()
            &&& trim(s) == s.subrange(from, to)
        }),
{
    lemma_suffix_len(s, CharClass::Blank);
    let to = s.len() - suffix_len(s, CharClass::Blank);
    lemma_prefix_len(s.take(to), CharClass::Blank);
    let from = prefix_len(s.take(to), CharClass::Blank) as int;
    assert(trim(s) =~= s.subrange(from, to));
}

/// Where the tags of `s` start, a block of tags starts that runs to the end of `s`, and
/// no block of tags that runs to the end of `s` starts before.
pub proof fn lemma_tags_start(s: Seq<char>)
    ensures
        0 <= tags_start(s) <= s.len(),
        tags_start(s) < s.len() ==> is_tag_block(s.skip(tags_start(s))),
        forall|q: int| 0 <= q < tags_start(s) ==> !is_tag_block(#[trigger] s.skip(q)),
{
    lemma_first_tag_block_from(s, 0);
}

/// The first block of tags at or after `from` starts a block of tags, and none starts
/// between `from` and it.
proof fn lemma_first_tag_block_from(s: Seq<char>, from: int)
    requires
        0 <= from <= s.len(),
    ensures
        from <= first_tag_block(s, from) <= s.len(),
        first_tag_block(s, from) < s.len() ==> is_tag_block(s.skip(first_tag_block(s, from))),
        forall|q: int|
            from <= q < first_tag_block(s, from) ==> !is_tag_block(#[trigger] s.skip(q)),
    decreases s.len() - from,
{
    if from < s.len() && !is_tag_block(s.skip(from)) {
        lemma_first_tag_block_from(s, from + 1);
    }
}

/// Whether `s` starts and ends with a colon and holds only tag characters and colons, no
/// two colons side by side.
spec fn is_tag_tail(s: Seq<char>) -> bool {
    &&& s.len() >= 1
    &&& s[0] == ':'
    &&& s.last() == ':'
    &&& forall|i: int| 0 <= i < s.len() ==> #[trigger] s[i] == ':' || is_tag_char(s[i])
    &&& forall|i: int| 0 <= i < s.len() - 1 ==> !(#[trigger] s[i] == ':' && s[i + 1] == ':')
}

/// The tags of a tail of tags are tags.
proof fn lemma_tag_tail_tokens(block: Seq<char>)
    requires
        is_tag_tail(block),
    ensures
        forall|k: int| 0 <= k < tag_tokens(block).len() ==> is_tag(#[trigger] tag_tokens(block)[k]),
    decreases block.len(),
{
    if block.len() > 1 {
        let body = block.drop_first();
        let n = prefix_len(body, CharClass::Tag) as int;
        lemma_prefix_len(body, CharClass::Tag);
        assert(body[0] == block[1]);
        assert(!(block[0] == ':' && block[0int + 1] == ':'));
        assert(body.last() == block.last());
        assert(n >= 1);
        assert(n < body.len());
        assert(body[n] == block[n + 1]);
        let tail = body.skip(n);
        assert forall|i: int| 0 <= i < tail.len() implies #[trigger] tail[i] == ':' || is_tag_char(
            tail[i],
        ) by {
            assert(tail[i] == block[i + n + 1]);
        }
        assert forall|i: int| 0 <= i < tail.len() - 1 implies !(#[trigger] tail[i] == ':'
            && tail[i + 1] == ':') by {
            assert(tail[i] == block[i + n + 1]);
            assert(tail[i + 1] == block[i + n + 1 + 1]);
        }
        lemma_tag_tail_tokens(tail);
        let first = body.take(n);
        assert(is_tag(first)) by {
            assert forall|j: int| 0 <= j < first.len() implies is_tag_char(#[trigger] first[j]) by {
                assert(first[j] == body[j]);
            }
        }
        let tokens = tag_tokens(block);
        assert(tokens == seq![first] + tag_tokens(tail));
        assert forall|k: int| 0 <= k < tokens.len() implies is_tag(#[trigger] tokens[k]) by {
            if k > 0 {
                assert(tokens[k] == tag_tokens(tail)[k - 1]);
            }
        }
    }
}

/// The title of a headline line holds no line break where the line holds none, and no
/// whitespace at its ends; each of its tags is one or more tag characters.
pub proof fn lemma_title_and_tags(line: Seq<char>, start: nat)
    requires
        line_match(line, start) is Some,
        forall|j: int| 0 <= j < line.len() ==> #[trigger] line[j] != '\n',
    ensures
        ({
            let m = line_match(line, start)->Some_0;
            &&& forall|j: int| 0 <= j < m.title.len() ==> #[trigger] m.title[j] != '\n'
            &&& m.title.len() > 0 ==> !is_whitespace(m.title[0]) && !is_whitespace(m.title.last())
            &&& forall|k: int| 0 <= k < m.tags.len() ==> is_tag(#[trigger] m.tags[k])
        }),
{
    let m = line_match(line, start)->Some_0;
    let body = headline_body(line);
    lemma_prefix_len(line, CharClass::Marker);
    lemma_prefix_len(body, CharClass::Solid);
    let rest = after_cookie(body);
    let lead = line.len() - rest.len();
    assert forall|j: int| 0 <= j < rest.len() implies #[trigger] rest[j] == line[lead + j] by {}
    lemma_tags_start(rest);
    let p = tags_start(rest);
    let head = rest.take(p);
    lemma_trim_is_part(head);
    let to = head.len() - suffix_len(head, CharClass::Blank);
    let from = prefix_len(head.take(to), CharClass::Blank) as int;
    assert forall|j: int| 0 <= j < m.title.len() implies #[trigger] m.title[j] != '\n' by {
        assert(m.title[j] == head[from + j]);
        assert(head[from + j] == rest[from + j]);
    }
    if m.title.len() > 0 {
        lemma_suffix_len(head, CharClass::Blank);
        lemma_prefix_len(head.take(to), CharClass::Blank);
        assert(m.title[0] == head.take(to)[from]);
        assert(m.title.last() == head[to - 1]);
    }
    if p < rest.len() {
        lemma_tag_tail_tokens(rest.skip(p));
    } else {
        assert(tag_tokens(rest.skip(p)).len() == 0);
    }
}

/// In a document no title holds a line break, every tag is one or more tag characters,
/// and every level is one at least.
pub proof fn lemma_document_headlines(text: Seq<char>, keywords: Seq<Seq<char>>, i: int)
    requires
        0 <= i < headline_matches(text).len(),
    ensures
        ({
            let h = flatten(parsed(text, keywords).roots)[i];
            &&& h.level >= 1
            &&& forall|j: int| 0 <= j < h.title.len() ==> #[trigger] h.title[j] != '\n'
            &&& forall|k: int| 0 <= k < h.tags.len() ==> is_tag(#[trigger] h.tags[k])
        }),
{
    lemma_document_order(text, keywords);
    lemma_headlines_are_lines(text);
    let m = headline_matches(text)[i];
    let line = text.subrange(m.start as int, m.end as int);
    assert(is_line(text, m.start as int, m.end as int));
    assert forall|j: int| 0 <= j < line.len() implies #[trigger] line[j] != '\n' by {
        assert(line[j] == text[m.start + j]);
    }
    lemma_title_and_tags(line, m.start);
    let r = resolved(m, keywords);
    lemma_resolved_keeps(m, keywords);
    if r != m {
        lemma_first_fit(m.title, keywords, 0);
        let w = keywords[first_fit(m.title, keywords, 0)].len() as int;
        let cut = m.title.skip(w);
        lemma_prefix_len(cut, CharClass::Blank);
        let b = prefix_len(cut, CharClass::Blank) as int;
        assert forall|j: int| 0 <= j < r.title.len() implies #[trigger] r.title[j] != '\n' by {
            assert(r.title[j] == cut[b + j]);
            assert(cut[b + j] == m.title[w + b + j]);
        }
    }
}

} // verus!
