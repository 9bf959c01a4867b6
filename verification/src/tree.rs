//! Nesting a flat run of headlines by their levels.

use crate::document::{
    bare_section, headline_views, section_option_view, Document, DocumentView, Headline,
    HeadlineView, Section, SectionView,
};
use crate::headline::{match_views, HeadlineMatch, MatchView};
use vstd::prelude::*;

verus! {

/// How many headlines at the front of `s` lie deeper than `level`.
pub open spec fn deeper_run(s: Seq<HeadlineView>, level: nat) -> nat
    decreases s.len(),
{
    if s.len() > 0 && s[0].level > level {
        1 + deeper_run(s.drop_first(), level)
    } else {
        0
    }
}

/// The run of deeper headlines at the front of `s` lies in `s`.
pub proof fn lemma_deeper_run_bound(s: Seq<HeadlineView>, level: nat)
    ensures
        deeper_run(s, level) <= s.len(),
    decreases s.len(),
{
    if s.len() > 0 && s[0].level > level {
        lemma_deeper_run_bound(s.drop_first(), level);
    }
}

/// The forest of a run of headlines in document order. The first headline is a root; the
/// headlines that follow it and lie deeper, up to the first that does not, form the forest
/// of its children; the rest forms the roots after it.
pub open spec fn forest_of(s: Seq<HeadlineView>) -> Seq<HeadlineView>
    decreases s.len(),
{
    if s.len() == 0 {
        Seq::empty()
    } else {
        let n = deeper_run(s.drop_first(), s[0].level) as int;
        proof {
            lemma_deeper_run_bound(s.drop_first(), s[0].level);
        }
        seq![s[0].with_children(forest_of(s.subrange(1, 1 + n)))] + forest_of(s.skip(1 + n))
    }
}

/// The forest after one more headline: `h` goes below the last headline of the deepest
/// run of last children that all lie above it.
spec fn insert(forest: Seq<HeadlineView>, h: HeadlineView) -> Seq<HeadlineView>
    decreases forest,
{
    if forest.len() > 0 && forest.last().level < h.level {
        forest.update(
            forest.len() - 1,
            forest.last().with_children(insert(forest.last().children, h)),
        )
    } else {
        forest.push(h)
    }
}

/// A forest has roots where there are headlines, and only there.
pub proof fn lemma_forest_len(s: Seq<HeadlineView>)
    ensures
        s.len() > 0 ==> forest_of(s).len() > 0,
        s.len() == 0 ==> forest_of(s).len() == 0,
{
}

/// A headline goes into the last tree of a forest, whatever stands before that tree.
proof fn lemma_insert_after(a: Seq<HeadlineView>, b: Seq<HeadlineView>, h: HeadlineView)
    requires
        b.len() > 0,
    ensures
        insert(a + b, h) == a + insert(b, h),
{
    assert((a + b).last() == b.last());
    if b.last().level < h.level {
        let n = b.last().with_children(insert(b.last().children, h));
        assert((a + b).update((a + b).len() - 1, n) =~= a + b.update(b.len() - 1, n));
    } else {
        assert((a + b).push(h) =~= a + b.push(h));
    }
}

/// One more headline at the end lengthens the run of deeper headlines only where the run
/// was all of `t` and the headline lies deeper too.
proof fn lemma_deeper_run_push(t: Seq<HeadlineView>, h: HeadlineView, level: nat)
    ensures
        deeper_run(t, level) <= t.len(),
        deeper_run(t.push(h), level) == if deeper_run(t, level) < t.len() {
            deeper_run(t, level)
        } else if h.level > level {
            t.len() + 1
        } else {
            t.len()
        },
    decreases t.len(),
{
    if t.len() > 0 && t[0].level > level {
        lemma_deeper_run_push(t.drop_first(), h, level);
        assert(t.push(h).drop_first() =~= t.drop_first().push(h));
    } else if t.len() == 0 {
        assert(t.push(h).drop_first().len() == 0);
        assert(deeper_run(t.push(h).drop_first(), level) == 0);
    }
}

/// The forest of one headline is that headline.
proof fn lemma_forest_single(h: HeadlineView)
    requires
        h.children == Seq::<HeadlineView>::empty(),
    ensures
        forest_of(seq![h]) == seq![h],
{
    let s = seq![h];
    assert(deeper_run(s.drop_first(), h.level) == 0);
    lemma_forest_len(s.subrange(1, 1));
    lemma_forest_len(s.skip(1));
    assert(h.with_children(Seq::empty()) == h);
    assert(forest_of(s) =~= seq![h]);
}

/// Adding a headline at the end of the run adds it to the forest by `insert`.
proof fn lemma_forest_push(s: Seq<HeadlineView>, h: HeadlineView)
    requires
        h.children == Seq::<HeadlineView>::empty(),
    ensures
        forest_of(s.push(h)) == insert(forest_of(s), h),
    decreases s.len(),
{
    let s2 = s.push(h);
    if s.len() == 0 {
        assert(s2 =~= seq![h]);
        lemma_forest_single(h);
        assert(insert(forest_of(s), h) =~= seq![h]);
    } else {
        let a = s[0];
        let t = s.drop_first();
        let n = deeper_run(t, a.level) as int;
        lemma_deeper_run_push(t, h, a.level);
        assert(s2.drop_first() =~= t.push(h));
        let n2 = deeper_run(s2.drop_first(), a.level) as int;
        if n < t.len() {
            assert(n2 == n);
            let rest = s.skip(1 + n);
            assert(s2.subrange(1, 1 + n) =~= s.subrange(1, 1 + n));
            assert(s2.skip(1 + n) =~= rest.push(h));
            lemma_forest_push(rest, h);
            lemma_forest_len(rest);
            let head = seq![a.with_children(forest_of(s.subrange(1, 1 + n)))];
            lemma_insert_after(head, forest_of(rest), h);
        } else if h.level > a.level {
            assert(n2 == n + 1);
            assert(s.subrange(1, 1 + n) =~= t);
            assert(s2.subrange(1, 1 + n2) =~= t.push(h));
            assert(s.skip(1 + n).len() == 0);
            assert(s2.skip(1 + n2).len() == 0);
            lemma_forest_push(t, h);
            let old_root = a.with_children(forest_of(t));
            let new_root = a.with_children(insert(forest_of(t), h));
            lemma_forest_len(s.skip(1 + n));
            lemma_forest_len(s2.skip(1 + n2));
            assert(forest_of(s) =~= seq![old_root]);
            assert(forest_of(s2) =~= seq![new_root]);
            assert(old_root.with_children(insert(old_root.children, h)) == new_root);
            assert(insert(seq![old_root], h) =~= seq![new_root]);
        } else {
            assert(n2 == n);
            assert(s.subrange(1, 1 + n) =~= t);
            assert(s2.subrange(1, 1 + n) =~= t);
            assert(s.skip(1 + n).len() == 0);
            assert(s2.skip(1 + n) =~= seq![h]);
            let root = a.with_children(forest_of(t));
            lemma_forest_single(h);
            lemma_forest_len(s.skip(1 + n));
            assert(forest_of(s) =~= seq![root]);
            assert(forest_of(s2) =~= seq![root, h]);
            assert(insert(seq![root], h) =~= seq![root, h]);
        }
    }
}

/// The forest that stands when every open headline is closed: `open` is a path of
/// headlines, each to become the last child of the one before it, the first a root.
spec fn closed(roots: Seq<HeadlineView>, open: Seq<HeadlineView>) -> Seq<HeadlineView>
    decreases open.len(),
{
    if open.len() == 0 {
        roots
    } else if open.len() == 1 {
        roots.push(open[0])
    } else {
        closed(
            roots,
            open.drop_last().drop_last().push(open[open.len() - 2].with_child(open.last())),
        )
    }
}

/// Inserting below a path of shallower open headlines inserts below the last of them.
proof fn lemma_insert_closed(roots: Seq<HeadlineView>, open: Seq<HeadlineView>, h: HeadlineView)
    requires
        open.len() > 0,
        forall|j: int| 0 <= j < open.len() ==> (#[trigger] open[j]).level < h.level,
    ensures
        insert(closed(roots, open), h) == closed(
            roots,
            open.drop_last().push(open.last().with_children(insert(open.last().children, h))),
        ),
    decreases open.len(),
{
    let top = open.last();
    let top2 = top.with_children(insert(top.children, h));
    let open2 = open.drop_last().push(top2);
    if open.len() == 1 {
        assert(roots.push(top).update(roots.len() as int, top2) =~= roots.push(top2));
    } else {
        let base = open.drop_last().drop_last();
        let under = open[open.len() - 2];
        let folded = base.push(under.with_child(top));
        lemma_insert_closed(roots, folded, h);
        assert(folded.drop_last() =~= base);
        assert(under.children.push(top).update(under.children.len() as int, top2)
            =~= under.children.push(top2));
        assert(folded.last().with_children(insert(folded.last().children, h)) == under.with_child(
            top2,
        ));
        assert(open2.drop_last().drop_last() =~= base);
        assert(open2[open2.len() - 2] == under);
    }
}

/// Opening a headline below a path of shallower open headlines, the last of which has
/// no child above it, adds it to the forest by `insert`.
proof fn lemma_open(roots: Seq<HeadlineView>, open: Seq<HeadlineView>, h: HeadlineView)
    requires
        forall|j: int| 0 <= j < open.len() ==> (#[trigger] open[j]).level < h.level,
        open.len() > 0 ==> open.last().children.len() == 0 || open.last().children.last().level
            >= h.level,
        open.len() == 0 ==> roots.len() == 0 || roots.last().level >= h.level,
    ensures
        closed(roots, open.push(h)) == insert(closed(roots, open), h),
{
    if open.len() == 0 {
        assert(open.push(h)[0] == h);
    } else {
        lemma_insert_closed(roots, open, h);
        let top = open.last();
        assert(top.with_children(insert(top.children, h)) == top.with_child(h));
        assert(open.push(h).drop_last().drop_last() =~= open.drop_last());
    }
}

/// The position after the line that ends at `end`: past its line break, if it has one.
pub open spec fn after_line(end: nat, text_len: nat) -> nat {
    if end < text_len {
        end + 1
    } else {
        text_len
    }
}

/// The section over `start..end`, if there is a character in it.
pub open spec fn section_over(start: nat, end: nat) -> Option<SectionView> {
    if start < end {
        Some(bare_section(start, end))
    } else {
        None
    }
}

/// The section of the `i`-th headline: from after its line to the next headline line, or
/// to the end of the text.
pub open spec fn section_below(matches: Seq<MatchView>, i: int, text_len: nat) -> Option<
    SectionView,
> {
    section_over(
        after_line(matches[i].end, text_len),
        if i + 1 < matches.len() {
            matches[i + 1].start
        } else {
            text_len
        },
    )
}

/// The section before the first headline line.
pub open spec fn preamble_of(matches: Seq<MatchView>, text_len: nat) -> Option<SectionView> {
    section_over(
        0,
        if matches.len() > 0 {
            matches[0].start
        } else {
            text_len
        },
    )
}

/// The `i`-th headline by itself, with its section.
pub open spec fn leaf_of(matches: Seq<MatchView>, i: int, text_len: nat) -> HeadlineView {
    HeadlineView {
        level: matches[i].level,
        keyword: matches[i].keyword,
        priority: matches[i].priority,
        title: matches[i].title,
        tags: matches[i].tags,
        section: section_below(matches, i, text_len),
        children: Seq::empty(),
    }
}

/// The headlines of a text of `text_len` characters, each by itself, in document order.
pub open spec fn leaves_of(matches: Seq<MatchView>, text_len: nat) -> Seq<HeadlineView> {
    Seq::new(matches.len(), |i: int| leaf_of(matches, i, text_len))
}

/// The document of a text of `text_len` characters whose headline lines are `matches`.
pub open spec fn document_of(matches: Seq<MatchView>, text_len: nat) -> DocumentView {
    DocumentView {
        preamble: preamble_of(matches, text_len),
        roots: forest_of(leaves_of(matches, text_len)),
    }
}

/// The section over `start..end`, if there is a character in it.
fn make_section(start: usize, end: usize) -> (r: Option<Section>)
    ensures
        section_option_view(r) == section_over(start as nat, end as nat),
{
    if start < end {
        Some(Section::new(start, end))
    } else {
        None
    }
}

/// Closes the last open headline: it becomes the last child of the open headline before
/// it, or the last root if there is none.
fn close_last(roots: &mut Vec<Headline>, open: &mut Vec<Headline>)
    requires
        old(open).len() > 0,
    ensures
        final(open).len() == old(open).len() - 1,
        closed(headline_views(final(roots)@), headline_views(final(open)@)) == closed(
            headline_views(old(roots)@),
            headline_views(old(open)@),
        ),
        forall|j: int|
            0 <= j < final(open).len() ==> (#[trigger] final(open)[j])@.level == old(
                open,
            )[j]@.level,
        final(open).len() > 0 ==> final(open)[final(open).len() - 1]@.children.len() > 0
            && final(open)[final(open).len() - 1]@.children.last() == old(open)[old(open).len()
            - 1]@,
        final(open).len() == 0 ==> final(roots).len() > 0 && final(roots)[final(roots).len()
            - 1]@ == old(open)[old(open).len() - 1]@,
{
    let ghost roots0 = headline_views(roots@);
    let ghost open0 = headline_views(open@);
    let top = open.pop().unwrap();
    if open.len() == 0 {
        roots.push(top);
        assert(headline_views(roots@) =~= roots0.push(open0[0]));
        assert(headline_views(open@) =~= Seq::empty());
    } else {
        let mut under = open.pop().unwrap();
        under.push_child(top);
        open.push(under);
        assert(headline_views(open@) =~= open0.drop_last().drop_last().push(
            open0[open0.len() - 2].with_child(open0.last()),
        ));
    }
}

/// Nests the headlines of a text of `text_len` characters, given in document order, and
/// gives each the section below its line.
///
/// The headlines are taken one by one. The open headlines form the path from a root to the
/// headline taken last. Before a headline is opened, every open headline that is not
/// shallower than it is closed, so it comes to stand below the nearest shallower
/// headline before it, or among the roots if there is none.
pub fn build(matches: Vec<HeadlineMatch>, text_len: usize) -> (doc: Document)
    ensures
        doc@ == document_of(match_views(matches@), text_len as nat),
{
    let ghost ms = match_views(matches@);
    let ghost leaves = leaves_of(ms, text_len as nat);
    let n = matches.len();
    let mut starts: Vec<usize> = Vec::new();
    let mut k: usize = 0;
    while k < n
        invariant
            n == matches.len(),
            k <= n,
            starts.len() == k,
            forall|j: int| 0 <= j < k ==> starts[j] == matches[j].start,
        decreases n - k,
    {
        starts.push(matches[k].start);
        k += 1;
    }
    let first_section = make_section(
        0,
        if n > 0 {
            starts[0]
        } else {
            text_len
        },
    );
    let mut roots: Vec<Headline> = Vec::new();
    let mut open: Vec<Headline> = Vec::new();
    let mut i: usize = 0;
    assert(leaves.take(0) =~= Seq::empty());
    for m in it: matches
        invariant
            it.seq() == matches@,
            i == it.index(),
            n == matches.len(),
            starts.len() == n,
            forall|j: int| 0 <= j < n ==> starts[j] == matches[j].start,
            ms == match_views(matches@),
            leaves == leaves_of(ms, text_len as nat),
            closed(headline_views(roots@), headline_views(open@)) == forest_of(
                leaves.take(i as int),
            ),
            forall|a: int, b: int|
                0 <= a < b < open.len() ==> (#[trigger] open[a])@.level < (#[trigger] open[b])@.level,
            open.len() > 0 ==> open[open.len() - 1]@.children.len() == 0,
            open.len() == 0 ==> roots.len() == 0,
    {
        let section = make_section(
            if m.end < text_len {
                m.end + 1
            } else {
                text_len
            },
            if i + 1 < n {
                starts[i + 1]
            } else {
                text_len
            },
        );
        let level = m.level;
        let h = Headline::leaf(m.level, m.keyword, m.priority, m.title, m.tags, section);
        assert(h@ == leaves[i as int]);
        while open.len() > 0 && open[open.len() - 1].level() >= level
            invariant
                level == h@.level,
                closed(headline_views(roots@), headline_views(open@)) == forest_of(
                    leaves.take(i as int),
                ),
                forall|a: int, b: int|
                    0 <= a < b < open.len() ==> (#[trigger] open[a])@.level < (
                    #[trigger] open[b])@.level,
                open.len() > 0 ==> open[open.len() - 1]@.children.len() == 0 || open[open.len()
                    - 1]@.children.last().level >= level,
                open.len() == 0 ==> roots.len() == 0 || roots[roots.len() - 1]@.level >= level,
            decreases open.len(),
        {
            close_last(&mut roots, &mut open);
        }
        proof {
            let r = headline_views(roots@);
            let o = headline_views(open@);
            assert forall|j: int| 0 <= j < o.len() implies (#[trigger] o[j]).level
                < h@.level by {
                if j < o.len() - 1 {
                    assert(open[j]@.level < open[open.len() - 1]@.level);
                }
            }
            lemma_open(r, o, h@);
            lemma_forest_push(leaves.take(i as int), h@);
            assert(leaves.take(i as int).push(h@) =~= leaves.take(i + 1));
            assert(headline_views(open@.push(h)) =~= o.push(h@));
        }
        open.push(h);
        i += 1;
    }
    assert(leaves.take(i as int) =~= leaves);
    while open.len() > 0
        invariant
            closed(headline_views(roots@), headline_views(open@)) == forest_of(leaves),
        decreases open.len(),
    {
        close_last(&mut roots, &mut open);
    }
    Document::new(first_section, roots)
}

} // verus!
