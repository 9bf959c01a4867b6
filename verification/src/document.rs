//! The finished document: a preamble section and a forest of headlines.

use crate::text::{from_chars, option_view, strings_view, to_chars};
use vstd::prelude::*;

verus! {

/// A unit of section content. The outline itself never looks inside one.
#[derive(Debug, Clone, Copy, PartialEq, Eq)]
pub enum GreaterElement {
    Block,
    Drawer,
    DynamicBlock,
    Footnote,
    Inlinetask,
    PlainList,
    PropertyDrawer,
    Table,
}

/// The text between two headline lines, as a span of character positions, with the
/// content units that were read from it.
#[derive(Debug, PartialEq, Eq)]
pub struct Section {
    start: usize,
    end: usize,
    contents: Vec<GreaterElement>,
}

pub struct SectionView {
    pub start: nat,
    pub end: nat,
    pub contents: Seq<GreaterElement>,
}

impl View for Section {
    type V = SectionView;

    closed spec fn view(&self) -> SectionView {
        SectionView { start: self.start as nat, end: self.end as nat, contents: self.contents@ }
    }
}

/// The section that covers the positions `start..end` and holds no content yet.
pub open spec fn bare_section(start: nat, end: nat) -> SectionView {
    SectionView { start, end, contents: Seq::empty() }
}

/// The view of an optional section.
pub open spec fn section_option_view(o: Option<Section>) -> Option<SectionView> {
    match o {
        Some(s) => Some(s@),
        None => None,
    }
}

impl Clone for Section {
    fn clone(&self) -> (r: Self)
        ensures
            r@ == self@,
    {
        let mut contents: Vec<GreaterElement> = Vec::new();
        let mut i: usize = 0;
        while i < self.contents.len()
            invariant
                i <= self.contents.len(),
                contents@ == self.contents@.take(i as int),
            decreases self.contents.len() - i,
        {
            contents.push(self.contents[i]);
            assert(self.contents@.take(i as int).push(self.contents@[i as int])
                =~= self.contents@.take(i + 1));
            i += 1;
        }
        assert(self.contents@.take(i as int) =~= self.contents@);
        Section { start: self.start, end: self.end, contents }
    }
}

impl Section {
    /// A section over `start..end` without content.
    pub(crate) fn new(start: usize, end: usize) -> (r: Section)
        ensures
            r@ == bare_section(start as nat, end as nat),
    {
        Section { start, end, contents: Vec::new() }
    }

    /// The position of the section's first character.
    pub fn start(&self) -> (r: usize)
        ensures
            r == self@.start,
    {
        self.start
    }

    /// The position after the section's last character.
    pub fn end(&self) -> (r: usize)
        ensures
            r == self@.end,
    {
        self.end
    }

    /// The characters of `text` that the section covers; `None` where the section does
    /// not lie in `text`.
    pub fn text_in(&self, text: &str) -> (r: Option<String>)
        ensures
            r is Some <==> self@.start <= self@.end <= text@.len(),
            r matches Some(s) ==> s@ == text@.subrange(self@.start as int, self@.end as int),
    {
        let chars = to_chars(text);
        if self.start <= self.end && self.end <= chars.len() {
            Some(from_chars(chars.as_slice(), self.start, self.end))
        } else {
            None
        }
    }

    /// The content units of the section.
    pub fn contents(&self) -> (r: &Vec<GreaterElement>)
        ensures
            r@ == self@.contents,
    {
        &self.contents
    }
}

/// One headline with everything nested below it.
#[derive(Debug, PartialEq, Eq)]
pub struct Headline {
    level: usize,
    keyword: Option<String>,
    priority: Option<char>,
    title: String,
    tags: Vec<String>,
    section: Option<Section>,
    headlines: Vec<Headline>,
}

pub struct HeadlineView {
    pub level: nat,
    pub keyword: Option<Seq<char>>,
    pub priority: Option<char>,
    pub title: Seq<char>,
    pub tags: Seq<Seq<char>>,
    pub section: Option<SectionView>,
    pub children: Seq<HeadlineView>,
}

impl HeadlineView {
    /// This headline with `child` as its new last child.
    pub open spec fn with_child(self, child: HeadlineView) -> HeadlineView {
        HeadlineView { children: self.children.push(child), ..self }
    }

    /// This headline with other children.
    pub open spec fn with_children(self, children: Seq<HeadlineView>) -> HeadlineView {
        HeadlineView { children, ..self }
    }

    /// This headline without its children.
    pub open spec fn alone(self) -> HeadlineView {
        HeadlineView { children: Seq::empty(), ..self }
    }
}

impl Headline {
    /// The headline as a mathematical value.
    pub closed spec fn model(&self) -> HeadlineView
        decreases self,
    {
        HeadlineView {
            level: self.level as nat,
            keyword: option_view(self.keyword),
            priority: self.priority,
            title: self.title@,
            tags: strings_view(self.tags@),
            section: section_option_view(self.section),
            children: Seq::new(
                self.headlines.len() as nat,
                |i: int|
                    if 0 <= i < self.headlines.len() {
                        self.headlines[i].model()
                    } else {
                        arbitrary()
                    },
            ),
        }
    }
}

impl View for Headline {
    type V = HeadlineView;

    closed spec fn view(&self) -> HeadlineView {
        self.model()
    }
}

/// The views of a sequence of headlines.
pub open spec fn headline_views(v: Seq<Headline>) -> Seq<HeadlineView> {
    Seq::new(v.len(), |i: int| v[i]@)
}

impl Clone for Headline {
    fn clone(&self) -> (r: Self)
        ensures
            r@ == self@,
        decreases self,
    {
        let keyword = match &self.keyword {
            Some(k) => Some(k.clone()),
            None => None,
        };
        let section = match &self.section {
            Some(s) => Some(s.clone()),
            None => None,
        };
        let mut tags: Vec<String> = Vec::new();
        let mut i: usize = 0;
        while i < self.tags.len()
            invariant
                i <= self.tags.len(),
                tags@ == self.tags@.take(i as int),
            decreases self.tags.len() - i,
        {
            tags.push(self.tags[i].clone());
            assert(self.tags@.take(i as int).push(self.tags@[i as int]) =~= self.tags@.take(
                i + 1,
            ));
            i += 1;
        }
        assert(self.tags@.take(i as int) =~= self.tags@);
        let mut headlines: Vec<Headline> = Vec::new();
        let mut j: usize = 0;
        while j < self.headlines.len()
            invariant
                j <= self.headlines.len(),
                headlines.len() == j,
                forall|k: int| 0 <= k < j ==> (#[trigger] headlines[k])@ == self.headlines[k]@,
            decreases self.headlines.len() - j,
        {
            headlines.push(self.headlines[j].clone());
            j += 1;
        }
        let r = Headline {
            level: self.level,
            keyword,
            priority: self.priority,
            title: self.title.clone(),
            tags,
            section,
            headlines,
        };
        assert(r@.children =~= self@.children);
        r
    }
}

impl Headline {
    /// A headline without children.
    pub(crate) fn leaf(
        level: usize,
        keyword: Option<String>,
        priority: Option<char>,
        title: String,
        tags: Vec<String>,
        section: Option<Section>,
    ) -> (r: Headline)
        ensures
            r@ == (HeadlineView {
                level: level as nat,
                keyword: option_view(keyword),
                priority,
                title: title@,
                tags: strings_view(tags@),
                section: section_option_view(section),
                children: Seq::empty(),
            }),
    {
        let r = Headline { level, keyword, priority, title, tags, section, headlines: Vec::new() };
        assert(r@.children =~= Seq::empty());
        r
    }

    /// Appends `child` below this headline, after the children it has.
    pub(crate) fn push_child(&mut self, child: Headline)
        ensures
            final(self)@ == old(self)@.with_child(child@),
    {
        self.headlines.push(child);
        assert(self@.children =~= old(self)@.children.push(child@));
    }

    /// The number of leading markers of the headline's line.
    pub fn level(&self) -> (r: usize)
        ensures
            r == self@.level,
    {
        self.level
    }

    /// The keyword, if the headline has one.
    pub fn keyword(&self) -> (r: &Option<String>)
        ensures
            option_view(*r) == self@.keyword,
    {
        &self.keyword
    }

    /// The priority character, if the headline has one.
    pub fn priority(&self) -> (r: Option<char>)
        ensures
            r == self@.priority,
    {
        self.priority
    }

    /// The title.
    pub fn title(&self) -> (r: &String)
        ensures
            r@ == self@.title,
    {
        &self.title
    }

    /// The tags, in the order of the line.
    pub fn tags(&self) -> (r: &Vec<String>)
        ensures
            strings_view(r@) == self@.tags,
    {
        &self.tags
    }

    /// The section directly below the headline line, if there is text in it.
    pub fn section(&self) -> (r: &Option<Section>)
        ensures
            section_option_view(*r) == self@.section,
    {
        &self.section
    }

    /// The headlines directly below this one.
    pub fn headlines(&self) -> (r: &Vec<Headline>)
        ensures
            headline_views(r@) == self@.children,
    {
        assert(headline_views(self.headlines@) =~= self@.children);
        &self.headlines
    }
}

/// A parsed document.
#[derive(Debug, PartialEq, Eq)]
pub struct Document {
    first_section: Option<Section>,
    headlines: Vec<Headline>,
}

pub struct DocumentView {
    pub preamble: Option<SectionView>,
    pub roots: Seq<HeadlineView>,
}

impl View for Document {
    type V = DocumentView;

    closed spec fn view(&self) -> DocumentView {
        DocumentView {
            preamble: section_option_view(self.first_section),
            roots: headline_views(self.headlines@),
        }
    }
}

impl Clone for Document {
    fn clone(&self) -> (r: Self)
        ensures
            r@ == self@,
    {
        let first_section = match &self.first_section {
            Some(s) => Some(s.clone()),
            None => None,
        };
        let mut headlines: Vec<Headline> = Vec::new();
        let mut j: usize = 0;
        while j < self.headlines.len()
            invariant
                j <= self.headlines.len(),
                headlines.len() == j,
                forall|k: int| 0 <= k < j ==> (#[trigger] headlines[k])@ == self.headlines[k]@,
            decreases self.headlines.len() - j,
        {
            headlines.push(self.headlines[j].clone());
            j += 1;
        }
        let r = Document { first_section, headlines };
        assert(r@.roots =~= self@.roots);
        r
    }
}

impl Document {
    /// The document with the given preamble and top-level headlines.
    pub(crate) fn new(first_section: Option<Section>, headlines: Vec<Headline>) -> (r:
        Document)
        ensures
            r@ == (DocumentView {
                preamble: section_option_view(first_section),
                roots: headline_views(headlines@),
            }),
    {
        Document { first_section, headlines }
    }

    /// The section before the first headline, if there is text in it.
    pub fn first_section(&self) -> (r: &Option<Section>)
        ensures
            section_option_view(*r) == self@.preamble,
    {
        &self.first_section
    }

    /// The top-level headlines, in document order.
    pub fn headlines(&self) -> (r: &Vec<Headline>)
        ensures
            headline_views(r@) == self@.roots,
    {
        &self.headlines
    }
}

} // verus!
