use orgdoc::{Document, Headline, Section};
use orgdoc::DocumentParser;

fn span_text(text: &str, section: &Section) -> String {
    let by_hand: String =
        text.chars().skip(section.start()).take(section.end() - section.start()).collect();
    assert_eq!(section.text_in(text), Some(by_hand.clone()));
    by_hand
}

fn parse(text: &str, keywords: Vec<&str>) -> Document {
    DocumentParser::new().todo_keywords(keywords).parse(text).unwrap()
}

fn preorder<'a>(headlines: &'a Vec<Headline>, out: &mut Vec<&'a Headline>) {
    for h in headlines {
        out.push(h);
        preorder(h.headlines(), out);
    }
}

fn tags_of(h: &Headline) -> Vec<&str> {
    h.tags().iter().map(|t| t.as_str()).collect()
}

#[test]
fn test_document_parser() {
    let first = DocumentParser::new().parse(
        "* Hello!
** This is a second heading

Let's write a ",
    );
    println!("{:#?}", first);
    let first = first.unwrap();
    assert_eq!(first.headlines().len(), 1);
    assert_eq!(first.headlines()[0].title(), "Hello!");
    assert_eq!(first.headlines()[0].headlines()[0].title(), "This is a second heading");

    let second = DocumentParser::new().todo_keywords(vec!["TODO", "DONE"]).parse(
        "*

** DONE

*** Some e-mail

**** TODO [#A] COMMENT Title :tag:a2%:",
    );
    println!("{:#?}", second);
    let second = second.unwrap();
    let mut all = Vec::new();
    preorder(second.headlines(), &mut all);
    assert_eq!(all.iter().map(|h| h.level()).collect::<Vec<_>>(), vec![2, 3, 4]);
    assert_eq!(all[0].keyword().as_deref(), Some("DONE"));
    assert_eq!(all[0].title(), "");
    assert_eq!(all[1].title(), "Some e-mail");
    assert_eq!(all[2].keyword().as_deref(), Some("TODO"));
    assert_eq!(all[2].priority(), Some('A'));
    assert_eq!(all[2].title(), "COMMENT Title");
    assert_eq!(tags_of(all[2]), vec!["tag", "a2%"]);

    let third = DocumentParser::new().parse(
        "An introduction.

* A Headline

  Some text.

** Sub-Topic 1

** Sub-Topic 2

*** Additional entry",
    );
    println!("{:#?}", third);
    let third = third.unwrap();
    assert_eq!(third.headlines().len(), 1);
    assert_eq!(third.headlines()[0].headlines().len(), 2);
}

#[test]
fn two_headlines_nest() {
    let doc = parse("* Hello!\n** This is a second heading\n", vec![]);
    assert!(doc.first_section().is_none());
    assert_eq!(doc.headlines().len(), 1);
    let root = &doc.headlines()[0];
    assert_eq!(root.level(), 1);
    assert_eq!(root.title(), "Hello!");
    assert_eq!(*root.keyword(), None);
    assert_eq!(root.priority(), None);
    assert!(root.tags().is_empty());
    assert!(root.section().is_none());
    assert_eq!(root.headlines().len(), 1);
    let child = &root.headlines()[0];
    assert_eq!(child.level(), 2);
    assert_eq!(child.title(), "This is a second heading");
    assert_eq!(*child.keyword(), None);
    assert!(child.headlines().is_empty());
    assert!(child.section().is_none());
}

#[test]
fn full_headline_line() {
    let doc = parse("**** TODO [#A] COMMENT Title :tag:a2%:", vec!["TODO", "DONE"]);
    assert_eq!(doc.headlines().len(), 1);
    let h = &doc.headlines()[0];
    assert_eq!(h.level(), 4);
    assert_eq!(h.keyword().as_deref(), Some("TODO"));
    assert_eq!(h.priority(), Some('A'));
    assert_eq!(h.title(), "COMMENT Title");
    assert_eq!(tags_of(h), vec!["tag", "a2%"]);
    assert!(h.headlines().is_empty());
    assert!(h.section().is_none());
    assert!(doc.first_section().is_none());
}

#[test]
fn nested_document_with_preamble() {
    let text = "An introduction.\n\n* A Headline\n\n  Some text.\n\n** Sub-Topic 1\n\n** Sub-Topic 2\n\n*** Additional entry";
    let doc = parse(text, vec![]);
    let preamble = doc.first_section().as_ref().unwrap();
    assert_eq!(span_text(text, preamble), "An introduction.\n\n");
    assert_eq!((preamble.start(), preamble.end()), (0, 18));
    assert!(preamble.contents().is_empty());
    assert_eq!(doc.headlines().len(), 1);
    let root = &doc.headlines()[0];
    assert_eq!((root.level(), root.title().as_str()), (1, "A Headline"));
    assert_eq!(span_text(text, root.section().as_ref().unwrap()), "\n  Some text.\n\n");
    assert_eq!(root.headlines().len(), 2);
    let one = &root.headlines()[0];
    assert_eq!((one.level(), one.title().as_str()), (2, "Sub-Topic 1"));
    assert!(one.headlines().is_empty());
    assert_eq!(span_text(text, one.section().as_ref().unwrap()), "\n");
    let two = &root.headlines()[1];
    assert_eq!((two.level(), two.title().as_str()), (2, "Sub-Topic 2"));
    assert_eq!(two.headlines().len(), 1);
    let entry = &two.headlines()[0];
    assert_eq!((entry.level(), entry.title().as_str()), (3, "Additional entry"));
    assert!(entry.headlines().is_empty());
    assert!(entry.section().is_none());
}

#[test]
fn text_without_headlines_is_all_preamble() {
    let text = "Just text.\n*not a headline\n *nor this\n\nEnd";
    let doc = parse(text, vec!["TODO"]);
    assert!(doc.headlines().is_empty());
    let preamble = doc.first_section().as_ref().unwrap();
    assert_eq!(preamble.start(), 0);
    assert_eq!(preamble.end(), text.chars().count());
    assert_eq!(span_text(text, preamble), text);
}

#[test]
fn empty_text_is_an_empty_document() {
    let doc = parse("", vec![]);
    assert!(doc.headlines().is_empty());
    assert!(doc.first_section().is_none());
}

#[test]
fn level_is_the_number_of_markers() {
    for n in 1..40usize {
        let text = format!("{} title", "*".repeat(n));
        let doc = parse(&text, vec![]);
        assert_eq!(doc.headlines().len(), 1);
        assert_eq!(doc.headlines()[0].level(), n);
        assert_eq!(doc.headlines()[0].title(), "title");
    }
}

fn levels_sample(seed: u64, len: usize) -> Vec<usize> {
    let mut state = seed;
    let mut out = Vec::new();
    for _ in 0..len {
        state = state.wrapping_mul(6364136223846793005).wrapping_add(1442695040888963407);
        out.push(1 + ((state >> 33) % 6) as usize);
    }
    out
}

fn text_of_levels(levels: &Vec<usize>) -> String {
    let mut text = String::new();
    for (i, l) in levels.iter().enumerate() {
        text.push_str(&format!("{} h{}\nbody {}\n", "*".repeat(*l), i, i));
    }
    text
}

#[test]
fn preorder_gives_back_the_levels() {
    assert_eq!(text_of_levels(&vec![1, 2]), "* h0\nbody 0\n** h1\nbody 1\n");
    for seed in 0..50u64 {
        let levels = levels_sample(seed, 1 + (seed as usize % 30));
        let doc = parse(&text_of_levels(&levels), vec![]);
        let mut all = Vec::new();
        preorder(doc.headlines(), &mut all);
        assert_eq!(all.iter().map(|h| h.level()).collect::<Vec<_>>(), levels);
        for (i, h) in all.iter().enumerate() {
            assert_eq!(h.title(), &format!("h{}", i));
        }
    }
}

fn check_parents(headlines: &Vec<Headline>, parent: Option<usize>, levels: &Vec<usize>, next: &mut usize) {
    for h in headlines {
        let i = *next;
        *next += 1;
        let mut expected = None;
        for j in (0..i).rev() {
            if levels[j] < levels[i] {
                expected = Some(j);
                break;
            }
        }
        assert_eq!(parent, expected);
        if let Some(p) = parent {
            assert!(levels[p] < h.level());
        }
        check_parents(h.headlines(), Some(i), levels, next);
    }
}

#[test]
fn parent_is_the_nearest_shallower_headline() {
    for seed in 100..160u64 {
        let levels = levels_sample(seed, 1 + (seed as usize % 40));
        let doc = parse(&text_of_levels(&levels), vec![]);
        let mut next = 0;
        check_parents(doc.headlines(), None, &levels, &mut next);
        assert_eq!(next, levels.len());
    }
}

#[test]
fn parent_need_not_have_the_largest_shallower_level() {
    let doc = parse("* a\n*** b\n** c\n**** d\n", vec![]);
    assert_eq!(doc.headlines().len(), 1);
    let a = &doc.headlines()[0];
    assert_eq!(a.headlines().len(), 2);
    assert_eq!(a.headlines()[0].title(), "b");
    assert!(a.headlines()[0].headlines().is_empty());
    let c = &a.headlines()[1];
    assert_eq!((c.level(), c.title().as_str()), (2, "c"));
    assert_eq!(c.headlines().len(), 1);
    assert_eq!(c.headlines()[0].title(), "d");
}

#[test]
fn roots_need_not_be_at_level_one() {
    let doc = parse("*** deep\n* top\n** mid\n* top again", vec![]);
    let titles: Vec<&str> = doc.headlines().iter().map(|h| h.title().as_str()).collect();
    assert_eq!(titles, vec!["deep", "top", "top again"]);
    assert_eq!(doc.headlines()[1].headlines().len(), 1);
    assert_eq!(doc.headlines()[1].headlines()[0].title(), "mid");
}

#[test]
fn explicit_keyword_is_not_altered() {
    for keywords in [vec![], vec!["NEXT"], vec!["Title", "NEXT", "TODO"], vec!["COMMENT"]] {
        let doc = parse("* NEXT [#B] COMMENT Title", keywords);
        let h = &doc.headlines()[0];
        assert_eq!(h.keyword().as_deref(), Some("NEXT"));
        assert_eq!(h.priority(), Some('B'));
        assert_eq!(h.title(), "COMMENT Title");
    }
}

#[test]
fn first_recognized_keyword_wins() {
    let doc = parse("* TODO NEXT write", vec!["NEXT", "TODO", "TODO NEXT"]);
    let h = &doc.headlines()[0];
    assert_eq!(h.keyword().as_deref(), Some("TODO"));
    assert_eq!(h.title(), "NEXT write");
    let doc = parse("* TODO NEXT write", vec!["TODO NEXT", "TODO"]);
    let h = &doc.headlines()[0];
    assert_eq!(h.keyword().as_deref(), Some("TODO NEXT"));
    assert_eq!(h.title(), "write");
}

#[test]
fn keyword_needs_a_word_boundary() {
    let doc = parse("* TODOS are many", vec!["TODO"]);
    let h = &doc.headlines()[0];
    assert_eq!(*h.keyword(), None);
    assert_eq!(h.title(), "TODOS are many");
    let doc = parse("* TODO", vec!["TODO"]);
    let h = &doc.headlines()[0];
    assert_eq!(h.keyword().as_deref(), Some("TODO"));
    assert_eq!(h.title(), "");
    let doc = parse("* TODO \t  spaced", vec!["TODO"]);
    let h = &doc.headlines()[0];
    assert_eq!(h.keyword().as_deref(), Some("TODO"));
    assert_eq!(h.title(), "spaced");
}

#[test]
fn keyword_case_is_significant() {
    let doc = parse("* todo this", vec!["TODO"]);
    assert_eq!(*doc.headlines()[0].keyword(), None);
    assert_eq!(doc.headlines()[0].title(), "todo this");
}

#[test]
fn no_keywords_by_default() {
    let doc = DocumentParser::new().parse("* TODO this").unwrap();
    assert_eq!(*doc.headlines()[0].keyword(), None);
    assert_eq!(doc.headlines()[0].title(), "TODO this");
}

#[test]
fn todo_keywords_replaces_the_list() {
    let parser = DocumentParser::new().todo_keywords(vec!["TODO"]).todo_keywords(vec![String::from("DONE")]);
    let doc = parser.parse("* TODO a\n* DONE b").unwrap();
    assert_eq!(*doc.headlines()[0].keyword(), None);
    assert_eq!(doc.headlines()[0].title(), "TODO a");
    assert_eq!(doc.headlines()[1].keyword().as_deref(), Some("DONE"));
    assert_eq!(doc.headlines()[1].title(), "b");
}

#[test]
fn priority_without_keyword_stays_in_the_title() {
    let doc = parse("* [#A] Title", vec!["TODO"]);
    let h = &doc.headlines()[0];
    assert_eq!(*h.keyword(), None);
    assert_eq!(h.priority(), None);
    assert_eq!(h.title(), "[#A] Title");
}

#[test]
fn malformed_cookie_stays_in_the_title() {
    for line in ["* TODO [A] Title", "* TODO [#AB] Title", "* TODO (#A) Title", "* TODO [#A]Title", "* TODO  [#A] Title"] {
        let doc = parse(line, vec!["TODO"]);
        let h = &doc.headlines()[0];
        assert_eq!(h.keyword().as_deref(), Some("TODO"));
        assert_eq!(h.priority(), None);
        assert_eq!(h.title(), line[7..].trim());
    }
}

#[test]
fn stars_and_a_space_make_an_empty_title() {
    let doc = parse("*** ", vec![]);
    let h = &doc.headlines()[0];
    assert_eq!(h.level(), 3);
    assert_eq!(h.title(), "");
    assert!(h.tags().is_empty());
}

#[test]
fn markers_need_a_space_at_column_zero() {
    let text = "*\n**\n*bold*\n *x\n\t* y\n*\tz\n";
    let doc = parse(text, vec![]);
    assert!(doc.headlines().is_empty());
    assert_eq!(doc.first_section().as_ref().unwrap().end(), text.chars().count());
}

#[test]
fn tag_block_needs_tags() {
    let h = &parse("* Title :", vec![]).headlines()[0].title().clone();
    assert_eq!(h, "Title :");
    let doc = parse("* Title ::", vec![]);
    assert_eq!(doc.headlines()[0].title(), "Title ::");
    assert!(doc.headlines()[0].tags().is_empty());
    let doc = parse("* Title :a::b:", vec![]);
    assert_eq!(doc.headlines()[0].title(), "Title :a:");
    assert_eq!(tags_of(&doc.headlines()[0]), vec!["b"]);
    let doc = parse("* Title :a b:", vec![]);
    assert_eq!(doc.headlines()[0].title(), "Title :a b:");
    assert!(doc.headlines()[0].tags().is_empty());
    let doc = parse("* Title :a: ", vec![]);
    assert_eq!(doc.headlines()[0].title(), "Title :a:");
    assert!(doc.headlines()[0].tags().is_empty());
}

#[test]
fn tags_take_what_they_can_from_the_right() {
    let doc = parse("* a:b:c:", vec![]);
    assert_eq!(doc.headlines()[0].title(), "a");
    assert_eq!(tags_of(&doc.headlines()[0]), vec!["b", "c"]);
    let doc = parse("* :only:tags_@#%9:", vec![]);
    assert_eq!(doc.headlines()[0].title(), "");
    assert_eq!(tags_of(&doc.headlines()[0]), vec!["only", "tags_@#%9"]);
    let doc = parse("* dup :x:x:", vec![]);
    assert_eq!(tags_of(&doc.headlines()[0]), vec!["x", "x"]);
}

#[test]
fn title_is_trimmed() {
    let doc = parse("*    wide   title \t :t:", vec![]);
    assert_eq!(doc.headlines()[0].title(), "wide   title");
    assert_eq!(tags_of(&doc.headlines()[0]), vec!["t"]);
    let doc = parse("* carriage\r\n* next\r\n", vec![]);
    assert_eq!(doc.headlines()[0].title(), "carriage");
    assert_eq!(doc.headlines()[1].title(), "next");
}

#[test]
fn positions_count_characters() {
    let text = "é∑\n* ünï :t:\nбody\n* z";
    let doc = parse(text, vec![]);
    let preamble = doc.first_section().as_ref().unwrap();
    assert_eq!((preamble.start(), preamble.end()), (0, 3));
    assert_eq!(span_text(text, preamble), "é∑\n");
    let h = &doc.headlines()[0];
    assert_eq!(h.title(), "ünï");
    let section = h.section().as_ref().unwrap();
    assert_eq!((section.start(), section.end()), (13, 18));
    assert_eq!(span_text(text, section), "бody\n");
    assert!(doc.headlines()[1].section().is_none());
}

#[test]
fn sections_run_to_the_next_headline_line() {
    let text = "* a\none\n** b\n* c\nlast";
    let doc = parse(text, vec![]);
    let a = &doc.headlines()[0];
    assert_eq!(span_text(text, a.section().as_ref().unwrap()), "one\n");
    assert!(a.headlines()[0].section().is_none());
    let c = &doc.headlines()[1];
    assert_eq!(span_text(text, c.section().as_ref().unwrap()), "last");
    assert_eq!(c.section().as_ref().unwrap().end(), text.len());
}

#[test]
fn parsing_twice_gives_equal_documents() {
    let text = "intro\n* TODO a :x:\ntext\n*** b\n** NEXT [#C] c\n* d\n";
    let parser = DocumentParser::new().todo_keywords(vec!["TODO", "DONE"]);
    let one = parser.parse(text);
    let two = parser.parse(text);
    assert!(one.is_ok());
    assert_eq!(one, two);
    let other = DocumentParser::new().todo_keywords(vec!["TODO", "DONE"]).parse(text);
    assert_eq!(one, other);
    assert_ne!(one, DocumentParser::new().parse(text));
}

#[test]
fn a_clone_is_an_equal_document() {
    let text = "intro\n* TODO a :x:y:\ntext\n*** b\n** NEXT [#C] c\n* d\n";
    let doc = parse(text, vec!["TODO"]);
    let copy = doc.clone();
    assert_eq!(copy, doc);
    assert_eq!(copy.headlines()[0].headlines()[1].priority(), Some('C'));
    assert_eq!(tags_of(&copy.headlines()[0]), vec!["x", "y"]);
    let section = doc.headlines()[0].section().clone().unwrap();
    assert_eq!((section.start(), section.end()), (21, 26));
    let child = doc.headlines()[0].headlines()[0].clone();
    assert_eq!(child, doc.headlines()[0].headlines()[0]);
}

#[test]
fn a_section_lies_in_its_text_only() {
    let text = "é∑\n* ünï :t:\nбody\n* z";
    let doc = parse(text, vec![]);
    let section = doc.headlines()[0].section().as_ref().unwrap();
    assert_eq!(section.text_in(text).as_deref(), Some("бody\n"));
    assert_eq!(section.text_in("0123456789abcdefgh").as_deref(), Some("defgh"));
    assert_eq!(section.text_in("0123456789abcdefg"), None);
    assert_eq!(section.text_in(""), None);
}
