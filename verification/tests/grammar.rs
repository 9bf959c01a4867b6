use orgdoc::headline::match_line;
use regex::Regex;

type Parts = (usize, Option<String>, Option<char>, String, Vec<String>);

fn by_pattern(pattern: &Regex, line: &str) -> Option<Parts> {
    let found = pattern.captures(line)?;
    let level = found.get(1).unwrap().as_str().chars().count();
    let keyword = found.get(2).map(|m| m.as_str().to_string());
    let priority = found.get(3).map(|m| m.as_str().chars().next().unwrap());
    let title = found.get(4).map(|m| m.as_str().trim().to_string()).unwrap_or_default();
    let tags = found
        .get(5)
        .map(|m| m.as_str())
        .map(|s| s[1..s.len() - 1].split(':').map(String::from).collect())
        .unwrap_or_default();
    Some((level, keyword, priority, title, tags))
}

fn by_matcher(line: &str) -> Option<Parts> {
    let chars: Vec<char> = line.chars().collect();
    let m = match_line(&chars, 7)?;
    assert_eq!(m.start, 7);
    assert_eq!(m.end, 7 + chars.len());
    Some((m.level, m.keyword, m.priority, m.title, m.tags))
}

struct Sample(u64);

impl Sample {
    fn next(&mut self, below: usize) -> usize {
        self.0 = self.0.wrapping_mul(6364136223846793005).wrapping_add(1442695040888963407);
        ((self.0 >> 33) % below as u64) as usize
    }

    fn line(&mut self, alphabet: &[char], longest: usize) -> String {
        let len = self.next(longest + 1);
        (0..len).map(|_| alphabet[self.next(alphabet.len())]).collect()
    }

    fn pick<'a>(&mut self, from: &[&'a str]) -> &'a str {
        from[self.next(from.len())]
    }
}

fn with_space_only() -> Regex {
    Regex::new(r"^(\*+) (?:(\S+) \[#(.)\] )?(.*?)\s*(:(?:[a-zA-Z0-9_@#%]+:)+)?$").unwrap()
}

fn with_any_whitespace() -> Regex {
    Regex::new(r"^(\*+)\s(?:(\S+)\s\[#(.)\]\s)?(.*?)\s*(:(?:[a-zA-Z0-9_@#%]+:)+)?$").unwrap()
}

#[test]
fn matcher_agrees_with_the_pattern_on_sample_lines() {
    let pattern = with_space_only();
    for line in [
        "**** TODO [#A] COMMENT Title :tag:a2%:",
        "* Hello!",
        "** This is a second heading",
        "*",
        "* ",
        "*  ",
        "** :a:",
        "* a:b:c:",
        "* a :b::c:",
        "* a :b: ",
        "* TODO [#A]",
        "* TODO [#A] ",
        "* TODO [#] x",
        "* [#A] x",
        "*  TODO [#A] x",
        "* TODO [#é] x :é:",
        "* x\t:t:",
        "*\tx",
        "* k\t[#A] x",
        "* k [#A]\tx",
        " * x",
        "text",
        "",
    ] {
        assert_eq!(by_matcher(line), by_pattern(&pattern, line), "{:?}", line);
    }
}

#[test]
fn matcher_agrees_with_the_pattern_on_random_lines() {
    let pattern = with_space_only();
    let alphabet = ['*', '*', ' ', ' ', ':', ':', 'a', 'T', '[', '#', ']', '%', '-', 'é', '\t', '\u{A0}', '\r'];
    let mut sample = Sample(1);
    let mut headlines = 0;
    for _ in 0..60000 {
        let mut line = String::from(["", "*", "** "][sample.next(3)]);
        line.push_str(&sample.line(&alphabet, 14));
        let found = by_matcher(&line);
        assert_eq!(found, by_pattern(&pattern, &line), "{:?}", line);
        if found.is_some() {
            headlines += 1;
        }
    }
    assert!(headlines > 1000);
}

#[test]
fn matcher_agrees_with_the_pattern_on_built_lines() {
    let pattern = with_space_only();
    let stars = ["*", "**", "***", ""];
    let gaps = [" ", " ", "  ", "", "\t"];
    let words = ["TODO", "DONE", "x", "a:b", ":a:", "[#A]", "", "é"];
    let cookies = ["[#A]", "[#B]", "[#]", "[A]", "[#AB]", "[# ]", "[#:]"];
    let tails = ["", ":a:", ":a:b:", ":a::b:", ":", "::", ":a b:", ":a:  ", " :@#%_9:", ":é:"];
    let mut sample = Sample(2);
    let mut cookies_found = 0;
    let mut tags_found = 0;
    for _ in 0..60000 {
        let mut line = String::new();
        line.push_str(sample.pick(&stars));
        line.push_str(sample.pick(&gaps));
        line.push_str(sample.pick(&words));
        if sample.next(2) == 0 {
            line.push_str(sample.pick(&gaps));
            line.push_str(sample.pick(&cookies));
        }
        line.push_str(sample.pick(&gaps));
        line.push_str(sample.pick(&words));
        line.push_str(sample.pick(&gaps));
        line.push_str(sample.pick(&words));
        line.push_str(sample.pick(&gaps));
        line.push_str(sample.pick(&tails));
        let found = by_matcher(&line);
        assert_eq!(found, by_pattern(&pattern, &line), "{:?}", line);
        if let Some((_, keyword, _, _, tags)) = found {
            cookies_found += keyword.is_some() as usize;
            tags_found += !tags.is_empty() as usize;
        }
    }
    assert!(cookies_found > 500);
    assert!(tags_found > 500);
}

#[test]
fn a_space_is_the_only_whitespace_in_the_sample() {
    let narrow = with_space_only();
    let wide = with_any_whitespace();
    let alphabet = ['*', '*', ' ', ' ', ':', ':', 'a', 'T', '[', '#', ']', '%', '-', 'é'];
    let mut sample = Sample(3);
    for _ in 0..60000 {
        let mut line = String::from(["", "*", "** "][sample.next(3)]);
        line.push_str(&sample.line(&alphabet, 14));
        let found = by_matcher(&line);
        assert_eq!(found, by_pattern(&narrow, &line), "{:?}", line);
        assert_eq!(found, by_pattern(&wide, &line), "{:?}", line);
    }
}
