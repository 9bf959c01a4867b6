//! Characters of a document: their classes, runs of one class, and the conversions
//! between strings and character sequences.

use vstd::prelude::*;
use vstd::slice::slice_subrange;

verus! {

/// Whether `c` is a whitespace character.
pub open spec fn is_whitespace(c: char) -> bool {
    let n = c as u32;
    ||| 0x09 <= n <= 0x0D
    ||| n == 0x20
    ||| n == 0x85
    ||| n == 0xA0
    ||| n == 0x1680
    ||| 0x2000 <= n <= 0x200A
    ||| n == 0x2028
    ||| n == 0x2029
    ||| n == 0x202F
    ||| n == 0x205F
    ||| n == 0x3000
}

/// Whether `c` may stand in a tag: a letter or digit of ASCII, or one of `_`, `@`, `#`, `%`.
pub open spec fn is_tag_char(c: char) -> bool {
    ||| 'a' <= c <= 'z'
    ||| 'A' <= c <= 'Z'
    ||| '0' <= c <= '9'
    ||| c == '_'
    ||| c == '@'
    ||| c == '#'
    ||| c == '%'
}

/// The classes of characters that the headline grammar tells apart.
#[derive(Debug, Clone, Copy, PartialEq, Eq)]
pub enum CharClass {
    /// The marker `*`.
    Marker,
    /// Whitespace.
    Blank,
    /// Anything but whitespace.
    Solid,
    /// Anything but a line break.
    Inline,
    /// A character of a tag.
    Tag,
}

/// Whether `c` is in `class`.
pub open spec fn in_class(c: char, class: CharClass) -> bool {
    match class {
        CharClass::Marker => c == '*',
        CharClass::Blank => is_whitespace(c),
        CharClass::Solid => !is_whitespace(c),
        CharClass::Inline => c != '\n',
        CharClass::Tag => is_tag_char(c),
    }
}

/// Whether `c` is in `class`.
pub fn class_has(c: char, class: CharClass) -> (r: bool)
    ensures
        r == in_class(c, class),
{
    let n: u32 = c as u32;
    let blank = (0x09 <= n && n <= 0x0D) || n == 0x20 || n == 0x85 || n == 0xA0 || n == 0x1680 || (
    0x2000 <= n && n <= 0x200A) || n == 0x2028 || n == 0x2029 || n == 0x202F || n == 0x205F || n
        == 0x3000;
    match class {
        CharClass::Marker => c == '*',
        CharClass::Blank => blank,
        CharClass::Solid => !blank,
        CharClass::Inline => c != '\n',
        CharClass::Tag => ('a' <= c && c <= 'z') || ('A' <= c && c <= 'Z') || ('0' <= c && c
            <= '9') || c == '_' || c == '@' || c == '#' || c == '%',
    }
}

/// The length of the longest run of characters of `class` at the front of `s`.
pub open spec fn prefix_len(s: Seq<char>, class: CharClass) -> nat
    decreases s.len(),
{
    if s.len() > 0 && in_class(s[0], class) {
        1 + prefix_len(s.drop_first(), class)
    } else {
        0
    }
}

/// The length of the longest run of characters of `class` at the back of `s`.
pub open spec fn suffix_len(s: Seq<char>, class: CharClass) -> nat
    decreases s.len(),
{
    if s.len() > 0 && in_class(s.last(), class) {
        1 + suffix_len(s.drop_last(), class)
    } else {
        0
    }
}

/// A run at the front that the next character ends is the longest one.
pub proof fn lemma_prefix_len_is(s: Seq<char>, class: CharClass, k: int)
    requires
        0 <= k <= s.len(),
        forall|j: int| 0 <= j < k ==> in_class(#[trigger] s[j], class),
        k < s.len() ==> !in_class(s[k], class),
    ensures
        prefix_len(s, class) == k,
    decreases k,
{
    if k > 0 {
        let t = s.drop_first();
        assert forall|j: int| 0 <= j < k - 1 implies in_class(#[trigger] t[j], class) by {
            assert(t[j] == s[j + 1]);
        }
        lemma_prefix_len_is(t, class, k - 1);
    }
}

/// The longest run at the front lies in `s`, holds the class only, and ends where `s`
/// ends or the class does.
pub proof fn lemma_prefix_len(s: Seq<char>, class: CharClass)
    ensures
        prefix_len(s, class) <= s.len(),
        forall|j: int| 0 <= j < prefix_len(s, class) ==> in_class(#[trigger] s[j], class),
        prefix_len(s, class) < s.len() ==> !in_class(s[prefix_len(s, class) as int], class),
    decreases s.len(),
{
    if s.len() > 0 && in_class(s[0], class) {
        let t = s.drop_first();
        lemma_prefix_len(t, class);
        assert forall|j: int| 0 <= j < prefix_len(s, class) implies in_class(
            #[trigger] s[j],
            class,
        ) by {
            if j > 0 {
                assert(s[j] == t[j - 1]);
            }
        }
    }
}

/// A run at the back that the character before it ends is the longest one.
pub proof fn lemma_suffix_len_is(s: Seq<char>, class: CharClass, k: int)
    requires
        0 <= k <= s.len(),
        forall|j: int| s.len() - k <= j < s.len() ==> in_class(#[trigger] s[j], class),
        k < s.len() ==> !in_class(s[s.len() - k - 1], class),
    ensures
        suffix_len(s, class) == k,
    decreases k,
{
    if k > 0 {
        let t = s.drop_last();
        assert forall|j: int| t.len() - (k - 1) <= j < t.len() implies in_class(
            #[trigger] t[j],
            class,
        ) by {
            assert(t[j] == s[j]);
        }
        lemma_suffix_len_is(t, class, k - 1);
    }
}

/// The longest run at the back lies in `s`, holds the class only, and starts where `s`
/// starts or the class does.
pub proof fn lemma_suffix_len(s: Seq<char>, class: CharClass)
    ensures
        suffix_len(s, class) <= s.len(),
        forall|j: int|
            s.len() - suffix_len(s, class) <= j < s.len() ==> in_class(#[trigger] s[j], class),
        suffix_len(s, class) < s.len() ==> !in_class(
            s[s.len() - suffix_len(s, class) - 1],
            class,
        ),
    decreases s.len(),
{
    if s.len() > 0 && in_class(s.last(), class) {
        let t = s.drop_last();
        lemma_suffix_len(t, class);
        assert forall|j: int| s.len() - suffix_len(s, class) <= j < s.len() implies in_class(
            #[trigger] s[j],
            class,
        ) by {
            if j < s.len() - 1 {
                assert(s[j] == t[j]);
            }
        }
    }
}

/// The position in `s` at which the run of `class` that starts at `from` ends.
pub fn scan(s: &[char], from: usize, class: CharClass) -> (r: usize)
    requires
        from <= s.len(),
    ensures
        r == from + prefix_len(s@.skip(from as int), class),
        from <= r <= s.len(),
{
    let mut i: usize = from;
    while i < s.len() && class_has(s[i], class)
        invariant
            from <= i <= s.len(),
            forall|j: int| from <= j < i ==> in_class(#[trigger] s@[j], class),
        decreases s.len() - i,
    {
        i += 1;
    }
    proof {
        let t = s@.skip(from as int);
        assert forall|j: int| 0 <= j < i - from implies in_class(#[trigger] t[j], class) by {
            assert(t[j] == s@[from + j]);
        }
        lemma_prefix_len_is(t, class, i - from);
    }
    i
}

/// The position in `s` at which the run of `class` that ends before `to` starts.
pub fn scan_back(s: &[char], to: usize, class: CharClass) -> (r: usize)
    requires
        to <= s.len(),
    ensures
        r == to - suffix_len(s@.take(to as int), class),
        r <= to,
{
    let mut i: usize = to;
    while i > 0 && class_has(s[i - 1], class)
        invariant
            i <= to <= s.len(),
            forall|j: int| i <= j < to ==> in_class(#[trigger] s@[j], class),
        decreases i,
    {
        i -= 1;
    }
    proof {
        let t = s@.take(to as int);
        assert forall|j: int| t.len() - (to - i) <= j < t.len() implies in_class(
            #[trigger] t[j],
            class,
        ) by {
            assert(t[j] == s@[j]);
        }
        lemma_suffix_len_is(t, class, to - i);
    }
    i
}

/// `s` without the whitespace at its back.
pub open spec fn trim_end(s: Seq<char>) -> Seq<char> {
    s.take(s.len() - suffix_len(s, CharClass::Blank))
}

/// `s` without the whitespace at its front.
pub open spec fn trim_start(s: Seq<char>) -> Seq<char> {
    s.skip(prefix_len(s, CharClass::Blank) as int)
}

/// `s` without the whitespace at its front and at its back.
pub open spec fn trim(s: Seq<char>) -> Seq<char> {
    trim_start(trim_end(s))
}

/// The bounds in `s` of what is left of `s[from..to]` without the whitespace at its front
/// and at its back.
pub fn trim_bounds(s: &[char], from: usize, to: usize) -> (r: (usize, usize))
    requires
        from <= to <= s.len(),
    ensures
        from <= r.0 <= r.1 <= to,
        s@.subrange(r.0 as int, r.1 as int) == trim(s@.subrange(from as int, to as int)),
{
    let part = slice_subrange(s, from, to);
    let e = scan_back(part, to - from, CharClass::Blank);
    let kept = slice_subrange(part, 0, e);
    let b = scan(kept, 0, CharClass::Blank);
    proof {
        assert(part@.take((to - from) as int) =~= part@);
        assert(kept@ =~= trim_end(part@));
        assert(kept@.skip(0) =~= kept@);
        assert(s@.subrange(from + b, from + e) =~= trim(part@));
    }
    (from + b, from + e)
}

/// `String::push` of the standard library: the string afterwards is the string before
/// with `c` after its last character.
pub assume_specification[ String::push ](s: &mut String, c: char)
    ensures
        final(s)@ == old(s)@.push(c),
;

/// The characters of `text`.
pub fn to_chars(text: &str) -> (r: Vec<char>)
    ensures
        r@ == text@,
{
    let mut out: Vec<char> = Vec::new();
    for c in it: text.chars()
        invariant
            it.seq() == text@,
            out@ == it.seq().take(it.index()),
    {
        out.push(c);
    }
    out
}

/// The string of the characters `s[from..to]`.
pub fn from_chars(s: &[char], from: usize, to: usize) -> (r: String)
    requires
        from <= to <= s.len(),
    ensures
        r@ == s@.subrange(from as int, to as int),
{
    let mut out = String::new();
    let mut i: usize = from;
    while i < to
        invariant
            from <= i <= to <= s.len(),
            out@ == s@.subrange(from as int, i as int),
        decreases to - i,
    {
        out.push(s[i]);
        assert(s@.subrange(from as int, i as int).push(s@[i as int]) =~= s@.subrange(
            from as int,
            i + 1,
        ));
        i += 1;
    }
    out
}

/// The character sequences of a sequence of strings.
pub open spec fn strings_view(v: Seq<String>) -> Seq<Seq<char>> {
    Seq::new(v.len(), |i: int| v[i]@)
}

/// The character sequence of an optional string.
pub open spec fn option_view(o: Option<String>) -> Option<Seq<char>> {
    match o {
        Some(s) => Some(s@),
        None => None,
    }
}

} // verus!
