//! Dependencies as a justfile writes them.

use crate::sequences::first_index;
use crate::sequences::lemma_first_index;
use crate::sequences::lemma_first_index_is;
use crate::text::from_chars;
use crate::text::is_word;
use crate::text::lemma_words;
use crate::text::same_text;
use crate::text::split_lines;
use crate::text::split_words;
use crate::text::text_lines;
use crate::text::to_chars;
use crate::text::trim;
use crate::text::trimmed;
use crate::text::views;
use crate::text::words;
use vstd::prelude::*;

verus! {

/// The separator between the dependencies that run before a recipe and those that run after it.
pub open spec fn after_mark() -> Seq<char> {
    seq!['&', '&']
}

/// Whether a line is left out of the search for recipe headers: a comment, an attribute, an
/// empty line, or an indented line of a recipe body.
pub open spec fn is_skipped(line: Seq<char>) -> bool {
    let t = trimmed(line);
    ||| t.len() == 0
    ||| t[0] == '#'
    ||| t[0] == '['
    ||| line[0] == ' '
    ||| line[0] == '\t'
}

/// The first word of a text, which is empty where there is none.
pub open spec fn first_word(s: Seq<char>) -> Seq<char> {
    if words(s).len() > 0 {
        words(s)[0]
    } else {
        Seq::empty()
    }
}

/// Whether a character begins and ends a quoted text.
pub open spec fn is_quote(c: char) -> bool {
    c == '\'' || c == '"' || c == '`'
}

/// The number of characters before the first colon outside quotes, or of all characters where
/// there is no such colon. `quote` is the quote in which the text begins. A backslash between
/// double quotes takes the next character's meaning away.
pub open spec fn colon_after(s: Seq<char>, quote: Option<char>) -> int
    decreases s.len(),
{
    if s.len() == 0 {
        0
    } else {
        match quote {
            None => if s[0] == ':' {
                0
            } else if is_quote(s[0]) {
                1 + colon_after(s.skip(1), Some(s[0]))
            } else {
                1 + colon_after(s.skip(1), None)
            },
            Some(q) => if q == '"' && s[0] == '\\' && s.len() > 1 {
                2 + colon_after(s.skip(2), quote)
            } else if s[0] == q {
                1 + colon_after(s.skip(1), None)
            } else {
                1 + colon_after(s.skip(1), quote)
            },
        }
    }
}

/// The position of the colon that ends the head of a line: the first one outside quotes, or the
/// first of all where none stands outside.
pub open spec fn head_colon(s: Seq<char>) -> int {
    if colon_after(s, None) < s.len() {
        colon_after(s, None)
    } else {
        first_index(s, ':')
    }
}

/// Whether a line is an assignment: its first colon outside quotes begins the sign `:=`.
pub open spec fn is_assignment(s: Seq<char>) -> bool {
    let colon = colon_after(s, None);
    colon + 1 < s.len() && s[colon + 1] == '='
}

/// The dependencies in a recipe header `name [params...]: [deps...]`, up to the mark `&&`. A line
/// that is no header of the recipe `name`, such as an assignment, has none.
pub open spec fn header_deps(line: Seq<char>, name: Seq<char>) -> Option<Seq<Seq<char>>> {
    let t = trimmed(line);
    let colon = head_colon(t);
    if is_skipped(line) || !t.contains(':') || is_assignment(t) || first_word(t.take(colon))
        != name {
        None
    } else {
        let deps = words(t.skip(colon + 1));
        Some(deps.take(first_index(deps, after_mark())))
    }
}

/// The dependencies in the first of `lines` that is a header of the recipe `name`.
pub open spec fn first_header(lines: Seq<Seq<char>>, name: Seq<char>) -> Option<Seq<Seq<char>>>
    decreases lines.len(),
{
    if lines.len() == 0 {
        None
    } else if header_deps(lines[0], name) is Some {
        header_deps(lines[0], name)
    } else {
        first_header(lines.drop_first(), name)
    }
}

/// The dependencies that a justfile writes for the recipe `name`.
pub open spec fn written_deps(content: Seq<char>, name: Seq<char>) -> Option<Seq<Seq<char>>> {
    first_header(text_lines(content), name)
}

/// The views of an optional list of strings.
pub open spec fn opt_views(v: Option<Vec<String>>) -> Option<Seq<Seq<char>>> {
    match v {
        Some(v) => Some(views(v@)),
        None => None,
    }
}

/// The words before the mark `&&`
fn words_before_mark(s: &str) -> (r: Vec<String>)
    ensures
        views(r@) == words(s@).take(first_index(words(s@), after_mark())),
{
    let all: Vec<String> = split_words(s);
    let ghost ws = words(s@);
    let mut r: Vec<String> = Vec::new();
    let mut i: usize = 0;
    proof {
        reveal_strlit("&&");
        assert("&&"@ =~= after_mark());
    }
    while i < all.len() && !same_text(all[i].as_str(), "&&")
        invariant
            i <= all.len(),
            views(all@) == ws,
            "&&"@ == after_mark(),
            views(r@) == ws.take(i as int),
            forall|j: int| 0 <= j < i ==> ws[j] != after_mark(),
        decreases all.len() - i,
    {
        assert(ws[i as int] == all@[i as int]@);
        let ghost before = views(r@);
        r.push(all[i].clone());
        assert(views(r@) =~= before.push(ws[i as int]));
        assert(ws.take(i + 1) =~= ws.take(i as int).push(ws[i as int]));
        i = i + 1;
    }
    proof {
        if i < all.len() {
            assert(ws[i as int] == all@[i as int]@);
        }
        lemma_first_index_is(ws, after_mark(), i as int);
    }
    r
}

/// The position of the first colon outside quotes, or the length where there is none
fn find_outer_colon(t: &Vec<char>) -> (r: usize)
    ensures
        r == colon_after(t@, None),
        r <= t@.len(),
{
    let mut i: usize = 0;
    let mut quote: Option<char> = None;
    assert(t@.skip(0) =~= t@);
    while i < t.len()
        invariant
            i <= t.len(),
            i + colon_after(t@.skip(i as int), quote) == colon_after(t@, None),
        decreases t.len() - i,
    {
        let ghost rest = t@.skip(i as int);
        let c: char = t[i];
        assert(rest[0] == c);
        assert(rest.skip(1) =~= t@.skip(i + 1));
        let mut step: usize = 1;
        match quote {
            None => {
                if c == ':' {
                    return i;
                }
                if c == '\'' || c == '"' || c == '`' {
                    quote = Some(c);
                }
            },
            Some(q) => {
                if q == '"' && c == '\\' && t.len() - i > 1 {
                    assert(rest.skip(2) =~= t@.skip(i + 2));
                    step = 2;
                } else if c == q {
                    quote = None;
                }
            },
        }
        i = i + step;
    }
    i
}

/// The dependencies in a line, where it is a header of the recipe `name`
fn deps_in_line(line: &str, name: &str) -> (r: Option<Vec<String>>)
    ensures
        opt_views(r) == header_deps(line@, name@),
{
    let text: String = trim(line);
    let t: Vec<char> = to_chars(text.as_str());
    if t.len() == 0 || t[0] == '#' || t[0] == '[' {
        return None;
    }
    let l: Vec<char> = to_chars(line);
    if l[0] == ' ' || l[0] == '\t' {
        return None;
    }
    let mut colon: usize = find_outer_colon(&t);
    if t.len() - colon > 1 && t[colon + 1] == '=' {
        return None;
    }
    if colon == t.len() {
        colon = 0;
        while colon < t.len() && t[colon] != ':'
            invariant
                colon <= t.len(),
                forall|j: int| 0 <= j < colon ==> t@[j] != ':',
            decreases t.len() - colon,
        {
            colon = colon + 1;
        }
        proof {
            lemma_first_index_is(t@, ':', colon as int);
        }
    }
    proof {
        lemma_first_index(t@, ':');
        lemma_colon_after(t@, None);
    }
    if colon == t.len() {
        return None;
    }
    let before: String = from_chars(&t, 0, colon);
    assert(before@ =~= t@.take(colon as int));
    let head: Vec<String> = split_words(before.as_str());
    let is_header: bool = if head.len() > 0 {
        assert(views(head@)[0] == head@[0]@);
        same_text(head[0].as_str(), name)
    } else {
        assert(words(before@) == views(head@));
        assert((name@.len() == 0) == (name@ =~= Seq::<char>::empty()));
        name.is_empty()
    };
    if !is_header {
        return None;
    }
    let after: String = from_chars(&t, colon + 1, t.len());
    assert(after@ =~= t@.skip(colon + 1));
    Some(words_before_mark(after.as_str()))
}

/// The dependencies that the justfile `content` writes for the recipe `name`
pub fn read_deps(content: &str, name: &str) -> (r: Option<Vec<String>>)
    ensures
        opt_views(r) == written_deps(content@, name@),
{
    let lines: Vec<String> = split_lines(content);
    let ghost all = text_lines(content@);
    assert(all.skip(0) =~= all);
    for i in 0..lines.len()
        invariant
            views(lines@) == all,
            first_header(all.skip(i as int), name@) == first_header(all, name@),
            all == text_lines(content@),
    {
        let ghost rest = all.skip(i as int);
        assert(rest[0] == lines@[i as int]@);
        assert(rest.drop_first() =~= all.skip(i + 1));
        let found: Option<Vec<String>> = deps_in_line(lines[i].as_str(), name);
        if found.is_some() {
            return found;
        }
    }
    assert(all.skip(lines.len() as int) =~= Seq::<Seq<char>>::empty());
    None
}

/// The first colon outside quotes is a colon.
pub proof fn lemma_colon_after(s: Seq<char>, quote: Option<char>)
    ensures
        0 <= colon_after(s, quote) <= s.len(),
        colon_after(s, quote) < s.len() ==> s[colon_after(s, quote)] == ':' && s.contains(':'),
    decreases s.len(),
{
    if s.len() > 0 {
        if s.len() > 1 {
            lemma_colon_after(s.skip(2), quote);
        }
        lemma_colon_after(s.skip(1), None);
        lemma_colon_after(s.skip(1), quote);
        lemma_colon_after(s.skip(1), Some(s[0]));
        let k = colon_after(s, quote);
        assert(k < s.len() ==> s[k] == ':');
    }
}

/// Where no quote stands before the first colon, that colon ends the head of the line.
pub proof fn head_ends_at_the_first_colon(s: Seq<char>)
    requires
        forall|j: int| 0 <= j < first_index(s, ':') ==> !is_quote(#[trigger] s[j]),
    ensures
        head_colon(s) == first_index(s, ':'),
{
    lemma_no_quotes(s);
}

proof fn lemma_no_quotes(s: Seq<char>)
    requires
        forall|j: int| 0 <= j < first_index(s, ':') ==> !is_quote(#[trigger] s[j]),
    ensures
        colon_after(s, None) == first_index(s, ':'),
    decreases s.len(),
{
    if s.len() > 0 && s[0] != ':' {
        let t = s.skip(1);
        assert(s.drop_first() =~= t);
        lemma_first_index(t, ':');
        assert(!is_quote(s[0]));
        assert forall|j: int| 0 <= j < first_index(t, ':') implies !is_quote(#[trigger] t[j]) by {
            assert(t[j] == s[j + 1]);
        }
        lemma_no_quotes(t);
    }
}

/// An assignment in front of a justfile does not change what is found in it: a variable and a
/// recipe may have the same name.
pub proof fn assignments_are_passed_over(line: Seq<char>, rest: Seq<Seq<char>>, name: Seq<char>)
    requires
        is_assignment(trimmed(line)),
    ensures
        first_header(seq![line] + rest, name) == first_header(rest, name),
{
    assert((seq![line] + rest).drop_first() =~= rest);
}

/// A dependency that a justfile writes is a word, and not the mark that ends the dependencies
/// which run before the recipe.
pub proof fn written_deps_are_words(content: Seq<char>, name: Seq<char>)
    ensures
        written_deps(content, name) matches Some(deps) ==> forall|i: int|
            0 <= i < deps.len() ==> is_word(#[trigger] deps[i]) && deps[i] != after_mark(),
{
    lemma_header_words(text_lines(content), name);
}

proof fn lemma_header_words(lines: Seq<Seq<char>>, name: Seq<char>)
    ensures
        first_header(lines, name) matches Some(deps) ==> forall|i: int|
            0 <= i < deps.len() ==> is_word(#[trigger] deps[i]) && deps[i] != after_mark(),
    decreases lines.len(),
{
    if lines.len() > 0 {
        if header_deps(lines[0], name) is Some {
            let t = trimmed(lines[0]);
            let all = words(t.skip(head_colon(t) + 1));
            lemma_words(t.skip(head_colon(t) + 1));
            lemma_first_index(all, after_mark());
            let deps = all.take(first_index(all, after_mark()));
            assert forall|i: int| 0 <= i < deps.len() implies is_word(#[trigger] deps[i])
                && deps[i] != after_mark() by {
                assert(deps[i] == all[i]);
            }
        } else {
            lemma_header_words(lines.drop_first(), name);
        }
    }
}

} // verus!
