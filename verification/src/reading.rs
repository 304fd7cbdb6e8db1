//! How text is split and put together, and what is read in a justfile.

use crate::output::shortened;
use crate::sequences::first_index;
use crate::sequences::lemma_first_index;
use crate::sequences::lemma_first_index_is;
use crate::source::after_mark;
use crate::source::colon_after;
use crate::source::first_header;
use crate::source::header_deps;
use crate::source::is_quote;
use crate::source::lemma_colon_after;
use crate::source::written_deps;
use crate::text::decimal;
use crate::text::is_white_space;
use crate::text::is_word;
use crate::text::joined;
use crate::text::lemma_word_len_is;
use crate::text::text_lines;
use crate::text::trim_end;
use crate::text::trim_start;
use crate::text::trimmed;
use crate::text::words;
use vstd::prelude::*;

verus! {

/// `t` is the part of `s` from one position up to another, what is cut off is white space, and
/// no white space stands at its ends.
pub open spec fn is_core(s: Seq<char>, t: Seq<char>, i: int, j: int) -> bool {
    &&& 0 <= i <= j <= s.len()
    &&& t == s.subrange(i, j)
    &&& forall|k: int| 0 <= k < s.len() && (k < i || j <= k) ==> is_white_space(#[trigger] s[k])
    &&& t.len() > 0 ==> !is_white_space(t[0]) && !is_white_space(t.last())
}

proof fn lemma_trim_start_at(s: Seq<char>) -> (i: int)
    ensures
        0 <= i <= s.len(),
        trim_start(s) == s.skip(i),
        forall|k: int| 0 <= k < i ==> is_white_space(#[trigger] s[k]),
        i < s.len() ==> !is_white_space(s[i]),
    decreases s.len(),
{
    if s.len() > 0 && is_white_space(s[0]) {
        let t = s.drop_first();
        let i = lemma_trim_start_at(t);
        assert(t.skip(i) =~= s.skip(i + 1));
        assert forall|k: int| 0 <= k < i + 1 implies is_white_space(#[trigger] s[k]) by {
            if k > 0 {
                assert(t[k - 1] == s[k]);
            }
        }
        i + 1
    } else {
        assert(s.skip(0) =~= s);
        0
    }
}

proof fn lemma_trim_end_at(s: Seq<char>) -> (j: int)
    ensures
        0 <= j <= s.len(),
        trim_end(s) == s.take(j),
        forall|k: int| j <= k < s.len() ==> is_white_space(#[trigger] s[k]),
        j > 0 ==> !is_white_space(s[j - 1]),
    decreases s.len(),
{
    if s.len() > 0 && is_white_space(s.last()) {
        let t = s.drop_last();
        let j = lemma_trim_end_at(t);
        assert(t.take(j) =~= s.take(j));
        assert forall|k: int| j <= k < s.len() implies is_white_space(#[trigger] s[k]) by {
            if k < t.len() {
                assert(t[k] == s[k]);
            }
        }
        j
    } else {
        assert(s.take(s.len() as int) =~= s);
        s.len() as int
    }
}

/// Trimming cuts off white space at both ends, all of it, and nothing else.
pub proof fn trimming_cuts_white_space_only(s: Seq<char>)
    ensures
        exists|i: int, j: int| #[trigger] is_core(s, trimmed(s), i, j),
{
    let i = lemma_trim_start_at(s);
    let t = s.skip(i);
    let n = lemma_trim_end_at(t);
    assert(t.take(n) =~= s.subrange(i, i + n));
    assert forall|k: int| 0 <= k < s.len() && (k < i || i + n <= k) implies is_white_space(
        #[trigger] s[k],
    ) by {
        if k >= i {
            assert(t[k - i] == s[k]);
        }
    }
    assert(n > 0 ==> t[0] == s[i] && t[n - 1] == s[i + n - 1]);
    assert(is_core(s, trimmed(s), i, i + n));
}

/// A preview is the trimmed text where that is short enough, and else its first characters with
/// an ellipsis behind them, as many as may be seen.
pub proof fn preview_begins_as_the_text(text: Seq<char>, max_visible: nat)
    ensures
        trimmed(text).len() <= max_visible ==> shortened(text, max_visible) == trimmed(text),
        trimmed(text).len() > max_visible ==> {
            let p = shortened(text, max_visible);
            &&& p.len() == max_visible + 1
            &&& p.last() == '…'
            &&& p.drop_last().is_prefix_of(trimmed(text))
        },
{
    if trimmed(text).len() > max_visible {
        let p = shortened(text, max_visible);
        assert(p.drop_last() =~= trimmed(text).take(max_visible as int));
    }
}

/// The text up to a line feed is the first line, without a carriage return at its end, and the
/// lines of the rest follow. A text without line feeds is one line, and an empty one none.
pub proof fn lines_end_with_line_feeds(line: Seq<char>, rest: Seq<char>)
    requires
        !line.contains('\n'),
    ensures
        text_lines(line + seq!['\n'] + rest) == seq![
            if line.len() > 0 && line.last() == '\r' {
                line.drop_last()
            } else {
                line
            },
        ] + text_lines(rest),
        line.len() > 0 ==> text_lines(line) == seq![line],
        text_lines(Seq::<char>::empty()) == Seq::<Seq<char>>::empty(),
{
    let s = line + seq!['\n'] + rest;
    let n = line.len() as int;
    assert forall|j: int| 0 <= j < n implies s[j] != '\n' by {
        assert(line.contains(line[j]));
        assert(s[j] == line[j]);
    }
    assert(s[n] == '\n');
    lemma_first_index_is(s, '\n', n);
    assert(s.take(n) =~= line);
    assert(s.skip(n + 1) =~= rest);
    lemma_first_index(line, '\n');
}

proof fn lemma_word_then(word: Seq<char>, rest: Seq<char>)
    requires
        is_word(word),
        rest.len() > 0 ==> is_white_space(rest[0]),
    ensures
        words(word + rest) == seq![word] + words(rest),
{
    let s = word + rest;
    let n = word.len() as int;
    assert forall|j: int| 0 <= j < n implies !is_white_space(s[j]) by {
        assert(s[j] == word[j]);
    }
    assert(rest.len() > 0 ==> s[n] == rest[0]);
    lemma_word_len_is(s, n);
    assert(s[0] == word[0]);
    assert(s.take(n) =~= word);
    assert(s.skip(n) =~= rest);
}

/// White space in front of a text changes nothing of its words. A word in front of white space
/// is the first word, and the words of the rest follow. A word alone is the only one.
pub proof fn words_stand_between_white_space(word: Seq<char>, c: char, rest: Seq<char>)
    requires
        is_word(word),
        is_white_space(c),
    ensures
        words(seq![c] + rest) == words(rest),
        words(word + seq![c] + rest) == seq![word] + words(rest),
        words(word) == seq![word],
        words(Seq::<char>::empty()) == Seq::<Seq<char>>::empty(),
{
    let behind = seq![c] + rest;
    assert(behind.drop_first() =~= rest);
    assert(words(behind) == words(rest));
    lemma_word_then(word, behind);
    assert(word + seq![c] + rest =~= word + behind);
    lemma_word_then(word, Seq::empty());
    assert(word + Seq::<char>::empty() =~= word);
    assert(seq![word] + words(Seq::<char>::empty()) =~= seq![word]);
}

/// Joining puts one separator between two lists of texts. One text is joined to itself, and none
/// to nothing.
pub proof fn joining_puts_separators_between(
    a: Seq<Seq<char>>,
    b: Seq<Seq<char>>,
    separator: Seq<char>,
)
    requires
        a.len() > 0,
        b.len() > 0,
    ensures
        joined(a + b, separator) == joined(a, separator) + separator + joined(b, separator),
        joined(seq![a[0]], separator) == a[0],
        joined(Seq::<Seq<char>>::empty(), separator) == Seq::<char>::empty(),
    decreases b.len(),
{
    let all = a + b;
    assert(all.last() == b.last());
    assert(all.drop_last() =~= a + b.drop_last());
    if b.len() == 1 {
        assert(a + b.drop_last() =~= a);
    } else {
        joining_puts_separators_between(a, b.drop_last(), separator);
        assert(joined(all, separator) =~= joined(a, separator) + separator + joined(b, separator));
    }
}

/// The number that decimal digits stand for.
pub open spec fn number(s: Seq<char>) -> int
    decreases s.len(),
{
    if s.len() == 0 {
        0
    } else {
        number(s.drop_last()) * 10 + (s.last() as int - '0' as int)
    }
}

/// A number in decimal stands for the number, is made of digits, and has no zeros in front.
pub proof fn decimal_is_the_number(n: nat)
    ensures
        number(decimal(n)) == n,
        decimal(n).len() > 0,
        forall|i: int| 0 <= i < decimal(n).len() ==> '0' <= #[trigger] decimal(n)[i] <= '9',
        decimal(n).len() > 1 ==> decimal(n)[0] != '0',
    decreases n,
{
    let s = decimal(n);
    if n < 10 {
        assert(s.drop_last() =~= Seq::<char>::empty());
        assert(number(s.drop_last()) == 0);
        assert(s.last() as int == 48 + n);
    } else {
        let q = n / 10;
        decimal_is_the_number(q);
        assert(s.drop_last() =~= decimal(q));
        assert(s.last() as int == 48 + n % 10);
        assert(s[0] == decimal(q)[0]);
        if decimal(q).len() == 1 {
            assert(decimal(q).drop_last() =~= Seq::<char>::empty());
            assert(number(decimal(q).drop_last()) == 0);
            assert(decimal(q).last() == decimal(q)[0]);
        }
    }
}

proof fn lemma_trim_end_behind(a: Seq<char>, b: Seq<char>)
    requires
        a.len() > 0,
        !is_white_space(a.last()),
    ensures
        trim_end(a + b) == a + trim_end(b),
    decreases b.len(),
{
    let s = a + b;
    if b.len() == 0 {
        assert(s =~= a);
        assert(a + trim_end(b) =~= a);
    } else {
        assert(s.last() == b.last());
        if is_white_space(b.last()) {
            assert(s.drop_last() =~= a + b.drop_last());
            lemma_trim_end_behind(a, b.drop_last());
        }
    }
}

proof fn lemma_words_trailing(s: Seq<char>)
    requires
        s.len() > 0,
        is_white_space(s.last()),
    ensures
        words(s) == words(s.drop_last()),
    decreases s.len(),
{
    let t = s.drop_last();
    if s.len() == 1 {
        assert(s.drop_first() =~= Seq::<char>::empty());
        assert(t =~= Seq::<char>::empty());
    } else if is_white_space(s[0]) {
        lemma_words_trailing(s.drop_first());
        assert(s.drop_first().drop_last() =~= t.drop_first());
    } else {
        let n = lemma_word_end(s);
        assert forall|j: int| 0 <= j < n implies !is_white_space(t[j]) by {
            assert(t[j] == s[j]);
        }
        assert(n < t.len() ==> t[n] == s[n]);
        lemma_word_len_is(s, n);
        lemma_word_len_is(t, n);
        assert(s.take(n) =~= t.take(n));
        lemma_words_trailing(s.skip(n));
        assert(s.skip(n).drop_last() =~= t.skip(n));
    }
}

/// Where the first word of a text with white space ends.
proof fn lemma_word_end(s: Seq<char>) -> (n: int)
    requires
        s.len() > 0,
        is_white_space(s.last()),
        !is_white_space(s[0]),
    ensures
        0 < n < s.len(),
        is_white_space(s[n]),
        forall|j: int| 0 <= j < n ==> !is_white_space(s[j]),
    decreases s.len(),
{
    if is_white_space(s[1]) {
        1
    } else {
        let t = s.drop_first();
        let n = lemma_word_end(t);
        assert forall|j: int| 0 <= j < n + 1 implies !is_white_space(s[j]) by {
            if j > 0 {
                assert(s[j] == t[j - 1]);
            }
        }
        n + 1
    }
}

proof fn lemma_words_trimmed(s: Seq<char>)
    ensures
        words(trim_end(s)) == words(s),
    decreases s.len(),
{
    if s.len() > 0 && is_white_space(s.last()) {
        lemma_words_trailing(s);
        lemma_words_trimmed(s.drop_last());
    }
}

/// The words of a list up to the first `&&`.
pub open spec fn is_up_to_mark(deps: Seq<Seq<char>>, all: Seq<Seq<char>>) -> bool {
    &&& deps.is_prefix_of(all)
    &&& !deps.contains("&&"@)
    &&& deps.len() == all.len() || all[deps.len() as int] == "&&"@
}

/// A recipe header is read: in a line that begins with the recipe's name, and whose first colon
/// outside quotes stands behind `head` and begins no assignment, the dependencies are the words
/// behind the colon, up to `&&`.
pub proof fn header_is_read(head: Seq<char>, tail: Seq<char>, name: Seq<char>)
    requires
        head.len() > 0,
        !is_white_space(head[0]),
        head[0] != '#',
        head[0] != '[',
        colon_after(head + seq![':'] + tail, None) == head.len(),
        tail.len() > 0 ==> tail[0] != '=',
        words(head).len() > 0,
    ensures
        words(head)[0] == name ==> (header_deps(head + seq![':'] + tail, name) matches Some(deps)
            && is_up_to_mark(deps, words(tail))),
        words(head)[0] != name ==> header_deps(head + seq![':'] + tail, name) is None,
{
    reveal_strlit("&&");
    assert("&&"@ =~= after_mark());
    let front = head + seq![':'];
    let line = front + tail;
    let end = trim_end(tail);
    let t = trimmed(line);
    assert(line[0] == head[0]);
    assert(trim_start(line) == line);
    lemma_trim_end_behind(front, tail);
    assert(t == front + end);
    let n = head.len() as int;
    assert(t[0] == head[0]);
    assert(t[n] == ':');
    assert(t.contains(':'));
    let j = lemma_trim_end_at(tail);
    assert(t =~= line.take(n + 1 + j));
    lemma_colon_in_front(line, n + 1 + j, None);
    assert(t.take(n) =~= head);
    assert(t.skip(n + 1) =~= end);
    assert(end.len() > 0 ==> end[0] == tail[0]);
    lemma_words_trimmed(tail);
    let all = words(tail);
    lemma_first_index(all, after_mark());
    let deps = all.take(first_index(all, after_mark()));
    assert(deps.is_prefix_of(all));
    if deps.contains("&&"@) {
        let k = choose|k: int| 0 <= k < deps.len() && deps[k] == "&&"@;
        assert(all[k] == "&&"@);
    }
}

/// The first word of a text, or nothing where there is none.
pub open spec fn leading_word(s: Seq<char>) -> Seq<char> {
    if words(s).len() == 0 {
        Seq::empty()
    } else {
        words(s)[0]
    }
}

/// A header is read in any line that is not indented, and is no comment and no attribute. The
/// head ends at the first colon outside quotes, which begins no assignment, or at the first colon
/// where none stands outside quotes, as behind a quote that is left open.
pub proof fn trimmed_header_is_read(
    line: Seq<char>,
    head: Seq<char>,
    tail: Seq<char>,
    name: Seq<char>,
)
    requires
        trimmed(line) == head + seq![':'] + tail,
        trimmed(line)[0] != '#',
        trimmed(line)[0] != '[',
        line[0] != ' ',
        line[0] != '\t',
        (colon_after(trimmed(line), None) == head.len() && (tail.len() > 0 ==> tail[0] != '=')) || (
        colon_after(trimmed(line), None) >= trimmed(line).len() && !head.contains(':')),
    ensures
        leading_word(head) == name ==> (header_deps(line, name) matches Some(deps)
            && is_up_to_mark(deps, words(tail))),
        leading_word(head) != name ==> header_deps(line, name) is None,
{
    reveal_strlit("&&");
    assert("&&"@ =~= after_mark());
    let t = trimmed(line);
    let n = head.len() as int;
    assert(t[n] == ':');
    assert(t.contains(':'));
    if colon_after(t, None) >= t.len() {
        assert forall|j: int| 0 <= j < n implies t[j] != ':' by {
            assert(head.contains(head[j]));
            assert(t[j] == head[j]);
        }
        lemma_first_index_is(t, ':', n);
    }
    assert(t.take(n) =~= head);
    assert(t.skip(n + 1) =~= tail);
    assert(tail.len() > 0 ==> t[n + 1] == tail[0]);
    let all = words(tail);
    lemma_first_index(all, after_mark());
    let deps = all.take(first_index(all, after_mark()));
    if deps.contains("&&"@) {
        let k = choose|k: int| 0 <= k < deps.len() && deps[k] == "&&"@;
        assert(all[k] == "&&"@);
    }
}

/// Cutting a line behind its first colon outside quotes leaves that colon where it is.
proof fn lemma_colon_in_front(s: Seq<char>, n: int, quote: Option<char>)
    requires
        0 <= colon_after(s, quote) < n <= s.len(),
    ensures
        colon_after(s.take(n), quote) == colon_after(s, quote),
    decreases s.len(),
{
    let t = s.take(n);
    lemma_colon_after(s, quote);
    lemma_colon_after(s.skip(1), None);
    lemma_colon_after(s.skip(1), quote);
    lemma_colon_after(s.skip(1), Some(s[0]));
    assert(t[0] == s[0]);
    assert(t.skip(1) =~= s.skip(1).take(n - 1));
    if quote is Some && quote->0 == '"' && s[0] == '\\' && s.len() > 1 {
        lemma_colon_after(s.skip(2), quote);
        assert(t.skip(2) =~= s.skip(2).take(n - 2));
        lemma_colon_in_front(s.skip(2), n - 2, quote);
    } else if quote is None && s[0] == ':' {
    } else if quote is None && is_quote(s[0]) {
        lemma_colon_in_front(s.skip(1), n - 1, Some(s[0]));
    } else if quote is None || s[0] == quote->0 {
        lemma_colon_in_front(s.skip(1), n - 1, None);
    } else {
        lemma_colon_in_front(s.skip(1), n - 1, quote);
    }
}

/// The first colon outside quotes is looked for behind text without colons and quotes, and
/// behind quoted text, whatever stands between the quotes. Between double quotes a backslash and
/// the character behind it are passed over together.
pub proof fn quoted_text_is_passed_over(plain: Seq<char>, q: char, inner: Seq<char>, rest: Seq<char>)
    requires
        forall|i: int|
            0 <= i < plain.len() ==> #[trigger] plain[i] != ':' && plain[i] != '\'' && plain[i]
                != '"' && plain[i] != '`',
        q == '\'' || q == '`' || q == '"',
        forall|i: int|
            0 <= i < inner.len() ==> #[trigger] inner[i] != q && (q == '"' ==> inner[i] != '\\'),
    ensures
        colon_after(plain + rest, None) == plain.len() + colon_after(rest, None),
        colon_after(seq![q] + inner + seq![q] + rest, None) == inner.len() + 2 + colon_after(
            rest,
            None,
        ),
        colon_after(seq![':'] + rest, None) == 0,
        inner.len() > 0 ==> colon_after(seq!['\\', inner[0]] + rest, Some('"')) == 2 + colon_after(
            rest,
            Some('"'),
        ),
{
    lemma_plain_front(plain, rest);
    lemma_quoted_front(q, inner, rest);
    let s = seq![q] + inner + seq![q] + rest;
    assert(s.skip(1) =~= inner + seq![q] + rest);
    if inner.len() > 0 {
        assert((seq!['\\', inner[0]] + rest).skip(2) =~= rest);
    }
}

proof fn lemma_plain_front(plain: Seq<char>, rest: Seq<char>)
    requires
        forall|i: int| 0 <= i < plain.len() ==> #[trigger] plain[i] != ':' && !is_quote(plain[i]),
    ensures
        colon_after(plain + rest, None) == plain.len() + colon_after(rest, None),
    decreases plain.len(),
{
    let s = plain + rest;
    if plain.len() == 0 {
        assert(s =~= rest);
    } else {
        assert(s[0] == plain[0]);
        let p = plain.skip(1);
        assert(s.skip(1) =~= p + rest);
        assert forall|i: int| 0 <= i < p.len() implies #[trigger] p[i] != ':' && !is_quote(p[i]) by {
            assert(p[i] == plain[i + 1]);
        }
        lemma_plain_front(p, rest);
    }
}

proof fn lemma_quoted_front(q: char, inner: Seq<char>, rest: Seq<char>)
    requires
        forall|i: int|
            0 <= i < inner.len() ==> #[trigger] inner[i] != q && (q == '"' ==> inner[i] != '\\'),
    ensures
        colon_after(inner + seq![q] + rest, Some(q)) == inner.len() + 1 + colon_after(rest, None),
    decreases inner.len(),
{
    let s = inner + seq![q] + rest;
    if inner.len() == 0 {
        assert(s[0] == q);
        assert(s.skip(1) =~= rest);
    } else {
        assert(s[0] == inner[0]);
        let p = inner.skip(1);
        assert(s.skip(1) =~= p + seq![q] + rest);
        assert forall|i: int| 0 <= i < p.len() implies #[trigger] p[i] != q && (q == '"' ==> p[i]
            != '\\') by {
            assert(p[i] == inner[i + 1]);
        }
        lemma_quoted_front(q, p, rest);
    }
}

/// No header is read in a blank line, a comment, an attribute, an indented line, a line without
/// a colon, or an assignment.
pub proof fn other_lines_are_no_headers(line: Seq<char>, name: Seq<char>)
    requires
        ({
            let t = trimmed(line);
            ||| t.len() == 0
            ||| t[0] == '#'
            ||| t[0] == '['
            ||| line[0] == ' '
            ||| line[0] == '\t'
            ||| !t.contains(':')
            ||| (colon_after(t, None) + 1 < t.len() && t[colon_after(t, None) + 1] == '=')
        }),
    ensures
        header_deps(line, name) is None,
{
}

/// What a justfile writes for a recipe stands in the first of its lines that is a header of the
/// recipe.
pub proof fn first_header_counts(content: Seq<char>, name: Seq<char>, i: int)
    requires
        0 <= i <= text_lines(content).len(),
        forall|j: int| 0 <= j < i ==> header_deps(#[trigger] text_lines(content)[j], name) is None,
        i < text_lines(content).len() ==> header_deps(text_lines(content)[i], name) is Some,
    ensures
        written_deps(content, name) == if i < text_lines(content).len() {
            header_deps(text_lines(content)[i], name)
        } else {
            None
        },
{
    lemma_first_header(text_lines(content), name, i);
}

proof fn lemma_first_header(lines: Seq<Seq<char>>, name: Seq<char>, i: int)
    requires
        0 <= i <= lines.len(),
        forall|j: int| 0 <= j < i ==> header_deps(#[trigger] lines[j], name) is None,
        i < lines.len() ==> header_deps(lines[i], name) is Some,
    ensures
        first_header(lines, name) == if i < lines.len() {
            header_deps(lines[i], name)
        } else {
            None
        },
    decreases lines.len(),
{
    if lines.len() > 0 && i > 0 {
        let t = lines.drop_first();
        assert(header_deps(lines[0], name) is None);
        assert forall|j: int| 0 <= j < i - 1 implies header_deps(#[trigger] t[j], name) is None by {
            assert(t[j] == lines[j + 1]);
        }
        lemma_first_header(t, name, i - 1);
    }
}

} // verus!
