//! The output of recipes: previews and logs.

use crate::sequences::lemma_filter_all;
use crate::text::decode;
use crate::text::decode_lossy;
use crate::text::from_chars;
use crate::text::lemma_trim_keeps;
use crate::text::lemma_trim_twice;
use crate::text::split_lines;
use crate::text::text_lines;
use crate::text::to_chars;
use crate::text::trim;
use crate::text::trimmed;
use crate::text::views;
use vstd::prelude::*;
use vstd::utf8::*;

verus! {

/// Maximum visible characters to show in output preview
pub const MAX_PREVIEW_CHARS: usize = 50;

/// Log directory for task output
pub const LOG_DIR: &'static str = ".just-fancy-logs";

/// Whether a character is shown: all are but control characters, of which only the line feed is.
pub open spec fn is_shown(c: char) -> bool {
    c == '\n' || !(c <= '\u{1f}' || '\u{80}' <= c <= '\u{9f}')
}

/// Whether all characters of a text are shown.
pub open spec fn all_shown(text: Seq<char>) -> bool {
    forall|i: int| 0 <= i < text.len() ==> is_shown(#[trigger] text[i])
}

/// The characters of a text that are shown.
pub open spec fn shown(text: Seq<char>) -> Seq<char> {
    text.filter(|c: char| is_shown(c))
}

/// A control sequence: an escape character and a bracket, parameters, and a final character.
pub open spec fn is_control_sequence(code: Seq<char>) -> bool {
    &&& code.len() >= 3
    &&& code[0] == '\u{1b}'
    &&& code[1] == '['
    &&& forall|i: int| 2 <= i < code.len() - 1 ==> '0' <= #[trigger] code[i] <= '?'
    &&& '@' <= code.last() <= '~'
}

/// A text is made of a part without escape characters, a control sequence and a rest.
pub open spec fn splits(
    text: Seq<char>,
    plain: Seq<char>,
    code: Seq<char>,
    rest: Seq<char>,
) -> bool {
    &&& text == plain + code + rest
    &&& !plain.contains('\u{1b}')
    &&& is_control_sequence(code)
}

/// What `strip_ansi_escapes::strip` leaves of a text.
pub uninterp spec fn ansi_stripped(text: Seq<char>) -> Seq<char>;

/// `strip_ansi_escapes::strip` returns the UTF-8 encoding of what is left of the text when escape
/// sequences are taken out. No control character but the line feed is left. Of a text without
/// escape characters everything else is left, and a control sequence is taken out. Of other
/// escape sequences nothing is said but that the result depends on the text alone.
#[verifier::external_body]
fn strip_escapes(s: &str) -> (r: Vec<u8>)
    ensures
        r@ == encode_utf8(ansi_stripped(s@)),
        all_shown(decode_utf8(r@)),
        !s@.contains('\u{1b}') ==> r@ == encode_utf8(shown(s@)),
        forall|plain: Seq<char>, code: Seq<char>, rest: Seq<char>| #[trigger]
            splits(s@, plain, code, rest) ==> r@ == encode_utf8(
                shown(plain) + ansi_stripped(rest),
            ),
{
    strip_ansi_escapes::strip(s.as_bytes())
}

/// Strip ANSI escape codes from a string
pub fn strip_ansi(s: &str) -> (r: String)
    ensures
        r@ == ansi_stripped(s@),
        all_shown(r@),
        !s@.contains('\u{1b}') ==> r@ == shown(s@),
        forall|plain: Seq<char>, code: Seq<char>, rest: Seq<char>| #[trigger]
            splits(s@, plain, code, rest) ==> r@ == shown(plain) + ansi_stripped(rest),
{
    let stripped: Vec<u8> = strip_escapes(s);
    proof {
        encode_utf8_valid_utf8(ansi_stripped(s@));
        encode_utf8_decode_utf8(ansi_stripped(s@));
        encode_utf8_decode_utf8(shown(s@));
        assert forall|plain: Seq<char>, code: Seq<char>, rest: Seq<char>| #[trigger]
            splits(s@, plain, code, rest) implies ansi_stripped(s@) == shown(plain)
            + ansi_stripped(rest) by {
            encode_utf8_decode_utf8(shown(plain) + ansi_stripped(rest));
        }
    }
    decode_lossy(stripped.as_slice())
}

/// A text without white space around it, cut after `max_visible` characters.
pub open spec fn shortened(text: Seq<char>, max_visible: nat) -> Seq<char> {
    let t = trimmed(text);
    if t.len() <= max_visible {
        t
    } else {
        t.take(max_visible as int).push('…')
    }
}

/// Trim a text and truncate it to `max_visible` characters
pub fn shorten(text: &str, max_visible: usize) -> (r: String)
    ensures
        r@ == shortened(text@, max_visible as nat),
{
    let trimmed: String = trim(text);
    let chars: Vec<char> = to_chars(trimmed.as_str());
    if chars.len() <= max_visible {
        trimmed
    } else {
        let mut r: String = from_chars(&chars, 0, max_visible);
        r.push('…');
        r
    }
}

/// Extract a preview from an output line
///
/// Strips ANSI codes and truncates to max_visible characters.
pub fn extract_preview(line: &str, max_visible: usize) -> (r: String)
    ensures
        r@ == shortened(ansi_stripped(line@), max_visible as nat),
        r@.len() <= max_visible + 1,
        all_shown(r@),
        !line@.contains('\u{1b}') ==> r@ == shortened(shown(line@), max_visible as nat),
        forall|plain: Seq<char>, code: Seq<char>, rest: Seq<char>| #[trigger]
            splits(line@, plain, code, rest) ==> r@ == shortened(
                shown(plain) + ansi_stripped(rest),
                max_visible as nat,
            ),
{
    let stripped: String = strip_ansi(line);
    proof {
        lemma_trim_keeps(stripped@, |c: char| is_shown(c));
    }
    shorten(stripped.as_str(), max_visible)
}

/// The last of some lines that is not blank, without the white space around it.
pub open spec fn last_visible(lines: Seq<Seq<char>>) -> Option<Seq<char>>
    decreases lines.len(),
{
    if lines.len() == 0 {
        None
    } else if trimmed(lines.last()).len() > 0 {
        Some(trimmed(lines.last()))
    } else {
        last_visible(lines.drop_last())
    }
}

/// Blank lines behind a line that is not blank do not count.
pub proof fn blank_lines_are_ignored(lines: Seq<Seq<char>>, i: int)
    requires
        0 <= i < lines.len(),
        trimmed(lines[i]).len() > 0,
        forall|j: int| i < j < lines.len() ==> trimmed(#[trigger] lines[j]).len() == 0,
    ensures
        last_visible(lines) == Some(trimmed(lines[i])),
    decreases lines.len(),
{
    if i < lines.len() - 1 {
        assert(trimmed(lines[lines.len() - 1]).len() == 0);
        blank_lines_are_ignored(lines.drop_last(), i);
    }
}

/// Where all lines are blank none is the latest.
pub proof fn blank_output_has_no_line(lines: Seq<Seq<char>>)
    requires
        forall|i: int| 0 <= i < lines.len() ==> trimmed(#[trigger] lines[i]).len() == 0,
    ensures
        last_visible(lines) is None,
    decreases lines.len(),
{
    if lines.len() > 0 {
        assert(trimmed(lines[lines.len() - 1]).len() == 0);
        assert forall|i: int| 0 <= i < lines.len() - 1 implies trimmed(
            #[trigger] lines.drop_last()[i],
        ).len() == 0 by {
            assert(trimmed(lines[i]).len() == 0);
        }
        blank_output_has_no_line(lines.drop_last());
    }
}

/// The last of some lines that is not blank, without the white space around it
pub fn last_visible_line(lines: &Vec<String>) -> (r: Option<String>)
    ensures
        match r {
            Some(line) => last_visible(views(lines@)) == Some(line@),
            None => last_visible(views(lines@)) is None,
        },
{
    let ghost all = views(lines@);
    let mut n: usize = lines.len();
    assert(all.take(n as int) =~= all);
    while n > 0
        invariant
            n <= lines.len(),
            all == views(lines@),
            last_visible(all.take(n as int)) == last_visible(all),
        decreases n,
    {
        assert(all.take(n as int).drop_last() =~= all.take(n - 1));
        assert(all.take(n as int).last() == lines@[n - 1]@);
        let trimmed: String = trim(lines[n - 1].as_str());
        if !trimmed.as_str().is_empty() {
            return Some(trimmed);
        }
        n = n - 1;
    }
    None
}

/// Output collector that buffers output and tracks the latest line
pub struct OutputCollector {
    /// Full output buffer
    buffer: Vec<u8>,
    /// Latest non-empty line for preview
    latest_line: String,
    /// Recipe name (for log file)
    recipe_name: String,
}

/// The lines of a piece of output, without escape sequences. A piece that is no valid UTF-8 is
/// not looked into.
pub open spec fn stripped_lines(data: Seq<u8>) -> Seq<Seq<char>> {
    if valid_utf8(data) {
        text_lines(decode_utf8(data)).map_values(|line: Seq<char>| ansi_stripped(line))
    } else {
        Seq::empty()
    }
}

impl OutputCollector {
    /// All output so far.
    pub closed spec fn buffered(&self) -> Seq<u8> {
        self.buffer@
    }

    /// The latest line that is not blank.
    pub closed spec fn latest(&self) -> Seq<char> {
        self.latest_line@
    }

    /// The name of the recipe.
    pub closed spec fn recipe(&self) -> Seq<char> {
        self.recipe_name@
    }

    /// The latest line is shown as it is.
    #[verifier::type_invariant]
    spec fn inv(self) -> bool {
        &&& all_shown(self.latest())
        &&& trimmed(self.latest()) == self.latest()
    }

    /// Create a new output collector for a recipe
    pub fn new(recipe_name: &str) -> (r: Self)
        ensures
            r.buffered() == Seq::<u8>::empty(),
            r.latest() == Seq::<char>::empty(),
            r.recipe() == recipe_name@,
    {
        let latest_line: String = String::new();
        assert(latest_line@ =~= Seq::<char>::empty());
        OutputCollector { buffer: Vec::new(), latest_line, recipe_name: recipe_name.to_owned() }
    }

    /// Append data to the buffer and update latest line
    pub fn append(&mut self, data: &[u8])
        ensures
            final(self).buffered() == old(self).buffered() + data@,
            final(self).latest() == match last_visible(stripped_lines(data@)) {
                Some(line) => line,
                None => old(self).latest(),
            },
            final(self).recipe() == old(self).recipe(),
    {
        proof {
            use_type_invariant(&*self);
        }
        let mut buffer: Vec<u8> = Vec::new();
        std::mem::swap(&mut self.buffer, &mut buffer);
        buffer.extend_from_slice(data);
        self.buffer = buffer;
        assert(self.buffer@ =~= old(self).buffered() + data@);

        // Try to extract latest non-empty line
        if let Some(text) = decode(data) {
            let lines: Vec<String> = split_lines(text);
            let ghost all = stripped_lines(data@);
            let mut stripped: Vec<String> = Vec::new();
            for i in 0..lines.len()
                invariant
                    views(lines@) == text_lines(decode_utf8(data@)),
                    valid_utf8(data@),
                    all == stripped_lines(data@),
                    stripped@.len() == i,
                    forall|j: int| 0 <= j < i ==> (#[trigger] stripped@[j])@ == all[j],
                    forall|j: int| 0 <= j < i ==> all_shown((#[trigger] stripped@[j])@),
            {
                assert(views(lines@)[i as int] == lines@[i as int]@);
                stripped.push(strip_ansi(lines[i].as_str()));
            }
            assert(views(stripped@) =~= all);
            if let Some(line) = last_visible_line(&stripped) {
                proof {
                    lemma_last_visible(all);
                }
                self.latest_line = line;
            }
        }
    }

    /// Get the latest line preview
    pub fn latest_preview(&self) -> (r: String)
        ensures
            r@ == shortened(self.latest(), MAX_PREVIEW_CHARS as nat),
            r@ == shortened(ansi_stripped(self.latest()), MAX_PREVIEW_CHARS as nat),
            r@.len() <= MAX_PREVIEW_CHARS + 1,
            all_shown(r@),
    {
        proof {
            use_type_invariant(self);
            let latest = self.latest();
            lemma_filter_all(latest, |c: char| is_shown(c));
            if latest.contains('\u{1b}') {
                let i = choose|i: int| 0 <= i < latest.len() && latest[i] == '\u{1b}';
                assert(is_shown(latest[i]));
            }
        }
        extract_preview(self.latest_line.as_str(), MAX_PREVIEW_CHARS)
    }

    /// The name of the recipe
    pub fn recipe_name(&self) -> (r: &str)
        ensures
            r@ == self.recipe(),
    {
        self.recipe_name.as_str()
    }

    /// The name of the log file
    pub fn log_file(&self) -> (r: String)
        ensures
            r@ == self.recipe() + ".log"@,
    {
        let mut r: String = self.recipe_name.clone();
        r.append(".log");
        r
    }

    /// The full output, to be written to the log file
    pub fn log(&self) -> (r: &Vec<u8>)
        ensures
            r@ == self.buffered(),
    {
        &self.buffer
    }
}

/// The last visible one of some lines that are shown is shown, and has no white space around it.
proof fn lemma_last_visible(lines: Seq<Seq<char>>)
    requires
        forall|i: int| 0 <= i < lines.len() ==> all_shown(#[trigger] lines[i]),
    ensures
        last_visible(lines) matches Some(line) ==> all_shown(line) && trimmed(line) == line,
    decreases lines.len(),
{
    if lines.len() > 0 {
        assert(all_shown(lines[lines.len() - 1]));
        lemma_trim_keeps(lines.last(), |c: char| is_shown(c));
        lemma_trim_twice(lines.last());
        assert forall|i: int| 0 <= i < lines.len() - 1 implies all_shown(
            #[trigger] lines.drop_last()[i],
        ) by {
            assert(all_shown(lines[i]));
        }
        lemma_last_visible(lines.drop_last());
    }
}

/// A character is shown exactly where it is a line feed or no control character. Escape
/// characters are not shown.
pub proof fn control_characters_are_not_shown(c: char, text: Seq<char>)
    ensures
        is_shown(c) <==> c == '\n' || (c >= ' ' && !('\u{80}' <= c && c <= '\u{9f}')),
        all_shown(text) ==> !text.contains('\u{1b}'),
{
    if all_shown(text) && text.contains('\u{1b}') {
        let i = choose|i: int| 0 <= i < text.len() && text[i] == '\u{1b}';
        assert(is_shown(text[i]));
    }
}

/// What is shown of two texts is shown of them together, a character that is shown stays, and
/// another one goes.
pub proof fn shown_characters_stay(a: Seq<char>, b: Seq<char>, c: char)
    ensures
        shown(a + b) == shown(a) + shown(b),
        is_shown(c) ==> shown(seq![c]) == seq![c],
        !is_shown(c) ==> shown(seq![c]) == Seq::<char>::empty(),
    decreases b.len(),
{
    reveal(Seq::filter);
    let s = a + b;
    assert(seq![c].drop_last() =~= Seq::<char>::empty());
    assert(shown(Seq::<char>::empty()) =~= Seq::<char>::empty());
    if is_shown(c) {
        assert(shown(seq![c]) =~= seq![c]);
    }
    if b.len() == 0 {
        assert(s =~= a);
        assert(shown(a) + shown(b) =~= shown(a));
    } else {
        assert(s.drop_last() =~= a + b.drop_last());
        assert(s.last() == b.last());
        shown_characters_stay(a, b.drop_last(), c);
        assert(shown(s) =~= shown(a) + shown(b));
    }
}

/// The lines of output are those of the text that it encodes, each stripped. Of bytes that
/// encode no text there are none.
pub proof fn output_lines_are_stripped(data: Seq<u8>)
    ensures
        valid_utf8(data) ==> stripped_lines(data).len() == text_lines(decode_utf8(data)).len(),
        valid_utf8(data) ==> forall|i: int|
            0 <= i < stripped_lines(data).len() ==> #[trigger] stripped_lines(data)[i]
                == ansi_stripped(text_lines(decode_utf8(data))[i]),
        !valid_utf8(data) ==> stripped_lines(data).len() == 0,
{
}

} // verus!
