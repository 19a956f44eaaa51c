//! The tally of an input: how many lines, words, bytes and characters it holds.

use crate::text::{
    char_is_whitespace, char_utf8_len, is_whitespace, lemma_chars_le_bytes, lemma_encode_push,
    lemma_lines_last, lines_of, utf8_len, word_count,
};
use crate::decimal::{decimal, push_right_aligned, right_aligned};
use vstd::prelude::*;
use vstd::utf8::{decode_utf8, encode_utf8, is_ascii_chars, valid_utf8};

verus! {

/// The four counts of a tally, as mathematical integers.
pub struct Tally {
    pub lines: nat,
    pub words: nat,
    pub bytes: nat,
    pub chars: nat,
}

/// The tally of a sequence of lines: one line for each, and for each its
/// words, the bytes of its UTF-8 encoding and its characters, terminator
/// included.
pub open spec fn tally_of(lines: Seq<Seq<char>>) -> Tally
    decreases lines.len(),
{
    if lines.len() == 0 {
        Tally { lines: 0, words: 0, bytes: 0, chars: 0 }
    } else {
        let t = tally_of(lines.drop_last());
        let l = lines.last();
        Tally {
            lines: t.lines + 1,
            words: t.words + word_count(l),
            bytes: t.bytes + utf8_len(l),
            chars: t.chars + l.len(),
        }
    }
}

/// The counts of one input.
#[derive(Debug, Clone, Copy, PartialEq, Eq, Structural)]
pub struct FileInfo {
    pub num_lines: usize,
    pub num_words: usize,
    pub num_bytes: usize,
    pub num_chars: usize,
}

impl View for FileInfo {
    type V = Tally;

    open spec fn view(&self) -> Tally {
        Tally {
            lines: self.num_lines as nat,
            words: self.num_words as nat,
            bytes: self.num_bytes as nat,
            chars: self.num_chars as nat,
        }
    }
}

/// What one more character `c` after the text `p` adds to the tally: a line
/// where `c` begins one, a word where `c` begins one, its bytes, and itself.
pub proof fn lemma_tally_push(p: Seq<char>, c: char)
    ensures
        ({
            let a = tally_of(lines_of(p));
            let b = tally_of(lines_of(p.push(c)));
            &&& b.lines == a.lines + if p.len() == 0 || p.last() == '\n' {
                1nat
            } else {
                0nat
            }
            &&& b.words == a.words + if !is_whitespace(c) && (p.len() == 0 || is_whitespace(
                p.last(),
            )) {
                1nat
            } else {
                0nat
            }
            &&& b.bytes == a.bytes + char_utf8_len(c)
            &&& b.chars == a.chars + 1
        }),
{
    let s = p.push(c);
    let before = lines_of(p);
    let after = lines_of(s);
    assert(s.drop_last() =~= p);
    lemma_lines_last(p);
    if s.len() >= 2 && s[s.len() - 2] != '\n' {
        let l = before.last();
        assert(p.last() == s[s.len() - 2]);
        assert(after.drop_last() =~= before.drop_last());
        assert(after.last() == l.push(c));
        assert(l.push(c).drop_last() =~= l);
        lemma_encode_push(l, c);
    } else {
        assert(after.drop_last() =~= before);
        assert(after.last() == seq![c]);
        assert(seq![c].drop_last() =~= Seq::<char>::empty());
        assert(word_count(Seq::<char>::empty()) == 0);
        assert(Seq::<char>::empty().push(c) =~= seq![c]);
        lemma_encode_push(Seq::<char>::empty(), c);
        assert(utf8_len(Seq::<char>::empty()) == 0);
    }
}

/// The tally of a text's lines counts the bytes, the characters and the
/// words of the whole text: no byte is lost between two lines, and no word
/// runs across a line's end.
pub proof fn lemma_tally_of_text(s: Seq<char>)
    ensures
        tally_of(lines_of(s)).bytes == utf8_len(s),
        tally_of(lines_of(s)).chars == s.len(),
        tally_of(lines_of(s)).words == word_count(s),
        tally_of(lines_of(s)).lines == lines_of(s).len(),
        tally_of(lines_of(s)).lines <= s.len(),
        tally_of(lines_of(s)).words <= s.len(),
    decreases s.len(),
{
    if s.len() > 0 {
        let p = s.drop_last();
        let c = s.last();
        assert(s =~= p.push(c));
        lemma_tally_of_text(p);
        lemma_tally_push(p, c);
        lemma_encode_push(p, c);
    }
}

/// In every tally the characters are at most the bytes, and as many as the
/// bytes where, and only where, every character of every line is ASCII.
pub proof fn lemma_tally_chars_le_bytes(lines: Seq<Seq<char>>)
    ensures
        tally_of(lines).chars <= tally_of(lines).bytes,
        (forall|k: int| 0 <= k < lines.len() ==> is_ascii_chars(#[trigger] lines[k]))
            <==> tally_of(lines).chars == tally_of(lines).bytes,
    decreases lines.len(),
{
    if lines.len() > 0 {
        lemma_tally_chars_le_bytes(lines.drop_last());
        lemma_chars_le_bytes(lines.last());
        if forall|k: int| 0 <= k < lines.len() ==> is_ascii_chars(#[trigger] lines[k]) {
            assert forall|k: int| 0 <= k < lines.drop_last().len() implies is_ascii_chars(
                #[trigger] lines.drop_last()[k],
            ) by {
                assert(lines.drop_last()[k] == lines[k]);
            }
            assert(is_ascii_chars(lines[lines.len() - 1]));
        }
        if tally_of(lines).chars == tally_of(lines).bytes {
            assert forall|k: int| 0 <= k < lines.len() implies is_ascii_chars(
                #[trigger] lines[k],
            ) by {
                if k < lines.len() - 1 {
                    assert(lines.drop_last()[k] == lines[k]);
                }
            }
        }
    }
}

/// Tallies `text` in one pass.
pub fn tally(text: &str) -> (info: FileInfo)
    ensures
        info@ == tally_of(lines_of(text@)),
        info.num_bytes == utf8_len(text@),
        info.num_chars == text@.len(),
        info.num_chars <= info.num_bytes,
        is_ascii_chars(text@) <==> info.num_chars == info.num_bytes,
{
    let num_bytes = text.as_bytes().len();
    let mut num_lines: usize = 0;
    let mut num_words: usize = 0;
    let mut num_chars: usize = 0;
    let mut after_space = true;
    let mut at_line_start = true;
    proof {
        lemma_chars_le_bytes(text@);
        assert(text@.take(0) =~= Seq::<char>::empty());
    }
    for c in it: text.chars()
        invariant
            it.seq() == text@,
            text@.len() <= usize::MAX,
            num_chars == it.index(),
            num_lines <= num_chars,
            num_words <= num_chars,
            after_space == (it.index() == 0 || is_whitespace(text@[it.index() - 1])),
            at_line_start == (it.index() == 0 || text@[it.index() - 1] == '\n'),
            num_lines == tally_of(lines_of(text@.take(it.index()))).lines,
            num_words == tally_of(lines_of(text@.take(it.index()))).words,
    {
        proof {
            let i = it.index();
            assert(text@.take(i + 1) =~= text@.take(i).push(c));
            lemma_tally_push(text@.take(i), c);
        }
        if at_line_start {
            num_lines = num_lines + 1;
        }
        let space = char_is_whitespace(c);
        if after_space && !space {
            num_words = num_words + 1;
        }
        after_space = space;
        at_line_start = c == '\n';
        num_chars = num_chars + 1;
    }
    proof {
        assert(text@.take(text@.len() as int) =~= text@);
        lemma_tally_of_text(text@);
    }
    FileInfo { num_lines, num_words, num_bytes, num_chars }
}

/// Why an input could not be tallied.
#[derive(Debug, Clone, Copy, PartialEq, Eq, Structural)]
pub enum InputError {
    /// The input is not the UTF-8 encoding of any text.
    InvalidUtf8,
}

/// `core::str::from_utf8`: the text of which `bytes` is the UTF-8 encoding,
/// where there is one, and nothing where `bytes` is not valid UTF-8.
#[verifier::external_body]
fn str_from_utf8(bytes: &[u8]) -> (r: Option<&str>)
    ensures
        r is Some <==> valid_utf8(bytes@),
        r matches Some(s) ==> encode_utf8(s@) == bytes@,
{
    match core::str::from_utf8(bytes) {
        Ok(s) => Some(s),
        Err(_) => None,
    }
}

/// Tallies the input whose bytes are `input`. It fails where they are not
/// valid UTF-8, and only there.
pub fn count(input: &[u8]) -> (r: Result<FileInfo, InputError>)
    ensures
        match r {
            Ok(info) => {
                &&& valid_utf8(input@)
                &&& info@ == tally_of(lines_of(decode_utf8(input@)))
                &&& info.num_bytes == input@.len()
                &&& info.num_chars == decode_utf8(input@).len()
                &&& info.num_chars <= info.num_bytes
            },
            Err(e) => !valid_utf8(input@) && e == InputError::InvalidUtf8,
        },
{
    match str_from_utf8(input) {
        Some(text) => {
            proof {
                vstd::utf8::encode_utf8_decode_utf8(text@);
            }
            Ok(tally(text))
        },
        None => Err(InputError::InvalidUtf8),
    }
}

/// Which counts are shown, and for which inputs.
#[derive(Debug, Clone)]
pub struct Config {
    pub files: Vec<String>,
    pub lines: bool,
    pub words: bool,
    pub bytes: bool,
    pub chars: bool,
}

/// What is said of a request for both the byte count and the character
/// count.
pub open spec fn conflicting_counts() -> Seq<char> {
    "the character count cannot be shown with the byte count"@
}

/// The configuration for the given inputs and flags. Where no flag is set,
/// lines, words and bytes are shown. The byte count and the character count
/// exclude each other: a request for both is refused.
pub fn gen_config(files: Vec<String>, lines: bool, words: bool, bytes: bool, chars: bool) -> (r:
    Result<Config, String>)
    ensures
        match r {
            Ok(c) => {
                &&& !(bytes && chars)
                &&& c.files == files
                &&& c.chars == chars
                &&& if !lines && !words && !bytes && !chars {
                    c.lines && c.words && c.bytes
                } else {
                    c.lines == lines && c.words == words && c.bytes == bytes
                }
            },
            Err(e) => bytes && chars && e@ == conflicting_counts(),
        },
{
    if bytes && chars {
        Err("the character count cannot be shown with the byte count".to_owned())
    } else if !lines && !words && !bytes && !chars {
        Ok(Config { files, lines: true, words: true, bytes: true, chars })
    } else {
        Ok(Config { files, lines, words, bytes, chars })
    }
}

/// The width of the field in which a count is shown.
pub const COUNT_WIDTH: usize = 8;

/// One column of a report: the count in its field where it is shown,
/// nothing where it is not.
pub open spec fn column(show: bool, n: nat) -> Seq<char> {
    if show {
        right_aligned(decimal(n), COUNT_WIDTH as nat)
    } else {
        Seq::empty()
    }
}

/// The report on one input: the counts that are shown, always in the order
/// lines, words, bytes, characters, then a space, the input's name and a
/// line feed.
pub open spec fn report_line(
    t: Tally,
    lines: bool,
    words: bool,
    bytes: bool,
    chars: bool,
    name: Seq<char>,
) -> Seq<char> {
    column(lines, t.lines) + column(words, t.words) + column(bytes, t.bytes) + column(
        chars,
        t.chars,
    ) + seq![' '] + name + seq!['\n']
}

/// Writes the report on the input called `name`, with the counts that
/// `config` shows.
pub fn format_info(info: &FileInfo, config: &Config, name: &str) -> (out: String)
    ensures
        out@ == report_line(info@, config.lines, config.words, config.bytes, config.chars, name@),
{
    let mut out = String::new();
    if config.lines {
        push_right_aligned(&mut out, info.num_lines as u64, COUNT_WIDTH);
    }
    if config.words {
        push_right_aligned(&mut out, info.num_words as u64, COUNT_WIDTH);
    }
    if config.bytes {
        push_right_aligned(&mut out, info.num_bytes as u64, COUNT_WIDTH);
    }
    if config.chars {
        push_right_aligned(&mut out, info.num_chars as u64, COUNT_WIDTH);
    }
    proof {
        reveal_strlit(" ");
        reveal_strlit("\n");
    }
    out.append(" ");
    out.append(name);
    out.append("\n");
    assert(out@ =~= report_line(
        info@,
        config.lines,
        config.words,
        config.bytes,
        config.chars,
        name@,
    ));
    out
}

} // verus!
