//! The vocabulary shared by the utilities: whitespace, words, line terminators,
//! the split of a text into lines, and UTF-8 lengths.

use vstd::prelude::*;
use vstd::std_specs::iter::IteratorSpec;
use vstd::utf8::{encode_scalar, encode_utf8, is_ascii_chars};

verus! {

/// Whether `c` is white space as Unicode defines it (`White_Space`).
pub open spec fn is_whitespace(c: char) -> bool {
    let u = c as u32;
    ||| 0x09 <= u <= 0x0D
    ||| u == 0x20
    ||| u == 0x85
    ||| u == 0xA0
    ||| u == 0x1680
    ||| 0x2000 <= u <= 0x200A
    ||| u == 0x2028
    ||| u == 0x2029
    ||| u == 0x202F
    ||| u == 0x205F
    ||| u == 0x3000
}

/// Whether `c` is one of the two characters that end a line: line feed and
/// carriage return.
pub open spec fn is_terminator(c: char) -> bool {
    c == '\n' || c == '\r'
}

/// Decides `is_whitespace`.
pub fn char_is_whitespace(c: char) -> (r: bool)
    ensures
        r == is_whitespace(c),
{
    let u: u32 = c as u32;
    (0x09 <= u && u <= 0x0D) || u == 0x20 || u == 0x85 || u == 0xA0 || u == 0x1680 || (0x2000 <= u
        && u <= 0x200A) || u == 0x2028 || u == 0x2029 || u == 0x202F || u == 0x205F || u == 0x3000
}

/// Decides `is_terminator`.
pub fn char_is_terminator(c: char) -> (r: bool)
    ensures
        r == is_terminator(c),
{
    c == '\n' || c == '\r'
}

/// Whether a word begins at position `i` of `s`: the character there is not
/// whitespace, and it is the first of `s` or follows whitespace.
pub open spec fn starts_word(s: Seq<char>, i: int) -> bool {
    &&& 0 <= i < s.len()
    &&& !is_whitespace(s[i])
    &&& (i == 0 || is_whitespace(s[i - 1]))
}

/// The number of words of `s`, a word being a maximal run of characters that
/// are not whitespace: one for each position at which a word begins.
pub open spec fn word_count(s: Seq<char>) -> nat
    decreases s.len(),
{
    if s.len() == 0 {
        0
    } else {
        word_count(s.drop_last()) + if starts_word(s, s.len() - 1) {
            1nat
        } else {
            0nat
        }
    }
}

/// The length in bytes of the UTF-8 encoding of `s`.
pub open spec fn utf8_len(s: Seq<char>) -> nat {
    encode_utf8(s).len()
}

/// The length in bytes of the UTF-8 encoding of the single character `c`.
pub open spec fn char_utf8_len(c: char) -> nat {
    encode_scalar(c as u32).len()
}

/// Encoding a sequence that ends in `c` is encoding what comes before it and
/// then `c`.
pub proof fn lemma_encode_push(s: Seq<char>, c: char)
    ensures
        encode_utf8(s.push(c)) == encode_utf8(s) + encode_scalar(c as u32),
        utf8_len(s.push(c)) == utf8_len(s) + char_utf8_len(c),
    decreases s.len(),
{
    if s.len() == 0 {
        assert(s.push(c).drop_first() =~= Seq::<char>::empty());
        assert(encode_utf8(Seq::<char>::empty()) =~= Seq::<u8>::empty());
        assert(encode_utf8(s) =~= Seq::<u8>::empty());
        assert(encode_utf8(s.push(c)) =~= encode_scalar(c as u32));
        assert(encode_utf8(s) + encode_scalar(c as u32) =~= encode_scalar(c as u32));
    } else {
        assert(s.push(c).drop_first() =~= s.drop_first().push(c));
        lemma_encode_push(s.drop_first(), c);
        assert(encode_utf8(s.push(c)) =~= encode_utf8(s) + encode_scalar(c as u32));
    }
}

proof fn lemma_one_byte_is_ascii(c: char)
    ensures
        char_utf8_len(c) == 1 ==> '\0' <= c <= '\u{7f}',
{
}

/// A text has at most as many characters as bytes, and exactly as many
/// where, and only where, every character is ASCII and so takes one byte.
pub proof fn lemma_chars_le_bytes(s: Seq<char>)
    ensures
        s.len() <= utf8_len(s),
        is_ascii_chars(s) <==> s.len() == utf8_len(s),
    decreases s.len(),
{
    if s.len() > 0 {
        let rest = s.drop_first();
        lemma_chars_le_bytes(rest);
        assert(utf8_len(s) == char_utf8_len(s[0]) + utf8_len(rest));
        if is_ascii_chars(s) {
            vstd::utf8::is_ascii_chars_encode_utf8(s);
        }
        if s.len() == utf8_len(s) {
            assert(char_utf8_len(s[0]) == 1);
            assert forall|i: int| 0 <= i < s.len() implies '\0' <= #[trigger] s[i] <= '\u{7f}' by {
                if i > 0 {
                    assert(rest[i - 1] == s[i]);
                } else {
                    lemma_one_byte_is_ascii(s[0]);
                }
            }
        }
    }
}

/// The lines of `s`, in order: `s` cut after each line feed. Every line keeps
/// its terminator, and only the last may lack one.
pub open spec fn lines_of(s: Seq<char>) -> Seq<Seq<char>>
    decreases s.len(),
{
    if s.len() == 0 {
        Seq::empty()
    } else {
        let before = lines_of(s.drop_last());
        if s.len() >= 2 && s[s.len() - 2] != '\n' {
            before.drop_last().push(before.last().push(s.last()))
        } else {
            before.push(seq![s.last()])
        }
    }
}

/// The lines put back together.
pub open spec fn concat(lines: Seq<Seq<char>>) -> Seq<char>
    decreases lines.len(),
{
    if lines.len() == 0 {
        Seq::empty()
    } else {
        concat(lines.drop_last()) + lines.last()
    }
}

/// Whether `l` can be one line of a text: it is not empty, and a line feed
/// stands nowhere in it but at its end.
pub open spec fn is_line(l: Seq<char>) -> bool {
    &&& l.len() > 0
    &&& forall|i: int| 0 <= i < l.len() - 1 ==> l[i] != '\n'
}

/// Whether `lines` is the split of a text into lines: each is a line, and
/// each but the last ends in a line feed.
pub open spec fn is_line_split(lines: Seq<Seq<char>>) -> bool {
    forall|k: int|
        0 <= k < lines.len() ==> is_line(#[trigger] lines[k]) && (k < lines.len() - 1
            ==> lines[k].last() == '\n')
}

/// A text has no line exactly when it is empty, and its last line ends with
/// its last character.
pub proof fn lemma_lines_last(s: Seq<char>)
    ensures
        s.len() == 0 <==> lines_of(s).len() == 0,
        s.len() > 0 ==> lines_of(s).last().len() > 0 && lines_of(s).last().last() == s.last(),
    decreases s.len(),
{
    if s.len() > 0 {
        lemma_lines_last(s.drop_last());
    }
}

/// The lines of a text are a split of it into lines, and put together they
/// give the text back.
pub proof fn lemma_lines_of_splits(s: Seq<char>)
    ensures
        is_line_split(lines_of(s)),
        concat(lines_of(s)) == s,
    decreases s.len(),
{
    if s.len() > 0 {
        let p = s.drop_last();
        let c = s.last();
        let before = lines_of(p);
        let after = lines_of(s);
        lemma_lines_of_splits(p);
        lemma_lines_last(p);
        assert(s =~= p.push(c));
        if s.len() >= 2 && s[s.len() - 2] != '\n' {
            let l = before.last();
            assert(p.last() == s[s.len() - 2]);
            assert(after.drop_last() =~= before.drop_last());
            assert(after.last() == l.push(c));
            assert(is_line(before[before.len() - 1]));
            assert(is_line(l.push(c)));
            assert forall|k: int| 0 <= k < after.len() implies is_line(#[trigger] after[k]) && (k
                < after.len() - 1 ==> after[k].last() == '\n') by {
                if k < after.len() - 1 {
                    assert(after[k] == before[k]);
                }
            }
            assert(concat(after) =~= concat(before.drop_last()) + l.push(c));
            assert(concat(before) =~= concat(before.drop_last()) + l);
            assert(concat(after) =~= s);
        } else {
            assert(after.drop_last() =~= before);
            assert(after.last() == seq![c]);
            assert(is_line(seq![c]));
            assert forall|k: int| 0 <= k < after.len() implies is_line(#[trigger] after[k]) && (k
                < after.len() - 1 ==> after[k].last() == '\n') by {
                if k < after.len() - 1 {
                    assert(after[k] == before[k]);
                    if k < before.len() - 1 {
                    } else {
                        assert(before[k] == before.last());
                        assert(p.last() == s[s.len() - 2]);
                    }
                }
            }
            assert(concat(after) =~= concat(before) + seq![c]);
            assert(concat(after) =~= s);
        }
    }
}

/// Lines put together are at least as long as the last of them and end as
/// it ends, and are at least as long as their number where none is empty.
pub proof fn lemma_concat_len(lines: Seq<Seq<char>>)
    ensures
        lines.len() > 0 ==> concat(lines).len() >= lines.last().len(),
        lines.len() > 0 && lines.last().len() > 0 ==> concat(lines).last() == lines.last().last(),
        (forall|k: int| 0 <= k < lines.len() ==> (#[trigger] lines[k]).len() > 0) ==> concat(
            lines,
        ).len() >= lines.len(),
    decreases lines.len(),
{
    if lines.len() > 0 {
        lemma_concat_len(lines.drop_last());
        if forall|k: int| 0 <= k < lines.len() ==> (#[trigger] lines[k]).len() > 0 {
            assert forall|k: int| 0 <= k < lines.drop_last().len() implies (
            #[trigger] lines.drop_last()[k]).len() > 0 by {
                assert(lines.drop_last()[k] == lines[k]);
            }
            assert(lines[lines.len() - 1].len() > 0);
        }
    }
}

/// A text has one split into lines only: whatever is a split of `s` into
/// lines is `lines_of(s)`.
pub proof fn lemma_lines_of_unique(lines: Seq<Seq<char>>, s: Seq<char>)
    requires
        is_line_split(lines),
        concat(lines) == s,
    ensures
        lines == lines_of(s),
    decreases s.len(),
{
    lemma_concat_len(lines);
    assert forall|k: int| 0 <= k < lines.len() implies (#[trigger] lines[k]).len() > 0 by {
        assert(is_line(lines[k]));
    }
    if s.len() == 0 {
        assert(lines =~= lines_of(s));
    } else {
        let head = lines.drop_last();
        let l = lines.last();
        let c = s.last();
        assert(is_line(lines[lines.len() - 1]));
        assert(l.last() == c);
        if l.len() >= 2 {
            let shorter = head.push(l.drop_last());
            assert(shorter.drop_last() =~= head);
            assert(concat(shorter) =~= s.drop_last());
            assert forall|k: int| 0 <= k < shorter.len() implies is_line(#[trigger] shorter[k])
                && (k < shorter.len() - 1 ==> shorter[k].last() == '\n') by {
                if k < shorter.len() - 1 {
                    assert(shorter[k] == lines[k]);
                    assert(is_line(lines[k]));
                } else {
                    assert forall|i: int| 0 <= i < l.drop_last().len() - 1 implies l.drop_last()[i]
                        != '\n' by {
                        assert(l.drop_last()[i] == l[i]);
                    }
                }
            }
            lemma_lines_of_unique(shorter, s.drop_last());
            assert(l[l.len() - 2] != '\n');
            assert(s[s.len() - 2] == l[l.len() - 2]) by {
                assert(s =~= concat(head) + l);
            }
            assert(shorter.last().push(c) =~= l);
            assert(lines =~= shorter.drop_last().push(l));
        } else {
            assert(l =~= seq![c]);
            assert(concat(head) =~= s.drop_last());
            assert forall|k: int| 0 <= k < head.len() implies is_line(#[trigger] head[k]) && (k
                < head.len() - 1 ==> head[k].last() == '\n') by {
                assert(head[k] == lines[k]);
                assert(is_line(lines[k]));
            }
            lemma_lines_of_unique(head, s.drop_last());
            if s.len() >= 2 {
                lemma_concat_len(head);
                assert forall|k: int| 0 <= k < head.len() implies (#[trigger] head[k]).len()
                    > 0 by {
                    assert(head[k] == lines[k]);
                }
                assert(head.len() > 0);
                assert(head.last() == lines[lines.len() - 2]);
                assert(is_line(lines[lines.len() - 2]));
                assert(s.drop_last().last() == '\n');
                assert(s[s.len() - 2] == '\n');
            }
            assert(lines =~= head.push(seq![c]));
        }
    }
}

/// The length of `s` without the line terminators at its end.
pub open spec fn trimmed_len(s: Seq<char>) -> nat
    decreases s.len(),
{
    if s.len() > 0 && is_terminator(s.last()) {
        trimmed_len(s.drop_last())
    } else {
        s.len()
    }
}

/// `s` without the line terminators at its end: what two lines are compared
/// by.
pub open spec fn trimmed(s: Seq<char>) -> Seq<char> {
    s.take(trimmed_len(s) as int)
}

/// Whether two lines say the same but for the terminators at their ends.
pub open spec fn same_text(a: Seq<char>, b: Seq<char>) -> bool {
    trimmed(a) == trimmed(b)
}

/// What is trimmed off a line is terminators only, and what is left does
/// not end in one.
pub proof fn lemma_trimmed(s: Seq<char>)
    ensures
        trimmed_len(s) <= s.len(),
        forall|i: int| trimmed_len(s) <= i < s.len() ==> is_terminator(s[i]),
        trimmed_len(s) > 0 ==> !is_terminator(s[trimmed_len(s) - 1]),
    decreases s.len(),
{
    if s.len() > 0 && is_terminator(s.last()) {
        lemma_trimmed(s.drop_last());
        assert forall|i: int| trimmed_len(s) <= i < s.len() implies is_terminator(s[i]) by {
            if i < s.len() - 1 {
                assert(s.drop_last()[i] == s[i]);
            }
        }
        if trimmed_len(s) > 0 {
            assert(s.drop_last()[trimmed_len(s) - 1] == s[trimmed_len(s) - 1]);
        }
    }
}

/// The number of characters of `line` that stand before the terminators at
/// its end.
pub fn line_trimmed_len(line: &str) -> (n: usize)
    ensures
        n == trimmed_len(line@),
{
    let bound = line.as_bytes().len();
    let mut seen: usize = 0;
    let mut n: usize = 0;
    proof {
        lemma_chars_le_bytes(line@);
        assert(line@.take(0) =~= Seq::<char>::empty());
    }
    for c in it: line.chars()
        invariant
            it.seq() == line@,
            line@.len() <= bound,
            seen == it.index(),
            n == trimmed_len(line@.take(it.index())),
    {
        proof {
            let i = it.index();
            assert(line@.take(i + 1).drop_last() =~= line@.take(i));
            assert(line@.take(i + 1).last() == c);
        }
        seen = seen + 1;
        if !char_is_terminator(c) {
            n = seen;
        }
    }
    proof {
        assert(line@.take(line@.len() as int) =~= line@);
    }
    n
}

/// Whether `a` and `b` agree in their first `n` characters.
pub fn prefix_equal(a: &str, b: &str, n: usize) -> (r: bool)
    requires
        n <= a@.len(),
        n <= b@.len(),
    ensures
        r == (a@.take(n as int) == b@.take(n as int)),
{
    let mut rest_a = a.chars();
    let mut rest_b = b.chars();
    let mut i: usize = 0;
    assert(a@.skip(0) =~= a@ && b@.skip(0) =~= b@);
    assert(a@.take(0) =~= b@.take(0));
    while i < n
        invariant
            i <= n,
            n <= a@.len(),
            n <= b@.len(),
            rest_a.remaining() == a@.skip(i as int),
            rest_b.remaining() == b@.skip(i as int),
            a@.take(i as int) == b@.take(i as int),
        decreases n - i,
    {
        let ca = rest_a.next();
        let cb = rest_b.next();
        assert(ca == Some(a@[i as int]));
        assert(cb == Some(b@[i as int]));
        if ca != cb {
            assert(a@.take(n as int)[i as int] != b@.take(n as int)[i as int]);
            return false;
        }
        assert(a@.skip(i as int).drop_first() =~= a@.skip(i + 1));
        assert(b@.skip(i as int).drop_first() =~= b@.skip(i + 1));
        assert(a@.take(i + 1) =~= a@.take(i as int).push(a@[i as int]));
        assert(b@.take(i + 1) =~= b@.take(i as int).push(b@[i as int]));
        i = i + 1;
    }
    true
}

/// Decides `same_text`.
pub fn same_trimmed(a: &str, b: &str) -> (r: bool)
    ensures
        r == same_text(a@, b@),
{
    let len_a = line_trimmed_len(a);
    let len_b = line_trimmed_len(b);
    proof {
        lemma_trimmed(a@);
        lemma_trimmed(b@);
    }
    if len_a != len_b {
        assert(trimmed(a@).len() != trimmed(b@).len());
        false
    } else {
        prefix_equal(a, b, len_a)
    }
}

/// The texts of a list of strings, in order.
pub open spec fn line_views(lines: Seq<String>) -> Seq<Seq<char>> {
    Seq::new(lines.len(), |k: int| lines[k]@)
}

/// `String::push`: puts the character `c` at the end of `s`.
#[verifier::external_body]
fn push_char(s: &mut String, c: char)
    ensures
        final(s)@ == old(s)@.push(c),
{
    s.push(c);
}

/// Cuts `text` into its lines: after each line feed, and nowhere else.
pub fn split_lines(text: &str) -> (lines: Vec<String>)
    ensures
        line_views(lines@) == lines_of(text@),
{
    let mut lines: Vec<String> = Vec::new();
    let mut current = String::new();
    let mut open = false;
    proof {
        assert(text@.take(0) =~= Seq::<char>::empty());
        assert(line_views(lines@) =~= lines_of(text@.take(0)));
    }
    for c in it: text.chars()
        invariant
            it.seq() == text@,
            open == (it.index() > 0 && text@[it.index() - 1] != '\n'),
            open ==> lines_of(text@.take(it.index())).len() > 0 && line_views(lines@) == lines_of(
                text@.take(it.index()),
            ).drop_last() && current@ == lines_of(text@.take(it.index())).last(),
            !open ==> line_views(lines@) == lines_of(text@.take(it.index())) && current@
                == Seq::<char>::empty(),
    {
        let ghost before = lines_of(text@.take(it.index()));
        let ghost after = lines_of(text@.take(it.index() + 1));
        let ghost held = lines@;
        proof {
            let p = text@.take(it.index());
            assert(text@.take(it.index() + 1) =~= p.push(c));
            assert(p.push(c).drop_last() =~= p);
            if open {
                assert(p.last() == text@[it.index() - 1]);
                assert(after == before.drop_last().push(before.last().push(c)));
                assert(after.drop_last() =~= before.drop_last());
            } else {
                assert(after == before.push(seq![c]));
                assert(after.drop_last() =~= before);
                assert(Seq::<char>::empty().push(c) =~= seq![c]);
            }
        }
        push_char(&mut current, c);
        if c == '\n' {
            lines.push(current);
            current = String::new();
            open = false;
            assert(line_views(lines@) =~= line_views(held).push(after.last()));
            assert(line_views(lines@) =~= after);
        } else {
            open = true;
        }
    }
    proof {
        assert(text@.take(text@.len() as int) =~= text@);
    }
    if open {
        let ghost held = lines@;
        lines.push(current);
        assert(line_views(lines@) =~= line_views(held).push(lines_of(text@).last()));
        assert(line_views(lines@) =~= lines_of(text@));
    }
    lines
}

} // verus!
