//! The lines that a monitor may send.
use vstd::prelude::*;

verus! {

/// Whether a character is white space, as Unicode's `White_Space` property has
/// it.
pub open spec fn is_white_space(c: char) -> bool {
    ||| '\u{9}' <= c <= '\u{d}'
    ||| c == '\u{20}'
    ||| c == '\u{85}'
    ||| c == '\u{a0}'
    ||| c == '\u{1680}'
    ||| '\u{2000}' <= c <= '\u{200a}'
    ||| c == '\u{2028}'
    ||| c == '\u{2029}'
    ||| c == '\u{202f}'
    ||| c == '\u{205f}'
    ||| c == '\u{3000}'
}

/// Whether `trimmed` is `s` without the white space at its ends.
pub open spec fn is_trimmed(s: Seq<char>, trimmed: Seq<char>) -> bool {
    exists|start: int, end: int|
        {
            &&& 0 <= start <= end <= s.len()
            &&& trimmed == #[trigger] s.subrange(start, end)
            &&& forall|i: int| 0 <= i < start ==> is_white_space(#[trigger] s[i])
            &&& forall|i: int| end <= i < s.len() ==> is_white_space(#[trigger] s[i])
            &&& trimmed.len() > 0 ==> !is_white_space(trimmed[0]) && !is_white_space(trimmed.last())
        }
}

/// A character with an ASCII capital made small.
pub open spec fn ascii_small(c: char) -> char {
    if 'A' <= c <= 'Z' {
        (c as u32 + 32) as char
    } else {
        c
    }
}

/// Whether two texts are the same but for the case of ASCII letters.
pub open spec fn same_but_for_case(a: Seq<char>, b: Seq<char>) -> bool {
    &&& a.len() == b.len()
    &&& forall|i: int| 0 <= i < a.len() ==> ascii_small(#[trigger] a[i]) == ascii_small(b[i])
}

/// Whether a line asks to stop trading: the word `KILL`, in any case, with
/// white space or nothing around it.
pub open spec fn asks_to_stop(line: Seq<char>) -> bool {
    exists|word: Seq<char>| #[trigger]
        is_trimmed(line, word) && same_but_for_case(word, "KILL"@)
}

/// `str::trim`: it is claimed that std gives the text without the characters
/// of Unicode's `White_Space` property at its two ends, and nothing else.
pub assume_specification[ str::trim ](s: &str) -> (trimmed: &str)
    ensures
        is_trimmed(s@, trimmed@),
;

/// `str::eq_ignore_ascii_case`: it is claimed that std tells whether the two
/// texts are the same once ASCII capitals are made small.
pub assume_specification[ str::eq_ignore_ascii_case ](s: &str, other: &str) -> (same: bool)
    ensures
        same == same_but_for_case(s@, other@),
;

/// A text has one trimmed form.
proof fn lemma_trimmed_once(s: Seq<char>, a: Seq<char>, b: Seq<char>)
    requires
        is_trimmed(s, a),
        is_trimmed(s, b),
    ensures
        a == b,
{
    let (start_a, end_a) = choose|start: int, end: int|
        {
            &&& 0 <= start <= end <= s.len()
            &&& a == #[trigger] s.subrange(start, end)
            &&& forall|i: int| 0 <= i < start ==> is_white_space(#[trigger] s[i])
            &&& forall|i: int| end <= i < s.len() ==> is_white_space(#[trigger] s[i])
            &&& a.len() > 0 ==> !is_white_space(a[0]) && !is_white_space(a.last())
        };
    let (start_b, end_b) = choose|start: int, end: int|
        {
            &&& 0 <= start <= end <= s.len()
            &&& b == #[trigger] s.subrange(start, end)
            &&& forall|i: int| 0 <= i < start ==> is_white_space(#[trigger] s[i])
            &&& forall|i: int| end <= i < s.len() ==> is_white_space(#[trigger] s[i])
            &&& b.len() > 0 ==> !is_white_space(b[0]) && !is_white_space(b.last())
        };
    if a.len() > 0 {
        assert(a[0] == s[start_a] && a.last() == s[end_a - 1]);
    }
    if b.len() > 0 {
        assert(b[0] == s[start_b] && b.last() == s[end_b - 1]);
    }
    assert(a =~= b);
}

/// Whether a line asks to stop trading.
pub fn is_kill_command(line: &str) -> (asks: bool)
    ensures
        asks == asks_to_stop(line@),
{
    let word = line.trim();
    proof {
        assert forall|other: Seq<char>| #[trigger] is_trimmed(line@, other) implies other == word@ by {
            lemma_trimmed_once(line@, other, word@);
        }
    }
    word.eq_ignore_ascii_case("KILL")
}

/// Whether a character is blank: a tab, a line feed, a vertical tab, a form feed, a
/// carriage return, a space, or one of the other spaces and line separators.
pub open spec fn is_blank(c: char) -> bool {
    let code = c as int;
    ||| 0x9 <= code <= 0xd
    ||| code == 0x20 || code == 0x85 || code == 0xa0 || code == 0x1680
    ||| 0x2000 <= code <= 0x200a
    ||| code == 0x2028 || code == 0x2029 || code == 0x202f || code == 0x205f || code == 0x3000
}

/// Whether the four letters of the word stand at a place, each large or small, and
/// all else is blank.
pub open spec fn stops_at(line: Seq<char>, start: int) -> bool {
    &&& 0 <= start
    &&& start + 4 <= line.len()
    &&& line[start] == 'K' || line[start] == 'k'
    &&& line[start + 1] == 'I' || line[start + 1] == 'i'
    &&& line[start + 2] == 'L' || line[start + 2] == 'l'
    &&& line[start + 3] == 'L' || line[start + 3] == 'l'
    &&& forall|i: int| 0 <= i < start ==> is_blank(#[trigger] line[i])
    &&& forall|i: int| start + 4 <= i < line.len() ==> is_blank(#[trigger] line[i])
}

/// A letter is one of two that differ in case alone.
proof fn lemma_either_case(c: char)
    ensures
        ascii_small(c) == ascii_small('K') <==> c == 'K' || c == 'k',
        ascii_small(c) == ascii_small('I') <==> c == 'I' || c == 'i',
        ascii_small(c) == ascii_small('L') <==> c == 'L' || c == 'l',
{
}

/// A line stops trading exactly where it is the word, each of its letters large or
/// small, with nothing but blanks before and behind it.
pub proof fn law_only_the_word_stops_trading(line: Seq<char>)
    ensures
        asks_to_stop(line) <==> exists|start: int| #[trigger] stops_at(line, start),
{
    reveal_strlit("KILL");
    assert forall|c: char| #[trigger] is_white_space(c) == is_blank(c) by {}
    if asks_to_stop(line) {
        let word = choose|word: Seq<char>| #[trigger]
            is_trimmed(line, word) && same_but_for_case(word, "KILL"@);
        let (start, end) = choose|start: int, end: int|
            {
                &&& 0 <= start <= end <= line.len()
                &&& word == #[trigger] line.subrange(start, end)
                &&& forall|i: int| 0 <= i < start ==> is_white_space(#[trigger] line[i])
                &&& forall|i: int| end <= i < line.len() ==> is_white_space(#[trigger] line[i])
                &&& word.len() > 0 ==> !is_white_space(word[0]) && !is_white_space(word.last())
            };
        assert(word.len() == 4);
        assert(word[0] == line[start] && word[1] == line[start + 1]);
        assert(word[2] == line[start + 2] && word[3] == line[start + 3]);
        lemma_either_case(word[0]);
        lemma_either_case(word[1]);
        lemma_either_case(word[2]);
        lemma_either_case(word[3]);
        assert(stops_at(line, start));
    }
    if exists|start: int| #[trigger] stops_at(line, start) {
        let start = choose|start: int| #[trigger] stops_at(line, start);
        let word = line.subrange(start, start + 4);
        lemma_either_case(word[0]);
        lemma_either_case(word[1]);
        lemma_either_case(word[2]);
        lemma_either_case(word[3]);
        assert(!is_blank(word[0]) && !is_blank(word.last()));
        assert forall|i: int| start + 4 <= i < line.len() implies is_white_space(
            #[trigger] line[i],
        ) by {
            assert(is_blank(line[i]));
        }
        assert forall|i: int| 0 <= i < start implies is_white_space(#[trigger] line[i]) by {
            assert(is_blank(line[i]));
        }
        assert(is_trimmed(line, word));
        assert(same_but_for_case(word, "KILL"@));
    }
}

} // verus!
