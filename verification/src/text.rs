//! Small verified helpers over text: equality, search, line splitting and
//! decimal rendering, each stated over the `Seq<char>` view of a string.

use vstd::prelude::*;

verus! {

/// `needle` occurs in `haystack` starting at position `at`.
pub open spec fn occurs_at(haystack: Seq<char>, needle: Seq<char>, at: int) -> bool {
    &&& 0 <= at
    &&& at + needle.len() <= haystack.len()
    &&& haystack.subrange(at, at + needle.len()) == needle
}

/// `needle` occurs somewhere in `haystack` as a contiguous run of characters.
pub open spec fn has_substring(haystack: Seq<char>, needle: Seq<char>) -> bool {
    exists|at: int| occurs_at(haystack, needle, at)
}

/// The characters of a string, one element per character.
pub fn chars_of(s: &str) -> (chars: Vec<char>)
    ensures
        chars@ == s@,
{
    let mut chars: Vec<char> = Vec::new();
    for c in iter: s.chars()
        invariant
            chars@ == iter.seq().take(iter.index() as int),
            iter.seq() == s@,
    {
        chars.push(c);
    }
    chars
}

/// Whether two strings hold the same characters.
pub fn same_text(a: &str, b: &str) -> (same: bool)
    ensures
        same == (a@ == b@),
{
    let left = a.to_owned();
    let right = b.to_owned();
    left == right
}

/// Whether `needle` occurs in `haystack` starting exactly at `at`.
fn matches_at(haystack: &Vec<char>, needle: &Vec<char>, at: usize) -> (hit: bool)
    requires
        at + needle.len() <= haystack.len(),
    ensures
        hit == occurs_at(haystack@, needle@, at as int),
{
    let mut k: usize = 0;
    while k < needle.len()
        invariant
            k <= needle.len(),
            at + needle.len() <= haystack.len(),
            forall|j: int| 0 <= j < k ==> haystack@[at + j] == needle@[j],
        decreases needle.len() - k,
    {
        if haystack[at + k] != needle[k] {
            proof {
                let window = haystack@.subrange(at as int, at + needle.len());
                assert(window[k as int] == haystack@[at + k]);
            }
            return false;
        }
        k += 1;
    }
    assert(haystack@.subrange(at as int, at + needle.len()) =~= needle@);
    true
}

/// Whether `needle` occurs anywhere in `haystack`.
pub fn contains_text(haystack: &str, needle: &str) -> (found: bool)
    ensures
        found == has_substring(haystack@, needle@),
{
    let hay = chars_of(haystack);
    let pat = chars_of(needle);
    if pat.len() > hay.len() {
        return false;
    }
    let last: usize = hay.len() - pat.len();
    let mut at: usize = 0;
    loop
        invariant
            at <= last,
            last == hay.len() - pat.len(),
            pat.len() <= hay.len(),
            hay@ == haystack@,
            pat@ == needle@,
            forall|i: int| 0 <= i < at ==> !occurs_at(haystack@, needle@, i),
        decreases last - at,
    {
        if matches_at(&hay, &pat, at) {
            return true;
        }
        if at == last {
            return false;
        }
        at += 1;
    }
}

/// The number of characters before the first line feed of `s`, or the length
/// of `s` when it holds none.
pub open spec fn first_line_feed(s: Seq<char>) -> int
    decreases s.len(),
{
    if s.len() == 0 || s[0] == '\n' {
        0
    } else {
        1 + first_line_feed(s.drop_first())
    }
}

/// A line as it stood before its line feed, without the carriage return that
/// may end it.
pub open spec fn without_carriage_return(line: Seq<char>) -> Seq<char> {
    if line.len() > 0 && line.last() == '\r' {
        line.drop_last()
    } else {
        line
    }
}

/// The lines of a text. A line ends at a line feed; the line feed, and a
/// carriage return directly before it, are not part of the line. Text after
/// the last line feed is a line of its own and is kept as it is; a text that
/// ends in a line feed has no empty line after it.
pub open spec fn lines_of(s: Seq<char>) -> Seq<Seq<char>>
    decreases s.len(),
{
    if s.len() == 0 {
        Seq::empty()
    } else {
        proof {
            lemma_first_line_feed_bounds(s);
        }
        let cut = first_line_feed(s);
        if cut == s.len() {
            seq![s]
        } else {
            seq![without_carriage_return(s.subrange(0, cut))] + lines_of(
                s.subrange(cut + 1, s.len() as int),
            )
        }
    }
}

/// `first_line_feed` is the position of the first line feed.
pub proof fn lemma_first_line_feed(s: Seq<char>, cut: int)
    requires
        0 <= cut <= s.len(),
        forall|j: int| 0 <= j < cut ==> s[j] != '\n',
        cut < s.len() ==> s[cut] == '\n',
    ensures
        first_line_feed(s) == cut,
    decreases s.len(),
{
    if s.len() == 0 || s[0] == '\n' {
    } else {
        let rest = s.drop_first();
        assert forall|j: int| 0 <= j < cut - 1 implies rest[j] != '\n' by {
            assert(rest[j] == s[j + 1]);
        }
        lemma_first_line_feed(rest, cut - 1);
    }
}

/// `first_line_feed` never leaves the text.
pub proof fn lemma_first_line_feed_bounds(s: Seq<char>)
    ensures
        0 <= first_line_feed(s) <= s.len(),
    decreases s.len(),
{
    if s.len() == 0 || s[0] == '\n' {
    } else {
        lemma_first_line_feed_bounds(s.drop_first());
    }
}

/// Splits a text into its lines.
pub fn split_lines(content: &str) -> (lines: Vec<String>)
    ensures
        lines.deep_view() == lines_of(content@),
{
    let chars = chars_of(content);
    let n = chars.len();
    let mut lines: Vec<String> = Vec::new();
    let mut start: usize = 0;
    let mut i: usize = 0;
    assert(chars@.subrange(0, n as int) =~= chars@);
    while i < n
        invariant
            start <= i <= n,
            n == chars.len(),
            chars@ == content@,
            forall|j: int| start <= j < i ==> chars@[j] != '\n',
            lines.deep_view() + lines_of(chars@.subrange(start as int, n as int)) == lines_of(
                chars@,
            ),
        decreases n - i,
    {
        if chars[i] == '\n' {
            let end: usize = if i > start && chars[i - 1] == '\r' {
                i - 1
            } else {
                i
            };
            let line = content.substring_char(start, end).to_owned();
            proof {
                let rest = chars@.subrange(start as int, n as int);
                let cut = i - start;
                lemma_first_line_feed(rest, cut);
                lemma_first_line_feed_bounds(rest);
                assert(rest.subrange(cut + 1, rest.len() as int) =~= chars@.subrange(
                    i + 1,
                    n as int,
                ));
                assert(rest.subrange(0, cut) =~= chars@.subrange(start as int, i as int));
                assert(line@ =~= without_carriage_return(rest.subrange(0, cut)));
                assert(lines_of(rest) == seq![line@] + lines_of(
                    rest.subrange(cut + 1, rest.len() as int),
                ));
                assert(lines.deep_view().push(line@) + lines_of(
                    chars@.subrange(i + 1, n as int),
                ) =~= lines.deep_view() + lines_of(rest));
            }
            let ghost before = lines.deep_view();
            lines.push(line);
            assert(lines.deep_view() =~= before.push(line@));
            start = i + 1;
        }
        i += 1;
    }
    if start < n {
        let line = content.substring_char(start, n).to_owned();
        proof {
            let rest = chars@.subrange(start as int, n as int);
            lemma_first_line_feed(rest, rest.len() as int);
            lemma_first_line_feed_bounds(rest);
            assert(lines_of(rest) =~= seq![rest]);
        }
        let ghost before = lines.deep_view();
        lines.push(line);
        assert(lines.deep_view() =~= before.push(line@));
    } else {
        assert(chars@.subrange(start as int, n as int) =~= Seq::<char>::empty());
    }
    lines
}

/// The character that stands for a digit below ten.
pub open spec fn digit_char(d: nat) -> char {
    if d == 0 {
        '0'
    } else if d == 1 {
        '1'
    } else if d == 2 {
        '2'
    } else if d == 3 {
        '3'
    } else if d == 4 {
        '4'
    } else if d == 5 {
        '5'
    } else if d == 6 {
        '6'
    } else if d == 7 {
        '7'
    } else if d == 8 {
        '8'
    } else {
        '9'
    }
}

/// The decimal digits of a number, most significant first, without leading
/// zeros.
pub open spec fn decimal_digits(n: nat) -> Seq<char>
    decreases n,
{
    if n < 10 {
        seq![digit_char(n)]
    } else {
        decimal_digits(n / 10).push(digit_char(n % 10))
    }
}

fn digit_text(d: usize) -> (text: &'static str)
    requires
        d < 10,
    ensures
        text@ == seq![digit_char(d as nat)],
{
    proof {
        reveal_strlit("0");
        reveal_strlit("1");
        reveal_strlit("2");
        reveal_strlit("3");
        reveal_strlit("4");
        reveal_strlit("5");
        reveal_strlit("6");
        reveal_strlit("7");
        reveal_strlit("8");
        reveal_strlit("9");
    }
    let text = if d == 0 {
        "0"
    } else if d == 1 {
        "1"
    } else if d == 2 {
        "2"
    } else if d == 3 {
        "3"
    } else if d == 4 {
        "4"
    } else if d == 5 {
        "5"
    } else if d == 6 {
        "6"
    } else if d == 7 {
        "7"
    } else if d == 8 {
        "8"
    } else {
        "9"
    };
    assert(text@ =~= seq![digit_char(d as nat)]);
    text
}

/// A number written in decimal.
pub fn decimal_string(n: usize) -> (text: String)
    ensures
        text@ == decimal_digits(n as nat),
    decreases n,
{
    if n < 10 {
        digit_text(n).to_owned()
    } else {
        let mut text = decimal_string(n / 10);
        text.append(digit_text(n % 10));
        assert(text@ =~= decimal_digits(n as nat));
        text
    }
}

/// Looks `item` up in `list` and returns the first position that holds it.
pub fn position_of(list: &Vec<String>, item: &str) -> (found: Option<usize>)
    ensures
        found matches Some(i) ==> i < list.len() && list[i as int]@ == item@ && forall|j: int|
            0 <= j < i ==> list[j]@ != item@,
        found is None ==> forall|j: int| 0 <= j < list.len() ==> list[j]@ != item@,
{
    let wanted = item.to_owned();
    let mut i: usize = 0;
    while i < list.len()
        invariant
            i <= list.len(),
            wanted@ == item@,
            forall|j: int| 0 <= j < i ==> list[j]@ != item@,
        decreases list.len() - i,
    {
        if list[i] == wanted {
            return Some(i);
        }
        i += 1;
    }
    None
}

} // verus!
