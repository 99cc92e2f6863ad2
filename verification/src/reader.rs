//! Turning the text of a puzzle input into lines, records, numbers and grids.
//!
//! Every function takes the text itself; fetching it from a file is left to
//! the caller.

use vstd::prelude::*;

verus! {

/// Whether a character counts as white space for [`trimmed`]: the characters
/// with the Unicode property `White_Space`, by their code points.
pub open spec fn is_white_space(c: char) -> bool {
    let code = c as u32;
    ||| 0x9 <= code <= 0xd
    ||| code == 0x20
    ||| code == 0x85
    ||| code == 0xa0
    ||| code == 0x1680
    ||| 0x2000 <= code <= 0x200a
    ||| code == 0x2028
    ||| code == 0x2029
    ||| code == 0x202f
    ||| code == 0x205f
    ||| code == 0x3000
}

/// Asks `char::is_whitespace`, which tells whether a character has the Unicode
/// property `White_Space`; the contract claims that these are the characters
/// that [`is_white_space`] lists.
#[verifier::external_body]
fn white_space(c: char) -> (white: bool)
    ensures
        white == is_white_space(c),
{
    c.is_whitespace()
}

/// Builds a string with `String::from_iter`, which collects the characters it
/// is given in their order; the contract claims that the string consists of
/// exactly those characters.
#[verifier::external_body]
pub(crate) fn string_of(chars: &Vec<char>) -> (text: String)
    ensures
        text@ == chars@,
{
    String::from_iter(chars.iter())
}

/// The texts of a list of strings.
pub open spec fn texts(list: Vec<String>) -> Seq<Seq<char>> {
    Seq::new(list@.len(), |i: int| list@[i]@)
}

/// The rows of a list of character lists.
pub open spec fn rows(list: Vec<Vec<char>>) -> Seq<Seq<char>> {
    Seq::new(list@.len(), |i: int| list@[i]@)
}

/// `sep` stands in `s` at position `at`.
pub open spec fn found_at(s: Seq<char>, sep: Seq<char>, at: int) -> bool {
    0 <= at && at + sep.len() <= s.len() && s.subrange(at, at + sep.len()) == sep
}

/// The first position from `from` on at which `sep` stands in `s`, or `-1` if
/// there is none.
pub open spec fn find_from(s: Seq<char>, sep: Seq<char>, from: int) -> int
    decreases s.len() - from + 1,
{
    if from < 0 || from + sep.len() > s.len() {
        -1
    } else if found_at(s, sep, from) {
        from
    } else {
        find_from(s, sep, from + 1)
    }
}

/// The pieces into which an empty separator takes `s` apart: an empty piece,
/// every character as a piece of its own, and an empty piece again.
pub open spec fn split_apart(s: Seq<char>) -> Seq<Seq<char>> {
    Seq::new(
        s.len() + 2,
        |i: int|
            if 0 < i <= s.len() {
                seq![s[i - 1]]
            } else {
                Seq::empty()
            },
    )
}

/// The pieces of `s` between the occurrences of `sep`, found from left to
/// right without overlap. There is always at least one piece; a text without
/// `sep` is its own only piece. An empty separator is found before every
/// character and at the end.
pub open spec fn split_on(s: Seq<char>, sep: Seq<char>) -> Seq<Seq<char>>
    decreases s.len(),
{
    let at = find_from(s, sep, 0);
    if sep.len() == 0 {
        split_apart(s)
    } else if at < 0 || at + sep.len() > s.len() {
        seq![s]
    } else {
        seq![s.take(at)] + split_on(s.skip(at + sep.len()), sep)
    }
}

/// `line` without a carriage return at its end.
pub open spec fn without_return(line: Seq<char>) -> Seq<char> {
    if line.len() > 0 && line.last() == '\r' {
        line.drop_last()
    } else {
        line
    }
}

/// The lines of `s`: the pieces between line feeds, each without the
/// carriage return that may stand before its line feed. What follows the last
/// line feed is a line only if it is not empty, and keeps a carriage return at
/// its end.
pub open spec fn lines_of(s: Seq<char>) -> Seq<Seq<char>> {
    let pieces = split_on(s, seq!['\n']);
    let ended = Seq::new((pieces.len() - 1) as nat, |i: int| without_return(pieces[i]));
    if pieces.last().len() == 0 {
        ended
    } else {
        ended.push(pieces.last())
    }
}

/// The pieces that are not empty, in their order.
pub open spec fn filled(pieces: Seq<Seq<char>>) -> Seq<Seq<char>>
    decreases pieces.len(),
{
    if pieces.len() == 0 {
        Seq::empty()
    } else if pieces.last().len() > 0 {
        filled(pieces.drop_last()).push(pieces.last())
    } else {
        filled(pieces.drop_last())
    }
}

/// The number of white-space characters at the beginning of `s`.
pub open spec fn white_lead(s: Seq<char>) -> nat
    decreases s.len(),
{
    if s.len() > 0 && is_white_space(s[0]) {
        1 + white_lead(s.drop_first())
    } else {
        0
    }
}

/// The number of white-space characters at the end of `s`.
pub open spec fn white_tail(s: Seq<char>) -> nat
    decreases s.len(),
{
    if s.len() > 0 && is_white_space(s.last()) {
        1 + white_tail(s.drop_last())
    } else {
        0
    }
}

/// `s` without the white space at its beginning and at its end.
pub open spec fn trimmed(s: Seq<char>) -> Seq<char> {
    let lead = white_lead(s);
    if lead == s.len() {
        Seq::empty()
    } else {
        s.subrange(lead as int, s.len() - white_tail(s))
    }
}

proof fn lemma_white_lead(s: Seq<char>, n: int)
    requires
        0 <= n <= s.len(),
        forall|i: int| 0 <= i < n ==> is_white_space(#[trigger] s[i]),
        n < s.len() ==> !is_white_space(s[n]),
    ensures
        white_lead(s) == n,
    decreases n,
{
    if n > 0 {
        let rest = s.drop_first();
        assert forall|i: int| 0 <= i < n - 1 implies is_white_space(#[trigger] rest[i]) by {
            assert(rest[i] == s[i + 1]);
        }
        lemma_white_lead(rest, n - 1);
    }
}

proof fn lemma_white_tail(s: Seq<char>, n: int)
    requires
        0 <= n <= s.len(),
        forall|i: int| s.len() - n <= i < s.len() ==> is_white_space(#[trigger] s[i]),
        n < s.len() ==> !is_white_space(s[s.len() - n - 1]),
    ensures
        white_tail(s) == n,
    decreases n,
{
    if n > 0 {
        let rest = s.drop_last();
        assert forall|i: int| rest.len() - (n - 1) <= i < rest.len() implies is_white_space(
            #[trigger] rest[i],
        ) by {
            assert(rest[i] == s[i]);
        }
        lemma_white_tail(rest, n - 1);
    }
}

/// Where `sep` stands nowhere before `at` and stands at `at`, it is found
/// there first.
proof fn lemma_found_first(s: Seq<char>, sep: Seq<char>, from: int, at: int)
    requires
        0 <= from <= at,
        found_at(s, sep, at),
        forall|j: int| from <= j < at ==> !found_at(s, sep, j),
    ensures
        find_from(s, sep, from) == at,
    decreases at - from,
{
    if from < at {
        lemma_found_first(s, sep, from + 1, at);
    }
}

/// Where `sep` stands nowhere from `from` on, it is not found.
proof fn lemma_found_nowhere(s: Seq<char>, sep: Seq<char>, from: int)
    requires
        0 <= from,
        forall|j: int| from <= j ==> !found_at(s, sep, j),
    ensures
        find_from(s, sep, from) == -1,
    decreases s.len() - from + 1,
{
    if from + sep.len() <= s.len() {
        lemma_found_nowhere(s, sep, from + 1);
    }
}

/// The characters of a text, in their order.
pub(crate) fn chars_of(text: &str) -> (chars: Vec<char>)
    ensures
        chars@ == text@,
{
    let mut chars: Vec<char> = Vec::new();
    let len: usize = text.unicode_len();
    let mut i: usize = 0;
    while i < len
        invariant
            len == text@.len(),
            i <= len,
            chars@ == text@.take(i as int),
        decreases len - i,
    {
        chars.push(text.get_char(i));
        proof {
            assert(chars@ =~= text@.take(i + 1));
        }
        i = i + 1;
    }
    proof {
        assert(text@.take(len as int) =~= text@);
    }
    chars
}

/// A copy of the characters from `from` up to `to`.
fn copy_range(text: &Vec<char>, from: usize, to: usize) -> (piece: Vec<char>)
    requires
        from <= to <= text@.len(),
    ensures
        piece@ == text@.subrange(from as int, to as int),
{
    let mut piece: Vec<char> = Vec::new();
    let mut i: usize = from;
    while i < to
        invariant
            from <= i <= to <= text@.len(),
            piece@ == text@.subrange(from as int, i as int),
        decreases to - i,
    {
        piece.push(text[i]);
        proof {
            assert(piece@ =~= text@.subrange(from as int, i + 1));
        }
        i = i + 1;
    }
    piece
}

/// Whether `sep` stands in `text` at position `at`.
fn stands_at(text: &Vec<char>, sep: &Vec<char>, at: usize) -> (found: bool)
    ensures
        found == found_at(text@, sep@, at as int),
{
    if sep.len() > text.len() || at > text.len() - sep.len() {
        return false;
    }
    let len: usize = text.len();
    let mut k: usize = 0;
    while k < sep.len()
        invariant
            len == text@.len(),
            at + sep@.len() <= text@.len(),
            k <= sep@.len(),
            forall|j: int| 0 <= j < k ==> text@[at + j] == sep@[j],
        decreases sep@.len() - k,
    {
        if text[at + k] != sep[k] {
            proof {
                assert(text@.subrange(at as int, at + sep@.len())[k as int] == text@[at + k]);
            }
            return false;
        }
        k = k + 1;
    }
    proof {
        assert(text@.subrange(at as int, at + sep@.len()) =~= sep@);
    }
    true
}

/// The pieces into which an empty separator takes `text` apart.
fn split_every(text: &Vec<char>) -> (pieces: Vec<Vec<char>>)
    ensures
        rows(pieces) == split_apart(text@),
        pieces@.len() > 0,
{
    let mut pieces: Vec<Vec<char>> = Vec::new();
    pieces.push(Vec::new());
    let mut i: usize = 0;
    while i < text.len()
        invariant
            i <= text@.len(),
            pieces@.len() == i + 1,
            pieces@[0]@ == Seq::<char>::empty(),
            forall|k: int| 0 < k <= i ==> (#[trigger] pieces@[k])@ == seq![text@[k - 1]],
        decreases text@.len() - i,
    {
        let mut piece: Vec<char> = Vec::new();
        piece.push(text[i]);
        proof {
            assert(piece@ =~= seq![text@[i as int]]);
        }
        pieces.push(piece);
        i = i + 1;
    }
    pieces.push(Vec::new());
    proof {
        assert(rows(pieces) =~= split_apart(text@));
    }
    pieces
}

/// The pieces of `text` between the occurrences of `sep`.
fn split_chars(text: &Vec<char>, sep: &Vec<char>) -> (pieces: Vec<Vec<char>>)
    ensures
        rows(pieces) == split_on(text@, sep@),
        pieces@.len() > 0,
{
    if sep.len() == 0 {
        return split_every(text);
    }
    let mut pieces: Vec<Vec<char>> = Vec::new();
    let mut start: usize = 0;
    let mut i: usize = 0;
    proof {
        assert(text@.skip(0) =~= text@);
        assert(rows(pieces) =~= Seq::<Seq<char>>::empty());
        assert(Seq::<Seq<char>>::empty() + split_on(text@, sep@) =~= split_on(text@, sep@));
    }
    while i < text.len()
        invariant
            sep@.len() > 0,
            start <= i <= text@.len(),
            rows(pieces) + split_on(text@.skip(start as int), sep@) == split_on(text@, sep@),
            forall|j: int| start <= j < i ==> !found_at(text@, sep@, j),
        decreases text@.len() - i,
    {
        if stands_at(text, sep, i) {
            let ghost rest = text@.skip(start as int);
            let ghost done = rows(pieces);
            proof {
                assert forall|j: int| 0 <= j < i - start implies !found_at(rest, sep@, j) by {
                    assert(!found_at(text@, sep@, start + j));
                    if j + sep@.len() <= rest.len() {
                        assert(rest.subrange(j, j + sep@.len()) =~= text@.subrange(
                            start + j,
                            start + j + sep@.len(),
                        ));
                    }
                }
                assert(rest.subrange(i - start, i - start + sep@.len()) =~= text@.subrange(
                    i as int,
                    i + sep@.len(),
                ));
                lemma_found_first(rest, sep@, 0, i - start);
                assert(rest.take(i - start) =~= text@.subrange(start as int, i as int));
                assert(rest.skip(i - start + sep@.len()) =~= text@.skip(i + sep@.len()));
            }
            let ghost piece = text@.subrange(start as int, i as int);
            pieces.push(copy_range(text, start, i));
            i = i + sep.len();
            start = i;
            proof {
                assert(rows(pieces) =~= done.push(piece));
                assert(rows(pieces) + split_on(text@.skip(start as int), sep@) =~= done + (seq![
                    piece,
                ] + split_on(text@.skip(start as int), sep@)));
            }
        } else {
            i = i + 1;
        }
    }
    proof {
        let rest = text@.skip(start as int);
        assert forall|j: int| 0 <= j implies !found_at(rest, sep@, j) by {
            if j + sep@.len() <= rest.len() {
                assert(!found_at(text@, sep@, start + j));
                assert(rest.subrange(j, j + sep@.len()) =~= text@.subrange(
                    start + j,
                    start + j + sep@.len(),
                ));
            }
        }
        lemma_found_nowhere(rest, sep@, 0);
        assert(rest =~= text@.subrange(start as int, text@.len() as int));
    }
    let ghost done = rows(pieces);
    pieces.push(copy_range(text, start, text.len()));
    proof {
        assert(rows(pieces) =~= done + seq![text@.skip(start as int)]);
    }
    pieces
}

/// The lines of `text`.
fn lines_chars(text: &Vec<char>) -> (lines: Vec<Vec<char>>)
    ensures
        rows(lines) == lines_of(text@),
{
    let feed: Vec<char> = vec!['\n'];
    let pieces = split_chars(text, &feed);
    proof {
        assert(feed@ =~= seq!['\n']);
    }
    let ghost parts = rows(pieces);
    let mut lines: Vec<Vec<char>> = Vec::new();
    let last: usize = pieces.len() - 1;
    let mut k: usize = 0;
    while k < last
        invariant
            parts == rows(pieces),
            last == pieces@.len() - 1,
            k <= last,
            rows(lines) == Seq::new(k as nat, |i: int| without_return(parts[i])),
        decreases last - k,
    {
        let piece = &pieces[k];
        let len: usize = piece.len();
        let ghost done = rows(lines);
        proof {
            assert(parts[k as int] == piece@);
        }
        if len > 0 && piece[len - 1] == '\r' {
            lines.push(copy_range(piece, 0, len - 1));
            proof {
                assert(piece@.subrange(0, len - 1) =~= piece@.drop_last());
            }
        } else {
            lines.push(copy_range(piece, 0, len));
            proof {
                assert(piece@.subrange(0, len as int) =~= piece@);
            }
        }
        proof {
            assert(rows(lines) =~= done.push(without_return(parts[k as int])));
            assert(rows(lines) =~= Seq::new((k + 1) as nat, |i: int| without_return(parts[i])));
        }
        k = k + 1;
    }
    let rest = &pieces[last];
    proof {
        assert(parts[last as int] == rest@);
        assert(parts.last() == rest@);
    }
    if rest.len() > 0 {
        let ghost done = rows(lines);
        lines.push(copy_range(rest, 0, rest.len()));
        proof {
            assert(rest@.subrange(0, rest@.len() as int) =~= rest@);
            assert(rows(lines) =~= done.push(rest@));
        }
    }
    lines
}

/// The pieces that are not empty.
fn keep_filled(pieces: &Vec<Vec<char>>) -> (kept: Vec<Vec<char>>)
    ensures
        rows(kept) == filled(rows(*pieces)),
{
    let ghost parts = rows(*pieces);
    let mut kept: Vec<Vec<char>> = Vec::new();
    let mut k: usize = 0;
    proof {
        assert(parts.take(0) =~= Seq::<Seq<char>>::empty());
        assert(rows(kept) =~= Seq::<Seq<char>>::empty());
    }
    while k < pieces.len()
        invariant
            parts == rows(*pieces),
            k <= pieces@.len(),
            rows(kept) == filled(parts.take(k as int)),
        decreases pieces@.len() - k,
    {
        let piece = &pieces[k];
        let ghost done = rows(kept);
        proof {
            assert(parts.take(k + 1).drop_last() =~= parts.take(k as int));
            assert(parts.take(k + 1).last() == piece@);
        }
        if piece.len() > 0 {
            kept.push(copy_range(piece, 0, piece.len()));
            proof {
                assert(piece@.subrange(0, piece@.len() as int) =~= piece@);
                assert(rows(kept) =~= done.push(piece@));
            }
        }
        k = k + 1;
    }
    proof {
        assert(parts.take(pieces@.len() as int) =~= parts);
    }
    kept
}

/// `text` without the white space at its beginning and at its end.
fn trim_chars(text: &Vec<char>) -> (inner: Vec<char>)
    ensures
        inner@ == trimmed(text@),
{
    let len: usize = text.len();
    let mut from: usize = 0;
    while from < len && white_space(text[from])
        invariant
            len == text@.len(),
            from <= len,
            forall|i: int| 0 <= i < from ==> is_white_space(#[trigger] text@[i]),
        decreases len - from,
    {
        from = from + 1;
    }
    proof {
        lemma_white_lead(text@, from as int);
    }
    if from == len {
        return Vec::new();
    }
    let mut to: usize = len;
    while to > from && white_space(text[to - 1])
        invariant
            len == text@.len(),
            from < len,
            from <= to <= len,
            !is_white_space(text@[from as int]),
            forall|i: int| to <= i < len ==> is_white_space(#[trigger] text@[i]),
        decreases to,
    {
        to = to - 1;
    }
    proof {
        lemma_white_tail(text@, len - to);
    }
    copy_range(text, from, to)
}

/// The strings made of the given character lists.
fn strings_of(pieces: &Vec<Vec<char>>) -> (list: Vec<String>)
    ensures
        texts(list) == rows(*pieces),
{
    let mut list: Vec<String> = Vec::new();
    let mut k: usize = 0;
    while k < pieces.len()
        invariant
            k <= pieces@.len(),
            list@.len() == k,
            forall|i: int| 0 <= i < k ==> list@[i]@ == pieces@[i]@,
        decreases pieces@.len() - k,
    {
        list.push(string_of(&pieces[k]));
        k = k + 1;
    }
    proof {
        assert(texts(list) =~= rows(*pieces));
    }
    list
}

/// The separator between records: an empty line.
pub open spec fn record_gap() -> Seq<char> {
    seq!['\n', '\n']
}

fn gap_chars() -> (gap: Vec<char>)
    ensures
        gap@ == record_gap(),
{
    let gap: Vec<char> = vec!['\n', '\n'];
    proof {
        assert(gap@ =~= record_gap());
    }
    gap
}

/// Read the text to a vec of strings, one for every line that is not empty.
pub fn read_lines(text: &str) -> (lines: Vec<String>)
    ensures
        texts(lines) == filled(lines_of(text@)),
{
    let chars = chars_of(text);
    let lines = lines_chars(&chars);
    let kept = keep_filled(&lines);
    strings_of(&kept)
}

/// Return records split by \n\n, leaving out the empty ones.
pub fn read_string_records(text: &str) -> (records: Vec<String>)
    ensures
        texts(records) == filled(split_on(text@, record_gap())),
{
    let chars = chars_of(text);
    let gap = gap_chars();
    let pieces = split_chars(&chars, &gap);
    let kept = keep_filled(&pieces);
    strings_of(&kept)
}

/// The characters other than line feeds, in their order.
pub open spec fn without_feeds(s: Seq<char>) -> Seq<char>
    decreases s.len(),
{
    if s.len() == 0 {
        Seq::empty()
    } else if s.last() != '\n' {
        without_feeds(s.drop_last()).push(s.last())
    } else {
        without_feeds(s.drop_last())
    }
}

/// Reads the text to a list of chars, line feeds left out.
pub fn read_line(text: &str) -> (chars: Vec<char>)
    ensures
        chars@ == without_feeds(text@),
{
    let all = chars_of(text);
    let mut chars: Vec<char> = Vec::new();
    let mut i: usize = 0;
    proof {
        assert(all@.take(0) =~= Seq::<char>::empty());
    }
    while i < all.len()
        invariant
            i <= all@.len(),
            chars@ == without_feeds(all@.take(i as int)),
        decreases all@.len() - i,
    {
        let c: char = all[i];
        proof {
            assert(all@.take(i + 1).drop_last() =~= all@.take(i as int));
        }
        if c != '\n' {
            chars.push(c);
        }
        i = i + 1;
    }
    proof {
        assert(all@.take(all@.len() as int) =~= all@);
    }
    chars
}

/// Reads a single line text to a list breaking on a separator; white space
/// around the text is left out.
pub fn read_line_sep(text: &str, sep: &str) -> (pieces: Vec<String>)
    ensures
        texts(pieces) == split_on(trimmed(text@), sep@),
{
    let chars = chars_of(text);
    let inner = trim_chars(&chars);
    let by = chars_of(sep);
    let pieces = split_chars(&inner, &by);
    strings_of(&pieces)
}

/// Reads the text to a grid (vec of vec) of chars; white space around the
/// text is left out.
pub fn read_grid(text: &str) -> (grid: Vec<Vec<char>>)
    ensures
        rows(grid) == lines_of(trimmed(text@)),
{
    let chars = chars_of(text);
    let inner = trim_chars(&chars);
    lines_chars(&inner)
}

/// Every character of every line is at or after `'0'` once it is cut down to
/// a byte.
pub open spec fn is_digit_grid(lines: Seq<Seq<char>>) -> bool {
    forall|row: int, col: int|
        0 <= row < lines.len() && 0 <= col < lines[row].len() ==> (#[trigger] lines[row][col]) as u8
            >= 48
}

/// Reads the text to a grid (vec of vec) of u8: each character, cut down to a
/// byte, as its distance from `'0'`.
pub fn read_grid_numbers(text: &str) -> (grid: Vec<Vec<u8>>)
    requires
        is_digit_grid(lines_of(text@)),
    ensures
        grid@.len() == lines_of(text@).len(),
        forall|row: int|
            0 <= row < grid@.len() ==> (#[trigger] grid@[row])@.len() == lines_of(text@)[row].len(),
        forall|row: int, col: int|
            0 <= row < grid@.len() && 0 <= col < grid@[row]@.len() ==> (#[trigger] grid@[row]@[col])
                == (lines_of(text@)[row][col] as u8 - 48) as u8,
{
    let chars = chars_of(text);
    let lines = lines_chars(&chars);
    let ghost all = lines_of(text@);
    let mut grid: Vec<Vec<u8>> = Vec::new();
    let mut row: usize = 0;
    while row < lines.len()
        invariant
            all == rows(lines),
            is_digit_grid(all),
            row <= lines@.len(),
            grid@.len() == row,
            forall|r: int| 0 <= r < row ==> (#[trigger] grid@[r])@.len() == all[r].len(),
            forall|r: int, c: int|
                0 <= r < row && 0 <= c < grid@[r]@.len() ==> (#[trigger] grid@[r]@[c]) == (
                all[r][c] as u8 - 48) as u8,
        decreases lines@.len() - row,
    {
        let line = &lines[row];
        let mut numbers: Vec<u8> = Vec::new();
        let mut col: usize = 0;
        proof {
            assert(all[row as int] == line@);
        }
        while col < line.len()
            invariant
                all == rows(lines),
                is_digit_grid(all),
                row < lines@.len(),
                line@ == all[row as int],
                col <= line@.len(),
                numbers@.len() == col,
                forall|c: int| 0 <= c < col ==>
                    (#[trigger] numbers@[c]) == (line@[c] as u8 - 48) as u8,
            decreases line@.len() - col,
        {
            let c: char = line[col];
            proof {
                assert(all[row as int][col as int] as u8 >= 48);
            }
            numbers.push(c as u8 - 48u8);
            col = col + 1;
        }
        grid.push(numbers);
        row = row + 1;
    }
    grid
}

/// The characters of one line with their places.
pub open spec fn cells_of_line(line: Seq<char>, row: int) -> Seq<((usize, usize), char)> {
    Seq::new(line.len(), |col: int| ((row as usize, col as usize), line[col]))
}

/// The characters of the first `n` lines with their places, line after line.
pub open spec fn cells_of(lines: Seq<Seq<char>>, n: int) -> Seq<((usize, usize), char)>
    decreases n,
{
    if n <= 0 {
        Seq::empty()
    } else {
        cells_of(lines, n - 1) + cells_of_line(lines[n - 1], n - 1)
    }
}

/// Reads the contents to a list of coordinates / char pairs
pub fn read_grid_to_map(text: &str) -> (cells: Vec<((usize, usize), char)>)
    ensures
        cells@ == cells_of(lines_of(text@), lines_of(text@).len() as int),
{
    let chars = chars_of(text);
    let lines = lines_chars(&chars);
    let ghost all = lines_of(text@);
    let mut cells: Vec<((usize, usize), char)> = Vec::new();
    let mut row: usize = 0;
    while row < lines.len()
        invariant
            all == rows(lines),
            row <= lines@.len(),
            cells@ == cells_of(all, row as int),
        decreases lines@.len() - row,
    {
        let line = &lines[row];
        let ghost before = cells@;
        let mut col: usize = 0;
        proof {
            assert(all[row as int] == line@);
        }
        while col < line.len()
            invariant
                col <= line@.len(),
                cells@ == before + cells_of_line(line@, row as int).take(col as int),
            decreases line@.len() - col,
        {
            let ghost so_far = cells@;
            cells.push(((row, col), line[col]));
            proof {
                assert(cells_of_line(line@, row as int).take(col + 1) =~= cells_of_line(
                    line@,
                    row as int,
                ).take(col as int).push(((row, col), line@[col as int])));
                assert(cells@ =~= before + cells_of_line(line@, row as int).take(col + 1));
            }
            col = col + 1;
        }
        proof {
            assert(cells_of_line(line@, row as int).take(line@.len() as int) =~= cells_of_line(
                line@,
                row as int,
            ));
        }
        row = row + 1;
    }
    cells
}

/// Reads the text to grids (vec of vec) of char records, separated by empty
/// lines.
pub fn read_grid_records(text: &str) -> (grids: Vec<Vec<Vec<char>>>)
    ensures
        grids@.len() == split_on(text@, record_gap()).len(),
        forall|k: int|
            0 <= k < grids@.len() ==> rows(#[trigger] grids@[k]) == lines_of(
                split_on(text@, record_gap())[k],
            ),
{
    let chars = chars_of(text);
    let gap = gap_chars();
    let records = split_chars(&chars, &gap);
    let ghost all = split_on(text@, record_gap());
    let mut grids: Vec<Vec<Vec<char>>> = Vec::new();
    let mut k: usize = 0;
    while k < records.len()
        invariant
            all == rows(records),
            k <= records@.len(),
            grids@.len() == k,
            forall|j: int| 0 <= j < k ==> rows(#[trigger] grids@[j]) == lines_of(all[j]),
        decreases records@.len() - k,
    {
        proof {
            assert(all[k as int] == records@[k as int]@);
        }
        grids.push(lines_chars(&records[k]));
        k = k + 1;
    }
    grids
}

/// `value` is what `parse` makes of a string that reads `token`.
pub open spec fn parsed_as<U, F: Fn(&str) -> U>(parse: F, token: Seq<char>, value: U) -> bool {
    exists|s: &str| s@ == token && call_ensures(parse, (s,), value)
}

/// `values` are what `parse` makes of the `tokens`, one for one.
pub open spec fn all_parsed<U, F: Fn(&str) -> U>(
    parse: F,
    tokens: Seq<Seq<char>>,
    values: Seq<U>,
) -> bool {
    &&& values.len() == tokens.len()
    &&& forall|i: int| 0 <= i < tokens.len() ==> parsed_as(parse, tokens[i], #[trigger] values[i])
}

/// `parse` can be asked about every string.
pub open spec fn parses_all<U, F: Fn(&str) -> U>(parse: F) -> bool {
    forall|s: &str| call_requires(parse, (s,))
}

fn parse_each<U, F: Fn(&str) -> U>(tokens: &Vec<Vec<char>>, parse: &F) -> (values: Vec<U>)
    requires
        parses_all(*parse),
    ensures
        all_parsed(*parse, rows(*tokens), values@),
{
    let mut values: Vec<U> = Vec::new();
    let mut k: usize = 0;
    while k < tokens.len()
        invariant
            parses_all(*parse),
            k <= tokens@.len(),
            values@.len() == k,
            forall|i: int|
                0 <= i < k ==> parsed_as(*parse, tokens@[i]@, #[trigger] values@[i]),
        decreases tokens@.len() - k,
    {
        let token = string_of(&tokens[k]);
        let value = parse(token.as_str());
        proof {
            assert(parsed_as(*parse, tokens@[k as int]@, value));
        }
        values.push(value);
        k = k + 1;
    }
    values
}

/// Reads the lines of a text that are not empty, each as a number.
pub fn read_numbers<U, F: Fn(&str) -> U>(text: &str, parse: F) -> (numbers: Vec<U>)
    requires
        parses_all(parse),
    ensures
        all_parsed(parse, filled(lines_of(text@)), numbers@),
{
    let chars = chars_of(text);
    let lines = lines_chars(&chars);
    let kept = keep_filled(&lines);
    parse_each(&kept, &parse)
}

/// Reads a single line of numbers separated by commas; white space around
/// the text is left out.
pub fn read_line_record<U, F: Fn(&str) -> U>(text: &str, parse: F) -> (numbers: Vec<U>)
    requires
        parses_all(parse),
    ensures
        all_parsed(parse, split_on(trimmed(text@), seq![',']), numbers@),
{
    let chars = chars_of(text);
    let inner = trim_chars(&chars);
    let comma: Vec<char> = vec![','];
    proof {
        assert(comma@ =~= seq![',']);
    }
    let pieces = split_chars(&inner, &comma);
    parse_each(&pieces, &parse)
}

/// Reads records that are separated by empty lines, each a list of numbers,
/// one on every line that is not empty. Empty records are left out.
pub fn read_number_records<U, F: Fn(&str) -> U>(text: &str, parse: F) -> (records: Vec<Vec<U>>)
    requires
        parses_all(parse),
    ensures
        records@.len() == filled(split_on(text@, record_gap())).len(),
        forall|k: int|
            0 <= k < records@.len() ==> all_parsed(
                parse,
                filled(lines_of(filled(split_on(text@, record_gap()))[k])),
                (#[trigger] records@[k])@,
            ),
{
    let chars = chars_of(text);
    let gap = gap_chars();
    let pieces = split_chars(&chars, &gap);
    let kept = keep_filled(&pieces);
    let ghost all = filled(split_on(text@, record_gap()));
    let mut records: Vec<Vec<U>> = Vec::new();
    let mut k: usize = 0;
    while k < kept.len()
        invariant
            parses_all(parse),
            all == rows(kept),
            k <= kept@.len(),
            records@.len() == k,
            forall|j: int|
                0 <= j < k ==> all_parsed(
                    parse,
                    filled(lines_of(all[j])),
                    (#[trigger] records@[j])@,
                ),
        decreases kept@.len() - k,
    {
        proof {
            assert(all[k as int] == kept@[k as int]@);
        }
        let lines = lines_chars(&kept[k]);
        let tokens = keep_filled(&lines);
        records.push(parse_each(&tokens, &parse));
        k = k + 1;
    }
    records
}

/// Reads the lines of a text that are not empty, each as a list of numbers
/// separated by `sep`.
pub fn read_number_lists<U, F: Fn(&str) -> U>(text: &str, sep: &str, parse: F) -> (lists: Vec<
    Vec<U>,
>)
    requires
        parses_all(parse),
    ensures
        lists@.len() == filled(lines_of(text@)).len(),
        forall|k: int|
            0 <= k < lists@.len() ==> all_parsed(
                parse,
                split_on(filled(lines_of(text@))[k], sep@),
                (#[trigger] lists@[k])@,
            ),
{
    let chars = chars_of(text);
    let lines = lines_chars(&chars);
    let kept = keep_filled(&lines);
    let by = chars_of(sep);
    let ghost all = filled(lines_of(text@));
    let mut lists: Vec<Vec<U>> = Vec::new();
    let mut k: usize = 0;
    while k < kept.len()
        invariant
            parses_all(parse),
            by@ == sep@,
            all == rows(kept),
            k <= kept@.len(),
            lists@.len() == k,
            forall|j: int|
                0 <= j < k ==> all_parsed(parse, split_on(all[j], sep@), (#[trigger] lists@[j])@),
        decreases kept@.len() - k,
    {
        proof {
            assert(all[k as int] == kept@[k as int]@);
        }
        let tokens = split_chars(&kept[k], &by);
        lists.push(parse_each(&tokens, &parse));
        k = k + 1;
    }
    lists
}

} // verus!
