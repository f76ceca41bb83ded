//! Reading word lists and input lines: splitting, trimming and case mapping.

use vstd::prelude::*;
use crate::letters::{lowered, uppered, lower_char, upper_char};

verus! {

/// The characters of `s`.
pub fn chars_of(s: &str) -> (v: Vec<char>)
    ensures
        v@ == s@,
{
    let mut v: Vec<char> = Vec::new();
    for c in it: s.chars()
        invariant
            v@ == it.seq().take(it.index() as int),
    {
        v.push(c);
    }
    v
}

/// Characters with the Unicode `White_Space` property.
pub open spec fn is_white_space(c: char) -> bool {
    let x = c as int;
    ||| 0x9 <= x <= 0xD
    ||| x == 0x20
    ||| x == 0x85
    ||| x == 0xA0
    ||| x == 0x1680
    ||| 0x2000 <= x <= 0x200A
    ||| x == 0x2028
    ||| x == 0x2029
    ||| x == 0x202F
    ||| x == 0x205F
    ||| x == 0x3000
}

/// Whether `c` has the Unicode `White_Space` property.
pub fn white_space(c: char) -> (b: bool)
    ensures
        b == is_white_space(c),
{
    let x = c as u32;
    (0x9 <= x && x <= 0xD) || x == 0x20 || x == 0x85 || x == 0xA0 || x == 0x1680 || (0x2000 <= x
        && x <= 0x200A) || x == 0x2028 || x == 0x2029 || x == 0x202F || x == 0x205F || x == 0x3000
}

/// `s` without its leading white space.
pub open spec fn trim_start(s: Seq<char>) -> Seq<char>
    decreases s.len(),
{
    if s.len() > 0 && is_white_space(s[0]) {
        trim_start(s.drop_first())
    } else {
        s
    }
}

/// `s` without its trailing white space.
pub open spec fn trim_end(s: Seq<char>) -> Seq<char>
    decreases s.len(),
{
    if s.len() > 0 && is_white_space(s.last()) {
        trim_end(s.drop_last())
    } else {
        s
    }
}

/// `s` without leading and trailing white space.
pub open spec fn trimmed(s: Seq<char>) -> Seq<char> {
    trim_end(trim_start(s))
}

/// The pieces of the first `n` characters of `s` between line feeds.
pub open spec fn split_prefix(s: Seq<char>, n: int) -> Seq<Seq<char>>
    decreases n,
{
    if n <= 0 {
        seq![Seq::empty()]
    } else {
        let prev = split_prefix(s, n - 1);
        if s[n - 1] == '\n' {
            prev.push(Seq::empty())
        } else {
            prev.update(prev.len() - 1, prev.last().push(s[n - 1]))
        }
    }
}

/// The pieces of `s` between line feeds: one more piece than `s` has line
/// feeds, empty pieces included.
pub open spec fn split_lines(s: Seq<char>) -> Seq<Seq<char>> {
    split_prefix(s, s.len() as int)
}

/// One entry of a word list file: the line trimmed and in ASCII lowercase.
pub open spec fn list_entry(line: Seq<char>) -> Seq<char> {
    lowered(trimmed(line))
}

/// The entries of a word list file, one per line.
pub open spec fn list_entries(text: Seq<char>) -> Seq<Seq<char>> {
    split_lines(text).map_values(|line: Seq<char>| list_entry(line))
}

/// An input line as the game reads it: trimmed and in ASCII uppercase.
pub open spec fn input_word(line: Seq<char>) -> Seq<char> {
    uppered(trimmed(line))
}

/// The lines joined back together, a line feed between each two.
pub open spec fn join_lines(ls: Seq<Seq<char>>) -> Seq<char>
    decreases ls.len(),
{
    if ls.len() == 0 {
        Seq::empty()
    } else if ls.len() == 1 {
        ls[0]
    } else {
        join_lines(ls.drop_last()) + seq!['\n'] + ls.last()
    }
}

/// Number of line feeds among the first `n` characters of `s`.
pub open spec fn line_feeds(s: Seq<char>, n: int) -> int
    decreases n,
{
    if n <= 0 {
        0
    } else {
        line_feeds(s, n - 1) + if s[n - 1] == '\n' { 1int } else { 0int }
    }
}

proof fn lemma_join_extend_last(ls: Seq<Seq<char>>, c: char)
    requires
        ls.len() >= 1,
    ensures
        join_lines(ls.update(ls.len() - 1, ls.last().push(c))) == join_lines(ls).push(c),
{
    let nl = ls.update(ls.len() - 1, ls.last().push(c));
    if ls.len() >= 2 {
        assert(nl.drop_last() =~= ls.drop_last());
        assert(join_lines(ls.drop_last()) + seq!['\n'] + ls.last().push(c) =~= (join_lines(ls.drop_last())
            + seq!['\n'] + ls.last()).push(c));
    }
}

proof fn lemma_split_prefix_pieces(s: Seq<char>, n: int)
    requires
        0 <= n <= s.len(),
    ensures
        split_prefix(s, n).len() == line_feeds(s, n) + 1,
        forall|j: int| 0 <= j < split_prefix(s, n).len() ==> !(#[trigger] split_prefix(s, n)[j]).contains('\n'),
        join_lines(split_prefix(s, n)) == s.take(n),
    decreases n,
{
    if n == 0 {
        assert(s.take(0) =~= Seq::<char>::empty());
    } else {
        lemma_split_prefix_pieces(s, n - 1);
        let prev = split_prefix(s, n - 1);
        assert(s.take(n) =~= s.take(n - 1).push(s[n - 1]));
        if s[n - 1] == '\n' {
            let cur = prev.push(Seq::empty());
            assert(cur.drop_last() =~= prev);
            assert(join_lines(cur) == join_lines(prev) + seq!['\n'] + Seq::<char>::empty());
            assert(join_lines(prev) + seq!['\n'] + Seq::<char>::empty() =~= s.take(n));
            assert forall|j: int| 0 <= j < cur.len() implies !(#[trigger] cur[j]).contains('\n') by {
                if j < prev.len() {
                    assert(cur[j] == prev[j]);
                }
            }
        } else {
            lemma_join_extend_last(prev, s[n - 1]);
            let cur = prev.update(prev.len() - 1, prev.last().push(s[n - 1]));
            assert forall|j: int| 0 <= j < cur.len() implies !(#[trigger] cur[j]).contains('\n') by {
                if j < prev.len() - 1 {
                    assert(cur[j] == prev[j]);
                } else {
                    let l = prev.last().push(s[n - 1]);
                    assert(!prev[prev.len() - 1].contains('\n'));
                    if l.contains('\n') {
                        let k = choose|k: int| 0 <= k < l.len() && l[k] == '\n';
                        assert(prev.last()[k] == '\n');
                    }
                }
            }
        }
    }
}

/// The entries of a word list come from the pieces of the text between line
/// feeds: one more piece than the text has line feeds, no piece holds a line
/// feed, and joining the pieces with line feeds gives back the text (so no
/// other character, a carriage return included, ever separates entries).
pub proof fn lemma_split_lines_pieces(s: Seq<char>)
    ensures
        split_lines(s).len() == line_feeds(s, s.len() as int) + 1,
        forall|j: int| 0 <= j < split_lines(s).len() ==> !(#[trigger] split_lines(s)[j]).contains('\n'),
        join_lines(split_lines(s)) == s,
        list_entries(s).len() == split_lines(s).len(),
        forall|j: int|
            0 <= j < list_entries(s).len() ==> #[trigger] list_entries(s)[j] == lowered(trimmed(split_lines(s)[j])),
{
    lemma_split_prefix_pieces(s, s.len() as int);
    assert(s.take(s.len() as int) =~= s);
}

proof fn lemma_trim_start_push(x: Seq<char>, c: char)
    ensures
        trim_start(x.push(c)) == if trim_start(x).len() == 0 && is_white_space(c) {
            Seq::<char>::empty()
        } else {
            trim_start(x).push(c)
        },
    decreases x.len(),
{
    if x.len() == 0 {
        assert(x =~= Seq::<char>::empty());
        assert(x.push(c) =~= seq![c]);
        assert(seq![c].drop_first() =~= Seq::<char>::empty());
        assert(trim_start(x) == x);
        reveal_with_fuel(trim_start, 2);
        assert(Seq::<char>::empty().push(c) =~= seq![c]);
    } else {
        assert(x.push(c)[0] == x[0]);
        assert(x.push(c).drop_first() =~= x.drop_first().push(c));
        if is_white_space(x[0]) {
            lemma_trim_start_push(x.drop_first(), c);
        }
    }
}

/// A white-space character at the end of a line, such as the carriage return
/// of a CRLF line end, is trimmed away: the line's entry does not change.
pub proof fn lemma_trailing_white_space_trimmed(line: Seq<char>, c: char)
    requires
        is_white_space(c),
    ensures
        trimmed(line.push(c)) == trimmed(line),
{
    lemma_trim_start_push(line, c);
    if trim_start(line).len() != 0 {
        let t = trim_start(line).push(c);
        assert(t.drop_last() =~= trim_start(line));
    }
}

/// Carriage returns, tabs and spaces are white space.
pub proof fn lemma_common_white_space()
    ensures
        is_white_space('\r'),
        is_white_space('\t'),
        is_white_space(' '),
        is_white_space('\n'),
        !is_white_space('a'),
{
}

/// Appends `c` to `s` (`String::push`).
#[verifier::external_body]
fn push_char(s: &mut String, c: char)
    ensures
        final(s)@ == old(s)@.push(c),
{
    s.push(c);
}

/// Positions `lo..hi` of `v` that remain once white space is trimmed from both ends.
fn trim_bounds(v: &Vec<char>) -> (b: (usize, usize))
    ensures
        b.0 <= b.1 <= v.len(),
        v@.subrange(b.0 as int, b.1 as int) == trimmed(v@),
{
    let n = v.len();
    let mut lo: usize = 0;
    assert(v@ =~= v@.subrange(0, n as int));
    while lo < n && white_space(v[lo])
        invariant
            lo <= n == v.len(),
            trim_start(v@.subrange(lo as int, n as int)) == trim_start(v@),
        decreases n - lo,
    {
        assert(v@.subrange(lo as int, n as int).drop_first() =~= v@.subrange(lo + 1, n as int));
        lo = lo + 1;
    }
    assert(v@ =~= v@.subrange(0, n as int));
    assert(trim_start(v@.subrange(lo as int, n as int)) == v@.subrange(lo as int, n as int));
    let mut hi: usize = n;
    while hi > lo && white_space(v[hi - 1])
        invariant
            lo <= hi <= n == v.len(),
            trim_end(v@.subrange(lo as int, hi as int)) == trimmed(v@),
        decreases hi,
    {
        assert(v@.subrange(lo as int, hi as int).drop_last() =~= v@.subrange(lo as int, hi - 1));
        hi = hi - 1;
    }
    (lo, hi)
}

/// The characters `v[lo..hi]`, each mapped by ASCII lowercase (or uppercase when `upper`), as a string.
fn case_mapped(v: &Vec<char>, lo: usize, hi: usize, upper: bool) -> (s: String)
    requires
        lo <= hi <= v.len(),
    ensures
        upper ==> s@ == uppered(v@.subrange(lo as int, hi as int)),
        !upper ==> s@ == lowered(v@.subrange(lo as int, hi as int)),
{
    let mut s = String::new();
    let mut i = lo;
    while i < hi
        invariant
            lo <= i <= hi <= v.len(),
            upper ==> s@ == uppered(v@.subrange(lo as int, i as int)),
            !upper ==> s@ == lowered(v@.subrange(lo as int, i as int)),
        decreases hi - i,
    {
        let c = if upper { upper_char(v[i]) } else { lower_char(v[i]) };
        push_char(&mut s, c);
        proof {
            assert(uppered(v@.subrange(lo as int, i + 1)) =~= uppered(v@.subrange(lo as int, i as int)).push(
                crate::letters::to_upper(v@[i as int]),
            ));
            assert(lowered(v@.subrange(lo as int, i + 1)) =~= lowered(v@.subrange(lo as int, i as int)).push(
                crate::letters::to_lower(v@[i as int]),
            ));
        }
        i = i + 1;
    }
    s
}

/// Reads a word list: one entry per line (see `list_entry`).
pub fn parse_word_list(text: &str) -> (words: Vec<String>)
    ensures
        words.deep_view() == list_entries(text@),
        words.len() >= 1,
{
    let chars = chars_of(text);
    let ghost s = text@;
    let mut words: Vec<String> = Vec::new();
    let mut cur: Vec<char> = Vec::new();
    let ghost mut raw: Seq<Seq<char>> = Seq::empty();
    for i in 0..chars.len()
        invariant
            chars@ == s,
            split_prefix(s, i as int) == raw.push(cur@),
            words.deep_view() == raw.map_values(|line: Seq<char>| list_entry(line)),
    {
        let c = chars[i];
        if c == '\n' {
            let (lo, hi) = trim_bounds(&cur);
            let w = case_mapped(&cur, lo, hi, false);
            proof {
                assert(raw.push(cur@).map_values(|line: Seq<char>| list_entry(line)) =~= raw.map_values(
                    |line: Seq<char>| list_entry(line),
                ).push(list_entry(cur@)));
                raw = raw.push(cur@);
            }
            words.push(w);
            cur = Vec::new();
            proof {
                assert(split_prefix(s, i + 1) =~= raw.push(cur@));
            }
        } else {
            cur.push(c);
            proof {
                assert(split_prefix(s, i + 1) =~= raw.push(cur@));
            }
        }
    }
    let (lo, hi) = trim_bounds(&cur);
    let w = case_mapped(&cur, lo, hi, false);
    proof {
        assert(raw.push(cur@).map_values(|line: Seq<char>| list_entry(line)) =~= raw.map_values(
            |line: Seq<char>| list_entry(line),
        ).push(list_entry(cur@)));
    }
    words.push(w);
    words
}

/// Normalises a line read from the player: trimmed and in ASCII uppercase.
pub fn normalize_input(line: &str) -> (word: String)
    ensures
        word@ == input_word(line@),
{
    let chars = chars_of(line);
    let (lo, hi) = trim_bounds(&chars);
    case_mapped(&chars, lo, hi, true)
}

} // verus!
