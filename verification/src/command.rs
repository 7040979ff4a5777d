//! The commands an operator types on a node's console.
use vstd::prelude::*;
use vstd::string::StrSliceExecFns;

verus! {

/// What a console line asks for.
#[derive(Debug, Clone, Copy, PartialEq, Eq, Structural)]
pub enum Command {
    /// A blank line.
    Nothing,
    /// `last`: show the last block.
    Last,
    /// `index N`: show the block with index N.
    Index(u64),
    /// `index` followed by something that is no number: nothing to do.
    BadIndex,
    /// `test COUNT INTERVAL`: send COUNT requests, one every INTERVAL microseconds.
    Test { count: u64, interval_us: u64 },
    /// `test` followed by two words that are not both numbers: nothing is sent.
    BadTest,
    /// Anything else: send one request.
    Send,
}

/// White space as Unicode defines it (what `char::is_whitespace` tests).
pub open spec fn is_white_space(c: char) -> bool {
    let u = c as u32;
    (0x9 <= u && u <= 0xD) || u == 0x20 || u == 0x85 || u == 0xA0 || u == 0x1680 || (0x2000 <= u
        && u <= 0x200A) || u == 0x2028 || u == 0x2029 || u == 0x202F || u == 0x205F || u == 0x3000
}

/// Whether a character is white space.
pub fn white_space(c: char) -> (b: bool)
    ensures
        b == is_white_space(c),
{
    let u = c as u32;
    (0x9 <= u && u <= 0xD) || u == 0x20 || u == 0x85 || u == 0xA0 || u == 0x1680 || (0x2000 <= u
        && u <= 0x200A) || u == 0x2028 || u == 0x2029 || u == 0x202F || u == 0x205F || u == 0x3000
}

/// The words of `s` that follow the partial word `cur`: the maximal runs of
/// characters that are not white space.
pub open spec fn words_after(s: Seq<char>, cur: Seq<char>) -> Seq<Seq<char>>
    decreases s.len(),
{
    if s.len() == 0 {
        if cur.len() > 0 {
            seq![cur]
        } else {
            Seq::empty()
        }
    } else if is_white_space(s[0]) {
        (if cur.len() > 0 {
            seq![cur]
        } else {
            Seq::empty()
        }) + words_after(s.drop_first(), Seq::empty())
    } else {
        words_after(s.drop_first(), cur.push(s[0]))
    }
}

/// The words of a line, as `str::split_whitespace` gives them.
pub open spec fn words(s: Seq<char>) -> Seq<Seq<char>> {
    words_after(s, Seq::empty())
}

pub open spec fn is_digit(c: char) -> bool {
    48 <= (c as u32) && (c as u32) <= 57
}

/// The number that a string of decimal digits writes.
pub open spec fn decimal(ds: Seq<char>) -> nat
    decreases ds.len(),
{
    if ds.len() == 0 {
        0
    } else {
        decimal(ds.drop_last()) * 10 + ((ds.last() as u32) - 48) as nat
    }
}

/// A word without its leading `+`, if it has one.
pub open spec fn unsigned_part(s: Seq<char>) -> Seq<char> {
    if s.len() > 0 && s[0] == '+' {
        s.drop_first()
    } else {
        s
    }
}

/// Whether every character is a decimal digit.
pub open spec fn all_digits(ds: Seq<char>) -> bool {
    forall|i: int| 0 <= i < ds.len() ==> is_digit(#[trigger] ds[i])
}

/// A `u64` written in decimal, with an optional leading `+`, as `u64::from_str` reads it.
pub open spec fn decimal_u64(s: Seq<char>) -> Option<u64> {
    let ds = unsigned_part(s);
    if ds.len() > 0 && all_digits(ds) && decimal(ds) <= u64::MAX {
        Some(decimal(ds) as u64)
    } else {
        None
    }
}

/// The command a line's words ask for.
pub open spec fn command_of(w: Seq<Seq<char>>) -> Command {
    if w.len() == 0 {
        Command::Nothing
    } else if w.len() == 1 && w[0] == seq!['l', 'a', 's', 't'] {
        Command::Last
    } else if w.len() == 2 && w[0] == seq!['i', 'n', 'd', 'e', 'x'] {
        match decimal_u64(w[1]) {
            Some(i) => Command::Index(i),
            None => Command::BadIndex,
        }
    } else if w.len() == 3 && w[0] == seq!['t', 'e', 's', 't'] {
        match (decimal_u64(w[1]), decimal_u64(w[2])) {
            (Some(count), Some(interval_us)) => Command::Test { count, interval_us },
            _ => Command::BadTest,
        }
    } else {
        Command::Send
    }
}

proof fn lemma_decimal_grows(ds: Seq<char>, i: int)
    requires
        0 <= i <= ds.len(),
    ensures
        decimal(ds.take(i)) <= decimal(ds),
    decreases ds.len() - i,
{
    if i < ds.len() {
        lemma_decimal_grows(ds, i + 1);
        assert(ds.take(i + 1).drop_last() =~= ds.take(i));
    } else {
        assert(ds.take(i) =~= ds);
    }
}

/// The characters of a text.
fn chars_of(s: &str) -> (res: Vec<char>)
    ensures
        res@ == s@,
{
    let n = s.unicode_len();
    let mut res: Vec<char> = Vec::new();
    let mut i: usize = 0;
    while i < n
        invariant
            n == s@.len(),
            i <= n,
            res@ == s@.take(i as int),
        decreases n - i,
    {
        res.push(s.get_char(i));
        i = i + 1;
        assert(res@ =~= s@.take(i as int));
    }
    assert(s@.take(n as int) =~= s@);
    res
}

/// The texts of a list of words.
pub open spec fn word_views(v: Seq<Vec<char>>) -> Seq<Seq<char>> {
    v.map_values(|w: Vec<char>| w@)
}

/// The words of a line.
pub fn split_words(line: &str) -> (res: Vec<Vec<char>>)
    ensures
        word_views(res@) == words(line@),
{
    let s = chars_of(line);
    let mut out: Vec<Vec<char>> = Vec::new();
    let mut cur: Vec<char> = Vec::new();
    let mut i: usize = 0;
    assert(s@.skip(0) =~= s@);
    assert(word_views(out@) + words_after(s@.skip(0), cur@) =~= words(s@));
    while i < s.len()
        invariant
            i <= s@.len(),
            word_views(out@) + words_after(s@.skip(i as int), cur@) == words(s@),
        decreases s@.len() - i,
    {
        let ghost before = word_views(out@);
        let ghost rest = s@.skip(i as int);
        let ghost partial = cur@;
        assert(rest.drop_first() =~= s@.skip(i + 1));
        let c = s[i];
        assert(rest[0] == c);
        if white_space(c) {
            assert(words_after(rest, partial) == (if partial.len() > 0 {
                seq![partial]
            } else {
                Seq::empty()
            }) + words_after(s@.skip(i + 1), Seq::empty()));
            if cur.len() > 0 {
                let word = cur;
                out.push(word);
                cur = Vec::new();
                assert(word_views(out@) =~= before + seq![partial]);
                assert(word_views(out@) + words_after(s@.skip(i + 1), cur@) =~= before + (seq![
                    partial,
                ] + words_after(s@.skip(i + 1), Seq::empty())));
            } else {
                assert(cur@ =~= Seq::<char>::empty());
                assert(Seq::<Seq<char>>::empty() + words_after(s@.skip(i + 1), Seq::empty())
                    =~= words_after(s@.skip(i + 1), Seq::empty()));
            }
        } else {
            assert(words_after(rest, partial) == words_after(s@.skip(i + 1), partial.push(c)));
            cur.push(c);
        }
        i = i + 1;
    }
    let ghost before = word_views(out@);
    assert(s@.skip(i as int) =~= Seq::<char>::empty());
    if cur.len() > 0 {
        let word = cur;
        out.push(word);
        assert(word_views(out@) =~= before + seq![word@]);
    } else {
        assert(word_views(out@) =~= before + Seq::<Seq<char>>::empty());
    }
    out
}

/// The `u64` a word writes in decimal, if it writes one.
pub fn parse_decimal(word: &Vec<char>) -> (res: Option<u64>)
    ensures
        res == decimal_u64(word@),
{
    let start: usize = if word.len() > 0 && word[0] == '+' {
        1
    } else {
        0
    };
    let ghost ds = unsigned_part(word@);
    assert(ds =~= word@.skip(start as int));
    if start >= word.len() {
        return None;
    }
    let mut value: u64 = 0;
    let mut i: usize = start;
    while i < word.len()
        invariant
            start <= i <= word@.len(),
            ds == word@.skip(start as int),
            ds == unsigned_part(word@),
            value == decimal(ds.take(i - start)),
            forall|j: int| 0 <= j < i - start ==> is_digit(#[trigger] ds[j]),
        decreases word@.len() - i,
    {
        let c = word[i];
        let u = c as u32;
        assert(ds[i - start] == c);
        if u < 48 || u > 57 {
            assert(!is_digit(ds[i - start]));
            assert(ds.len() > 0);
            assert(!all_digits(ds));
            assert(decimal_u64(word@) is None);
            return None;
        }
        assert(ds.take(i - start + 1).drop_last() =~= ds.take(i - start));
        assert(ds.take(i - start + 1).last() == c);
        assert(decimal(ds.take(i - start + 1)) == value * 10 + (u - 48));
        let d = (u - 48) as u64;
        let grown = match value.checked_mul(10) {
            Some(v) => v.checked_add(d),
            None => None,
        };
        match grown {
            None => {
                proof {
                    assert(decimal(ds.take(i - start + 1)) > u64::MAX);
                    lemma_decimal_grows(ds, i - start + 1);
                    assert(decimal(ds) > u64::MAX);
                }
                return None;
            },
            Some(v) => {
                value = v;
            },
        }
        i = i + 1;
    }
    assert(ds.take(ds.len() as int) =~= ds);
    Some(value)
}

/// How a `test` command sends its `count` requests: that many whole rounds
/// of a hundred, then one round of what is left.
pub fn test_rounds(count: u64) -> (rounds: (u64, u64))
    ensures
        rounds.0 * 100 + rounds.1 == count,
        rounds.1 < 100,
{
    (count / 100, count % 100)
}

/// Whether a word is exactly the given letters.
fn word_is(word: &Vec<char>, letters: &Vec<char>) -> (res: bool)
    ensures
        res == (word@ == letters@),
{
    if word.len() != letters.len() {
        return false;
    }
    let mut i: usize = 0;
    while i < word.len()
        invariant
            word@.len() == letters@.len(),
            i <= word@.len(),
            word@.take(i as int) == letters@.take(i as int),
        decreases word@.len() - i,
    {
        if word[i] != letters[i] {
            assert(word@[i as int] != letters@[i as int]);
            return false;
        }
        i = i + 1;
        assert(word@.take(i as int) =~= word@.take(i - 1).push(word@[i - 1]));
        assert(letters@.take(i as int) =~= letters@.take(i - 1).push(letters@[i - 1]));
    }
    assert(word@ =~= word@.take(word@.len() as int));
    assert(letters@ =~= letters@.take(letters@.len() as int));
    true
}

/// What a console line asks for: its first word names the command, and
/// `index` and `test` take numbers.
pub fn parse_command(line: &str) -> (cmd: Command)
    ensures
        cmd == command_of(words(line@)),
{
    let w = split_words(line);
    let ghost ws = word_views(w@);
    assert(ws.len() == w@.len());
    if w.len() == 0 {
        return Command::Nothing;
    }
    assert(ws[0] == w@[0]@);
    let last: Vec<char> = vec!['l', 'a', 's', 't'];
    let index: Vec<char> = vec!['i', 'n', 'd', 'e', 'x'];
    let test: Vec<char> = vec!['t', 'e', 's', 't'];
    assert(last@ =~= seq!['l', 'a', 's', 't']);
    assert(index@ =~= seq!['i', 'n', 'd', 'e', 'x']);
    assert(test@ =~= seq!['t', 'e', 's', 't']);
    if w.len() == 1 && word_is(&w[0], &last) {
        return Command::Last;
    }
    if w.len() == 2 && word_is(&w[0], &index) {
        assert(ws[1] == w@[1]@);
        return match parse_decimal(&w[1]) {
            Some(i) => Command::Index(i),
            None => Command::BadIndex,
        };
    }
    if w.len() == 3 && word_is(&w[0], &test) {
        assert(ws[1] == w@[1]@);
        assert(ws[2] == w@[2]@);
        return match (parse_decimal(&w[1]), parse_decimal(&w[2])) {
            (Some(count), Some(interval_us)) => Command::Test { count, interval_us },
            _ => Command::BadTest,
        };
    }
    Command::Send
}

} // verus!
