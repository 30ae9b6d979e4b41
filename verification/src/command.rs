//! Operator commands: what a typed line asks for.

use vstd::prelude::*;
use vstd::string::*;

verus! {

/// Pause between the rounds of a scramble when the line names none, in
/// milliseconds.
pub const DEFAULT_SLEEP: u64 = 500;

/// What the operator asked for.
#[derive(Clone, Copy, Debug, PartialEq, Eq, Structural)]
pub enum Input {
    /// Commit the working seating; with `true`, also save the whole record.
    Write(bool),
    /// Draw `iters` new seatings in a row, pausing `sleep` milliseconds
    /// between them.
    Scramble { iters: usize, sleep: u64 },
    /// Show the last committed seating again and drop what was drawn since.
    Reset,
}

/// The characters that separate words: those with the Unicode property
/// White_Space.
pub open spec fn is_space(c: char) -> bool {
    let n = c as u32;
    ||| 0x09 <= n <= 0x0d
    ||| n == 0x20
    ||| n == 0x85
    ||| n == 0xa0
    ||| n == 0x1680
    ||| 0x2000 <= n <= 0x200a
    ||| n == 0x2028
    ||| n == 0x2029
    ||| n == 0x202f
    ||| n == 0x205f
    ||| n == 0x3000
}

/// One of the ten ASCII digits.
pub open spec fn is_digit(c: char) -> bool {
    0x30 <= c as u32 <= 0x39
}

/// Every character of the word is an ASCII digit.
pub open spec fn all_digits(word: Seq<char>) -> bool {
    forall|i: int| 0 <= i < word.len() ==> is_digit(#[trigger] word[i])
}

/// The number that a word of digits writes in base ten.
pub open spec fn number(word: Seq<char>) -> nat
    decreases word.len(),
{
    if word.len() == 0 {
        0
    } else {
        (number(word.drop_last()) * 10 + (word.last() as u32 - 0x30)) as nat
    }
}

/// The text up to the first line feed, or all of it when there is none.
pub open spec fn first_line(text: Seq<char>) -> Seq<char>
    decreases text.len(),
{
    if text.len() == 0 || text[0] == '\n' {
        Seq::<char>::empty()
    } else {
        seq![text[0]] + first_line(text.drop_first())
    }
}

/// The words of a text: its longest runs of characters that are not spaces,
/// in order.
pub open spec fn words(text: Seq<char>) -> Seq<Seq<char>>
    decreases text.len(),
{
    if text.len() == 0 {
        Seq::<Seq<char>>::empty()
    } else {
        let before = words(text.drop_last());
        let c = text.last();
        if is_space(c) {
            before
        } else if text.len() >= 2 && !is_space(text[text.len() - 2]) {
            before.drop_last().push(before.last().push(c))
        } else {
            before.push(seq![c])
        }
    }
}

/// No word is empty, and no word holds a space.
pub proof fn lemma_words_are_runs(text: Seq<char>)
    ensures
        forall|i: int|
            0 <= i < words(text).len() ==> (#[trigger] words(text)[i]).len() > 0 && forall|
                k: int,
            |
                0 <= k < words(text)[i].len() ==> !is_space(#[trigger] words(text)[i][k]),
        words(text).len() <= text.len(),
        text.len() > 0 && !is_space(text.last()) ==> words(text).len() > 0,
    decreases text.len(),
{
    if text.len() > 0 {
        lemma_words_are_runs(text.drop_last());
        let before = words(text.drop_last());
        let c = text.last();
        if !is_space(c) && text.len() >= 2 && !is_space(text[text.len() - 2]) {
            assert(text.drop_last().last() == text[text.len() - 2]);
            let grown = before.last().push(c);
            let now = before.drop_last().push(grown);
            assert forall|i: int| 0 <= i < now.len() implies (#[trigger] now[i]).len() > 0
                && forall|k: int| 0 <= k < now[i].len() ==> !is_space(#[trigger] now[i][k]) by {
                if i < now.len() - 1 {
                    assert(now[i] == before[i]);
                } else {
                    assert(now[i] == grown);
                    assert forall|k: int| 0 <= k < grown.len() implies !is_space(
                        #[trigger] grown[k],
                    ) by {
                        if k < grown.len() - 1 {
                            assert(grown[k] == before.last()[k]);
                        }
                    }
                }
            }
        } else if !is_space(c) {
            let now = before.push(seq![c]);
            assert forall|i: int| 0 <= i < now.len() implies (#[trigger] now[i]).len() > 0
                && forall|k: int| 0 <= k < now[i].len() ==> !is_space(#[trigger] now[i][k]) by {
                if i < now.len() - 1 {
                    assert(now[i] == before[i]);
                }
            }
        }
    }
}

/// Put back together, the words are the text without its spaces.
pub proof fn lemma_words_keep_the_text(text: Seq<char>)
    ensures
        words(text).flatten() == text.filter(|c: char| !is_space(c)),
    decreases text.len(),
{
    let keep = |c: char| !is_space(c);
    if text.len() == 0 {
        assert(words(text).flatten() =~= Seq::<char>::empty());
        assert(text.filter(keep) =~= Seq::<char>::empty());
    } else {
        let shorter = text.drop_last();
        let before = words(shorter);
        let c = text.last();
        lemma_words_keep_the_text(shorter);
        lemma_words_are_runs(shorter);
        assert(text =~= shorter.push(c));
        Seq::<char>::filter_distributes_over_add(shorter, seq![c], keep);
        assert(shorter.push(c) =~= shorter + seq![c]);
        reveal(Seq::filter);
        assert(seq![c].filter(keep) =~= if keep(c) {
            seq![c]
        } else {
            Seq::<char>::empty()
        }) by {
            assert(seq![c].drop_last() =~= Seq::<char>::empty());
            assert(Seq::<char>::empty().filter(keep) =~= Seq::<char>::empty());
        }
        if is_space(c) {
            assert(shorter.filter(keep) + Seq::<char>::empty() =~= shorter.filter(keep));
        } else if text.len() >= 2 && !is_space(text[text.len() - 2]) {
            assert(shorter.last() == text[text.len() - 2]);
            let grown = before.last().push(c);
            let front = before.drop_last();
            assert(before =~= front.push(before.last()));
            front.lemma_flatten_push(before.last());
            front.lemma_flatten_push(grown);
            assert(front.flatten() + grown =~= front.flatten() + before.last() + seq![c]);
        } else {
            before.lemma_flatten_push(seq![c]);
        }
    }
}

/// What a line of words asks for, if it asks for anything.
///
/// No word at all is one scramble. `write` commits, and saves too when the
/// next word is `json`. `reset` resets. Anything else must be made of digits
/// throughout: the first word is the number of rounds, the second, if there
/// is one, the pause. A number too large to hold is no command.
pub open spec fn command(line: Seq<Seq<char>>) -> Option<Input> {
    if line.len() == 0 {
        Some(Input::Scramble { iters: 1, sleep: DEFAULT_SLEEP })
    } else if line[0] == "write"@ {
        Some(Input::Write(line.len() > 1 && line[1] == "json"@))
    } else if line[0] == "reset"@ {
        Some(Input::Reset)
    } else if !(forall|i: int| 0 <= i < line.len() ==> all_digits(#[trigger] line[i])) {
        None
    } else if number(line[0]) > usize::MAX {
        None
    } else if line.len() == 1 {
        Some(Input::Scramble { iters: number(line[0]) as usize, sleep: DEFAULT_SLEEP })
    } else if number(line[1]) > u64::MAX {
        None
    } else {
        Some(Input::Scramble { iters: number(line[0]) as usize, sleep: number(line[1]) as u64 })
    }
}

/// The text of every word of a list of words.
pub open spec fn spelled(list: Seq<Vec<char>>) -> Seq<Seq<char>> {
    Seq::new(list.len(), |i: int| list[i]@)
}

proof fn lemma_first_line(text: Seq<char>, end: int)
    requires
        0 <= end <= text.len(),
        forall|i: int| 0 <= i < end ==> text[i] != '\n',
        end == text.len() || text[end] == '\n',
    ensures
        first_line(text) == text.take(end),
    decreases end,
{
    if end == 0 {
        assert(text.take(0) =~= Seq::<char>::empty());
    } else {
        let rest = text.drop_first();
        assert forall|i: int| 0 <= i < end - 1 implies rest[i] != '\n' by {
            assert(rest[i] == text[i + 1]);
        }
        lemma_first_line(rest, end - 1);
        assert(seq![text[0]] + rest.take(end - 1) =~= text.take(end));
    }
}

proof fn lemma_number_grows(word: Seq<char>, upto: int)
    requires
        0 <= upto <= word.len(),
        all_digits(word),
    ensures
        number(word.take(upto)) <= number(word),
    decreases word.len() - upto,
{
    if upto < word.len() {
        let longer = word.take(upto + 1);
        assert(longer.drop_last() =~= word.take(upto));
        assert(is_digit(word[upto]));
        assert(longer.last() == word[upto]);
        lemma_number_grows(word, upto + 1);
    } else {
        assert(word.take(upto) =~= word);
    }
}

/// True for the characters that separate words.
pub fn is_separator(c: char) -> (r: bool)
    ensures
        r == is_space(c),
{
    let n: u32 = c as u32;
    (0x09 <= n && n <= 0x0d) || n == 0x20 || n == 0x85 || n == 0xa0 || n == 0x1680 || (0x2000 <= n
        && n <= 0x200a) || n == 0x2028 || n == 0x2029 || n == 0x202f || n == 0x205f || n == 0x3000
}

/// The words of the first line of `text`.
pub fn split_words(text: &str) -> (list: Vec<Vec<char>>)
    ensures
        spelled(list@) == words(first_line(text@)),
{
    let n: usize = text.unicode_len();
    let mut end: usize = 0;
    while end < n && text.get_char(end) != '\n'
        invariant
            end <= n,
            n == text@.len(),
            forall|i: int| 0 <= i < end ==> text@[i] != '\n',
        decreases n - end,
    {
        end = end + 1;
    }
    proof {
        lemma_first_line(text@, end as int);
    }
    let ghost line = text@.take(end as int);
    let mut list: Vec<Vec<char>> = Vec::new();
    let mut word: Vec<char> = Vec::new();
    let mut k: usize = 0;
    assert(line.take(0) =~= Seq::<char>::empty());
    assert(spelled(list@) =~= Seq::<Seq<char>>::empty());
    while k < end
        invariant
            k <= end <= n,
            n == text@.len(),
            line == text@.take(end as int),
            word@.len() > 0 <==> k > 0 && !is_space(line[k - 1]),
            words(line.take(k as int)) == if word@.len() > 0 {
                spelled(list@).push(word@)
            } else {
                spelled(list@)
            },
        decreases end - k,
    {
        let c: char = text.get_char(k);
        proof {
            let longer = line.take(k + 1);
            assert(longer.drop_last() =~= line.take(k as int));
            assert(longer.last() == c);
            if k > 0 {
                assert(longer[longer.len() - 2] == line[k - 1]);
            }
        }
        if is_separator(c) {
            if word.len() > 0 {
                let ghost before = spelled(list@);
                list.push(word);
                assert(spelled(list@) =~= before.push(word@));
                word = Vec::new();
            }
        } else {
            let ghost before = word@;
            word.push(c);
            proof {
                if before.len() > 0 {
                    assert(spelled(list@).push(before).drop_last() =~= spelled(list@));
                } else {
                    assert(word@ =~= seq![c]);
                }
            }
        }
        k = k + 1;
    }
    assert(line.take(k as int) =~= line);
    if word.len() > 0 {
        let ghost before = spelled(list@);
        list.push(word);
        assert(spelled(list@) =~= before.push(word@));
    }
    list
}

/// True when `word` spells exactly `text`.
fn spells(word: &Vec<char>, text: &str) -> (r: bool)
    ensures
        r == (word@ == text@),
{
    let n: usize = text.unicode_len();
    if word.len() != n {
        return false;
    }
    let mut k: usize = 0;
    while k < n
        invariant
            k <= n,
            n == text@.len(),
            n == word@.len(),
            forall|i: int| 0 <= i < k ==> word@[i] == text@[i],
        decreases n - k,
    {
        if word[k] != text.get_char(k) {
            return false;
        }
        k = k + 1;
    }
    assert(word@ =~= text@);
    true
}

/// True when the word is made of ASCII digits throughout.
fn only_digits(word: &Vec<char>) -> (r: bool)
    ensures
        r == all_digits(word@),
{
    let mut k: usize = 0;
    while k < word.len()
        invariant
            k <= word@.len(),
            forall|i: int| 0 <= i < k ==> is_digit(#[trigger] word@[i]),
        decreases word@.len() - k,
    {
        let n: u32 = word[k] as u32;
        if n < 0x30 || n > 0x39 {
            assert(!is_digit(word@[k as int]));
            return false;
        }
        k = k + 1;
    }
    true
}

/// True when every word of the list is made of digits throughout.
fn all_numbers(list: &Vec<Vec<char>>) -> (r: bool)
    ensures
        r == forall|i: int| 0 <= i < list@.len() ==> all_digits(#[trigger] spelled(list@)[i]),
{
    let mut k: usize = 0;
    while k < list.len()
        invariant
            k <= list@.len(),
            forall|i: int| 0 <= i < k ==> all_digits(#[trigger] spelled(list@)[i]),
        decreases list@.len() - k,
    {
        if !only_digits(&list[k]) {
            assert(!all_digits(spelled(list@)[k as int]));
            return false;
        }
        k = k + 1;
    }
    true
}

/// The number that a word of digits writes, unless it is too large.
pub fn read_number(word: &Vec<char>) -> (r: Option<u64>)
    requires
        all_digits(word@),
    ensures
        match r {
            Some(value) => value == number(word@),
            None => number(word@) > u64::MAX,
        },
{
    let mut value: u64 = 0;
    let mut k: usize = 0;
    assert(word@.take(0) =~= Seq::<char>::empty());
    while k < word.len()
        invariant
            k <= word@.len(),
            all_digits(word@),
            value == number(word@.take(k as int)),
        decreases word@.len() - k,
    {
        let ghost longer = word@.take(k + 1);
        assert(longer.drop_last() =~= word@.take(k as int));
        assert(longer.last() == word@[k as int]);
        assert(is_digit(word@[k as int]));
        let n: u32 = word[k] as u32;
        let digit: u64 = (n - 0x30) as u64;
        if value > (u64::MAX - digit) / 10 {
            proof {
                lemma_number_grows(word@, k + 1);
            }
            return None;
        }
        value = value * 10 + digit;
        k = k + 1;
    }
    assert(word@.take(k as int) =~= word@);
    Some(value)
}

impl Input {
    /// Reads a command from a typed line. Only the first line of `line`
    /// counts, and spaces around and between words do not matter. `None`
    /// means that the line is no command.
    pub fn read(line: &str) -> (r: Option<Self>)
        ensures
            r == command(words(first_line(line@))),
    {
        let split: Vec<Vec<char>> = split_words(line);
        let ghost spelt = spelled(split@);
        if split.len() == 0 {
            return Some(Input::Scramble { iters: 1, sleep: DEFAULT_SLEEP });
        }
        assert(spelt[0] == split@[0]@);
        if spells(&split[0], "write") {
            if split.len() > 1 {
                assert(spelt[1] == split@[1]@);
                return Some(Input::Write(spells(&split[1], "json")));
            }
            return Some(Input::Write(false));
        }
        if spells(&split[0], "reset") {
            return Some(Input::Reset);
        }
        if !all_numbers(&split) {
            return None;
        }
        assert(all_digits(spelt[0]));
        let iters: usize = match read_number(&split[0]) {
            None => {
                return None;
            },
            Some(value) => {
                if value > usize::MAX as u64 {
                    return None;
                }
                value as usize
            },
        };
        if split.len() == 1 {
            return Some(Input::Scramble { iters, sleep: DEFAULT_SLEEP });
        }
        assert(spelt[1] == split@[1]@);
        assert(all_digits(spelt[1]));
        match read_number(&split[1]) {
            None => None,
            Some(sleep) => Some(Input::Scramble { iters, sleep }),
        }
    }
}

} // verus!
