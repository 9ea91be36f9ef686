use vstd::prelude::*;
use vstd::string::StrSliceExecFns;
use vstd::string::StringExecFns;
use vstd::string::StringSliceAdditionalSpecFns;

verus! {

/// The characters of each string of a list, in order.
pub open spec fn texts(list: Seq<String>) -> Seq<Seq<char>> {
    Seq::new(list.len(), |i: int| list[i]@)
}

/// The characters of each string that a list of references leads to, in order.
pub open spec fn ref_texts(list: Seq<&String>) -> Seq<Seq<char>> {
    Seq::new(list.len(), |i: int| list[i]@)
}

/// A copy of a list of strings.
pub fn copy_texts(list: &Vec<String>) -> (copy: Vec<String>)
    ensures
        texts(copy@) == texts(list@),
{
    let mut copy: Vec<String> = Vec::new();
    let mut i: usize = 0;
    while i < list.len()
        invariant
            i <= list.len(),
            copy.len() == i,
            forall|k: int| 0 <= k < i ==> copy@[k]@ == list@[k]@,
        decreases list.len() - i,
    {
        copy.push(list[i].clone());
        i += 1;
    }
    assert(texts(copy@) =~= texts(list@));
    copy
}

/// Whether two strings hold the same characters.
pub fn same_text(a: &str, b: &str) -> (same: bool)
    ensures
        same == (a@ == b@),
{
    let x = a.as_bytes();
    let y = b.as_bytes();
    proof {
        vstd::utf8::encode_utf8_decode_utf8(a@);
        vstd::utf8::encode_utf8_decode_utf8(b@);
    }
    if x.len() != y.len() {
        return false;
    }
    let mut i: usize = 0;
    while i < x.len()
        invariant
            i <= x.len(),
            x.len() == y.len(),
            x@ == a.spec_bytes(),
            y@ == b.spec_bytes(),
            forall|k: int| 0 <= k < i ==> x@[k] == y@[k],
        decreases x.len() - i,
    {
        if x[i] != y[i] {
            return false;
        }
        i += 1;
    }
    assert(x@ =~= y@);
    true
}

/// The character that writes a digit.
pub open spec fn digit_char(digit: nat) -> char {
    if digit == 0 {
        '0'
    } else if digit == 1 {
        '1'
    } else if digit == 2 {
        '2'
    } else if digit == 3 {
        '3'
    } else if digit == 4 {
        '4'
    } else if digit == 5 {
        '5'
    } else if digit == 6 {
        '6'
    } else if digit == 7 {
        '7'
    } else if digit == 8 {
        '8'
    } else {
        '9'
    }
}

/// A number written in decimal digits, without leading zeros.
pub open spec fn decimal(n: nat) -> Seq<char>
    decreases n,
{
    if n < 10 {
        seq![digit_char(n)]
    } else {
        decimal(n / 10).push(digit_char(n % 10))
    }
}

pub(crate) fn digit_text(digit: u128) -> (text: &'static str)
    requires
        digit < 10,
    ensures
        text@ == seq![digit_char(digit as nat)],
{
    proof {
        reveal_strlit("0");
        reveal_strlit("1");
        reveal_strlit("2");
        reveal_strlit("3");
        reveal_strlit("4");
        reveal_strlit("5");
        reveal_strlit("6");
        reveal_strlit("7");
        reveal_strlit("8");
        reveal_strlit("9");
    }
    let text = if digit == 0 {
        "0"
    } else if digit == 1 {
        "1"
    } else if digit == 2 {
        "2"
    } else if digit == 3 {
        "3"
    } else if digit == 4 {
        "4"
    } else if digit == 5 {
        "5"
    } else if digit == 6 {
        "6"
    } else if digit == 7 {
        "7"
    } else if digit == 8 {
        "8"
    } else {
        "9"
    };
    assert(text@ =~= seq![digit_char(digit as nat)]);
    text
}

/// A number written in decimal digits.
pub fn decimal_text(n: u128) -> (text: String)
    ensures
        text@ == decimal(n as nat),
    decreases n,
{
    if n < 10 {
        digit_text(n).to_owned()
    } else {
        let mut text = decimal_text(n / 10);
        text.append(digit_text(n % 10));
        assert(text@ =~= decimal(n as nat));
        text
    }
}

/// The characters of a string.
pub fn chars_of(text: &str) -> (chars: Vec<char>)
    ensures
        chars@ == text@,
{
    let mut chars: Vec<char> = Vec::new();
    for c in it: text.chars()
        invariant
            it.seq() == text@,
            chars@ == it.seq().take(it.index()),
    {
        chars.push(c);
        assert(chars@ =~= it.seq().take(it.index() + 1));
    }
    assert(chars@ =~= text@);
    chars
}

/// `part` stands in `text` from the place `at` on.
pub open spec fn occurs_at(text: Seq<char>, part: Seq<char>, at: int) -> bool {
    0 <= at && at + part.len() <= text.len() && text.subrange(at, at + part.len()) == part
}

/// `part` stands somewhere in `text`, character for character. The empty text stands
/// in every text.
pub open spec fn contains_text(text: Seq<char>, part: Seq<char>) -> bool {
    exists|at: int| occurs_at(text, part, at)
}

fn matches_at(text: &Vec<char>, part: &Vec<char>, at: usize) -> (found: bool)
    requires
        at + part.len() <= text.len(),
    ensures
        found == occurs_at(text@, part@, at as int),
{
    let mut k: usize = 0;
    while k < part.len()
        invariant
            k <= part.len(),
            at + part.len() <= text.len(),
            forall|j: int| 0 <= j < k ==> text@[at + j] == part@[j],
        decreases part.len() - k,
    {
        if text[at + k] != part[k] {
            assert(text@.subrange(at as int, at + part.len())[k as int] != part@[k as int]);
            return false;
        }
        k += 1;
    }
    assert(text@.subrange(at as int, at + part.len()) =~= part@);
    true
}

/// Whether `part` stands somewhere in `text`.
pub fn contains(text: &str, part: &str) -> (found: bool)
    ensures
        found == contains_text(text@, part@),
{
    let whole = chars_of(text);
    let piece = chars_of(part);
    if piece.len() > whole.len() {
        return false;
    }
    let last: usize = whole.len() - piece.len();
    let mut at: usize = 0;
    loop
        invariant
            whole@ == text@,
            piece@ == part@,
            last == whole.len() - piece.len(),
            at <= last,
            forall|k: int| 0 <= k < at ==> !occurs_at(whole@, piece@, k),
        decreases last - at,
    {
        if matches_at(&whole, &piece, at) {
            return true;
        }
        if at == last {
            return false;
        }
        at += 1;
    }
}

/// The bounds of the parts of a text between the separators, one part more than
/// there are separators: each part runs from its first bound up to its second.
pub open spec fn cuts(text: Seq<char>, separator: char) -> Seq<(int, int)>
    decreases text.len(),
{
    if text.len() == 0 {
        seq![(0int, 0int)]
    } else {
        let before = cuts(text.drop_last(), separator);
        if text.last() == separator {
            before.push((text.len() as int, text.len() as int))
        } else {
            before.update(before.len() - 1, (before.last().0, text.len() as int))
        }
    }
}

/// The bounds as integers.
pub open spec fn bounds_view(bounds: Seq<(usize, usize)>) -> Seq<(int, int)> {
    Seq::new(bounds.len(), |i: int| (bounds[i].0 as int, bounds[i].1 as int))
}

/// The bounds of the parts of a text between the separators.
pub fn split_bounds(chars: &Vec<char>, separator: char) -> (bounds: Vec<(usize, usize)>)
    ensures
        bounds_view(bounds@) == cuts(chars@, separator),
        forall|i: int|
            0 <= i < bounds@.len() ==> (#[trigger] bounds@[i]).0 <= bounds@[i].1 <= chars@.len(),
{
    let mut bounds: Vec<(usize, usize)> = Vec::new();
    let mut start: usize = 0;
    let mut at: usize = 0;
    assert(chars@.take(0) =~= Seq::<char>::empty());
    assert(bounds_view(bounds@).push((0int, 0int)) =~= cuts(chars@.take(0), separator));
    while at < chars.len()
        invariant
            start <= at <= chars.len(),
            bounds_view(bounds@).push((start as int, at as int)) == cuts(
                chars@.take(at as int),
                separator,
            ),
            forall|i: int|
                0 <= i < bounds@.len() ==> (#[trigger] bounds@[i]).0 <= bounds@[i].1
                    <= chars@.len(),
        decreases chars.len() - at,
    {
        let ghost done = bounds_view(bounds@);
        assert(chars@.take(at + 1).drop_last() =~= chars@.take(at as int));
        assert(chars@.take(at + 1).last() == chars@[at as int]);
        if chars[at] == separator {
            bounds.push((start, at));
            assert(bounds_view(bounds@) =~= done.push((start as int, at as int)));
            start = at + 1;
        } else {
            assert(done.push((start as int, at as int)).update(
                done.len() as int,
                (start as int, at + 1),
            ) =~= done.push((start as int, at + 1)));
        }
        at += 1;
    }
    assert(chars@.take(at as int) =~= chars@);
    let ghost done = bounds_view(bounds@);
    bounds.push((start, at));
    assert(bounds_view(bounds@) =~= done.push((start as int, at as int)));
    bounds
}

/// Whether a character is white space, as the standard library says.
pub uninterp spec fn is_space(c: char) -> bool;

/// Calls `char::is_whitespace`. The contract only names the result: which
/// characters are white space is the standard library's.
#[verifier::external_body]
fn is_whitespace(c: char) -> (space: bool)
    ensures
        space == is_space(c),
{
    c.is_whitespace()
}

/// For each character of a text, whether it is white space.
pub open spec fn spaces_of(text: Seq<char>) -> Seq<bool> {
    Seq::new(text.len(), |i: int| is_space(text[i]))
}

/// For each character, whether it is white space.
pub fn space_flags(chars: &Vec<char>) -> (spaces: Vec<bool>)
    ensures
        spaces@ == spaces_of(chars@),
{
    let mut spaces: Vec<bool> = Vec::new();
    let mut i: usize = 0;
    while i < chars.len()
        invariant
            i <= chars.len(),
            spaces@.len() == i,
            forall|k: int| 0 <= k < i ==> spaces@[k] == is_space(chars@[k]),
        decreases chars.len() - i,
    {
        spaces.push(is_whitespace(chars[i]));
        i += 1;
    }
    assert(spaces@ =~= spaces_of(chars@));
    spaces
}

/// Where `from..to` starts once the white space at its start is left out: `spaces`
/// says of each place whether white space stands there.
pub open spec fn first_kept(spaces: Seq<bool>, from: int, to: int) -> int
    decreases to - from,
{
    if 0 <= from < to && from < spaces.len() && spaces[from] {
        first_kept(spaces, from + 1, to)
    } else {
        from
    }
}

/// Where `from..to` ends once the white space at its end is left out.
pub open spec fn last_kept(spaces: Seq<bool>, from: int, to: int) -> int
    decreases to - from,
{
    if from < to <= spaces.len() && spaces[to - 1] {
        last_kept(spaces, from, to - 1)
    } else {
        to
    }
}

/// The bounds of what is left of `from..to` without the white space at its start
/// and at its end. Where nothing is left, the two bounds are equal.
pub open spec fn trimmed(spaces: Seq<bool>, from: int, to: int) -> (int, int) {
    (first_kept(spaces, from, to), last_kept(spaces, first_kept(spaces, from, to), to))
}

/// The bounds of what is left of `from..to` without the white space around it, where
/// `spaces` says of each place whether white space stands there.
pub fn trim_bounds(spaces: &Vec<bool>, from: usize, to: usize) -> (bounds: (usize, usize))
    ensures
        (bounds.0 as int, bounds.1 as int) == trimmed(spaces@, from as int, to as int),
        from <= to ==> from <= bounds.0 <= bounds.1 <= to,
{
    let mut a: usize = from;
    while a < to && a < spaces.len() && spaces[a]
        invariant
            from <= a,
            from <= to ==> a <= to,
            first_kept(spaces@, from as int, to as int) == first_kept(
                spaces@,
                a as int,
                to as int,
            ),
        decreases to - a,
    {
        a += 1;
    }
    let mut b: usize = to;
    while a < b && b <= spaces.len() && spaces[b - 1]
        invariant
            b <= to,
            from <= to ==> a <= b,
            last_kept(spaces@, a as int, to as int) == last_kept(spaces@, a as int, b as int),
        decreases b,
    {
        b -= 1;
    }
    (a, b)
}

/// The bounds of each part without the white space around it.
pub open spec fn trimmed_cuts(bounds: Seq<(int, int)>, spaces: Seq<bool>) -> Seq<(int, int)> {
    Seq::new(bounds.len(), |i: int| trimmed(spaces, bounds[i].0, bounds[i].1))
}

/// The words that stand in a text at the given bounds, but for those of no
/// characters; with `lower`, each in lower case.
pub open spec fn words_at(text: Seq<char>, bounds: Seq<(int, int)>, lower: bool) -> Seq<Seq<char>>
    decreases bounds.len(),
{
    if bounds.len() == 0 {
        Seq::empty()
    } else {
        let before = words_at(text, bounds.drop_last(), lower);
        let part = text.subrange(bounds.last().0, bounds.last().1);
        let word = if lower {
            lowercased(part)
        } else {
            part
        };
        if word.len() > 0 {
            before.push(word)
        } else {
            before
        }
    }
}

/// The keywords that a text lists between commas: the parts between the commas, each
/// without the white space around it and, with `lower`, in lower case; a part of
/// which nothing is left is no keyword.
pub open spec fn keywords_in(text: Seq<char>, lower: bool) -> Seq<Seq<char>> {
    words_at(text, trimmed_cuts(cuts(text, ','), spaces_of(text)), lower)
}

/// Puts a word at the end of a list, unless it has no characters.
pub fn keep_word(words: &mut Vec<String>, word: String)
    ensures
        texts(final(words)@) == if word@.len() > 0 {
            texts(old(words)@).push(word@)
        } else {
            texts(old(words)@)
        },
{
    let ghost before = texts(words@);
    if word.as_str().unicode_len() > 0 {
        words.push(word);
        assert(texts(words@) =~= before.push(word@));
    }
}

/// The keywords that a text lists between commas: each without the white space
/// around it and, with `lower`, in lower case; what is nothing but white space is
/// left out.
pub fn parse_keywords(text: &str, lower: bool) -> (words: Vec<String>)
    ensures
        texts(words@) == keywords_in(text@, lower),
{
    let chars = chars_of(text);
    let parts = split_bounds(&chars, ',');
    let spaces = space_flags(&chars);
    let ghost bounds = trimmed_cuts(cuts(text@, ','), spaces_of(text@));
    let mut words: Vec<String> = Vec::new();
    let mut i: usize = 0;
    assert(bounds.take(0) =~= Seq::<(int, int)>::empty());
    while i < parts.len()
        invariant
            i <= parts.len(),
            chars@ == text@,
            spaces@ == spaces_of(text@),
            bounds_view(parts@) == cuts(text@, ','),
            bounds == trimmed_cuts(cuts(text@, ','), spaces_of(text@)),
            forall|k: int|
                0 <= k < parts@.len() ==> (#[trigger] parts@[k]).0 <= parts@[k].1 <= text@.len(),
            texts(words@) == words_at(text@, bounds.take(i as int), lower),
        decreases parts.len() - i,
    {
        let (from, to) = parts[i];
        let (a, b) = trim_bounds(&spaces, from, to);
        proof {
            assert(bounds_view(parts@)[i as int] == (from as int, to as int));
            assert(bounds[i as int] == (a as int, b as int));
            assert(bounds.take(i + 1).drop_last() =~= bounds.take(i as int));
            assert(bounds.take(i + 1).last() == bounds[i as int]);
        }
        let part = text.substring_char(a, b);
        let word = if lower {
            to_lowercase(part)
        } else {
            part.to_owned()
        };
        keep_word(&mut words, word);
        i += 1;
    }
    assert(bounds.take(i as int) =~= bounds);
    words
}

/// A text in lower case, as the standard library makes it.
pub uninterp spec fn lowercased(text: Seq<char>) -> Seq<char>;

/// Calls `str::to_lowercase`. The contract only names the result: which characters
/// change, and into what, is the standard library's.
#[verifier::external_body]
pub(crate) fn to_lowercase(text: &str) -> (lower: String)
    ensures
        lower@ == lowercased(text@),
{
    text.to_lowercase()
}

/// The keywords with the id among them: at the end, where it was not there.
pub open spec fn with_id(keywords: Seq<Seq<char>>, id: Seq<char>) -> Seq<Seq<char>> {
    if keywords.contains(id) {
        keywords
    } else {
        keywords.push(id)
    }
}

/// The keywords of a food as a user lists them between commas, and the food's id
/// with them.
pub fn keywords_for(text: &str, id: &str) -> (words: Vec<String>)
    ensures
        texts(words@) == with_id(keywords_in(text@, false), id@),
{
    let mut words = parse_keywords(text, false);
    let ghost listed = texts(words@);
    let mut i: usize = 0;
    while i < words.len()
        invariant
            i <= words.len(),
            listed == texts(words@),
            listed == keywords_in(text@, false),
            forall|k: int| 0 <= k < i ==> listed[k] != id@,
        decreases words.len() - i,
    {
        if same_text(words[i].as_str(), id) {
            assert(listed[i as int] == id@);
            return words;
        }
        i += 1;
    }
    words.push(id.to_owned());
    assert(texts(words@) =~= listed.push(id@));
    words
}

} // verus!
