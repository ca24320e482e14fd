use vstd::prelude::*;

use crate::text::{chars_of, string_of};

verus! {

/// What `char::to_uppercase` gives for `c`.
pub uninterp spec fn upper_of(c: char) -> Seq<char>;

/// Relies on `char::to_uppercase`: the upper case form of one character,
/// which may take several characters; it depends on the character alone.
#[verifier::external_body]
fn uppercase_char(c: char) -> (r: String)
    ensures
        r@ == upper_of(c),
{
    c.to_uppercase().collect::<String>()
}

/// `word` with its first character in upper case.
pub open spec fn capitalized(word: Seq<char>) -> Seq<char> {
    if word.len() == 0 {
        Seq::<char>::empty()
    } else {
        upper_of(word[0]) + word.drop_first()
    }
}

/// `upper` followed by `word` without its first character: the capitalized
/// word, given the upper case form of its first character.
pub fn capitalize_with(upper: &str, word: &str) -> (r: String)
    requires
        word@.len() > 0,
    ensures
        r@ == upper@ + word@.drop_first(),
{
    let up = chars_of(upper);
    let rest = chars_of(word);
    let mut out = up;
    let mut i: usize = 1;
    while i < rest.len()
        invariant
            1 <= i <= rest@.len(),
            rest@ == word@,
            out@ == upper@ + word@.subrange(1, i as int),
        decreases rest.len() - i,
    {
        out.push(rest[i]);
        i = i + 1;
        assert(out@ =~= upper@ + word@.subrange(1, i as int));
    }
    assert(word@.subrange(1, i as int) =~= word@.drop_first());
    string_of(&out)
}

/// `input` with its first character in upper case.
pub fn capitalize_first(input: &str) -> (r: String)
    ensures
        r@ == capitalized(input@),
{
    if input.unicode_len() == 0 {
        return String::new();
    }
    let first = input.get_char(0);
    let upper = uppercase_char(first);
    capitalize_with(upper.as_str(), input)
}

/// Each word capitalized.
pub fn capitalize_words_1(words: &[&str]) -> (r: Vec<String>)
    ensures
        r@.len() == words@.len(),
        forall|i: int| 0 <= i < words@.len() ==> #[trigger] r@[i]@ == capitalized(words@[i]@),
{
    let mut r: Vec<String> = Vec::new();
    let mut i: usize = 0;
    while i < words.len()
        invariant
            i <= words@.len(),
            r@.len() == i,
            forall|x: int| 0 <= x < i ==> #[trigger] r@[x]@ == capitalized(words@[x]@),
        decreases words.len() - i,
    {
        r.push(capitalize_first(words[i]));
        i = i + 1;
    }
    r
}

/// The words capitalized, one after another.
pub open spec fn capitalized_all(words: Seq<Seq<char>>) -> Seq<char>
    decreases words.len(),
{
    if words.len() == 0 {
        Seq::<char>::empty()
    } else {
        capitalized_all(words.drop_last()) + capitalized(words.last())
    }
}

/// The words capitalized and run together.
pub fn capitalize_words_2(words: &[&str]) -> (r: String)
    ensures
        r@ == capitalized_all(words@.map_values(|w: &str| w@)),
{
    let ghost all = words@.map_values(|w: &str| w@);
    let mut out: Vec<char> = Vec::new();
    let mut i: usize = 0;
    while i < words.len()
        invariant
            i <= words@.len(),
            all == words@.map_values(|w: &str| w@),
            out@ == capitalized_all(all.subrange(0, i as int)),
        decreases words.len() - i,
    {
        let word = capitalize_first(words[i]);
        let chars = chars_of(word.as_str());
        let ghost start = out@;
        let mut j: usize = 0;
        while j < chars.len()
            invariant
                j <= chars@.len(),
                out@ == start + chars@.subrange(0, j as int),
            decreases chars.len() - j,
        {
            out.push(chars[j]);
            j = j + 1;
            assert(out@ =~= start + chars@.subrange(0, j as int));
        }
        assert(chars@.subrange(0, j as int) =~= chars@);
        assert(all.subrange(0, i + 1).drop_last() =~= all.subrange(0, i as int));
        i = i + 1;
    }
    assert(all.subrange(0, i as int) =~= all);
    string_of(&out)
}

/// The longer of two strings by length in bytes; `y` when they are as long.
pub fn longest<'a>(x: &'a str, y: &'a str) -> (r: &'a str)
    ensures
        r == if x.len() > y.len() {
            x
        } else {
            y
        },
{
    if x.len() > y.len() {
        x
    } else {
        y
    }
}

} // verus!
