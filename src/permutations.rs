use vstd::prelude::*;

use crate::text::{chars_of, string_of};

verus! {

/// `p` with `c` put after its first `i` characters, or at its end when `p`
/// is shorter.
pub open spec fn put_at(p: Seq<char>, c: char, i: nat) -> Seq<char> {
    let k = if i < p.len() {
        i as int
    } else {
        p.len() as int
    };
    p.subrange(0, k) + seq![c] + p.subrange(k, p.len() as int)
}

/// The words `permutations` gives for `w`: `w` itself when it has at most
/// one character; else, for each word `p` given for `w` without its first
/// character, and for each position `i` from 0 to the number of those words,
/// `p` with that first character put at `i`.
pub open spec fn perms_of(w: Seq<char>) -> Seq<Seq<char>>
    decreases w.len(),
{
    if w.len() <= 1 {
        seq![w]
    } else {
        let ps = perms_of(w.drop_first());
        Seq::new(
            ps.len(),
            |a: int| Seq::new((ps.len() + 1) as nat, |i: int| put_at(ps[a], w[0], i as nat)),
        ).flatten_alt()
    }
}

/// `p` with `c` put at position `i`, counting from the start, or at the end.
fn put_char_at(p: &Vec<char>, c: char, i: usize) -> (r: Vec<char>)
    ensures
        r@ == put_at(p@, c, i as nat),
{
    let k = if i < p.len() {
        i
    } else {
        p.len()
    };
    let mut r: Vec<char> = Vec::new();
    let mut j: usize = 0;
    while j < k
        invariant
            k <= p@.len(),
            j <= k,
            r@ == p@.subrange(0, j as int),
        decreases k - j,
    {
        r.push(p[j]);
        j = j + 1;
        assert(r@ =~= p@.subrange(0, j as int));
    }
    r.push(c);
    let mut m: usize = k;
    while m < p.len()
        invariant
            k <= m <= p@.len(),
            r@ == p@.subrange(0, k as int) + seq![c] + p@.subrange(k as int, m as int),
        decreases p.len() - m,
    {
        r.push(p[m]);
        m = m + 1;
        assert(r@ =~= p@.subrange(0, k as int) + seq![c] + p@.subrange(k as int, m as int));
    }
    r
}

/// Every word made by putting the first character of `word` into each word
/// made the same way from the rest; words may repeat.
pub fn permutations(word: String) -> (r: Vec<String>)
    requires
        perms_of(word@).len() <= usize::MAX,
    ensures
        r@.len() == perms_of(word@).len(),
        forall|j: int| 0 <= j < r@.len() ==> #[trigger] r@[j]@ == perms_of(word@)[j],
    decreases word@.len(),
{
    let chars = chars_of(word.as_str());
    if chars.len() <= 1 {
        return vec![word];
    }
    let mut rest: Vec<char> = Vec::new();
    let mut j: usize = 1;
    while j < chars.len()
        invariant
            1 <= j <= chars@.len(),
            rest@ == chars@.subrange(1, j as int),
        decreases chars.len() - j,
    {
        rest.push(chars[j]);
        j = j + 1;
        assert(rest@ =~= chars@.subrange(1, j as int));
    }
    assert(rest@ =~= word@.drop_first());
    let trimmed = string_of(&rest);
    let ghost ps_spec = perms_of(word@.drop_first());
    let ghost n = ps_spec.len() + 1;
    let ghost blocks = Seq::new(
        ps_spec.len(),
        |a: int| Seq::new(n as nat, |i: int| put_at(ps_spec[a], word@[0], i as nat)),
    );
    assert(perms_of(word@) == blocks.flatten_alt());
    let perms = permutations(trimmed);
    let first_char = chars[0];
    let mut result: Vec<String> = Vec::new();
    let mut a: usize = 0;
    while a < perms.len()
        invariant
            a <= perms@.len(),
            perms@.len() == ps_spec.len(),
            forall|x: int| 0 <= x < perms@.len() ==> #[trigger] perms@[x]@ == ps_spec[x],
            n == ps_spec.len() + 1,
            first_char == word@[0],
            blocks == Seq::new(
                ps_spec.len(),
                |a: int| Seq::new(n as nat, |i: int| put_at(ps_spec[a], word@[0], i as nat)),
            ),
            blocks.flatten_alt().len() <= usize::MAX,
            result@.map_values(|s: String| s@) == blocks.subrange(0, a as int).flatten_alt(),
        decreases perms.len() - a,
    {
        let perm = chars_of(perms[a].as_str());
        let count = perms.len() + 1;
        let ghost start = result@.map_values(|s: String| s@);
        proof {
            lemma_flatten_prefix_len(blocks, a as int, n as nat);
        }
        let mut i: usize = 0;
        while i < count
            invariant
                i <= count,
                count == n,
                perm@ == ps_spec[a as int],
                first_char == word@[0],
                start.len() + n <= usize::MAX,
                result@.map_values(|s: String| s@) == start + Seq::new(i as nat, |x: int| put_at(ps_spec[a as int], word@[0], x as nat)),
            decreases count - i,
        {
            let ghost prev = result@.map_values(|s: String| s@);
            let p = put_char_at(&perm, first_char, i);
            result.push(string_of(&p));
            assert(result@.map_values(|s: String| s@) =~= prev.push(p@));
            i = i + 1;
            assert(start + Seq::new(i as nat, |x: int| put_at(ps_spec[a as int], word@[0], x as nat)) =~= prev.push(p@));
        }
        proof {
            assert(Seq::new(i as nat, |x: int| put_at(ps_spec[a as int], word@[0], x as nat)) =~= blocks[a as int]);
            assert(blocks.subrange(0, a + 1).drop_last() =~= blocks.subrange(0, a as int));
        }
        a = a + 1;
    }
    assert(blocks.subrange(0, a as int) =~= blocks);
    result
}

proof fn lemma_flatten_prefix_len(blocks: Seq<Seq<Seq<char>>>, a: int, n: nat)
    requires
        0 <= a < blocks.len(),
        forall|x: int| 0 <= x < blocks.len() ==> (#[trigger] blocks[x]).len() == n,
    ensures
        blocks.subrange(0, a).flatten_alt().len() + n <= blocks.flatten_alt().len(),
    decreases blocks.len(),
{
    assert(blocks.drop_last().len() + 1 == blocks.len());
    if a < blocks.len() - 1 {
        assert(blocks.drop_last().subrange(0, a) =~= blocks.subrange(0, a));
        lemma_flatten_prefix_len(blocks.drop_last(), a, n);
    } else {
        assert(blocks.drop_last() =~= blocks.subrange(0, a));
    }
}

} // verus!
