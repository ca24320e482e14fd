use vstd::prelude::*;

verus! {

/// The characters of a string, one by one.
pub fn chars_of(s: &str) -> (r: Vec<char>)
    ensures
        r@ == s@,
{
    let mut r: Vec<char> = Vec::new();
    let n = s.unicode_len();
    let mut i: usize = 0;
    while i < n
        invariant
            n == s@.len(),
            i <= n,
            r@ == s@.subrange(0, i as int),
        decreases n - i,
    {
        r.push(s.get_char(i));
        i = i + 1;
    }
    r
}

/// Relies on `String::push`: appends one character at the end.
#[verifier::external_body]
fn push_char(s: &mut String, c: char)
    ensures
        final(s)@ == old(s)@.push(c),
{
    s.push(c);
}

/// A string of the given characters.
pub fn string_of(chars: &Vec<char>) -> (r: String)
    ensures
        r@ == chars@,
{
    let mut r = String::new();
    let mut i: usize = 0;
    while i < chars.len()
        invariant
            i <= chars@.len(),
            r@ == chars@.subrange(0, i as int),
        decreases chars.len() - i,
    {
        push_char(&mut r, chars[i]);
        assert(chars@.subrange(0, i + 1) =~= chars@.subrange(0, i as int).push(chars@[i as int]));
        i = i + 1;
    }
    assert(chars@.subrange(0, i as int) =~= chars@);
    r
}


/// The parts one after another with `sep` between each two.
pub open spec fn joined(parts: Seq<Seq<char>>, sep: Seq<char>) -> Seq<char>
    decreases parts.len(),
{
    if parts.len() == 0 {
        Seq::<char>::empty()
    } else if parts.len() == 1 {
        parts[0]
    } else {
        joined(parts.drop_last(), sep) + sep + parts.last()
    }
}

proof fn lemma_joined_step(parts: Seq<Seq<char>>, sep: Seq<char>, i: int)
    requires
        0 < i < parts.len(),
    ensures
        joined(parts.subrange(0, i + 1), sep) == joined(parts.subrange(0, i), sep) + sep + parts[i],
{
    assert(parts.subrange(0, i + 1).drop_last() =~= parts.subrange(0, i));
}

/// `lines` joined with `sep` between each two.
pub fn join_lines(lines: &Vec<Vec<char>>, sep: &Vec<char>) -> (r: Vec<char>)
    ensures
        r@ == joined(lines@.map_values(|l: Vec<char>| l@), sep@),
{
    let ghost parts = lines@.map_values(|l: Vec<char>| l@);
    let mut out: Vec<char> = Vec::new();
    let mut i: usize = 0;
    while i < lines.len()
        invariant
            i <= lines@.len(),
            parts == lines@.map_values(|l: Vec<char>| l@),
            out@ == joined(parts.subrange(0, i as int), sep@),
        decreases lines.len() - i,
    {
        if i > 0 {
            let mut s: usize = 0;
            let ghost start = out@;
            while s < sep.len()
                invariant
                    s <= sep@.len(),
                    out@ == start + sep@.subrange(0, s as int),
                decreases sep.len() - s,
            {
                out.push(sep[s]);
                s = s + 1;
                assert(out@ =~= start + sep@.subrange(0, s as int));
            }
        }
        let line = &lines[i];
        let ghost start = out@;
        let mut j: usize = 0;
        while j < line.len()
            invariant
                j <= line@.len(),
                out@ == start + line@.subrange(0, j as int),
            decreases line.len() - j,
        {
            out.push(line[j]);
            j = j + 1;
            assert(out@ =~= start + line@.subrange(0, j as int));
        }
        proof {
            assert(line@.subrange(0, j as int) =~= parts[i as int]);
            if i > 0 {
                lemma_joined_step(parts, sep@, i as int);
                assert(sep@.subrange(0, sep@.len() as int) =~= sep@);
            } else {
                assert(parts.subrange(0, 1) =~= seq![parts[0]]);
                assert(out@ =~= parts[0]);
            }
        }
        i = i + 1;
    }
    assert(parts.subrange(0, i as int) =~= parts);
    out
}

} // verus!
