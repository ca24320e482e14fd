use vstd::prelude::*;

use crate::text::{chars_of, string_of};

verus! {

/// Text held in one buffer with a movable gap at the cursor, so that typing
/// and erasing at the cursor take no shifting of the rest.
pub struct GapBuffer {
    buffer: Vec<char>,
    gap_start: usize,
    gap_end: usize,
}

impl GapBuffer {
    /// The text: what stands before the gap, then what stands after it.
    pub closed spec fn content(&self) -> Seq<char> {
        self.buffer@.subrange(0, self.gap_start as int) + self.buffer@.subrange(
            self.gap_end as int,
            self.buffer@.len() as int,
        )
    }

    /// The cursor: the number of characters before it.
    pub closed spec fn cursor(&self) -> int {
        self.gap_start as int
    }

    /// Characters the buffer has room for, the gap included.
    pub closed spec fn capacity(&self) -> int {
        self.buffer@.len() as int
    }

    pub closed spec fn wf(&self) -> bool {
        self.gap_start <= self.gap_end <= self.buffer@.len()
    }

    /// An empty buffer with room for `size` characters.
    pub fn new(size: usize) -> (r: GapBuffer)
        ensures
            r.wf(),
            r.content().len() == 0,
            r.cursor() == 0,
    {
        let mut buffer: Vec<char> = Vec::new();
        let mut i: usize = 0;
        while i < size
            invariant
                i <= size,
                buffer@.len() == i,
            decreases size - i,
        {
            buffer.push(' ');
            i = i + 1;
        }
        GapBuffer { buffer, gap_start: 0, gap_end: size }
    }

    /// A buffer holding `initial`, with the cursor at its end.
    pub fn build(initial: &str) -> (r: GapBuffer)
        ensures
            r.wf(),
            r.content() == initial@,
            r.cursor() == initial@.len(),
    {
        let buffer = chars_of(initial);
        let size = buffer.len();
        let r = GapBuffer { buffer, gap_start: size, gap_end: size };
        assert(r.content() =~= initial@);
        r
    }

    /// Grows the buffer so that the gap is not empty; the text stays.
    fn resize_buffer(&mut self)
        requires
            old(self).wf(),
            old(self).buffer@.len() < usize::MAX / 2,
        ensures
            final(self).wf(),
            final(self).content() == old(self).content(),
            final(self).cursor() == old(self).cursor(),
            final(self).gap_start < final(self).gap_end,
            final(self).buffer@.len() <= 2 * old(self).buffer@.len() + 1,
    {
        let old_len = self.buffer.len();
        let new_len = if old_len == 0 {
            1
        } else {
            old_len * 2
        };
        let tail = old_len - self.gap_end;
        let ghost before = self.buffer@;
        let mut i: usize = old_len;
        while i < new_len
            invariant
                old_len <= i <= new_len,
                self.buffer@.len() == i,
                self.buffer@.subrange(0, old_len as int) == before,
                before.len() == old_len,
                self.gap_start == old(self).gap_start,
                self.gap_end == old(self).gap_end,
                self.gap_start <= self.gap_end <= old_len < new_len,
                tail == old_len - self.gap_end,
            decreases new_len - i,
        {
            self.buffer.push(' ');
            i = i + 1;
            assert(self.buffer@.subrange(0, old_len as int) =~= before);
        }
        assert forall|j: int| 0 <= j < tail implies #[trigger] self.buffer@[self.gap_end + j] == before[self.gap_end + j] by {
            assert(self.buffer@.subrange(0, old_len as int)[self.gap_end + j] == self.buffer@[self.gap_end + j]);
        }
        assert(self.buffer@.subrange(0, self.gap_start as int) =~= before.subrange(0, self.gap_start as int));
        // move the text after the gap to the end, last character first
        let mut k: usize = 0;
        while k < tail
            invariant
                old_len == before.len(),
                self.gap_start <= self.gap_end <= old_len < new_len,
                tail == old_len - self.gap_end,
                k <= tail,
                self.buffer@.len() == new_len,
                self.buffer@.subrange(0, self.gap_start as int) == before.subrange(0, self.gap_start as int),
                forall|j: int| 0 <= j < tail - k ==> #[trigger] self.buffer@[self.gap_end + j] == before[self.gap_end + j],
                forall|j: int|
                    tail - k <= j < tail ==> #[trigger] self.buffer@[new_len - tail + j] == before[self.gap_end + j],
                self.gap_start == old(self).gap_start,
                self.gap_end == old(self).gap_end,
            decreases tail - k,
        {
            let from = self.gap_end + (tail - k - 1);
            let to = new_len - k - 1;
            let c = self.buffer[from];
            self.buffer.set(to, c);
            k = k + 1;
            assert(self.buffer@.subrange(0, self.gap_start as int) =~= before.subrange(0, self.gap_start as int));
        }
        let ghost ge = self.gap_end as int;
        assert(self.buffer@.subrange(new_len - tail, new_len as int) =~= before.subrange(ge, old_len as int)) by {
            assert forall|j: int| 0 <= j < tail implies self.buffer@.subrange(new_len - tail, new_len as int)[j] == before.subrange(ge, old_len as int)[j] by {
                assert(self.buffer@[new_len - tail + j] == before[ge + j]);
            }
        }
        self.gap_end = new_len - tail;
        assert(self.content() =~= old(self).content());
    }

    /// Puts `c` at the cursor and moves the cursor past it.
    pub fn insert(&mut self, c: char)
        requires
            old(self).wf(),
            old(self).capacity() < usize::MAX / 2,
        ensures
            final(self).wf(),
            final(self).content() == old(self).content().insert(old(self).cursor(), c),
            final(self).capacity() <= 2 * old(self).capacity() + 1,
            final(self).cursor() == old(self).cursor() + 1,
    {
        if self.gap_start == self.gap_end {
            self.resize_buffer();
        }
        let ghost mid = self.content();
        self.buffer.set(self.gap_start, c);
        self.gap_start = self.gap_start + 1;
        assert(self.content() =~= mid.insert(old(self).cursor(), c));
    }

    /// Erases the character before the cursor, if there is one.
    pub fn delete(&mut self)
        requires
            old(self).wf(),
        ensures
            final(self).wf(),
            old(self).cursor() > 0 ==> final(self).content() == old(self).content().remove(
                old(self).cursor() - 1,
            ) && final(self).cursor() == old(self).cursor() - 1,
            old(self).cursor() == 0 ==> final(self).content() == old(self).content()
                && final(self).cursor() == 0,
    {
        if self.gap_start > 0 {
            self.gap_start = self.gap_start - 1;
            self.buffer.set(self.gap_start, ' ');
            assert(self.content() =~= old(self).content().remove(old(self).cursor() - 1));
        }
    }

    /// The text as a string.
    pub fn to_string(&self) -> (r: String)
        requires
            self.wf(),
        ensures
            r@ == self.content(),
    {
        let mut chars: Vec<char> = Vec::new();
        let mut i: usize = 0;
        while i < self.gap_start
            invariant
                self.wf(),
                i <= self.gap_start,
                chars@ == self.buffer@.subrange(0, i as int),
            decreases self.gap_start - i,
        {
            chars.push(self.buffer[i]);
            i = i + 1;
            assert(chars@ =~= self.buffer@.subrange(0, i as int));
        }
        let mut j: usize = self.gap_end;
        while j < self.buffer.len()
            invariant
                self.wf(),
                self.gap_end <= j <= self.buffer@.len(),
                chars@ == self.buffer@.subrange(0, self.gap_start as int) + self.buffer@.subrange(
                    self.gap_end as int,
                    j as int,
                ),
            decreases self.buffer.len() - j,
        {
            chars.push(self.buffer[j]);
            j = j + 1;
            assert(chars@ =~= self.buffer@.subrange(0, self.gap_start as int) + self.buffer@.subrange(
                self.gap_end as int,
                j as int,
            ));
        }
        string_of(&chars)
    }
}

} // verus!
