//! A single-line text input with a cursor. The cursor is a byte offset
//! into the UTF-8 text and always sits on a character boundary: it is the
//! encoded length of the characters before it.

use vstd::prelude::*;
use vstd::string::StrSliceExecFns;
use vstd::utf8::{encode_utf8, encode_scalar, char_is_scalar};
use crate::store::{push_char, append_str};

verus! {

/// Number of bytes `c` takes in UTF-8.
pub open spec fn char_width(c: char) -> nat {
    encode_scalar(c as u32).len()
}

/// Byte length of the first `k` characters of `s`: the char boundary
/// before `s[k]`.
pub open spec fn byte_offset(s: Seq<char>, k: int) -> nat {
    encode_utf8(s.subrange(0, k)).len()
}

pub proof fn lemma_char_width(c: char)
    ensures
        1 <= char_width(c) <= 4,
{
    char_is_scalar(c);
}

pub proof fn lemma_encode_concat(a: Seq<char>, b: Seq<char>)
    ensures
        encode_utf8(a + b) == encode_utf8(a) + encode_utf8(b),
    decreases a.len(),
{
    if a.len() == 0 {
        assert(a + b =~= b);
        assert(encode_utf8(a) =~= Seq::<u8>::empty());
        assert(encode_utf8(a) + encode_utf8(b) =~= encode_utf8(b));
    } else {
        assert((a + b).drop_first() =~= a.drop_first() + b);
        assert((a + b)[0] == a[0]);
        lemma_encode_concat(a.drop_first(), b);
        assert(encode_utf8(a + b) =~= encode_utf8(a) + encode_utf8(b));
    }
}

/// One character further, the offset grows by that character's width.
pub proof fn lemma_offset_step(s: Seq<char>, k: int)
    requires
        0 <= k < s.len(),
    ensures
        byte_offset(s, k + 1) == byte_offset(s, k) + char_width(s[k]),
{
    let c = s[k];
    assert(s.subrange(0, k + 1) =~= s.subrange(0, k) + seq![c]);
    lemma_encode_concat(s.subrange(0, k), seq![c]);
    assert(seq![c].drop_first() =~= Seq::<char>::empty());
    assert(encode_utf8(Seq::<char>::empty()) =~= Seq::<u8>::empty());
    assert(encode_utf8(seq![c]) =~= encode_scalar(c as u32));
}

/// Offsets grow strictly with the character count.
pub proof fn lemma_offset_mono(s: Seq<char>, i: int, j: int)
    requires
        0 <= i <= j <= s.len(),
    ensures
        byte_offset(s, i) + (j - i) <= byte_offset(s, j),
    decreases j - i,
{
    if i < j {
        lemma_offset_mono(s, i, j - 1);
        lemma_offset_step(s, j - 1);
        lemma_char_width(s[j - 1]);
    }
}

pub proof fn lemma_offset_whole(s: Seq<char>)
    ensures
        byte_offset(s, s.len() as int) == encode_utf8(s).len(),
{
    assert(s.subrange(0, s.len() as int) =~= s);
}

/// UTF-8 length of `c`.
pub fn utf8_width(c: char) -> (r: usize)
    ensures
        r == char_width(c),
        1 <= r <= 4,
{
    proof {
        char_is_scalar(c);
    }
    let v = c as u32;
    if v < 0x80 {
        1
    } else if v < 0x800 {
        2
    } else if v < 0x10000 {
        3
    } else {
        4
    }
}

pub struct InputState {
    pub value: String,
    pub cursor_position: usize,
}

impl InputState {
    /// The cursor sits just after the first `k` characters.
    pub open spec fn at_char(&self, k: int) -> bool {
        0 <= k <= self.value@.len() && self.cursor_position == byte_offset(self.value@, k)
    }

    /// The cursor lies on a character boundary of the text.
    pub open spec fn wf(&self) -> bool {
        exists|k: int| self.at_char(k)
    }

    /// The character index the cursor stands at.
    fn char_index(&self) -> (r: usize)
        requires
            self.wf(),
        ensures
            self.at_char(r as int),
    {
        let ghost k = choose|k: int| self.at_char(k);
        let n = self.value.as_str().unicode_len();
        let mut i: usize = 0;
        let mut acc: usize = 0;
        while acc < self.cursor_position
            invariant
                n == self.value@.len(),
                self.at_char(k),
                0 <= i <= k,
                acc == byte_offset(self.value@, i as int),
            decreases k - i,
        {
            proof {
                if i == k {
                    assert(false);
                }
                lemma_offset_step(self.value@, i as int);
                lemma_offset_mono(self.value@, i + 1, k);
            }
            let w = utf8_width(self.value.as_str().get_char(i));
            acc = acc + w;
            i = i + 1;
        }
        proof {
            if i < k {
                lemma_offset_mono(self.value@, i as int, k);
            }
        }
        i
    }

    /// An empty input.
    pub fn new() -> (r: InputState)
        ensures
            r.value@.len() == 0,
            r.cursor_position == 0,
            r.wf(),
    {
        let r = InputState { value: String::new(), cursor_position: 0 };
        assert(r.at_char(0)) by {
            assert(r.value@.subrange(0, 0) =~= Seq::<char>::empty());
        }
        r
    }

    /// An input holding `s`, with the cursor at its end (its byte length).
    pub fn with_value(s: String) -> (r: InputState)
        ensures
            r.value@ == s@,
            r.cursor_position == encode_utf8(s@).len(),
            r.at_char(s@.len() as int),
    {
        let len = s.as_str().as_bytes().len();
        proof {
            lemma_offset_whole(s@);
        }
        InputState { value: s, cursor_position: len }
    }

    /// Moves the cursor back over one character, if there is one.
    pub fn move_cursor_left(&mut self)
        requires
            old(self).wf(),
        ensures
            final(self).value@ == old(self).value@,
            forall|k: int| #[trigger] old(self).at_char(k) ==> final(self).at_char(if k > 0 { k - 1 } else { 0 }),
    {
        let k = self.char_index();
        proof {
            self.lemma_at_char_unique(k as int);
        }
        if k > 0 {
            let w = utf8_width(self.value.as_str().get_char(k - 1));
            proof {
                lemma_offset_step(self.value@, k - 1);
            }
            self.cursor_position = self.cursor_position - w;
        }
    }

    /// Moves the cursor forward over one character, if there is one.
    pub fn move_cursor_right(&mut self)
        requires
            old(self).wf(),
        ensures
            final(self).value@ == old(self).value@,
            forall|k: int| #[trigger] old(self).at_char(k)
                ==> final(self).at_char(if k < old(self).value@.len() { k + 1 } else { k }),
    {
        let k = self.char_index();
        proof {
            self.lemma_at_char_unique(k as int);
        }
        let n = self.value.as_str().unicode_len();
        if k < n {
            let total = self.value.as_str().as_bytes().len();
            let w = utf8_width(self.value.as_str().get_char(k));
            proof {
                lemma_offset_step(self.value@, k as int);
                lemma_offset_mono(self.value@, k + 1, n as int);
                lemma_offset_whole(self.value@);
            }
            self.cursor_position = self.cursor_position + w;
        }
    }

    /// The character index the cursor stands at is unique.
    pub proof fn lemma_at_char_unique(&self, k: int)
        requires
            self.at_char(k),
        ensures
            forall|j: int| #[trigger] self.at_char(j) ==> j == k,
    {
        assert forall|j: int| #[trigger] self.at_char(j) implies j == k by {
            if j < k {
                lemma_offset_mono(self.value@, j + 1, k);
                lemma_offset_step(self.value@, j);
                lemma_char_width(self.value@[j]);
            } else if j > k {
                lemma_offset_mono(self.value@, k + 1, j);
                lemma_offset_step(self.value@, k);
                lemma_char_width(self.value@[k]);
            }
        }
    }

    /// Inserts `c` at the cursor and moves the cursor past it.
    pub fn insert_char(&mut self, c: char)
        requires
            old(self).wf(),
        ensures
            final(self).wf(),
            final(self).cursor_position == old(self).cursor_position + char_width(c),
            forall|k: int| #[trigger] old(self).at_char(k) ==> final(self).value@ == old(self).value@.insert(k, c)
                && final(self).at_char(k + 1),
    {
        let k = self.char_index();
        proof {
            self.lemma_at_char_unique(k as int);
        }
        let n = self.value.as_str().unicode_len();
        let mut s = self.value.as_str().substring_char(0, k).to_owned();
        push_char(&mut s, c);
        let right = self.value.as_str().substring_char(k, n);
        append_str(&mut s, right);
        let ghost old_value = self.value@;
        assert(s@ =~= old_value.insert(k as int, c));
        let total = s.as_str().as_bytes().len();
        let w = utf8_width(c);
        proof {
            assert(s@.subrange(0, k as int) =~= old_value.subrange(0, k as int));
            lemma_offset_step(s@, k as int);
            lemma_offset_mono(s@, k + 1, s@.len() as int);
            lemma_offset_whole(s@);
        }
        self.value = s;
        self.cursor_position = self.cursor_position + w;
        assert(self.at_char(k + 1));
    }

    /// Deletes the character before the cursor, if any, and moves the
    /// cursor back to where that character began.
    pub fn delete_char(&mut self)
        requires
            old(self).wf(),
        ensures
            final(self).wf(),
            forall|k: int| #[trigger] old(self).at_char(k) ==> if k > 0 {
                final(self).value@ == old(self).value@.remove(k - 1) && final(self).at_char(k - 1)
            } else {
                final(self).value@ == old(self).value@ && final(self).cursor_position == 0
            },
    {
        let k = self.char_index();
        proof {
            self.lemma_at_char_unique(k as int);
        }
        if k > 0 {
            let n = self.value.as_str().unicode_len();
            let w = utf8_width(self.value.as_str().get_char(k - 1));
            let mut s = self.value.as_str().substring_char(0, k - 1).to_owned();
            let right = self.value.as_str().substring_char(k, n);
            append_str(&mut s, right);
            let ghost old_value = self.value@;
            assert(s@ =~= old_value.remove(k - 1));
            proof {
                lemma_offset_step(old_value, k - 1);
                assert(s@.subrange(0, k - 1) =~= old_value.subrange(0, k - 1));
            }
            self.value = s;
            self.cursor_position = self.cursor_position - w;
            assert(self.at_char(k - 1));
        } else {
            assert(self.value@.subrange(0, 0) =~= Seq::<char>::empty());
        }
    }

    /// Empties the input.
    pub fn clear(&mut self)
        ensures
            final(self).value@.len() == 0,
            final(self).cursor_position == 0,
            final(self).wf(),
    {
        self.value = String::new();
        self.cursor_position = 0;
        assert(self.at_char(0)) by {
            assert(self.value@.subrange(0, 0) =~= Seq::<char>::empty());
        }
    }

    /// Pulls the cursor back to the end of the text after an outside change.
    pub fn clamp_cursor(&mut self)
        ensures
            final(self).value@ == old(self).value@,
            final(self).cursor_position == if old(self).cursor_position > encode_utf8(old(self).value@).len() {
                encode_utf8(old(self).value@).len() as usize
            } else {
                old(self).cursor_position
            },
    {
        let n = self.value.as_str().as_bytes().len();
        if self.cursor_position > n {
            self.cursor_position = n;
        }
    }
}

} // verus!
