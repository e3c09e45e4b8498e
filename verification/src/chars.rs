//! White space, and the buffer that collects a word.
use vstd::prelude::*;

verus! {

/// Whether `ch` has the Unicode `White_Space` property.
pub open spec fn spec_is_whitespace(ch: char) -> bool {
    let v = ch as u32;
    ||| 0x09 <= v <= 0x0d
    ||| v == 0x20
    ||| v == 0x85
    ||| v == 0xa0
    ||| v == 0x1680
    ||| 0x2000 <= v <= 0x200a
    ||| v == 0x2028
    ||| v == 0x2029
    ||| v == 0x202f
    ||| v == 0x205f
    ||| v == 0x3000
}

/// Tells whether `ch` is white space in the sense of Unicode.
pub fn is_whitespace(ch: char) -> (r: bool)
    ensures
        r == spec_is_whitespace(ch),
{
    let v = ch as u32;
    (0x09 <= v && v <= 0x0d) || v == 0x20 || v == 0x85 || v == 0xa0 || v == 0x1680 || (0x2000
        <= v && v <= 0x200a) || v == 0x2028 || v == 0x2029 || v == 0x202f || v == 0x205f || v
        == 0x3000
}

/// The length of `s` in characters (columns) cut to 16 bits, as a 16-bit
/// column count sees it.
pub open spec fn len16(s: Seq<char>) -> u16 {
    (s.len() % 0x10000) as u16
}

/// The word that waits to be printed when words are kept whole.
pub struct WordBuffer {
    chars: Vec<char>,
    count16: u16,
}

impl View for WordBuffer {
    type V = Seq<char>;

    closed spec fn view(&self) -> Seq<char> {
        self.chars@
    }
}

impl WordBuffer {
    #[verifier::type_invariant]
    closed spec fn wf(self) -> bool {
        self.count16 == len16(self.chars@)
    }

    /// An empty buffer.
    pub fn new() -> (b: WordBuffer)
        ensures
            b@ == Seq::<char>::empty(),
    {
        WordBuffer { chars: Vec::new(), count16: 0 }
    }

    /// The length of the word in characters, cut to 16 bits.
    pub fn len16(&self) -> (n: u16)
        ensures
            n == len16(self@),
    {
        proof {
            use_type_invariant(self);
        }
        self.count16
    }

    /// The number of characters in the word.
    pub fn len(&self) -> (n: usize)
        ensures
            n == self@.len(),
    {
        self.chars.len()
    }

    /// The character at position `i`.
    pub fn get(&self, i: usize) -> (ch: char)
        requires
            i < self@.len(),
        ensures
            ch == self@[i as int],
    {
        self.chars[i]
    }

    /// Appends `ch` to the word.
    pub fn push(&mut self, ch: char)
        ensures
            final(self)@ == old(self)@.push(ch),
    {
        let mut taken = WordBuffer::new();
        core::mem::swap(&mut taken, self);
        proof {
            use_type_invariant(&taken);
        }
        let WordBuffer { chars: mut chars, count16 } = taken;
        let ghost before = chars@;
        chars.push(ch);
        proof {
            vstd::arithmetic::div_mod::lemma_add_mod_noop(before.len() as int, 1, 0x10000);
            vstd::arithmetic::div_mod::lemma_small_mod(1, 0x10000);
            vstd::arithmetic::div_mod::lemma_mod_twice(before.len() as int, 0x10000);
        }
        *self = WordBuffer { chars, count16: count16.wrapping_add(1) };
    }

    /// Empties the buffer.
    pub fn clear(&mut self)
        ensures
            final(self)@ == Seq::<char>::empty(),
    {
        *self = WordBuffer::new();
    }

    /// A copy of the buffer.
    pub fn duplicate(&self) -> (b: WordBuffer)
        ensures
            b@ == self@,
    {
        proof {
            use_type_invariant(self);
        }
        WordBuffer { chars: self.chars.clone(), count16: self.count16 }
    }
}

} // verus!
