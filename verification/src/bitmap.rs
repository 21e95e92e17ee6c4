//! A fixed-capacity bit-vector backed by 32-bit words.
//!
//! Bit `i` lives in word `i / 32`, and inside a word the bits are numbered
//! from the most significant end: bit `i` sits at word position
//! `31 - i % 32`. The view of a [`Bitmap`] is the sequence of its bits in
//! index order, so the contracts never mention words at all.

use vstd::prelude::*;

verus! {

/// What can go wrong when a bitmap is built or addressed.
#[derive(Debug, Clone)]
pub enum BitmapError {
    /// An index at or beyond the capacity.
    BadIndex { actual: usize, size: usize },
    /// A revocation list that is not the JSON document it should be.
    BadJson(String),
}

/// The character of a decimal digit.
pub open spec fn digit_char(d: int) -> char {
    if d == 0 {
        '0'
    } else if d == 1 {
        '1'
    } else if d == 2 {
        '2'
    } else if d == 3 {
        '3'
    } else if d == 4 {
        '4'
    } else if d == 5 {
        '5'
    } else if d == 6 {
        '6'
    } else if d == 7 {
        '7'
    } else if d == 8 {
        '8'
    } else {
        '9'
    }
}

/// A number written in decimal, without leading zeros.
pub open spec fn decimal(n: nat) -> Seq<char>
    decreases n,
{
    if n < 10 {
        seq![digit_char(n as int)]
    } else {
        decimal(n / 10).push(digit_char((n % 10) as int))
    }
}

/// The words that every message ends in.
pub open spec fn message_tail() -> Seq<char> {
    "invalid first item to double"@
}

/// The message of an error.
pub open spec fn message_of(e: BitmapError) -> Seq<char> {
    match e {
        BitmapError::BadIndex { actual, size } => "Bad bitmap index "@ + decimal(actual as nat)
            + ". Expected 0 <= n < "@ + decimal(size as nat) + "."@ + message_tail(),
        BitmapError::BadJson(msg) => "Bad JSON. "@ + msg@ + message_tail(),
    }
}

/// The one-character text of a decimal digit.
fn digit_str(d: usize) -> (s: &'static str)
    requires
        d < 10,
    ensures
        s@ == seq![digit_char(d as int)],
{
    proof {
        reveal_strlit("0");
        reveal_strlit("1");
        reveal_strlit("2");
        reveal_strlit("3");
        reveal_strlit("4");
        reveal_strlit("5");
        reveal_strlit("6");
        reveal_strlit("7");
        reveal_strlit("8");
        reveal_strlit("9");
    }
    let s: &'static str = if d == 0 {
        "0"
    } else if d == 1 {
        "1"
    } else if d == 2 {
        "2"
    } else if d == 3 {
        "3"
    } else if d == 4 {
        "4"
    } else if d == 5 {
        "5"
    } else if d == 6 {
        "6"
    } else if d == 7 {
        "7"
    } else if d == 8 {
        "8"
    } else {
        "9"
    };
    assert(s@ =~= seq![digit_char(d as int)]);
    s
}

/// Appends `n` in decimal to `text`.
fn push_decimal(text: &mut String, n: usize)
    ensures
        final(text)@ == old(text)@ + decimal(n as nat),
    decreases n,
{
    if n >= 10 {
        push_decimal(text, n / 10);
    }
    text.append(digit_str(n % 10));
    assert(text@ =~= old(text)@ + decimal(n as nat));
}

impl BitmapError {
    /// The message of the error, as it is shown to a reader.
    pub fn message(&self) -> (text: String)
        ensures
            text@ == message_of(*self),
    {
        let mut text: String = String::new();
        match self {
            BitmapError::BadIndex { actual, size } => {
                text.append("Bad bitmap index ");
                push_decimal(&mut text, *actual);
                text.append(". Expected 0 <= n < ");
                push_decimal(&mut text, *size);
                text.append(".");
            },
            BitmapError::BadJson(msg) => {
                text.append("Bad JSON. ");
                text.append(msg.as_str());
            },
        }
        text.append("invalid first item to double");
        assert(text@ =~= message_of(*self));
        text
    }

    /// The kind of the error in a few words.
    pub fn description(&self) -> (text: &'static str)
        ensures
            self is BadIndex ==> text@ == "Bad bitmap index"@,
            self is BadJson ==> text@ == "Bad JSON"@,
    {
        match self {
            BitmapError::BadIndex { actual: _, size: _ } => "Bad bitmap index",
            BitmapError::BadJson(_) => "Bad JSON",
        }
    }
}

/// A set of bits that can be set, unset and tested by index.
#[derive(Debug)]
pub struct Bitmap {
    items: Vec<u32>,
}

/// Whether the bit at position `shift` of `word` is 1 (position 0 is the
/// least significant bit).
spec fn word_bit(word: u32, shift: u32) -> bool {
    (word >> shift) & 1u32 == 1u32
}

/// The word a bit index falls into.
spec fn word_index(i: int) -> int {
    i / 32
}

/// The position inside its word that a bit index occupies.
spec fn word_shift(i: int) -> int {
    31 - i % 32
}

/// The bits of a sequence of words, in index order.
spec fn bits_of(words: Seq<u32>) -> Seq<bool> {
    Seq::new(
        32 * words.len(),
        |i: int| word_bit(words[word_index(i)], word_shift(i) as u32),
    )
}

/// The first index of the 8-bit group that holds bit `i`.
pub open spec fn octet_start(i: int) -> int {
    i - i % 8
}

/// The number that eight bits spell, first bit most significant.
pub open spec fn octet_value(bits: Seq<bool>) -> int
    recommends
        bits.len() == 8,
{
    (if bits[0] { 128int } else { 0 })
    + (if bits[1] { 64int } else { 0 })
    + (if bits[2] { 32int } else { 0 })
    + (if bits[3] { 16int } else { 0 })
    + (if bits[4] { 8int } else { 0 })
    + (if bits[5] { 4int } else { 0 })
    + (if bits[6] { 2int } else { 0 })
    + (if bits[7] { 1int } else { 0 })
}

/// The byte with only the bit that stands for index `i` in the byte of
/// `i`'s group.
pub open spec fn octet_mask(i: int) -> u8 {
    0x80u8 >> ((i % 8) as u8)
}

impl View for Bitmap {
    type V = Seq<bool>;

    closed spec fn view(&self) -> Seq<bool> {
        bits_of(self.items@)
    }
}

impl Bitmap {
    #[verifier::type_invariant]
    spec fn fits(&self) -> bool {
        32 * self.items@.len() <= usize::MAX
    }

    /// The capacity a request for `bit_count` bits is rounded up to.
    pub open spec fn rounded_capacity(bit_count: int) -> int {
        32 * ((bit_count + 31) / 32)
    }

    /// A bitmap with room for `bit_count` bits, rounded up to whole words,
    /// every bit unset.
    pub fn new(bit_count: usize) -> (r: Result<Bitmap, BitmapError>)
        requires
            Self::rounded_capacity(bit_count as int) <= usize::MAX,
        ensures
            r is Ok,
            r->Ok_0@ == Seq::new(Self::rounded_capacity(bit_count as int) as nat, |i: int| false),
            r->Ok_0@.len() % 32 == 0,
            bit_count <= r->Ok_0@.len() < bit_count + 32,
    {
        let mut item_count: usize = bit_count / 32;
        if bit_count % 32 > 0 {
            item_count += 1;
        }
        let items: Vec<u32> = vec![0u32; item_count];
        let b = Bitmap { items };
        proof {
            assert forall|i: int| 0 <= i < b@.len() implies !b@[i] by {
                let w: u32 = b.items@[word_index(i)];
                let s: u32 = word_shift(i) as u32;
                assert(w == 0u32);
                assert(!word_bit(0u32, s)) by (bit_vector);
            }
            assert(b@ =~= Seq::new(
                Self::rounded_capacity(bit_count as int) as nat,
                |i: int| false,
            ));
        }
        Ok(b)
    }

    fn get_index_and_shift(i: usize) -> (r: (usize, usize))
        ensures
            r.0 == word_index(i as int),
            r.1 == word_shift(i as int),
            r.1 < 32,
    {
        let index: usize = i / 32;
        let shift: usize = 31 - (i % 32);
        (index, shift)
    }

    /// Sets bit `i`; every other bit keeps its value.
    pub fn set_bit(&mut self, i: usize)
        requires
            i < old(self)@.len(),
        ensures
            final(self)@ == old(self)@.update(i as int, true),
            final(self)@.len() == old(self)@.len(),
            final(self)@[i as int],
            forall|j: int|
                0 <= j < old(self)@.len() && j != i ==> final(self)@[j] == old(self)@[j],
    {
        proof {
            use_type_invariant(&*self);
        }
        let (index, shift) = Bitmap::get_index_and_shift(i);
        let word: u32 = self.items[index];
        let mask: u32 = 1u32 << (shift as u32);
        self.items[index] = word | mask;
        proof {
            let before = old(self).items@;
            let after = self.items@;
            assert forall|k: int| 0 <= k < 32 * before.len() implies bits_of(after)[k] == (k == i
                || bits_of(before)[k]) by {
                let t: u32 = word_shift(k) as u32;
                let s: u32 = shift as u32;
                if word_index(k) == index {
                    assert(word_bit(word | (1u32 << s), t) == (t == s || word_bit(word, t)))
                        by (bit_vector)
                        requires
                            s < 32,
                            t < 32,
                    ;
                }
            }
            assert(self@ =~= old(self)@.update(i as int, true));
        }
    }

    /// Clears bit `i`; every other bit keeps its value.
    pub fn unset_bit(&mut self, i: usize)
        requires
            i < old(self)@.len(),
        ensures
            final(self)@ == old(self)@.update(i as int, false),
            final(self)@.len() == old(self)@.len(),
            !final(self)@[i as int],
            forall|j: int|
                0 <= j < old(self)@.len() && j != i ==> final(self)@[j] == old(self)@[j],
    {
        proof {
            use_type_invariant(&*self);
        }
        let (index, shift) = Bitmap::get_index_and_shift(i);
        let word: u32 = self.items[index];
        let mask: u32 = 1u32 << (shift as u32);
        self.items[index] = word & !mask;
        proof {
            let before = old(self).items@;
            let after = self.items@;
            assert forall|k: int| 0 <= k < 32 * before.len() implies bits_of(after)[k] == (k != i
                && bits_of(before)[k]) by {
                let t: u32 = word_shift(k) as u32;
                let s: u32 = shift as u32;
                if word_index(k) == index {
                    assert(word_bit(word & !(1u32 << s), t) == (t != s && word_bit(word, t)))
                        by (bit_vector)
                        requires
                            s < 32,
                            t < 32,
                    ;
                }
            }
            assert(self@ =~= old(self)@.update(i as int, false));
        }
    }

    /// Whether bit `i` is set.
    pub fn get_bit(&self, i: usize) -> (set: bool)
        requires
            i < self@.len(),
        ensures
            set == self@[i as int],
    {
        let (index, shift) = Bitmap::get_index_and_shift(i);
        let item: u32 = self.items[index];
        (item >> (shift as u32)) & 1u32 == 1u32
    }

    /// The eight bits of the group that holds bit `i`, packed into a byte
    /// with the group's first bit most significant. Groups are cut at
    /// multiples of 8, so none straddles two words.
    pub fn get_byte_for_bit(&self, i: usize) -> (byte: u8)
        requires
            i < self@.len(),
        ensures
            byte == octet_value(self@.subrange(octet_start(i as int), octet_start(i as int) + 8)),
            byte == 0 <==> forall|k: int|
                octet_start(i as int) <= k < octet_start(i as int) + 8 ==> !self@[k],
            self@[i as int] == (byte & octet_mask(i as int) != 0),
    {
        let (index, shift) = Bitmap::get_index_and_shift(i);
        let item: u32 = self.items[index];
        let base: usize = (shift / 8) * 8;
        let byte: u8 = ((item >> (base as u32)) as u8) & 0xFFu8;
        proof {
            let g = octet_start(i as int);
            let group = self@.subrange(g, g + 8);
            let b: u32 = base as u32;
            let cut = Seq::new(8, |j: int| word_bit(item, (b + 7 - j) as u32));
            assert forall|j: int| 0 <= j < 8 implies group[j] == cut[j] by {
                lemma_octet_addressing(i as int, j);
            }
            assert(group =~= cut);
            lemma_byte_of_word(item, b, i as int % 8);
            lemma_octet_zero(group);
            assert forall|k: int| g <= k < g + 8 implies self@[k] == group[k - g] by {}
            assert(self@[i as int] == cut[i as int % 8]);
        }
        byte
    }

    /// The number of addressable bits.
    pub fn len(&self) -> (n: usize)
        ensures
            n == self@.len(),
            n % 32 == 0,
    {
        proof {
            use_type_invariant(self);
        }
        32 * self.items.len()
    }
}

/// The capacity of every bitmap is a whole number of 32-bit words.
pub proof fn lemma_length_is_whole_words(b: Bitmap)
    ensures
        b@.len() % 32 == 0,
{
}

/// A requested bit count is rounded up to the next multiple of 32, never
/// down and never further.
pub proof fn lemma_rounded_capacity(bit_count: int)
    requires
        0 <= bit_count,
    ensures
        Bitmap::rounded_capacity(bit_count) % 32 == 0,
        bit_count <= Bitmap::rounded_capacity(bit_count) < bit_count + 32,
        bit_count % 32 == 0 ==> Bitmap::rounded_capacity(bit_count) == bit_count,
{
}

/// Setting a bit makes it read as set and changes no other bit.
pub proof fn lemma_set_then_get(b: Bitmap, i: int, j: int)
    requires
        0 <= i < b@.len(),
        0 <= j < b@.len(),
    ensures
        b@.update(i, true)[i],
        j != i ==> b@.update(i, true)[j] == b@[j],
{
}

/// Unsetting a bit that was just set makes it read as unset again, and
/// the two steps together change no other bit.
pub proof fn lemma_unset_after_set(b: Bitmap, i: int, j: int)
    requires
        0 <= i < b@.len(),
        0 <= j < b@.len(),
    ensures
        !b@.update(i, true).update(i, false)[i],
        j != i ==> b@.update(i, true).update(i, false)[j] == b@[j],
        b@.update(i, true).update(i, false) == b@.update(i, false),
{
    assert(b@.update(i, true).update(i, false) =~= b@.update(i, false));
}

/// Bit `j` of the group that holds bit `i` lies in the same word as `i`,
/// `7 - j` places above the multiple of 8 below `i`'s own position.
proof fn lemma_octet_addressing(i: int, j: int)
    requires
        0 <= i,
        0 <= j < 8,
    ensures
        word_index(octet_start(i) + j) == word_index(i),
        word_shift(octet_start(i) + j) == (word_shift(i) / 8) * 8 + 7 - j,
        (word_shift(i) / 8) * 8 == 24 - octet_start(i) % 32,
        0 <= octet_start(i) <= i < octet_start(i) + 8,
{
}

/// Eight bits spell a byte, and they spell zero exactly when none of them
/// is set.
pub proof fn lemma_octet_zero(bits: Seq<bool>)
    requires
        bits.len() == 8,
    ensures
        octet_value(bits) == 0 <==> forall|j: int| 0 <= j < 8 ==> !bits[j],
        0 <= octet_value(bits) < 256,
{
    if octet_value(bits) == 0 {
        assert forall|j: int| 0 <= j < 8 implies !bits[j] by {
            if j == 0 {
            } else if j == 1 {
            } else if j == 2 {
            } else if j == 3 {
            } else if j == 4 {
            } else if j == 5 {
            } else if j == 6 {
            } else {
                assert(j == 7);
            }
        }
    }
}

/// The byte cut out of a word at a multiple of 8 spells the word's eight
/// bits from that position up, the highest of them most significant, and
/// each of them can be read back from the byte under its mask.
proof fn lemma_byte_of_word(w: u32, b: u32, j: int)
    requires
        b == 0 || b == 8 || b == 16 || b == 24,
        0 <= j < 8,
    ensures
        (((w >> b) as u8) & 0xFFu8) as int == octet_value(
            Seq::new(8, |j: int| word_bit(w, (b + 7 - j) as u32)),
        ),
        word_bit(w, (b + 7 - j) as u32) == ((((w >> b) as u8) & 0xFFu8) & (0x80u8 >> (j as u8))
            != 0),
{
    let v: u32 = w >> b;
    let byte: u8 = (v as u8) & 0xFFu8;
    assert(byte == (if word_bit(v, 7) { 128u8 } else { 0u8 })
        + (if word_bit(v, 6) { 64u8 } else { 0u8 })
        + (if word_bit(v, 5) { 32u8 } else { 0u8 })
        + (if word_bit(v, 4) { 16u8 } else { 0u8 })
        + (if word_bit(v, 3) { 8u8 } else { 0u8 })
        + (if word_bit(v, 2) { 4u8 } else { 0u8 })
        + (if word_bit(v, 1) { 2u8 } else { 0u8 })
        + (if word_bit(v, 0) { 1u8 } else { 0u8 })) by (bit_vector)
        requires
            byte == (v as u8) & 0xFFu8,
    ;
    assert forall|k: u32| k < 8 implies word_bit(v, k) == word_bit(w, (b + k) as u32) by {
        let t: u32 = (b + k) as u32;
        assert(word_bit(w >> b, k) == word_bit(w, t)) by (bit_vector)
            requires
                k < 8,
                b <= 24,
                t == b + k,
        ;
    }
    assert(word_bit(w, (b + 7 - j) as u32) == (byte & (0x80u8 >> (j as u8)) != 0)) by {
        let k: u32 = (7 - j) as u32;
        let m: u8 = j as u8;
        assert(word_bit(v, k) == word_bit(w, (b + k) as u32));
        assert(word_bit(v, k) == (byte & (0x80u8 >> m) != 0)) by (bit_vector)
            requires
                byte == (v as u8) & 0xFFu8,
                m < 8,
                k == 7 - m,
        ;
    }
    let cut = Seq::new(8, |j: int| word_bit(w, (b + 7 - j) as u32));
    assert(cut[0] == word_bit(v, 7));
    assert(cut[1] == word_bit(v, 6));
    assert(cut[2] == word_bit(v, 5));
    assert(cut[3] == word_bit(v, 4));
    assert(cut[4] == word_bit(v, 3));
    assert(cut[5] == word_bit(v, 2));
    assert(cut[6] == word_bit(v, 1));
    assert(cut[7] == word_bit(v, 0));
}

} // verus!
