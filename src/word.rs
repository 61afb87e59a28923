use vstd::prelude::*;

verus! {

/// The little-endian bytes of a 32-bit word, least significant first.
pub open spec fn le_bytes_u32(x: u32) -> Seq<u8> {
    seq![
        (x & 0xff) as u8,
        ((x >> 8u32) & 0xff) as u8,
        ((x >> 16u32) & 0xff) as u8,
        ((x >> 24u32) & 0xff) as u8,
    ]
}

/// The 32-bit word whose little-endian bytes are `b0, b1, b2, b3`.
pub open spec fn u32_of_le(b0: u8, b1: u8, b2: u8, b3: u8) -> u32 {
    (b0 as u32) | ((b1 as u32) << 8u32) | ((b2 as u32) << 16u32) | ((b3 as u32) << 24u32)
}

/// The little-endian bytes of a 64-bit word, least significant first.
pub open spec fn le_bytes_u64(x: u64) -> Seq<u8> {
    seq![
        (x & 0xff) as u8,
        ((x >> 8u64) & 0xff) as u8,
        ((x >> 16u64) & 0xff) as u8,
        ((x >> 24u64) & 0xff) as u8,
        ((x >> 32u64) & 0xff) as u8,
        ((x >> 40u64) & 0xff) as u8,
        ((x >> 48u64) & 0xff) as u8,
        ((x >> 56u64) & 0xff) as u8,
    ]
}

/// The 64-bit word whose little-endian bytes are `b0` to `b7`.
pub open spec fn u64_of_le(b0: u8, b1: u8, b2: u8, b3: u8, b4: u8, b5: u8, b6: u8, b7: u8) -> u64 {
    (b0 as u64) | ((b1 as u64) << 8u64) | ((b2 as u64) << 16u64) | ((b3 as u64) << 24u64)
        | ((b4 as u64) << 32u64) | ((b5 as u64) << 40u64) | ((b6 as u64) << 48u64) | ((b7 as u64)
        << 56u64)
}

/// A fixed-width value with a little-endian byte encoding.
///
/// The encoding is a bijection between values and byte strings of length
/// `spec_width()`: every value has exactly one encoding, and every byte string
/// of that length encodes exactly one value.
pub trait LeWord: Sized + Copy {
    /// Number of bytes in the encoding of one value.
    spec fn spec_width() -> nat;

    /// The encoding of `self`.
    spec fn le_bytes(self) -> Seq<u8>;

    /// The value encoded by `b`, meaningful when `b` has `spec_width()` bytes.
    spec fn from_le(b: Seq<u8>) -> Self;

    /// Number of bytes in the encoding of one value.
    fn width() -> (r: usize)
        ensures
            r as nat == Self::spec_width(),
            1 <= r <= 8,
    ;

    /// Reads the value encoded at `bytes[start .. start + width]`.
    fn read_le(bytes: &[u8], start: usize) -> (r: Self)
        requires
            start + Self::spec_width() <= bytes@.len(),
        ensures
            r == Self::from_le(bytes@.subrange(start as int, start + Self::spec_width())),
    ;

    /// Appends the encoding of `self` to `out`.
    fn write_le(self, out: &mut Vec<u8>)
        ensures
            final(out)@ == old(out)@ + self.le_bytes(),
    ;

    /// The width lies between one and eight bytes.
    proof fn lemma_width()
        ensures
            1 <= Self::spec_width() <= 8,
    ;

    /// Decoding the encoding of a value gives the value back, and the
    /// encoding has `spec_width()` bytes.
    proof fn lemma_from_to(x: Self)
        ensures
            x.le_bytes().len() == Self::spec_width(),
            Self::from_le(x.le_bytes()) == x,
    ;

    /// Encoding the value decoded from `b` gives `b` back.
    proof fn lemma_to_from(b: Seq<u8>)
        requires
            b.len() == Self::spec_width(),
        ensures
            Self::from_le(b).le_bytes() == b,
    ;
}

impl LeWord for u32 {
    open spec fn spec_width() -> nat {
        4
    }

    open spec fn le_bytes(self) -> Seq<u8> {
        le_bytes_u32(self)
    }

    open spec fn from_le(b: Seq<u8>) -> u32 {
        u32_of_le(b[0], b[1], b[2], b[3])
    }

    fn width() -> (r: usize) {
        4
    }

    fn read_le(bytes: &[u8], start: usize) -> (r: u32) {
        (bytes[start] as u32) | ((bytes[start + 1] as u32) << 8u32) | ((bytes[start + 2] as u32)
            << 16u32) | ((bytes[start + 3] as u32) << 24u32)
    }

    fn write_le(self, out: &mut Vec<u8>) {
        out.push((self & 0xff) as u8);
        out.push(((self >> 8u32) & 0xff) as u8);
        out.push(((self >> 16u32) & 0xff) as u8);
        out.push(((self >> 24u32) & 0xff) as u8);
        assert(final(out)@ =~= old(out)@ + self.le_bytes());
    }

    proof fn lemma_width() {
    }

    proof fn lemma_from_to(x: u32) {
        assert(u32_of_le(
            (x & 0xff) as u8,
            ((x >> 8u32) & 0xff) as u8,
            ((x >> 16u32) & 0xff) as u8,
            ((x >> 24u32) & 0xff) as u8,
        ) == x) by (bit_vector);
    }

    proof fn lemma_to_from(b: Seq<u8>) {
        let (b0, b1, b2, b3) = (b[0], b[1], b[2], b[3]);
        let x = u32_of_le(b0, b1, b2, b3);
        assert((x & 0xff) as u8 == b0 && ((x >> 8u32) & 0xff) as u8 == b1 && ((x >> 16u32)
            & 0xff) as u8 == b2 && ((x >> 24u32) & 0xff) as u8 == b3) by (bit_vector)
            requires
                x == u32_of_le(b0, b1, b2, b3),
        ;
        assert(le_bytes_u32(x) =~= b);
    }
}

impl LeWord for u64 {
    open spec fn spec_width() -> nat {
        8
    }

    open spec fn le_bytes(self) -> Seq<u8> {
        le_bytes_u64(self)
    }

    open spec fn from_le(b: Seq<u8>) -> u64 {
        u64_of_le(b[0], b[1], b[2], b[3], b[4], b[5], b[6], b[7])
    }

    fn width() -> (r: usize) {
        8
    }

    fn read_le(bytes: &[u8], start: usize) -> (r: u64) {
        (bytes[start] as u64) | ((bytes[start + 1] as u64) << 8u64) | ((bytes[start + 2] as u64)
            << 16u64) | ((bytes[start + 3] as u64) << 24u64) | ((bytes[start + 4] as u64)
            << 32u64) | ((bytes[start + 5] as u64) << 40u64) | ((bytes[start + 6] as u64)
            << 48u64) | ((bytes[start + 7] as u64) << 56u64)
    }

    fn write_le(self, out: &mut Vec<u8>) {
        out.push((self & 0xff) as u8);
        out.push(((self >> 8u64) & 0xff) as u8);
        out.push(((self >> 16u64) & 0xff) as u8);
        out.push(((self >> 24u64) & 0xff) as u8);
        out.push(((self >> 32u64) & 0xff) as u8);
        out.push(((self >> 40u64) & 0xff) as u8);
        out.push(((self >> 48u64) & 0xff) as u8);
        out.push(((self >> 56u64) & 0xff) as u8);
        assert(final(out)@ =~= old(out)@ + self.le_bytes());
    }

    proof fn lemma_width() {
    }

    proof fn lemma_from_to(x: u64) {
        assert(u64_of_le(
            (x & 0xff) as u8,
            ((x >> 8u64) & 0xff) as u8,
            ((x >> 16u64) & 0xff) as u8,
            ((x >> 24u64) & 0xff) as u8,
            ((x >> 32u64) & 0xff) as u8,
            ((x >> 40u64) & 0xff) as u8,
            ((x >> 48u64) & 0xff) as u8,
            ((x >> 56u64) & 0xff) as u8,
        ) == x) by (bit_vector);
    }

    proof fn lemma_to_from(b: Seq<u8>) {
        let (b0, b1, b2, b3, b4, b5, b6, b7) = (b[0], b[1], b[2], b[3], b[4], b[5], b[6], b[7]);
        let x = u64_of_le(b0, b1, b2, b3, b4, b5, b6, b7);
        assert((x & 0xff) as u8 == b0 && ((x >> 8u64) & 0xff) as u8 == b1 && ((x >> 16u64)
            & 0xff) as u8 == b2 && ((x >> 24u64) & 0xff) as u8 == b3 && ((x >> 32u64) & 0xff) as u8
            == b4 && ((x >> 40u64) & 0xff) as u8 == b5 && ((x >> 48u64) & 0xff) as u8 == b6 && ((x
            >> 56u64) & 0xff) as u8 == b7) by (bit_vector)
            requires
                x == u64_of_le(b0, b1, b2, b3, b4, b5, b6, b7),
        ;
        assert(le_bytes_u64(x) =~= b);
    }
}

} // verus!
