use vstd::prelude::*;

use crate::word::LeWord;

verus! {

/// Why a buffer could not be decoded.
#[derive(Debug, PartialEq, Eq, Structural)]
pub enum ExtractError {
    /// The buffer length `actual` is not a multiple of the element size `div`.
    InvalidLength { div: usize, actual: usize },
}

/// A complex number as a pair of parts of one word type.
#[derive(Clone, Copy, Debug, PartialEq, Eq)]
pub struct Complex<R> {
    pub re: R,
    pub im: R,
}

impl<R> Complex<R> {
    /// The complex number with real part `re` and imaginary part `im`.
    pub fn new(re: R, im: R) -> (r: Complex<R>)
        ensures
            r.re == re,
            r.im == im,
    {
        Complex { re, im }
    }
}

/// The bytes that hold element `i` when elements are `w` bytes each.
pub open spec fn chunk(b: Seq<u8>, w: nat, i: int) -> Seq<u8> {
    b.subrange(w * i, w * i + w)
}

/// The values encoded, in order, by the consecutive words of `b`.
pub open spec fn decoded_real<R: LeWord>(b: Seq<u8>) -> Seq<R> {
    let w = R::spec_width();
    Seq::new(b.len() / w, |i: int| R::from_le(chunk(b, w, i)))
}

/// The concatenated encodings of the values of `v`, in order.
pub open spec fn encoded_real<R: LeWord>(v: Seq<R>) -> Seq<u8>
    decreases v.len(),
{
    if v.len() == 0 {
        Seq::empty()
    } else {
        encoded_real(v.drop_last()) + v.last().le_bytes()
    }
}

proof fn lemma_chunk_fits(n: int, w: int, i: int)
    requires
        0 < w,
        0 <= i < n / w,
    ensures
        w * i + w <= n,
        0 <= w * i,
{
    assert(w * i + w <= n) by (nonlinear_arith)
        requires
            0 < w,
            0 <= i < n / w,
    ;
    assert(0 <= w * i) by (nonlinear_arith)
        requires
            0 < w,
            0 <= i,
    ;
}

/// Decodes a buffer into the values held by its consecutive words.
///
/// Fails, before decoding anything, when the buffer length is not a multiple
/// of the word width; the error carries that width and the buffer length.
pub fn decode_real_vector<R: LeWord>(bytes: &[u8]) -> (r: Result<Vec<R>, ExtractError>)
    ensures
        match r {
            Ok(v) => bytes@.len() % R::spec_width() == 0 && v@ == decoded_real::<R>(bytes@)
                && v@.len() == bytes@.len() / R::spec_width(),
            Err(e) => bytes@.len() % R::spec_width() != 0 && e == ExtractError::InvalidLength {
                div: R::spec_width() as usize,
                actual: bytes@.len() as usize,
            },
        },
{
    let w = R::width();
    let nbytes = bytes.len();
    if nbytes % w != 0 {
        return Err(ExtractError::InvalidLength { div: w, actual: nbytes });
    }
    let arr_len = nbytes / w;
    let mut arr: Vec<R> = Vec::with_capacity(arr_len);
    let mut i: usize = 0;
    while i < arr_len
        invariant
            w as nat == R::spec_width(),
            1 <= w <= 8,
            nbytes == bytes@.len(),
            arr_len == nbytes / w,
            i <= arr_len,
            arr@.len() == i,
            forall|j: int| 0 <= j < i ==> arr@[j] == decoded_real::<R>(bytes@)[j],
        decreases arr_len - i,
    {
        proof {
            lemma_chunk_fits(nbytes as int, w as int, i as int);
        }
        let val = R::read_le(bytes, w * i);
        arr.push(val);
        i += 1;
    }
    assert(arr@ =~= decoded_real::<R>(bytes@));
    Ok(arr)
}

/// Encodes the values of `arr`, in order, as consecutive words.
pub fn encode_real_vector<R: LeWord>(arr: &[R]) -> (r: Vec<u8>)
    ensures
        r@ == encoded_real(arr@),
        r@.len() == arr@.len() * R::spec_width(),
{
    let w = R::width();
    let mut bytes: Vec<u8> = Vec::new();
    let mut i: usize = 0;
    while i < arr.len()
        invariant
            0 <= i <= arr@.len(),
            bytes@ == encoded_real(arr@.take(i as int)),
        decreases arr@.len() - i,
    {
        let el = arr[i];
        el.write_le(&mut bytes);
        assert(arr@.take(i + 1).drop_last() =~= arr@.take(i as int));
        i += 1;
    }
    assert(arr@.take(arr@.len() as int) =~= arr@);
    proof {
        lemma_encoded_real_len(arr@);
    }
    bytes
}

/// An encoding has one word per value.
pub proof fn lemma_encoded_real_len<R: LeWord>(v: Seq<R>)
    ensures
        encoded_real(v).len() == v.len() * R::spec_width(),
    decreases v.len(),
{
    if v.len() > 0 {
        lemma_encoded_real_len(v.drop_last());
        R::lemma_from_to(v.last());
        assert(v.len() * R::spec_width() == (v.len() - 1) * R::spec_width() + R::spec_width())
            by (nonlinear_arith);
    }
}

/// The complex values encoded, in order, by the consecutive pairs of words of
/// `b`: the first word of a pair is the real part, the second the imaginary.
pub open spec fn decoded_complex<R: LeWord>(b: Seq<u8>) -> Seq<Complex<R>> {
    let w = R::spec_width();
    Seq::new(
        b.len() / (2 * w),
        |i: int| Complex { re: R::from_le(chunk(b, w, 2 * i)), im: R::from_le(chunk(b, w, 2 * i + 1)) },
    )
}

/// The concatenated encodings of the values of `v`, in order, the real part
/// of each before its imaginary part.
pub open spec fn encoded_complex<R: LeWord>(v: Seq<Complex<R>>) -> Seq<u8>
    decreases v.len(),
{
    if v.len() == 0 {
        Seq::empty()
    } else {
        encoded_complex(v.drop_last()) + v.last().re.le_bytes() + v.last().im.le_bytes()
    }
}

proof fn lemma_pair_fits(n: int, w: int, i: int)
    requires
        0 < w,
        0 <= i < n / (2 * w),
    ensures
        w * (2 * i) + w <= n,
        w * (2 * i + 1) + w <= n,
        w * (2 * i + 1) == w * (2 * i) + w,
        0 <= w * (2 * i),
        2 * w * i == w * (2 * i),
{
    assert(w * (2 * i + 1) + w <= n) by (nonlinear_arith)
        requires
            0 < w,
            0 <= i < n / (2 * w),
    ;
    assert(w * (2 * i + 1) == w * (2 * i) + w) by (nonlinear_arith);
    assert(0 <= w * (2 * i)) by (nonlinear_arith)
        requires
            0 < w,
            0 <= i,
    ;
    assert(2 * w * i == w * (2 * i)) by (nonlinear_arith);
}

/// Decodes a buffer into complex values, each held by two consecutive words:
/// the real part, then the imaginary part.
///
/// Fails, before decoding anything, when the buffer length is not a multiple
/// of twice the word width; the error carries that divisor and the buffer
/// length.
pub fn decode_complex_vector<R: LeWord>(bytes: &[u8]) -> (r: Result<Vec<Complex<R>>, ExtractError>)
    ensures
        match r {
            Ok(v) => bytes@.len() % (2 * R::spec_width()) == 0 && v@ == decoded_complex::<R>(
                bytes@,
            ) && v@.len() == bytes@.len() / (2 * R::spec_width()),
            Err(e) => bytes@.len() % (2 * R::spec_width()) != 0 && e
                == ExtractError::InvalidLength {
                div: (2 * R::spec_width()) as usize,
                actual: bytes@.len() as usize,
            },
        },
{
    let w = R::width();
    let nbytes = bytes.len();
    if nbytes % (2 * w) != 0 {
        return Err(ExtractError::InvalidLength { div: 2 * w, actual: nbytes });
    }
    let arr_len = nbytes / (2 * w);
    let mut arr: Vec<Complex<R>> = Vec::with_capacity(arr_len);
    let mut i: usize = 0;
    while i < arr_len
        invariant
            w as nat == R::spec_width(),
            1 <= w <= 8,
            nbytes == bytes@.len(),
            arr_len as int == nbytes as int / (2 * w as int),
            i <= arr_len,
            arr@.len() == i,
            forall|j: int| 0 <= j < i ==> arr@[j] == decoded_complex::<R>(bytes@)[j],
        decreases arr_len - i,
    {
        proof {
            lemma_pair_fits(nbytes as int, w as int, i as int);
        }
        let start = 2 * w * i;
        let re = R::read_le(bytes, start);
        let im = R::read_le(bytes, start + w);
        arr.push(Complex::new(re, im));
        i += 1;
    }
    assert(arr@ =~= decoded_complex::<R>(bytes@));
    Ok(arr)
}

/// Encodes the complex values of `arr`, in order, each as its real part's
/// word followed by its imaginary part's word.
pub fn encode_complex_vector<R: LeWord>(arr: &[Complex<R>]) -> (r: Vec<u8>)
    ensures
        r@ == encoded_complex(arr@),
        r@.len() == arr@.len() * (2 * R::spec_width()),
{
    let mut bytes: Vec<u8> = Vec::new();
    let mut i: usize = 0;
    while i < arr.len()
        invariant
            0 <= i <= arr@.len(),
            bytes@ == encoded_complex(arr@.take(i as int)),
        decreases arr@.len() - i,
    {
        let el = arr[i];
        el.re.write_le(&mut bytes);
        el.im.write_le(&mut bytes);
        assert(arr@.take(i + 1).drop_last() =~= arr@.take(i as int));
        i += 1;
    }
    assert(arr@.take(arr@.len() as int) =~= arr@);
    proof {
        lemma_encoded_complex_len(arr@);
    }
    bytes
}

/// An encoding has two words per complex value.
pub proof fn lemma_encoded_complex_len<R: LeWord>(v: Seq<Complex<R>>)
    ensures
        encoded_complex(v).len() == v.len() * (2 * R::spec_width()),
    decreases v.len(),
{
    if v.len() > 0 {
        lemma_encoded_complex_len(v.drop_last());
        R::lemma_from_to(v.last().re);
        R::lemma_from_to(v.last().im);
        let w = R::spec_width();
        assert(v.len() * (2 * w) == (v.len() - 1) * (2 * w) + w + w) by (nonlinear_arith);
    }
}

} // verus!
