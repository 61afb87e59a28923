//! Properties that relate decoding and encoding.
use vstd::prelude::*;

use vstd::arithmetic::div_mod::{
    lemma_div_by_multiple, lemma_fundamental_div_mod, lemma_mod_multiples_basic,
};

use crate::binary::{
    chunk, decoded_complex, decoded_real, encoded_complex, encoded_real, lemma_encoded_complex_len,
    lemma_encoded_real_len, Complex,
};
use crate::word::LeWord;

verus! {

/// Removing one element of size `d` from a nonempty buffer that holds whole
/// elements leaves whole elements, one fewer.
proof fn lemma_one_fewer(n: int, d: int)
    requires
        0 < d,
        0 < n,
        n % d == 0,
    ensures
        d <= n,
        (n - d) % d == 0,
        (n - d) / d == n / d - 1,
        d * (n / d - 1) == n - d,
{
    lemma_fundamental_div_mod(n, d);
    let q = n / d;
    assert(q >= 1) by (nonlinear_arith)
        requires
            n == d * q,
            0 < d,
            0 < n,
    ;
    assert(n - d == (q - 1) * d) by (nonlinear_arith)
        requires
            n == d * q,
    ;
    lemma_div_by_multiple(q - 1, d);
    lemma_mod_multiples_basic(q - 1, d);
    assert(d <= n) by (nonlinear_arith)
        requires
            n == d * q,
            q >= 1,
            d > 0,
    ;
}

/// Encoding what a buffer of whole words decodes to gives the buffer back,
/// byte for byte.
pub proof fn law_reencode_real<R: LeWord>(b: Seq<u8>)
    requires
        b.len() % R::spec_width() == 0,
    ensures
        encoded_real(decoded_real::<R>(b)) == b,
    decreases b.len(),
{
    R::lemma_width();
    let w = R::spec_width() as int;
    let n = b.len() as int;
    if n == 0 {
        assert(encoded_real(decoded_real::<R>(b)) =~= b);
    } else {
        lemma_one_fewer(n, w);
        let b1 = b.subrange(0, n - w);
        law_reencode_real::<R>(b1);
        let d = decoded_real::<R>(b);
        assert forall|i: int| 0 <= i < d.len() - 1 implies chunk(b1, w as nat, i) == #[trigger] chunk(
            b,
            w as nat,
            i,
        ) by {
            assert(w * i + w <= n - w) by (nonlinear_arith)
                requires
                    0 <= i < n / w - 1,
                    w * (n / w - 1) == n - w,
                    w > 0,
            ;
            assert(0 <= w * i) by (nonlinear_arith)
                requires
                    0 <= i,
                    w > 0,
            ;
            assert(chunk(b1, w as nat, i) =~= chunk(b, w as nat, i));
        }
        assert(d.drop_last() =~= decoded_real::<R>(b1));
        R::lemma_to_from(chunk(b, w as nat, n / w - 1));
        assert(encoded_real(d) =~= b);
    }
}

/// Decoding the encoding of a sequence of values gives the sequence back.
pub proof fn law_redecode_real<R: LeWord>(v: Seq<R>)
    ensures
        decoded_real::<R>(encoded_real(v)) == v,
    decreases v.len(),
{
    R::lemma_width();
    let w = R::spec_width() as int;
    let e = encoded_real(v);
    lemma_encoded_real_len(v);
    lemma_div_by_multiple(v.len() as int, w);
    if v.len() > 0 {
        let v1 = v.drop_last();
        let e1 = encoded_real(v1);
        law_redecode_real::<R>(v1);
        lemma_encoded_real_len(v1);
        R::lemma_from_to(v.last());
        assert(e1.len() == (v.len() - 1) * w);
        assert forall|i: int| 0 <= i < v.len() implies decoded_real::<R>(e)[i] == v[i] by {
            if i < v.len() - 1 {
                assert(w * i + w <= e1.len()) by (nonlinear_arith)
                    requires
                        0 <= i < v.len() - 1,
                        e1.len() == (v.len() - 1) * w,
                        w > 0,
                ;
                assert(0 <= w * i) by (nonlinear_arith)
                    requires
                        0 <= i,
                        w > 0,
                ;
                assert(chunk(e, w as nat, i) =~= chunk(e1, w as nat, i));
                lemma_div_by_multiple(v1.len() as int, w);
                assert(decoded_real::<R>(e1)[i] == v1[i]);
            } else {
                assert(w * i == e1.len()) by (nonlinear_arith)
                    requires
                        i == v.len() - 1,
                        e1.len() == (v.len() - 1) * w,
                ;
                assert(chunk(e, w as nat, i) =~= v.last().le_bytes());
            }
        }
    }
    assert(decoded_real::<R>(e) =~= v);
}

/// Encoding what a buffer of whole word pairs decodes to gives the buffer
/// back, byte for byte.
pub proof fn law_reencode_complex<R: LeWord>(b: Seq<u8>)
    requires
        b.len() % (2 * R::spec_width()) == 0,
    ensures
        encoded_complex(decoded_complex::<R>(b)) == b,
    decreases b.len(),
{
    R::lemma_width();
    let w = R::spec_width() as int;
    let n = b.len() as int;
    if n == 0 {
        assert(encoded_complex(decoded_complex::<R>(b)) =~= b);
    } else {
        lemma_one_fewer(n, 2 * w);
        let q = n / (2 * w);
        let b1 = b.subrange(0, n - 2 * w);
        law_reencode_complex::<R>(b1);
        let d = decoded_complex::<R>(b);
        assert forall|i: int| 0 <= i < d.len() - 1 implies #[trigger] d[i]
            == decoded_complex::<R>(b1)[i] by {
            assert(w * (2 * i + 1) + w <= n - 2 * w) by (nonlinear_arith)
                requires
                    0 <= i < q - 1,
                    2 * w * (q - 1) == n - 2 * w,
                    w > 0,
            ;
            assert(0 <= w * (2 * i) && w * (2 * i) + w == w * (2 * i + 1)) by (nonlinear_arith)
                requires
                    0 <= i,
                    w > 0,
            ;
            assert(chunk(b1, w as nat, 2 * i) =~= chunk(b, w as nat, 2 * i));
            assert(chunk(b1, w as nat, 2 * i + 1) =~= chunk(b, w as nat, 2 * i + 1));
        }
        assert(d.drop_last() =~= decoded_complex::<R>(b1));
        assert(w * (2 * (q - 1)) == n - 2 * w && w * (2 * (q - 1) + 1) == n - w) by (
        nonlinear_arith)
            requires
                2 * w * (q - 1) == n - 2 * w,
        ;
        R::lemma_to_from(chunk(b, w as nat, 2 * (q - 1)));
        R::lemma_to_from(chunk(b, w as nat, 2 * (q - 1) + 1));
        assert(encoded_complex(d) =~= b);
    }
}

/// Decoding the encoding of a sequence of complex values gives the sequence
/// back.
pub proof fn law_redecode_complex<R: LeWord>(v: Seq<Complex<R>>)
    ensures
        decoded_complex::<R>(encoded_complex(v)) == v,
    decreases v.len(),
{
    R::lemma_width();
    let w = R::spec_width() as int;
    let e = encoded_complex(v);
    lemma_encoded_complex_len(v);
    lemma_div_by_multiple(v.len() as int, 2 * w);
    if v.len() > 0 {
        let v1 = v.drop_last();
        let e1 = encoded_complex(v1);
        law_redecode_complex::<R>(v1);
        lemma_encoded_complex_len(v1);
        lemma_div_by_multiple(v1.len() as int, 2 * w);
        R::lemma_from_to(v.last().re);
        R::lemma_from_to(v.last().im);
        assert(e1.len() == (v.len() - 1) * (2 * w));
        assert forall|i: int| 0 <= i < v.len() implies decoded_complex::<R>(e)[i] == v[i] by {
            assert(0 <= w * (2 * i) && w * (2 * i) + w == w * (2 * i + 1)) by (nonlinear_arith)
                requires
                    0 <= i,
                    w > 0,
            ;
            if i < v.len() - 1 {
                assert(w * (2 * i + 1) + w <= e1.len()) by (nonlinear_arith)
                    requires
                        0 <= i < v.len() - 1,
                        e1.len() == (v.len() - 1) * (2 * w),
                        w > 0,
                ;
                assert(chunk(e, w as nat, 2 * i) =~= chunk(e1, w as nat, 2 * i));
                assert(chunk(e, w as nat, 2 * i + 1) =~= chunk(e1, w as nat, 2 * i + 1));
                assert(decoded_complex::<R>(e1)[i] == v1[i]);
            } else {
                assert(w * (2 * i) == e1.len()) by (nonlinear_arith)
                    requires
                        i == v.len() - 1,
                        e1.len() == (v.len() - 1) * (2 * w),
                ;
                assert(chunk(e, w as nat, 2 * i) =~= v.last().re.le_bytes());
                assert(chunk(e, w as nat, 2 * i + 1) =~= v.last().im.le_bytes());
            }
        }
    }
    assert(decoded_complex::<R>(e) =~= v);
}

/// A buffer with no bytes decodes to no values, and no values encode to a
/// buffer with no bytes; the same holds of complex values.
pub proof fn law_empty<R: LeWord>()
    ensures
        decoded_real::<R>(Seq::empty()) == Seq::<R>::empty(),
        encoded_real(Seq::<R>::empty()) == Seq::<u8>::empty(),
        decoded_complex::<R>(Seq::empty()) == Seq::<Complex<R>>::empty(),
        encoded_complex(Seq::<Complex<R>>::empty()) == Seq::<u8>::empty(),
{
    R::lemma_width();
    assert(decoded_real::<R>(Seq::empty()) =~= Seq::<R>::empty());
    assert(decoded_complex::<R>(Seq::empty()) =~= Seq::<Complex<R>>::empty());
}

} // verus!
