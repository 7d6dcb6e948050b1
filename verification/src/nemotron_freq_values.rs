//! What the cross-encoder's rotary frequencies are, in three bands of wavelengths.

use crate::graph::{binary, dec, leaf, literal, ternary, unary, Kind, Num, Term};
use crate::kalm_values::{lemma_in_place, map_at, zip_at};
use crate::links::at1;
use crate::meaning::{in_range, lemma_value0, lemma_value2, lemma_value3, value, Arithmetic, Val};
use crate::nemotron::{base_freqs_term, llama3_freqs_term};
use crate::shapes::{lemma_stretched_into, lemma_stretched_scalar};
use crate::values::number_at;
use crate::windows::{is_zip, lemma_result2, lemma_result3};
use vstd::prelude::*;

verus! {

/// An element-wise operation on a number and an array with one axis.
proof fn number_first_at<E>(
    ar: Arithmetic<E>,
    env: spec_fn(Kind) -> Val<E>,
    kind: Kind,
    num: Num,
    t: Term,
    n: int,
)
    requires
        is_zip(kind),
        value(ar, env, t).shape == seq![n],
    ensures
        ({
            let y = value(ar, env, binary(kind, leaf(Kind::Const(num)), t));
            &&& y.shape == seq![n]
            &&& forall|i: int|
                0 <= i < n ==> #[trigger] at1(y, i) == (ar.bin)(
                    kind,
                    (ar.num)(num),
                    at1(value(ar, env, t), i),
                )
        }),
{
    let c = leaf(Kind::Const(num));
    let s = seq![n];
    number_at(ar, env, num);
    lemma_value2(ar, env, kind, c, t);
    lemma_result2(ar, env, kind, value(ar, env, c), value(ar, env, t));
    lemma_stretched_scalar(s);
    let y = value(ar, env, binary(kind, c, t));
    assert forall|i: int| 0 <= i < n implies #[trigger] at1(y, i) == (ar.bin)(
        kind,
        (ar.num)(num),
        at1(value(ar, env, t), i),
    ) by {
        lemma_in_place(seq![i], s);
    }
}

/// An element-wise operation on an array with one axis and a number, or another such array.
proof fn pair_at<E>(
    ar: Arithmetic<E>,
    env: spec_fn(Kind) -> Val<E>,
    kind: Kind,
    t: Term,
    u: Term,
    n: int,
)
    requires
        is_zip(kind),
        value(ar, env, t).shape == seq![n],
        if u.kind is Const {
            u == leaf(u.kind)
        } else {
            value(ar, env, u).shape == seq![n]
        },
    ensures
        ({
            let y = value(ar, env, binary(kind, t, u));
            &&& y.shape == seq![n]
            &&& forall|i: int|
                0 <= i < n ==> #[trigger] at1(y, i) == (ar.bin)(
                    kind,
                    at1(value(ar, env, t), i),
                    if u.kind is Const {
                        (ar.num)(u.kind->Const_0)
                    } else {
                        at1(value(ar, env, u), i)
                    },
                )
        }),
{
    if u.kind is Const {
        number_at(ar, env, u.kind->Const_0);
        assert(Seq::<int>::empty().len() != seq![n].len());
    }
    zip_at(ar, env, kind, t, u, seq![n]);
    let y = value(ar, env, binary(kind, t, u));
    assert forall|i: int| 0 <= i < n implies #[trigger] at1(y, i) == (ar.bin)(
        kind,
        at1(value(ar, env, t), i),
        if u.kind is Const {
            (ar.num)(u.kind->Const_0)
        } else {
            at1(value(ar, env, u), i)
        },
    ) by {
        assert(in_range(seq![i], seq![n]));
    }
}

/// A choice between two arrays with one axis.
proof fn choice_at<E>(
    ar: Arithmetic<E>,
    env: spec_fn(Kind) -> Val<E>,
    c: Term,
    t: Term,
    u: Term,
    n: int,
)
    requires
        value(ar, env, c).shape == seq![n],
        value(ar, env, t).shape == seq![n],
        value(ar, env, u).shape == seq![n],
    ensures
        ({
            let y = value(ar, env, ternary(Kind::Which, c, t, u));
            &&& y.shape == seq![n]
            &&& forall|i: int|
                0 <= i < n ==> #[trigger] at1(y, i) == if (ar.holds)(at1(value(ar, env, c), i)) {
                    at1(value(ar, env, t), i)
                } else {
                    at1(value(ar, env, u), i)
                }
        }),
{
    let s = seq![n];
    lemma_value3(ar, env, Kind::Which, c, t, u);
    lemma_result3(
        ar,
        env,
        Kind::Which,
        value(ar, env, c),
        value(ar, env, t),
        value(ar, env, u),
    );
    lemma_stretched_into(s, s);
    let y = value(ar, env, ternary(Kind::Which, c, t, u));
    assert forall|i: int| 0 <= i < n implies #[trigger] at1(y, i) == if (ar.holds)(
        at1(value(ar, env, c), i),
    ) {
        at1(value(ar, env, t), i)
    } else {
        at1(value(ar, env, u), i)
    } by {
        lemma_in_place(seq![i], s);
    }
}

/// The rotary frequencies of a head of sixty-four, in three bands. Frequency `i` is
/// 500000 to the power of `2 i / 64`, and its wavelength two pi times that. A wavelength
/// of more than 8192 is stretched thirty-two times; one of no more than 2048 is kept;
/// between the two the frequency is divided by `(1 - s) / 32 + s`, where `s` is a third of
/// how many wavelengths more than one go into 8192.
pub proof fn law_frequencies_come_in_three_bands<E>(
    ar: Arithmetic<E>,
    env: spec_fn(Kind) -> Val<E>,
    i: int,
)
    requires
        0 <= i < 32,
        forall|a: E, b: E| #[trigger]
            (ar.holds)((ar.bin)(Kind::And, a, b)) == ((ar.holds)(a) && (ar.holds)(b)),
    ensures
        value(ar, env, llama3_freqs_term()).shape == seq![32int],
        ({
            let n = |digits: int| (ar.num)(dec(digits, 0));
            let f = (ar.bin)(
                Kind::Power,
                n(500000),
                (ar.bin)(Kind::Multiply, (ar.whole)(i), (ar.num)(dec(3125, -5))),
            );
            let w = (ar.bin)(Kind::Multiply, f, (ar.num)(Num::TwoPi));
            let more = |x: int| (ar.holds)((ar.bin)(Kind::Greater, w, n(x)));
            let less = |x: int| (ar.holds)((ar.bin)(Kind::Less, w, n(x)));
            let periods = (ar.bin)(Kind::Multiply, (ar.un)(Kind::Reciprocal, w), n(8192));
            let s = (ar.bin)(Kind::Divide, (ar.bin)(Kind::Subtract, periods, n(1)), n(3));
            let d = (ar.bin)(
                Kind::Add,
                (ar.bin)(Kind::Divide, (ar.bin)(Kind::Subtract, n(1), s), n(32)),
                s,
            );
            let y = at1(value(ar, env, llama3_freqs_term()), i);
            &&& more(8192) && !less(8192) ==> y == (ar.bin)(Kind::Multiply, f, n(32))
            &&& !more(8192) && !more(2048) ==> y == f
            &&& !more(8192) && more(2048) && less(8192) ==> y == (ar.bin)(Kind::Divide, f, d)
            &&& !more(8192) && !less(8192) ==> y == f
        }),
{
    let num = |digits: int| literal(digits, 0);
    let k = Kind::Arange { stop: 32, step: 1 };
    lemma_value0(ar, env, k);
    let range = value(ar, env, leaf(k));
    assert((32 + 1 - 1) / 1int == 32);
    assert(range.shape =~= seq![32int]);
    let exponent = binary(Kind::Multiply, leaf(k), literal(3125, -5));
    pair_at(ar, env, Kind::Multiply, leaf(k), literal(3125, -5), 32);
    let base = base_freqs_term();
    number_first_at(ar, env, Kind::Power, dec(500000, 0), exponent, 32);
    let waves = binary(Kind::Multiply, base, leaf(Kind::Const(Num::TwoPi)));
    pair_at(ar, env, Kind::Multiply, base, leaf(Kind::Const(Num::TwoPi)), 32);
    let low = binary(Kind::Greater, waves, num(8192));
    pair_at(ar, env, Kind::Greater, waves, num(8192), 32);
    let long = binary(Kind::Multiply, base, num(32));
    pair_at(ar, env, Kind::Multiply, base, num(32), 32);
    let stretched = ternary(Kind::Which, low, long, base);
    choice_at(ar, env, low, long, base, 32);
    let (above, below) = (
        binary(Kind::Greater, waves, num(2048)),
        binary(Kind::Less, waves, num(8192)),
    );
    pair_at(ar, env, Kind::Greater, waves, num(2048), 32);
    pair_at(ar, env, Kind::Less, waves, num(8192), 32);
    let medium = binary(Kind::And, above, below);
    pair_at(ar, env, Kind::And, above, below, 32);
    let inverse = unary(Kind::Reciprocal, waves);
    map_at(ar, env, Kind::Reciprocal, waves);
    let periods = binary(Kind::Multiply, inverse, num(8192));
    pair_at(ar, env, Kind::Multiply, inverse, num(8192), 32);
    let beyond = binary(Kind::Subtract, periods, num(1));
    pair_at(ar, env, Kind::Subtract, periods, num(1), 32);
    let smooth = binary(Kind::Divide, beyond, num(3));
    pair_at(ar, env, Kind::Divide, beyond, num(3), 32);
    let rest = binary(Kind::Subtract, num(1), smooth);
    number_first_at(ar, env, Kind::Subtract, dec(1, 0), smooth, 32);
    let share = binary(Kind::Divide, rest, num(32));
    pair_at(ar, env, Kind::Divide, rest, num(32), 32);
    let denom = binary(Kind::Add, share, smooth);
    pair_at(ar, env, Kind::Add, share, smooth, 32);
    let between = binary(Kind::Divide, stretched, denom);
    pair_at(ar, env, Kind::Divide, stretched, denom, 32);
    choice_at(ar, env, medium, between, stretched, 32);
    assert(llama3_freqs_term() == ternary(Kind::Which, medium, between, stretched));
    assert(at1(range, i) == (ar.whole)(i));
    assert(at1(value(ar, env, inverse), i) == (ar.un)(
        Kind::Reciprocal,
        at1(value(ar, env, waves), i),
    ));
}

} // verus!
