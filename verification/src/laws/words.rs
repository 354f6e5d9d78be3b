//! What words are, bit by bit.

use crate::word;
use vstd::prelude::*;

verus! {

/// A word is no number where the bits of its exponent are all set, and some bit of its fraction is; it
/// is finite where some bit of its exponent is clear.
pub proof fn exponents_tell_numbers(w: u64)
    ensures
        word::nan(w) <==> w & 0x7ff0_0000_0000_0000 == 0x7ff0_0000_0000_0000 && w
            & 0x000f_ffff_ffff_ffff != 0,
        word::finite(w) <==> w & 0x7ff0_0000_0000_0000 != 0x7ff0_0000_0000_0000,
{
    let m: u64 = word::absolute_of(w);
    assert(m == w & 0x7fff_ffff_ffff_ffff) by {
        signs_are_one_bit(w);
    }
    assert((w & 0x7fff_ffff_ffff_ffff > 0x7ff0_0000_0000_0000u64) <==> (w & 0x7ff0_0000_0000_0000
        == 0x7ff0_0000_0000_0000 && w & 0x000f_ffff_ffff_ffff != 0)) by (bit_vector);
    assert((w & 0x7fff_ffff_ffff_ffff < 0x7ff0_0000_0000_0000u64) <==> w & 0x7ff0_0000_0000_0000
        != 0x7ff0_0000_0000_0000) by (bit_vector);
    assert(word::magnitude(w) == m);
}

/// The opposite of a number differs from it in the top bit alone, and the absolute value has that bit
/// clear.
pub proof fn signs_are_one_bit(w: u64)
    ensures
        word::negated(w) == w ^ 0x8000_0000_0000_0000,
        word::absolute_of(w) == w & 0x7fff_ffff_ffff_ffff,
{
    if w >= word::SIGN {
        let r: u64 = (w - 0x8000_0000_0000_0000) as u64;
        assert(r == w ^ 0x8000_0000_0000_0000 && r == w & 0x7fff_ffff_ffff_ffff) by (bit_vector)
            requires
                w >= 0x8000_0000_0000_0000,
                r == w - 0x8000_0000_0000_0000,
        ;
    } else {
        let r: u64 = (w + 0x8000_0000_0000_0000) as u64;
        assert(r == w ^ 0x8000_0000_0000_0000 && w == w & 0x7fff_ffff_ffff_ffff) by (bit_vector)
            requires
                w < 0x8000_0000_0000_0000,
                r == w + 0x8000_0000_0000_0000,
        ;
    }
}

/// Numbers without a sign compare as their words do; opposites compare the other way round; and a
/// number with a sign is below one without, unless both are zero.
pub proof fn numbers_compare_by_their_words(a: u64, b: u64)
    requires
        !word::nan(a),
        !word::nan(b),
    ensures
        a < word::SIGN && b < word::SIGN ==> (word::below(a, b) <==> a < b) && (word::same(a, b)
            <==> a == b),
        word::below(word::negated(a), word::negated(b)) <==> word::below(b, a),
        word::same(word::negated(a), word::negated(b)) <==> word::same(a, b),
        a >= word::SIGN && b < word::SIGN && !(a == word::SIGN && b == word::ZERO) ==> word::below(
            a,
            b,
        ),
        word::same(word::SIGN, word::ZERO),
{
}

/// What is no number compares with nothing, itself included.
pub proof fn what_is_no_number_compares_with_nothing(a: u64, b: u64)
    requires
        word::nan(a),
    ensures
        !word::below(a, b) && !word::below(b, a) && !word::same(a, b) && !word::same(b, a),
{
}

} // verus!
