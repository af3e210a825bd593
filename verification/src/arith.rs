//! A small arithmetic helper shared by the shift ciphers.

use vstd::prelude::*;
use vstd::arithmetic::div_mod::{lemma_fundamental_div_mod, lemma_fundamental_div_mod_converse,
    lemma_mod_multiples_vanish};

verus! {

/// The remainder of `v` modulo `m` in the mathematical (Euclidean) sense:
/// always in `0 .. m`, whatever the sign of `v`.
pub fn rem_euclid_i64(v: i64, m: i64) -> (r: i64)
    requires
        1 <= m,
        i64::MIN < v,
    ensures
        r == (v as int) % (m as int),
        0 <= r < m,
{
    if v >= 0 {
        let r = v % m;
        proof {
            assert(r as int == (v as int) % (m as int));
        }
        r
    } else {
        let w = -v;
        let s = w % m;
        proof {
            assert(s as int == (w as int) % (m as int));
        }
        if s == 0 {
            proof {
                lemma_fundamental_div_mod(w as int, m as int);
                let q = (w as int) / (m as int);
                assert(v as int == (m as int) * (-q) + 0) by (nonlinear_arith)
                    requires
                        w as int == (m as int) * q + 0,
                        v as int == -(w as int),
                ;
                lemma_mod_multiples_vanish(-q, 0, m as int);
            }
            0
        } else {
            proof {
                lemma_fundamental_div_mod(w as int, m as int);
                let q = (w as int) / (m as int);
                assert(v as int == (m as int) * (-q - 1) + ((m as int) - (s as int)))
                    by (nonlinear_arith)
                    requires
                        w as int == (m as int) * q + (s as int),
                        v as int == -(w as int),
                ;
                lemma_fundamental_div_mod_converse(v as int, m as int, -q - 1, m - s);
            }
            m - s
        }
    }
}

} // verus!
