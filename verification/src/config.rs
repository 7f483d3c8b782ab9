//! Resolving the worker-pool size from configuration: a decimal setting
//! overrides the built-in default; an absent or unparsable one falls back
//! to it.

use vstd::prelude::*;
use crate::codec::{all_digits, dec_val, is_digit, lemma_dec_val_prefix};

verus! {

/// The pool size used when no valid setting overrides it.
pub const DEFAULT_WORKERS: usize = 5;

/// The digits of a decimal setting: the whole string, less one optional
/// leading plus sign.
pub open spec fn digits_part(s: Seq<u8>) -> Seq<u8> {
    if s.len() > 0 && s[0] == 43 {
        s.skip(1)
    } else {
        s
    }
}

/// True when a setting is a decimal number that fits the machine: at least
/// one digit, nothing but digits after an optional plus sign, and a value
/// no greater than `usize::MAX`.
pub open spec fn parses_as_usize(s: Seq<u8>) -> bool {
    &&& digits_part(s).len() > 0
    &&& all_digits(digits_part(s))
    &&& dec_val(digits_part(s)) <= usize::MAX
}

/// Resolves the worker count: the setting's decimal value where the
/// setting is present and parses, the default otherwise.
pub fn resolve_worker_count(setting: Option<&Vec<u8>>) -> (r: usize)
    ensures
        match setting {
            None => r == DEFAULT_WORKERS,
            Some(s) => if parses_as_usize(s@) {
                r == dec_val(digits_part(s@))
            } else {
                r == DEFAULT_WORKERS
            },
        },
{
    let s = match setting {
        Some(s) => s,
        None => return DEFAULT_WORKERS,
    };
    let start: usize = if s.len() > 0 && s[0] == 43 {
        1
    } else {
        0
    };
    assert(digits_part(s@) =~= s@.skip(start as int));
    if s.len() == start {
        return DEFAULT_WORKERS;
    }
    let mut acc: usize = 0;
    let mut i: usize = start;
    while i < s.len()
        invariant
            setting == Some(s),
            start <= i <= s@.len(),
            digits_part(s@) =~= s@.skip(start as int),
            all_digits(s@.subrange(start as int, i as int)),
            acc == dec_val(s@.subrange(start as int, i as int)),
        decreases s@.len() - i,
    {
        let b = s[i];
        let ghost prefix = s@.subrange(start as int, i as int);
        let ghost extended = s@.subrange(start as int, i as int + 1);
        proof {
            assert(extended.drop_last() =~= prefix);
            assert(extended.last() == s@[i as int]);
            assert(extended =~= digits_part(s@).take(i + 1 - start));
        }
        if b < 48 || b > 57 {
            proof {
                assert(digits_part(s@)[i - start] == b);
                assert(!all_digits(digits_part(s@)));
            }
            return DEFAULT_WORKERS;
        }
        let d = (b - 48) as usize;
        if acc > usize::MAX / 10 || (acc == usize::MAX / 10 && d > usize::MAX % 10) {
            proof {
                assert(usize::MAX == usize::MAX / 10 * 10 + usize::MAX % 10);
                assert(dec_val(extended) == acc * 10 + d);
                assert(dec_val(extended) > usize::MAX);
                lemma_dec_val_prefix(digits_part(s@), i + 1 - start);
                assert(dec_val(digits_part(s@)) > usize::MAX);
            }
            return DEFAULT_WORKERS;
        }
        proof {
            assert(usize::MAX == usize::MAX / 10 * 10 + usize::MAX % 10);
            assert(acc * 10 + d <= usize::MAX);
        }
        acc = acc * 10 + d;
        i += 1;
        proof {
            assert(is_digit(b));
            assert(s@.subrange(start as int, i as int) =~= extended);
        }
    }
    proof {
        assert(s@.subrange(start as int, i as int) =~= s@.skip(start as int));
    }
    acc
}

} // verus!
