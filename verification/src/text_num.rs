//! Decimal text read as machine integers, with an exact account of which
//! strings parse.

use vstd::prelude::*;

verus! {

/// Whether a character is a decimal digit.
pub open spec fn is_digit(c: char) -> bool {
    48 <= c as u32 <= 57
}

/// Whether a string is a nonempty run of decimal digits.
pub open spec fn is_udec(s: Seq<char>) -> bool {
    s.len() > 0 && forall|i: int| 0 <= i < s.len() ==> is_digit(#[trigger] s[i])
}

/// The number a digit run denotes.
pub open spec fn dec_uval(s: Seq<char>) -> nat
    decreases s.len(),
{
    if s.len() == 0 {
        0
    } else {
        dec_uval(s.drop_last()) * 10 + (s.last() as u32 - 48) as nat
    }
}

/// Whether a string is a digit run with an optional sign in front.
pub open spec fn is_sdec(s: Seq<char>) -> bool {
    if s.len() > 0 && (s[0] == '-' || s[0] == '+') {
        is_udec(s.drop_first())
    } else {
        is_udec(s)
    }
}

/// The signed number such a string denotes.
pub open spec fn dec_sval(s: Seq<char>) -> int {
    if s.len() > 0 && s[0] == '-' {
        -(dec_uval(s.drop_first()) as int)
    } else if s.len() > 0 && s[0] == '+' {
        dec_uval(s.drop_first()) as int
    } else {
        dec_uval(s) as int
    }
}

/// Parses a nonempty run of decimal digits as a `u64`, refusing any other
/// text and any value that overflows.
pub fn parse_dec_u64(s: &str) -> (r: Option<u64>)
    ensures
        r is Some <==> is_udec(s@) && dec_uval(s@) <= u64::MAX,
        r is Some ==> r->Some_0 as nat == dec_uval(s@),
{
    let len = s.unicode_len();
    if len == 0 {
        return None;
    }
    let mut acc: u64 = 0;
    let mut i: usize = 0;
    proof {
        assert(s@.take(0) =~= Seq::<char>::empty());
    }
    while i < len
        invariant
            i <= len,
            len == s@.len(),
            forall|j: int| 0 <= j < i ==> is_digit(#[trigger] s@[j]),
            acc as nat == dec_uval(s@.take(i as int)),
        decreases len - i,
    {
        let c = s.get_char(i);
        let cv = c as u32;
        if cv < 48 || cv > 57 {
            return None;
        }
        let d: u64 = (cv - 48) as u64;
        if acc > (u64::MAX - d) / 10 {
            proof {
                lemma_take_grows(s@, i as int);
                lemma_uval_monotone(s@, i as int + 1);
            }
            return None;
        }
        acc = acc * 10 + d;
        proof {
            lemma_take_grows(s@, i as int);
        }
        i += 1;
    }
    proof {
        assert(s@.take(len as int) =~= s@);
    }
    Some(acc)
}

/// Extending a digit prefix by one character multiplies by ten and adds the
/// digit.
proof fn lemma_take_grows(s: Seq<char>, i: int)
    requires
        0 <= i < s.len(),
    ensures
        dec_uval(s.take(i + 1)) == dec_uval(s.take(i)) * 10 + ((s[i] as u32 - 48) as nat),
{
    assert(s.take(i + 1).drop_last() =~= s.take(i));
    assert(s.take(i + 1).last() == s[i]);
}

/// A longer digit run never denotes a smaller number.
proof fn lemma_uval_monotone(s: Seq<char>, k: int)
    requires
        0 <= k <= s.len(),
    ensures
        dec_uval(s.take(k)) <= dec_uval(s),
    decreases s.len() - k,
{
    if k < s.len() {
        lemma_take_grows(s, k);
        lemma_uval_monotone(s, k + 1);
    } else {
        assert(s.take(k) =~= s);
    }
}

/// Parses an optionally signed run of decimal digits as an `i64`-ranged
/// integer, returned as sign and magnitude.
pub fn parse_dec_i64(s: &str) -> (r: Option<(bool, u64)>)
    ensures
        r is Some <==> is_sdec(s@) && -0x8000_0000_0000_0000 <= dec_sval(s@)
            <= 0x7fff_ffff_ffff_ffff,
        r is Some ==> {
            let (neg, mag) = r->Some_0;
            dec_sval(s@) == if neg {
                -(mag as int)
            } else {
                mag as int
            }
        },
{
    let len = s.unicode_len();
    if len == 0 {
        return None;
    }
    let c0 = s.get_char(0);
    if c0 == '-' {
        let rest = s.substring_char(1, len);
        proof {
            assert(rest@ =~= s@.drop_first());
        }
        match parse_dec_u64(rest) {
            Some(v) => {
                if v > 0x8000_0000_0000_0000 {
                    None
                } else {
                    Some((true, v))
                }
            },
            None => None,
        }
    } else if c0 == '+' {
        let rest = s.substring_char(1, len);
        proof {
            assert(rest@ =~= s@.drop_first());
        }
        match parse_dec_u64(rest) {
            Some(v) => {
                if v > 0x7fff_ffff_ffff_ffff {
                    None
                } else {
                    Some((false, v))
                }
            },
            None => None,
        }
    } else {
        match parse_dec_u64(s) {
            Some(v) => {
                if v > 0x7fff_ffff_ffff_ffff {
                    None
                } else {
                    Some((false, v))
                }
            },
            None => None,
        }
    }
}

} // verus!
