//! Decimal numerals: the canonical digit string of a number, its value,
//! and proofs that the two are inverse to one another. Auto-generated
//! task identifiers and every number in the persisted format are such
//! numerals.

use vstd::prelude::*;

verus! {

pub open spec fn is_digit(c: char) -> bool {
    '0' <= c && c <= '9'
}

/// The digit character for a value below ten.
pub open spec fn digit_char(d: nat) -> char {
    (((48 + d) as u8) as char)
}

/// The value of a digit character.
pub open spec fn digit_val(c: char) -> nat {
    (((c as u8) - 48) as nat)
}

/// The canonical decimal numeral of `n`: no sign, no leading zero
/// except for the numeral `0` itself.
pub open spec fn spec_dec(n: nat) -> Seq<char>
    decreases n,
{
    if n < 10 {
        seq![digit_char(n)]
    } else {
        spec_dec(n / 10).push(digit_char(n % 10))
    }
}

/// The number a digit string denotes.
pub open spec fn dec_val(s: Seq<char>) -> nat
    decreases s.len(),
{
    if s.len() == 0 {
        0
    } else {
        dec_val(s.drop_last()) * 10 + digit_val(s.last())
    }
}

pub proof fn lemma_dec_val_inverse(n: nat)
    ensures
        dec_val(spec_dec(n)) == n,
    decreases n,
{
    if n < 10 {
        assert(seq![digit_char(n)].drop_last() =~= Seq::<char>::empty());
        assert(dec_val(Seq::<char>::empty()) == 0);
        assert(dec_val(seq![digit_char(n)]) == digit_val(digit_char(n)));
        assert(digit_val(digit_char(n)) == n);
    } else {
        lemma_dec_val_inverse(n / 10);
        assert(spec_dec(n).drop_last() =~= spec_dec(n / 10));
        assert(digit_val(digit_char(n % 10)) == n % 10);
        assert(n == (n / 10) * 10 + n % 10) by (nonlinear_arith);
    }
}

/// Distinct numbers have distinct numerals.
pub proof fn lemma_dec_injective(a: nat, b: nat)
    requires
        spec_dec(a) == spec_dec(b),
    ensures
        a == b,
{
    lemma_dec_val_inverse(a);
    lemma_dec_val_inverse(b);
}

/// Shape of a canonical numeral: nonempty, digits throughout, and a
/// leading zero only for the numeral of zero.
pub proof fn lemma_dec_digits(n: nat)
    ensures
        spec_dec(n).len() >= 1,
        forall|i: int| 0 <= i < spec_dec(n).len() ==> is_digit(#[trigger] spec_dec(n)[i]),
        spec_dec(n)[0] == '0' ==> n == 0,
        n == 0 ==> spec_dec(n) =~= seq!['0'],
    decreases n,
{
    if n < 10 {
        assert(is_digit(digit_char(n)));
        assert(digit_char(n) == '0' ==> n == 0);
    } else {
        lemma_dec_digits(n / 10);
        assert(spec_dec(n)[0] == spec_dec(n / 10)[0]);
        assert(is_digit(digit_char(n % 10)));
        assert forall|i: int| 0 <= i < spec_dec(n).len() implies is_digit(
            #[trigger] spec_dec(n)[i],
        ) by {
            if i < spec_dec(n / 10).len() {
                assert(spec_dec(n)[i] == spec_dec(n / 10)[i]);
            } else {
                assert(spec_dec(n)[i] == digit_char(n % 10));
            }
        }
    }
}

/// The value of a digit string never shrinks as the string grows to the
/// right.
pub proof fn lemma_dec_val_prefix(s: Seq<char>, k: int)
    requires
        0 <= k <= s.len(),
    ensures
        dec_val(s.take(k)) <= dec_val(s),
    decreases s.len() - k,
{
    if k == s.len() {
        assert(s.take(k) =~= s);
    } else {
        assert(s.take(k + 1).drop_last() =~= s.take(k));
        assert(dec_val(s.take(k + 1)) == dec_val(s.take(k)) * 10 + digit_val(s.take(k + 1).last()));
        assert(dec_val(s.take(k)) <= dec_val(s.take(k)) * 10) by (nonlinear_arith);
        lemma_dec_val_prefix(s, k + 1);
    }
}

/// The canonical numeral, as characters.
pub fn u64_to_chars(n: u64) -> (r: Vec<char>)
    ensures
        r@ == spec_dec(n as nat),
    decreases n,
{
    if n < 10 {
        let d: u8 = 48 + (n as u8);
        let mut v: Vec<char> = Vec::new();
        v.push(d as char);
        proof {
            assert(v@ =~= seq![digit_char(n as nat)]);
        }
        v
    } else {
        let mut v = u64_to_chars(n / 10);
        let d: u8 = 48 + ((n % 10) as u8);
        v.push(d as char);
        proof {
            assert((n % 10) as u8 as nat == (n as nat) % 10);
            assert((n / 10) as nat == (n as nat) / 10);
        }
        v
    }
}

/// Holds when the text at `pos` is exactly the numeral of `n` followed
/// by something other than a digit (or by the end of the text).
pub open spec fn num_at(s: Seq<char>, pos: int, n: u64) -> bool {
    &&& 0 <= pos
    &&& pos + spec_dec(n as nat).len() <= s.len()
    &&& s.subrange(pos, pos + spec_dec(n as nat).len()) == spec_dec(n as nat)
    &&& (pos + spec_dec(n as nat).len() < s.len() ==> !is_digit(s[pos + spec_dec(n as nat).len()]))
}

/// Reads a canonical numeral: one or more digits, no leading zero, the
/// value held within `u64`. Returns the value and the position just
/// past the digits; any other shape yields `None`.
pub fn parse_u64(inp: &Vec<char>, pos: usize) -> (r: Option<(u64, usize)>)
    requires
        pos <= inp@.len(),
    ensures
        (match r {
            Some((m, p)) => {
                &&& pos < p <= inp@.len()
                &&& inp@.subrange(pos as int, p as int) == spec_dec(m as nat)
                &&& (p < inp@.len() ==> !is_digit(inp@[p as int]))
            },
            None => true,
        }),
        forall|n: u64|
            #[trigger] num_at(inp@, pos as int, n) ==> (match r {
                Some((m, p)) => m == n && p as int == pos + spec_dec(n as nat).len(),
                None => false,
            }),
{
    if pos >= inp.len() {
        proof {
            assert forall|n: u64| !num_at(inp@, pos as int, n) by {
                lemma_dec_digits(n as nat);
            }
        }
        return None;
    }
    let c0 = inp[pos];
    if !('0' <= c0 && c0 <= '9') {
        proof {
            assert forall|n: u64| !num_at(inp@, pos as int, n) by {
                lemma_dec_digits(n as nat);
                if num_at(inp@, pos as int, n) {
                    assert(inp@[pos as int] == spec_dec(n as nat)[0]);
                }
            }
        }
        return None;
    }
    if c0 == '0' {
        if pos + 1 < inp.len() {
            let c1 = inp[pos + 1];
            if '0' <= c1 && c1 <= '9' {
                proof {
                    assert forall|n: u64| !num_at(inp@, pos as int, n) by {
                        lemma_dec_digits(n as nat);
                        if num_at(inp@, pos as int, n) {
                            assert(inp@[pos as int] == spec_dec(n as nat)[0]);
                            assert(n == 0);
                            assert(spec_dec(n as nat).len() == 1);
                        }
                    }
                }
                return None;
            }
        }
        proof {
            assert(inp@.subrange(pos as int, pos + 1) =~= seq!['0']);
            assert(seq!['0'] =~= spec_dec(0nat)) by {
                lemma_dec_digits(0nat);
            }
            assert forall|n: u64| num_at(inp@, pos as int, n) implies n == 0 by {
                lemma_dec_digits(n as nat);
                assert(inp@[pos as int] == spec_dec(n as nat)[0]);
            }
        }
        return Some((0, pos + 1));
    }
    let mut acc: u64 = ((c0 as u8) - 48) as u64;
    let mut p: usize = pos + 1;
    proof {
        assert(inp@.subrange(pos as int, p as int) =~= seq![c0]);
        assert(seq![c0] =~= spec_dec(acc as nat));
        assert(acc >= 1);
    }
    loop
        invariant
            pos < p <= inp@.len(),
            1 <= acc,
            inp@.subrange(pos as int, p as int) == spec_dec(acc as nat),
        ensures
            pos < p <= inp@.len(),
            inp@.subrange(pos as int, p as int) == spec_dec(acc as nat),
            p < inp@.len() ==> !is_digit(inp@[p as int]),
        decreases inp@.len() - p,
    {
        if p >= inp.len() {
            break ;
        }
        let c = inp[p];
        if !('0' <= c && c <= '9') {
            break ;
        }
        let d: u64 = ((c as u8) - 48) as u64;
        proof {
            lemma_dec_digits(acc as nat);
        }
        if acc > (u64::MAX - d) / 10 {
            proof {
                overflow_contradiction(inp@, pos as int, p as int, acc, d);
            }
            return None;
        }
        let acc2: u64 = acc * 10 + d;
        proof {
            assert(acc2 as nat == (acc as nat) * 10 + (d as nat));
            assert((acc2 as nat) / 10 == acc as nat && (acc2 as nat) % 10 == d as nat) by (nonlinear_arith)
                requires
                    acc2 as nat == (acc as nat) * 10 + (d as nat),
                    d < 10,
            ;
            assert(acc2 >= 10);
            assert(spec_dec(acc2 as nat) =~= spec_dec(acc as nat).push(digit_char(d as nat)));
            assert(digit_char(d as nat) == c);
            assert(inp@.subrange(pos as int, p + 1 as int) =~= inp@.subrange(
                pos as int,
                p as int,
            ).push(c));
        }
        acc = acc2;
        p = p + 1;
    }
    proof {
        assert(p < inp@.len() ==> !is_digit(inp@[p as int]));
        assert forall|n: u64| num_at(inp@, pos as int, n) implies acc == n && p as int == pos
            + spec_dec(n as nat).len() by {
            same_run(inp@, pos as int, p as int, acc, n);
        }
    }
    Some((acc, p))
}

/// When the scan stopped on a digit it could not absorb without leaving
/// `u64`, no `u64` numeral can stand at `pos`.
proof fn overflow_contradiction(s: Seq<char>, pos: int, p: int, acc: u64, d: u64)
    requires
        0 <= pos < p <= s.len(),
        s.subrange(pos, p) == spec_dec(acc as nat),
        p < s.len(),
        is_digit(s[p]),
        d == digit_val(s[p]),
        d < 10,
        acc > (u64::MAX - d) / 10,
    ensures
        forall|n: u64| !num_at(s, pos, n),
{
    assert forall|n: u64| !num_at(s, pos, n) by {
        if num_at(s, pos, n) {
            lemma_dec_digits(n as nat);
            lemma_dec_digits(acc as nat);
            let ln = spec_dec(n as nat).len() as int;
            let la = p - pos;
            // the scanned digits lie inside the numeral of n
            if ln <= la {
                if pos + ln < p {
                    assert(s[pos + ln] == spec_dec(acc as nat)[ln]);
                    assert(is_digit(s[pos + ln]));
                } else {
                    assert(pos + ln == p);
                    assert(is_digit(s[p]));
                }
                assert(false);
            }
            assert(la < ln);
            assert(spec_dec(n as nat).take(la) =~= spec_dec(acc as nat)) by {
                assert forall|i: int| 0 <= i < la implies spec_dec(n as nat)[i] == spec_dec(
                    acc as nat,
                )[i] by {
                    assert(spec_dec(n as nat)[i] == s[pos + i]);
                    assert(spec_dec(acc as nat)[i] == s[pos + i]);
                }
            }
            assert(spec_dec(n as nat)[la] == s[p]);
            assert(spec_dec(n as nat).take(la + 1).drop_last() =~= spec_dec(n as nat).take(la));
            assert(dec_val(spec_dec(n as nat).take(la + 1)) == dec_val(spec_dec(acc as nat)) * 10
                + digit_val(s[p]));
            lemma_dec_val_inverse(acc as nat);
            lemma_dec_val_inverse(n as nat);
            lemma_dec_val_prefix(spec_dec(n as nat), la + 1);
            assert((acc as nat) * 10 + (d as nat) <= n as nat);
            assert(acc as nat <= ((u64::MAX - d) as nat) / 10) by (nonlinear_arith)
                requires
                    (acc as nat) * 10 + (d as nat) <= u64::MAX as nat,
                    d < 10,
            ;
            assert(false);
        }
    }
}

/// Two canonical numerals ending at a non-digit and starting at the same
/// place coincide.
proof fn same_run(s: Seq<char>, pos: int, p: int, acc: u64, n: u64)
    requires
        0 <= pos < p <= s.len(),
        s.subrange(pos, p) == spec_dec(acc as nat),
        p < s.len() ==> !is_digit(s[p]),
        num_at(s, pos, n),
    ensures
        acc == n,
        p == pos + spec_dec(n as nat).len(),
{
    lemma_dec_digits(n as nat);
    lemma_dec_digits(acc as nat);
    let ln = spec_dec(n as nat).len() as int;
    let la = p - pos;
    if ln < la {
        assert(s[pos + ln] == spec_dec(acc as nat)[ln]);
        assert(is_digit(s[pos + ln]));
        assert(false);
    }
    if la < ln {
        assert(s[p] == spec_dec(n as nat)[la]);
        assert(is_digit(s[p]));
        assert(false);
    }
    assert(spec_dec(acc as nat) =~= spec_dec(n as nat)) by {
        assert forall|i: int| 0 <= i < la implies spec_dec(acc as nat)[i] == spec_dec(n as nat)[i]
            by {
            assert(spec_dec(acc as nat)[i] == s[pos + i]);
            assert(spec_dec(n as nat)[i] == s[pos + i]);
        }
    }
    lemma_dec_injective(acc as nat, n as nat);
}

} // verus!
