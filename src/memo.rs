use vstd::prelude::*;

verus! {

/// Position of a byte in the memo alphabet `0-9a-zA-Z`, or -1 if it is not a symbol.
pub open spec fn symbol_index(b: u8) -> int {
    if 48 <= b <= 57 {
        b - 48
    } else if 97 <= b <= 122 {
        b - 97 + 10
    } else if 65 <= b <= 90 {
        b - 65 + 36
    } else {
        -1
    }
}

pub open spec fn is_symbol(b: u8) -> bool {
    symbol_index(b) >= 0
}

/// Every byte of `s` belongs to the memo alphabet.
pub open spec fn is_memo_text(s: Seq<u8>) -> bool {
    forall|i: int| 0 <= i < s.len() ==> #[trigger] is_symbol(s[i])
}

/// `62^n`.
pub open spec fn base_pow(n: nat) -> int
    decreases n,
{
    if n == 0 {
        1
    } else {
        62 * base_pow((n - 1) as nat)
    }
}

/// The number that a string of symbols denotes in base 62, the rightmost symbol
/// being the least significant digit.
pub open spec fn memo_value(s: Seq<u8>) -> int
    decreases s.len(),
{
    if s.len() == 0 {
        0
    } else {
        memo_value(s.drop_last()) * 62 + symbol_index(s.last())
    }
}

/// The symbol that follows `sym` in the alphabet, and whether it wrapped
/// around from the last symbol to the first.
pub fn get_next_symbol(sym: u8) -> (r: (u8, bool))
    requires
        is_symbol(sym),
    ensures
        is_symbol(r.0),
        symbol_index(r.0) == (symbol_index(sym) + 1) % 62,
        r.1 == (symbol_index(sym) == 61),
{
    if sym == 57 {
        (97, false)
    } else if sym == 122 {
        (65, false)
    } else if sym == 90 {
        (48, true)
    } else {
        (sym + 1, false)
    }
}


pub proof fn lemma_base_pow_positive(n: nat)
    ensures
        base_pow(n) >= 1,
    decreases n,
{
    if n > 0 {
        lemma_base_pow_positive((n - 1) as nat);
    }
}

/// A string of symbols denotes a number below `62^len`.
pub proof fn lemma_memo_value_bounds(s: Seq<u8>)
    requires
        is_memo_text(s),
    ensures
        0 <= memo_value(s) < base_pow(s.len()),
    decreases s.len(),
{
    if s.len() > 0 {
        let p = s.drop_last();
        assert(is_symbol(s[s.len() - 1]));
        assert(is_memo_text(p)) by {
            assert forall|i: int| 0 <= i < p.len() implies #[trigger] is_symbol(p[i]) by {
                assert(p[i] == s[i]);
            }
        }
        lemma_memo_value_bounds(p);
        let v = memo_value(p);
        let b = base_pow(p.len());
        assert(v * 62 + 61 < b * 62) by (nonlinear_arith)
            requires
                0 <= v < b,
        ;
        assert(0 <= v * 62) by (nonlinear_arith)
            requires
                0 <= v,
        ;
    }
}

/// The value of a concatenation: the left part is shifted by the length of the right part.
pub proof fn lemma_memo_value_concat(p: Seq<u8>, q: Seq<u8>)
    ensures
        memo_value(p + q) == memo_value(p) * base_pow(q.len()) + memo_value(q),
    decreases q.len(),
{
    if q.len() == 0 {
        assert(p + q =~= p);
    } else {
        let ql = q.drop_last();
        assert((p + q).drop_last() =~= p + ql);
        assert((p + q).last() == q.last());
        lemma_memo_value_concat(p, ql);
        let a = memo_value(p);
        let b = base_pow(ql.len());
        let c = memo_value(ql);
        assert((a * b + c) * 62 == a * (62 * b) + c * 62) by (nonlinear_arith);
    }
}

/// A run of the first symbol denotes 0; a run of `n` last symbols denotes `62^n - 1`.
proof fn lemma_memo_value_run(s: Seq<u8>)
    requires
        forall|i: int| 0 <= i < s.len() ==> #[trigger] s[i] == 48 || forall|j: int|
            0 <= j < s.len() ==> #[trigger] s[j] == 90,
    ensures
        (forall|i: int| 0 <= i < s.len() ==> #[trigger] s[i] == 48) ==> memo_value(s) == 0,
        (forall|i: int| 0 <= i < s.len() ==> #[trigger] s[i] == 90) ==> memo_value(s)
            == base_pow(s.len()) - 1,
    decreases s.len(),
{
    if s.len() > 0 {
        let p = s.drop_last();
        assert forall|i: int| 0 <= i < p.len() implies #[trigger] p[i] == 48 || forall|j: int|
            0 <= j < p.len() ==> #[trigger] p[j] == 90 by {
            if s[i] != 48 {
                assert forall|j: int| 0 <= j < p.len() implies #[trigger] p[j] == 90 by {
                    assert(s[j] == 90);
                }
            }
        }
        lemma_memo_value_run(p);
        if forall|i: int| 0 <= i < s.len() ==> #[trigger] s[i] == 48 {
            assert forall|i: int| 0 <= i < p.len() implies #[trigger] p[i] == 48 by {
                assert(s[i] == 48);
            }
            assert(s[s.len() - 1] == 48);
        }
        if forall|i: int| 0 <= i < s.len() ==> #[trigger] s[i] == 90 {
            assert forall|i: int| 0 <= i < p.len() implies #[trigger] p[i] == 90 by {
                assert(s[i] == 90);
            }
            assert(s[s.len() - 1] == 90);
        }
    }
}

/// The memo that follows `memo_original`: the rightmost symbol advances one
/// place in the alphabet and a wrap-around carries into the symbol on its left.
/// Read as base-62 numbers, the result is the original plus one, modulo `62^28`.
pub fn generate_next_memo(memo_original: &[u8; 28]) -> (r: [u8; 28])
    requires
        is_memo_text(memo_original@),
    ensures
        is_memo_text(r@),
        memo_value(r@) == (memo_value(memo_original@) + 1) % base_pow(28),
{
    let ghost orig = memo_original@;
    let mut memo_bytes: [u8; 28] = *memo_original;
    let mut i: usize = 28;
    let mut carry: bool = true;
    while carry && i > 0
        invariant
            i <= 28,
            orig.len() == 28,
            memo_bytes@.len() == 28,
            is_memo_text(orig),
            forall|j: int| 0 <= j < i ==> #[trigger] memo_bytes@[j] == orig[j],
            forall|j: int| i < j < 28 ==> #[trigger] memo_bytes@[j] == 48,
            forall|j: int| i < j < 28 ==> #[trigger] orig[j] == 90,
            carry ==> i == 28 || (memo_bytes@[i as int] == 48 && orig[i as int] == 90),
            !carry ==> i < 28 && symbol_index(orig[i as int]) < 61 && is_symbol(
                memo_bytes@[i as int],
            ) && symbol_index(memo_bytes@[i as int]) == symbol_index(orig[i as int]) + 1,
        decreases i,
    {
        i = i - 1;
        assert(is_symbol(orig[i as int]));
        let (next, overflow) = get_next_symbol(memo_bytes[i]);
        memo_bytes[i] = next;
        carry = overflow;
        if carry {
            assert(symbol_index(orig[i as int]) == 61);
            assert(orig[i as int] == 90);
        }
    }
    let ghost res = memo_bytes@;
    proof {
        lemma_base_pow_positive(28);
        assert(is_memo_text(res)) by {
            assert forall|j: int| 0 <= j < res.len() implies #[trigger] is_symbol(res[j]) by {
                if j < i {
                    assert(is_symbol(orig[j]));
                } else if j > i || carry {
                    assert(res[j] == 48);
                }
            }
        }
        lemma_memo_value_bounds(orig);
        if carry {
            assert(i == 0);
            assert forall|j: int| 0 <= j < 28 implies #[trigger] res[j] == 48 by {
                if j > 0 {
                    assert(res[j] == 48);
                }
            }
            assert forall|j: int| 0 <= j < 28 implies #[trigger] orig[j] == 90 by {
                if j > 0 {
                    assert(orig[j] == 90);
                }
            }
            lemma_memo_value_run(res);
            lemma_memo_value_run(orig);
            let b = base_pow(28);
            assert(b % b == 0) by (nonlinear_arith)
                requires
                    b >= 1,
            ;
        } else {
            let k = i as int;
            let head_o = orig.subrange(0, k + 1);
            let head_r = res.subrange(0, k + 1);
            let tail_o = orig.subrange(k + 1, 28);
            let tail_r = res.subrange(k + 1, 28);
            assert(orig =~= head_o + tail_o);
            assert(res =~= head_r + tail_r);
            assert(head_o.drop_last() =~= head_r.drop_last());
            assert forall|j: int| 0 <= j < tail_o.len() implies #[trigger] tail_o[j] == 90 by {
                assert(orig[k + 1 + j] == 90);
            }
            assert forall|j: int| 0 <= j < tail_r.len() implies #[trigger] tail_r[j] == 48 by {
                assert(res[k + 1 + j] == 48);
            }
            lemma_memo_value_run(tail_o);
            lemma_memo_value_run(tail_r);
            lemma_memo_value_concat(head_o, tail_o);
            lemma_memo_value_concat(head_r, tail_r);
            assert(memo_value(head_r) == memo_value(head_o) + 1);
            let n = base_pow(tail_o.len());
            let h = memo_value(head_o);
            assert((h + 1) * n + 0 == h * n + (n - 1) + 1) by (nonlinear_arith);
            lemma_memo_value_bounds(res);
            let b = base_pow(28);
            let v = memo_value(res);
            assert(v % b == v) by (nonlinear_arith)
                requires
                    0 <= v < b,
            ;
        }
    }
    memo_bytes
}

} // verus!
