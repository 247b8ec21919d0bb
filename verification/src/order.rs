use vstd::prelude::*;

verus! {

/// Strict lexicographic order on byte strings: the order an ordered byte-keyed
/// store compares keys with. A proper prefix sorts before its extensions.
pub open spec fn lex_lt(a: Seq<u8>, b: Seq<u8>) -> bool
    decreases a.len(),
{
    if b.len() == 0 {
        false
    } else if a.len() == 0 {
        true
    } else if a[0] < b[0] {
        true
    } else if a[0] > b[0] {
        false
    } else {
        lex_lt(a.skip(1), b.skip(1))
    }
}

/// The lexicographic order is total: two byte strings are ordered or equal.
pub proof fn lemma_lex_total(a: Seq<u8>, b: Seq<u8>)
    ensures
        lex_lt(a, b) || lex_lt(b, a) || a == b,
    decreases a.len(),
{
    if a.len() == 0 && b.len() == 0 {
        assert(a =~= b);
    } else if a.len() > 0 && b.len() > 0 && a[0] == b[0] {
        lemma_lex_total(a.skip(1), b.skip(1));
        if a.skip(1) == b.skip(1) {
            assert(a.skip(1).len() == a.len() - 1);
            assert(b.skip(1).len() == b.len() - 1);
            assert forall|i: int| 0 <= i < a.len() implies a[i] == b[i] by {
                if i >= 1 {
                    assert(a.skip(1)[i - 1] == a[i]);
                    assert(b.skip(1)[i - 1] == b[i]);
                }
            }
            assert(a =~= b);
        }
    }
}

/// The lexicographic order is irreflexive and asymmetric.
pub proof fn lemma_lex_strict(a: Seq<u8>, b: Seq<u8>)
    ensures
        lex_lt(a, b) ==> a != b && !lex_lt(b, a),
    decreases a.len(),
{
    if a.len() > 0 && b.len() > 0 && a[0] == b[0] {
        lemma_lex_strict(a.skip(1), b.skip(1));
        if a.skip(1) != b.skip(1) {
            assert(a != b) by {
                if a == b {
                    assert(a.skip(1) =~= b.skip(1));
                }
            }
        }
    }
}

/// The lexicographic order is transitive.
pub proof fn lemma_lex_trans(a: Seq<u8>, b: Seq<u8>, c: Seq<u8>)
    requires
        lex_lt(a, b),
        lex_lt(b, c),
    ensures
        lex_lt(a, c),
    decreases a.len(),
{
    if a.len() > 0 && b.len() > 0 && c.len() > 0 && a[0] == b[0] && b[0] == c[0] {
        lemma_lex_trans(a.skip(1), b.skip(1), c.skip(1));
    }
}

/// Concatenations whose left parts have equal length compare first by the left
/// parts and, when those are equal, by the right parts.
pub proof fn lemma_lex_concat(x: Seq<u8>, y: Seq<u8>, x2: Seq<u8>, y2: Seq<u8>)
    requires
        x.len() == x2.len(),
    ensures
        lex_lt(x + y, x2 + y2) <==> (lex_lt(x, x2) || (x == x2 && lex_lt(y, y2))),
    decreases x.len(),
{
    if x.len() == 0 {
        assert(x =~= x2);
        assert(x + y =~= y);
        assert(x2 + y2 =~= y2);
    } else {
        assert((x + y)[0] == x[0]);
        assert((x2 + y2)[0] == x2[0]);
        if x[0] == x2[0] {
            assert((x + y).skip(1) =~= x.skip(1) + y);
            assert((x2 + y2).skip(1) =~= x2.skip(1) + y2);
            lemma_lex_concat(x.skip(1), y, x2.skip(1), y2);
            if x.skip(1) == x2.skip(1) {
                assert forall|i: int| 0 <= i < x.len() implies x[i] == x2[i] by {
                    if i >= 1 {
                        assert(x.skip(1)[i - 1] == x[i]);
                        assert(x2.skip(1)[i - 1] == x2[i]);
                    }
                }
                assert(x =~= x2);
            }
            if x == x2 {
                assert(x.skip(1) =~= x2.skip(1));
            }
        } else {
            assert((x + y).len() > 0 && (x2 + y2).len() > 0);
        }
    }
}

/// If two equally long strings have equally long prefixes that are strictly
/// ordered, the whole strings are strictly ordered the same way.
pub proof fn lemma_lex_prefix_strict(a: Seq<u8>, b: Seq<u8>, n: int)
    requires
        0 <= n <= a.len(),
        n <= b.len(),
        lex_lt(a.take(n), b.take(n)),
    ensures
        lex_lt(a, b),
{
    assert(a =~= a.take(n) + a.skip(n));
    assert(b =~= b.take(n) + b.skip(n));
    lemma_lex_concat(a.take(n), a.skip(n), b.take(n), b.skip(n));
}

/// 256 raised to the power `n`: the weight of the `n`-th byte from the right
/// in a big-endian encoding.
pub open spec fn pow256(n: nat) -> nat
    decreases n,
{
    if n == 0 {
        1
    } else {
        256 * pow256((n - 1) as nat)
    }
}

pub proof fn lemma_pow256_pos(n: nat)
    ensures
        pow256(n) >= 1,
    decreases n,
{
    if n > 0 {
        lemma_pow256_pos((n - 1) as nat);
    }
}

pub proof fn lemma_pow256_mono(a: nat, b: nat)
    requires
        a <= b,
    ensures
        pow256(a) <= pow256(b),
    decreases b,
{
    if a < b {
        lemma_pow256_mono(a, (b - 1) as nat);
        lemma_pow256_pos((b - 1) as nat);
        assert(pow256(b) == 256 * pow256((b - 1) as nat));
    }
}

/// The weight of the ninth byte: every `u64` value fits in eight bytes.
pub proof fn lemma_pow256_8_value()
    ensures
        pow256(8) == 0x10000000000000000,
{
    assert(pow256(0) == 1);
    assert(pow256(1) == 256);
    assert(pow256(2) == 65536);
    assert(pow256(3) == 16777216);
    assert(pow256(4) == 4294967296);
    assert(pow256(5) == 1099511627776);
    assert(pow256(6) == 281474976710656);
    assert(pow256(7) == 72057594037927936);
    assert(pow256(8) == 256 * pow256(7));
}

/// The low `n` big-endian base-256 digits of `v`, most significant first.
pub open spec fn be_bytes(v: nat, n: nat) -> Seq<u8>
    decreases n,
{
    if n == 0 {
        Seq::empty()
    } else {
        be_bytes(v / 256, (n - 1) as nat).push((v % 256) as u8)
    }
}

pub proof fn lemma_be_bytes_len(v: nat, n: nat)
    ensures
        be_bytes(v, n).len() == n,
    decreases n,
{
    if n > 0 {
        lemma_be_bytes_len(v / 256, (n - 1) as nat);
    }
}

/// The numeric value a big-endian byte string denotes.
pub open spec fn be_value(s: Seq<u8>) -> nat
    decreases s.len(),
{
    if s.len() == 0 {
        0
    } else {
        256 * be_value(s.drop_last()) + (s.last() as nat)
    }
}

pub proof fn lemma_be_value_bound(s: Seq<u8>)
    ensures
        be_value(s) < pow256(s.len()),
    decreases s.len(),
{
    if s.len() > 0 {
        lemma_be_value_bound(s.drop_last());
        let p = pow256((s.len() - 1) as nat);
        assert(pow256(s.len()) == 256 * p);
        assert(256 * be_value(s.drop_last()) + s.last() < 256 * p) by (nonlinear_arith)
            requires
                be_value(s.drop_last()) < p,
                s.last() < 256,
        ;
    }
}

/// Decoding inverts encoding: the value of the `n` big-endian digits of `v`
/// is `v` again.
pub proof fn lemma_be_value_of_bytes(v: nat, n: nat)
    requires
        v < pow256(n),
    ensures
        be_value(be_bytes(v, n)) == v,
    decreases n,
{
    if n == 0 {
        assert(v == 0);
    } else {
        let p = pow256((n - 1) as nat);
        lemma_pow256_pos((n - 1) as nat);
        vstd::arithmetic::div_mod::lemma_fundamental_div_mod(v as int, 256);
        vstd::arithmetic::div_mod::lemma_mod_bound(v as int, 256);
        assert(v / 256 < p) by (nonlinear_arith)
            requires
                v < 256 * p,
                p >= 1,
                v == 256 * (v / 256) + v % 256,
                0 <= v % 256 < 256,
        ;
        lemma_be_value_of_bytes(v / 256, (n - 1) as nat);
        lemma_be_bytes_len(v / 256, (n - 1) as nat);
        let s = be_bytes(v, n);
        assert(s == be_bytes(v / 256, (n - 1) as nat).push((v % 256) as u8));
        assert(s.drop_last() =~= be_bytes(v / 256, (n - 1) as nat));
        assert(s.last() == (v % 256) as u8);
    }
}

/// Encoding inverts decoding: re-encoding the value of an `n`-byte string
/// gives the string back.
pub proof fn lemma_be_bytes_of_value(s: Seq<u8>)
    ensures
        be_bytes(be_value(s), s.len()) =~= s,
    decreases s.len(),
{
    if s.len() > 0 {
        let d = s.drop_last();
        let v = be_value(s);
        assert(v == 256 * be_value(d) + s.last());
        vstd::arithmetic::div_mod::lemma_fundamental_div_mod(v as int, 256);
        assert(v / 256 == be_value(d) && v % 256 == s.last()) by (nonlinear_arith)
            requires
                v == 256 * be_value(d) + s.last(),
                0 <= s.last() < 256,
                v == 256 * (v / 256) + v % 256,
                0 <= v % 256 < 256,
        ;
        lemma_be_bytes_of_value(d);
        assert(be_bytes(v, s.len()) == be_bytes(v / 256, (s.len() - 1) as nat).push(
            (v % 256) as u8,
        ));
        assert(be_bytes(v / 256, (s.len() - 1) as nat) =~= d);
    }
}

/// Big-endian encodings of equal width compare lexicographically exactly as
/// the values they denote compare numerically, and are equal exactly when the
/// values are equal.
pub proof fn lemma_be_order(a: nat, b: nat, n: nat)
    requires
        a < pow256(n),
        b < pow256(n),
    ensures
        lex_lt(be_bytes(a, n), be_bytes(b, n)) <==> a < b,
        (be_bytes(a, n) == be_bytes(b, n)) <==> a == b,
    decreases n,
{
    if n == 0 {
        assert(a == 0 && b == 0);
        assert(be_bytes(a, n) =~= be_bytes(b, n));
    } else {
        let p = pow256((n - 1) as nat);
        lemma_pow256_pos((n - 1) as nat);
        let qa = a / 256;
        let ra = a % 256;
        let qb = b / 256;
        let rb = b % 256;
        vstd::arithmetic::div_mod::lemma_fundamental_div_mod(a as int, 256);
        vstd::arithmetic::div_mod::lemma_fundamental_div_mod(b as int, 256);
        vstd::arithmetic::div_mod::lemma_mod_bound(a as int, 256);
        vstd::arithmetic::div_mod::lemma_mod_bound(b as int, 256);
        assert(qa < p) by (nonlinear_arith)
            requires
                a < 256 * p,
                p >= 1,
                a == 256 * qa + ra,
                0 <= ra < 256,
        ;
        assert(qb < p) by (nonlinear_arith)
            requires
                b < 256 * p,
                p >= 1,
                b == 256 * qb + rb,
                0 <= rb < 256,
        ;
        lemma_be_order(qa, qb, (n - 1) as nat);
        lemma_be_bytes_len(qa, (n - 1) as nat);
        lemma_be_bytes_len(qb, (n - 1) as nat);
        let xa = be_bytes(qa, (n - 1) as nat);
        let xb = be_bytes(qb, (n - 1) as nat);
        assert(be_bytes(a, n) == xa.push((ra) as u8));
        assert(be_bytes(b, n) == xb.push((rb) as u8));
        assert(xa.push(ra as u8) =~= xa + seq![ra as u8]);
        assert(xb.push(rb as u8) =~= xb + seq![rb as u8]);
        lemma_lex_concat(xa, seq![ra as u8], xb, seq![rb as u8]);
        assert(lex_lt(seq![ra as u8], seq![rb as u8]) <==> ra < rb) by {
            let la = seq![ra as u8];
            let lb = seq![rb as u8];
            assert(la[0] == ra as u8 && lb[0] == rb as u8);
            assert(la.skip(1) =~= Seq::<u8>::empty());
            assert(lb.skip(1) =~= Seq::<u8>::empty());
            assert(!lex_lt(Seq::<u8>::empty(), Seq::<u8>::empty()));
        }
        assert((a < b) <==> (qa < qb || (qa == qb && ra < rb))) by (nonlinear_arith)
            requires
                a == 256 * qa + ra,
                b == 256 * qb + rb,
                0 <= ra < 256,
                0 <= rb < 256,
        ;
        if be_bytes(a, n) == be_bytes(b, n) {
            assert(xa.push(ra as u8).last() == ra as u8);
            assert(xb.push(rb as u8).last() == rb as u8);
            assert(ra == rb);
            assert(xa =~= xb) by {
                assert(xa.push(ra as u8).drop_last() =~= xa);
                assert(xb.push(rb as u8).drop_last() =~= xb);
            }
        }
        if qa == qb && ra == rb {
            assert(a == b);
            assert(be_bytes(a, n) =~= be_bytes(b, n));
        }
    }
}

} // verus!
