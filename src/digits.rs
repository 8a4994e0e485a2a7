use vstd::arithmetic::div_mod::*;
use vstd::arithmetic::mul::*;
use vstd::arithmetic::power::*;
use vstd::prelude::*;

verus! {

/// Value of a big-endian digit sequence read in the given radix.
pub open spec fn be_val(s: Seq<u8>, radix: nat) -> nat
    decreases s.len(),
{
    if s.len() == 0 {
        0
    } else {
        be_val(s.drop_last(), radix) * radix + s.last() as nat
    }
}

/// Shortest big-endian digit sequence of `v` in the given radix; empty for zero.
pub open spec fn to_be(v: nat, radix: nat) -> Seq<u8>
    decreases v,
    via to_be_decreases
{
    if v == 0 || radix < 2 {
        Seq::empty()
    } else {
        to_be(v / radix, radix).push((v % radix) as u8)
    }
}

#[via_fn]
proof fn to_be_decreases(v: nat, radix: nat) {
    if v != 0 && radix >= 2 {
        lemma_div_decreases(v as int, radix as int);
    }
}

/// The last `len` cells of `s`.
pub open spec fn suffix(s: Seq<u8>, len: int) -> Seq<u8> {
    s.subrange(s.len() - len, s.len() as int)
}

/// Every digit of `s` is below `radix`.
pub open spec fn digits_below(s: Seq<u8>, radix: nat) -> bool {
    forall|j: int| 0 <= j < s.len() ==> (#[trigger] s[j]) < radix
}

/// Appending a digit shifts the value by one place and adds the digit.
pub proof fn lemma_be_val_push(s: Seq<u8>, x: u8, radix: nat)
    ensures
        be_val(s.push(x), radix) == be_val(s, radix) * radix + x,
{
    assert(s.push(x).drop_last() =~= s);
}

/// Putting a digit in front adds it at the weight of the digits behind it.
pub proof fn lemma_be_val_prepend(x: u8, s: Seq<u8>, radix: nat)
    ensures
        be_val(seq![x] + s, radix) == x * pow(radix as int, s.len()) + be_val(s, radix),
    decreases s.len(),
{
    let t = seq![x] + s;
    if s.len() == 0 {
        assert(t.drop_last() =~= Seq::<u8>::empty());
        assert(t.last() == x);
        assert(be_val(t, radix) == be_val(t.drop_last(), radix) * radix + x);
        assert(be_val(t.drop_last(), radix) == 0);
        assert(be_val(s, radix) == 0);
        assert(pow(radix as int, 0) == 1) by {
            reveal(pow);
        }
        assert(x * pow(radix as int, 0) == x);
        assert(be_val(t.drop_last(), radix) * radix == 0) by (nonlinear_arith)
            requires
                be_val(t.drop_last(), radix) == 0,
        ;
        assert(be_val(t, radix) == x);
        assert(be_val(t, radix) == x * pow(radix as int, s.len()) + be_val(s, radix));
    } else {
        assert(t.drop_last() =~= seq![x] + s.drop_last());
        assert(t.last() == s.last());
        assert(be_val(t, radix) == be_val(t.drop_last(), radix) * radix + s.last());
        lemma_be_val_prepend(x, s.drop_last(), radix);
        let u = seq![x] + s.drop_last();
        assert(be_val(u, radix) == x * pow(radix as int, s.drop_last().len()) + be_val(s.drop_last(), radix));
        assert(t.drop_last() == u);
        let p = pow(radix as int, (s.len() - 1) as nat);
        assert(pow(radix as int, s.len()) == radix * p) by {
            reveal(pow);
        }
        let b = be_val(s.drop_last(), radix);
        assert(be_val(s, radix) == b * radix + s.last());
        assert((x * p + b) * radix + s.last() == x * (radix * p) + (b * radix + s.last()))
            by (nonlinear_arith);
        assert(be_val(t, radix) == (x * p + b) * radix + s.last());
        assert(be_val(t, radix) == x * pow(radix as int, s.len()) + be_val(s, radix));
    }
}

/// A sequence of digits below the radix is worth less than radix to its length.
pub proof fn lemma_be_val_bound(s: Seq<u8>, radix: nat)
    requires
        digits_below(s, radix),
    ensures
        be_val(s, radix) < pow(radix as int, s.len()),
    decreases s.len(),
{
    reveal(pow);
    if s.len() > 0 {
        let t = s.drop_last();
        assert(digits_below(t, radix)) by {
            assert forall|j: int| 0 <= j < t.len() implies t[j] < radix by {
                assert(t[j] == s[j]);
            }
        }
        lemma_be_val_bound(t, radix);
        let p = pow(radix as int, t.len());
        let b = be_val(t, radix);
        let l = s.last() as int;
        assert(l < radix) by {
            assert(s[s.len() - 1] < radix);
        }
        assert(pow(radix as int, s.len()) == radix * p);
        assert(b * radix + l < radix * p) by (nonlinear_arith)
            requires
                b < p,
                l < radix,
        ;
    }
}

/// What the shortest digit sequence of `v` is: it reads back as `v`, its digits are below the
/// radix, it does not start with zero, and its length is the number of digits of `v`.
pub proof fn lemma_to_be(v: nat, radix: nat)
    requires
        2 <= radix <= 256,
    ensures
        be_val(to_be(v, radix), radix) == v,
        digits_below(to_be(v, radix), radix),
        to_be(v, radix).len() > 0 ==> to_be(v, radix)[0] != 0,
        v < pow(radix as int, to_be(v, radix).len()),
        to_be(v, radix).len() > 0 ==> pow(radix as int, (to_be(v, radix).len() - 1) as nat) <= v,
        (to_be(v, radix).len() == 0) == (v == 0),
    decreases v,
{
    reveal(pow);
    if v != 0 {
        let q = v / radix;
        let m = v % radix;
        lemma_fundamental_div_mod(v as int, radix as int);
        lemma_div_decreases(v as int, radix as int);
        lemma_to_be(q, radix);
        let t = to_be(q, radix);
        let s = to_be(v, radix);
        assert(s == t.push(m as u8));
        lemma_be_val_push(t, m as u8, radix);
        assert(digits_below(s, radix)) by {
            assert forall|j: int| 0 <= j < s.len() implies s[j] < radix by {
                if j < t.len() {
                    assert(s[j] == t[j]);
                }
            }
        }
        let p = pow(radix as int, t.len());
        assert(pow(radix as int, s.len()) == radix * p);
        assert(v < radix * p) by (nonlinear_arith)
            requires
                v == q * radix + m,
                q < p,
                m < radix,
        ;
        if t.len() == 0 {
            assert(q == 0);
            assert(s[0] == m);
            assert(m == v);
        } else {
            assert(s[0] == t[0]);
            let p1 = pow(radix as int, (t.len() - 1) as nat);
            assert(p == radix * p1);
            assert(p <= v) by (nonlinear_arith)
                requires
                    v == q * radix + m,
                    p1 <= q,
                    p == radix * p1,
                    m >= 0,
            ;
        }
    }
}

/// A digit sequence below the radix that does not start with zero is the shortest form of its value.
pub proof fn lemma_to_be_unique(s: Seq<u8>, radix: nat)
    requires
        2 <= radix <= 256,
        digits_below(s, radix),
        s.len() == 0 || s[0] != 0,
    ensures
        to_be(be_val(s, radix), radix) == s,
        s.len() > 0 ==> be_val(s, radix) > 0,
    decreases s.len(),
{
    if s.len() == 0 {
        assert(to_be(0, radix) =~= s);
    } else {
        let t = s.drop_last();
        let x = s.last();
        assert(x < radix) by {
            assert(s[s.len() - 1] < radix);
        }
        assert(digits_below(t, radix)) by {
            assert forall|j: int| 0 <= j < t.len() implies t[j] < radix by {
                assert(t[j] == s[j]);
            }
        }
        if t.len() > 0 {
            assert(t[0] == s[0]);
        }
        lemma_to_be_unique(t, radix);
        let b = be_val(t, radix);
        let v = be_val(s, radix);
        assert(v == b * radix + x);
        if t.len() == 0 {
            assert(s[0] == x);
        }
        assert(v > 0) by (nonlinear_arith)
            requires
                v == b * radix + x,
                b > 0 || x > 0,
                radix >= 2,
        ;
        lemma_fundamental_div_mod(v as int, radix as int);
        assert(v / radix == b && v % radix == x as nat) by {
            lemma_div_multiples_vanish_fancy(b as int, x as int, radix as int);
            lemma_mod_multiples_vanish(b as int, x as int, radix as int);
            lemma_small_mod(x as nat, radix);
            lemma_mul_is_commutative(b as int, radix as int);
        }
        assert(to_be(v, radix) == to_be(b, radix).push(x));
        assert(t.push(x) =~= s);
    }
}

/// The digit count of `v` is at most `k` exactly when `v` is below radix to the `k`.
pub proof fn lemma_to_be_len_le(v: nat, k: nat, radix: nat)
    requires
        2 <= radix <= 256,
    ensures
        (to_be(v, radix).len() <= k) == (v < pow(radix as int, k)),
{
    lemma_to_be(v, radix);
    let n = to_be(v, radix).len();
    if n <= k {
        lemma_pow_increases(radix, n, k);
    } else {
        lemma_pow_increases(radix, k, (n - 1) as nat);
    }
}

/// A value whose high part is `c` and whose low part fills `i` digits has `i` more digits than `c`.
pub proof fn lemma_to_be_len_split(c: nat, i: nat, x: nat, v: nat, radix: nat)
    requires
        2 <= radix <= 256,
        c > 0,
        x < pow(radix as int, i),
        v == c * pow(radix as int, i) + x,
    ensures
        to_be(v, radix).len() == to_be(c, radix).len() + i,
        to_be(c, radix).len() >= 1,
{
    lemma_to_be(c, radix);
    let n = to_be(c, radix).len();
    let p = pow(radix as int, i);
    let hi = pow(radix as int, n);
    let lo = pow(radix as int, (n - 1) as nat);
    lemma_pow_adds(radix as int, n, i);
    lemma_pow_adds(radix as int, (n - 1) as nat, i);
    lemma_pow_positive(radix as int, i);
    assert(v < hi * p) by (nonlinear_arith)
        requires
            v == c * p + x,
            c < hi,
            x < p,
    ;
    assert(lo * p <= v) by (nonlinear_arith)
        requires
            v == c * p + x,
            lo <= c,
            x >= 0,
            p > 0,
    ;
    lemma_to_be_len_le(v, n + i, radix);
    lemma_to_be_len_le(v, (n + i - 1) as nat, radix);
}

/// Number of digits of `c` in the given radix.
pub fn digit_count(c: usize, radix: usize) -> (k: usize)
    requires
        2 <= radix <= 256,
    ensures
        k == to_be(c as nat, radix as nat).len(),
{
    let mut x: usize = c;
    let mut k: usize = 0;
    while x != 0
        invariant
            2 <= radix <= 256,
            k + x <= c,
            k + to_be(x as nat, radix as nat).len() == to_be(c as nat, radix as nat).len(),
        decreases x,
    {
        assert(x / radix < x) by (nonlinear_arith)
            requires
                x > 0,
                radix >= 2,
        ;
        x = x / radix;
        k = k + 1;
    }
    k
}

/// One cell of `mul_add_suffix`: the value relation carries over to the next cell.
proof fn lemma_step(
    cell2: int,
    carry: int,
    carry2: int,
    oc: int,
    bp: int,
    bo: int,
    p: int,
    radix: int,
    mul: int,
    add: int,
)
    requires
        bp + carry * p == mul * bo + add,
        carry + mul * oc == cell2 + carry2 * radix,
    ensures
        (cell2 * p + bp) + carry2 * (radix * p) == mul * (oc * p + bo) + add,
{
    assert((cell2 * p + bp) + carry2 * (radix * p) == (cell2 + carry2 * radix) * p + bp)
        by (nonlinear_arith);
    assert((carry + mul * oc) * p == carry * p + mul * (oc * p)) by (nonlinear_arith);
    assert(mul * (oc * p + bo) == mul * (oc * p) + mul * bo) by (nonlinear_arith);
}

/// Multiplies the number held big-endian in the last `len` cells of `buf` by `mul` and adds
/// `add`, in place, one cell at a time from the end, with cells of the given radix. The number
/// may grow to `room` cells. `Ok` gives its new length; `Err(k)` says that it would take `room + k`
/// cells, in which case the buffer holds partial state.
pub fn mul_add_suffix(
    buf: &mut [u8],
    len: usize,
    room: usize,
    radix: usize,
    mul: usize,
    add: usize,
) -> (r: Result<usize, usize>)
    requires
        2 <= radix <= 256,
        1 <= mul <= 256,
        add < mul,
        len <= room <= old(buf)@.len(),
        suffix(old(buf)@, len as int) == to_be(
            be_val(suffix(old(buf)@, len as int), radix as nat),
            radix as nat,
        ),
        forall|j: int| 0 <= j < old(buf)@.len() - len ==> old(buf)@[j] == 0,
    ensures
        final(buf)@.len() == old(buf)@.len(),
        ({
            let v = (be_val(suffix(old(buf)@, len as int), radix as nat) * mul + add) as nat;
            match r {
                Ok(l) => {
                    &&& l == to_be(v, radix as nat).len()
                    &&& len <= l <= room
                    &&& suffix(final(buf)@, l as int) == to_be(v, radix as nat)
                    &&& forall|j: int| 0 <= j < final(buf)@.len() - l ==> final(buf)@[j] == 0
                },
                Err(k) => k >= 1 && to_be(v, radix as nat).len() == room + k,
            }
        }),
{
    let ghost old_buf = buf@;
    let ghost r = radix as nat;
    let ghost v0 = be_val(suffix(old_buf, len as int), r);
    let cap = buf.len();
    proof {
        lemma_to_be(v0, r);
    }
    let mut carry: usize = add;
    let mut i: usize = 0;
    proof {
        lemma_pow0(radix as int);
        assert(suffix(buf@, 0) =~= Seq::<u8>::empty());
        assert(suffix(old_buf, 0) =~= Seq::<u8>::empty());
        assert(be_val(suffix(buf@, 0), r) == 0);
        assert(be_val(suffix(old_buf, 0), r) == 0);
        assert(mul * 0 == 0);
        assert(add * pow(radix as int, 0) == add);
    }
    while i < len || carry != 0
        invariant
            2 <= radix <= 256,
            1 <= mul <= 256,
            r == radix as nat,
            old_buf == old(buf)@,
            v0 == be_val(suffix(old_buf, len as int), r),
            len <= room <= cap,
            cap == old_buf.len(),
            buf@.len() == cap,
            i <= room,
            carry < mul,
            suffix(old_buf, len as int) == to_be(v0, r),
            digits_below(suffix(old_buf, len as int), r),
            len > 0 ==> suffix(old_buf, len as int)[0] != 0,
            forall|j: int| 0 <= j < cap - len ==> old_buf[j] == 0,
            forall|j: int| 0 <= j < cap - i ==> buf@[j] == old_buf[j],
            digits_below(suffix(buf@, i as int), r),
            i >= len ==> be_val(suffix(old_buf, i as int), r) == v0,
            be_val(suffix(buf@, i as int), r) + carry * pow(radix as int, i as nat) == mul
                * be_val(suffix(old_buf, i as int), r) + add,
            (i > 0 && carry == 0 && i >= len) ==> buf@[cap - i] != 0,
        decreases room - i,
    {
        if i == room {
            let k = digit_count(carry, radix);
            proof {
                let p = suffix(buf@, i as int);
                lemma_be_val_bound(p, r);
                assert(carry > 0);
                assert(be_val(suffix(old_buf, i as int), r) == v0);
                lemma_mul_is_commutative(mul as int, v0 as int);
                let v = (v0 * mul + add) as nat;
                lemma_to_be_len_split(carry as nat, i as nat, be_val(p, r), v, r);
            }
            return Err(k);
        }
        let idx = cap - 1 - i;
        let cell = buf[idx] as usize;
        assert(mul * cell <= 256 * 255) by (nonlinear_arith)
            requires
                mul <= 256,
                cell <= 255,
        ;
        let t = carry + mul * cell;
        let ghost before = buf@;
        let ghost c0 = carry;
        buf[idx] = (t % radix) as u8;
        carry = t / radix;
        proof {
            let p_old = suffix(before, i as int);
            let p_new = suffix(buf@, i + 1);
            let o_old = suffix(old_buf, i as int);
            let o_new = suffix(old_buf, i + 1);
            let cell2 = (t % radix) as u8;
            assert(p_new =~= seq![cell2] + p_old);
            assert(o_new =~= seq![cell as u8] + o_old);
            lemma_be_val_prepend(cell2, p_old, r);
            lemma_be_val_prepend(cell as u8, o_old, r);
            lemma_fundamental_div_mod(t as int, radix as int);
            lemma_mul_is_commutative(radix as int, carry as int);
            assert(c0 + mul * cell == cell2 + carry * radix);
            let pw = pow(radix as int, i as nat);
            assert(pow(radix as int, (i + 1) as nat) == radix * pw) by {
                reveal(pow);
            }
            lemma_step(
                cell2 as int,
                c0 as int,
                carry as int,
                cell as int,
                be_val(p_old, r) as int,
                be_val(o_old, r) as int,
                pw,
                radix as int,
                mul as int,
                add as int,
            );
            assert(cell < radix) by {
                assert(cell == old_buf[idx as int]);
                if i < len {
                    assert(old_buf[idx as int] == suffix(old_buf, len as int)[len - 1 - i]);
                } else {
                    assert(old_buf[idx as int] == 0);
                }
            }
            assert(c0 + mul * cell <= mul * radix - 1) by (nonlinear_arith)
                requires
                    c0 < mul,
                    cell < radix,
            ;
            assert(carry < mul) by (nonlinear_arith)
                requires
                    carry == (t as int) / (radix as int),
                    t <= mul * radix - 1,
                    radix > 0,
            ;
            assert(digits_below(p_new, r)) by {
                assert forall|j: int| 0 <= j < p_new.len() implies p_new[j] < r by {
                    if j > 0 {
                        assert(p_new[j] == p_old[j - 1]);
                    }
                }
            }
            if i >= len {
                assert(old_buf[idx as int] == 0);
                assert(cell == 0);
                assert((cell as u8) as int == 0);
                assert((cell as u8) * pw == 0) by (nonlinear_arith)
                    requires
                        (cell as u8) as int == 0,
                ;
                assert(be_val(o_new, r) == be_val(o_old, r));
                assert(be_val(suffix(old_buf, (i + 1) as int), r) == v0);
            } else if i + 1 == len {
                assert(suffix(old_buf, (i + 1) as int) == suffix(old_buf, len as int));
            }
            assert(i + 1 >= len ==> be_val(suffix(old_buf, (i + 1) as int), r) == v0);
            if carry == 0 && i + 1 >= len {
                if i >= len {
                    assert(c0 != 0);
                } else {
                    assert(cell == old_buf[idx as int]);
                    assert(old_buf[idx as int] == suffix(old_buf, len as int)[0]);
                    assert(cell != 0);
                }
                assert(cell2 == t) by (nonlinear_arith)
                    requires
                        t == cell2 + carry * radix,
                        carry == 0,
                ;
                assert(mul * cell >= cell) by (nonlinear_arith)
                    requires
                        mul >= 1,
                        cell >= 0,
                ;
            }
        }
        i = i + 1;
    }
    proof {
        let p = suffix(buf@, i as int);
        if i > 0 {
            assert(p[0] == buf@[cap - i]);
        }
        lemma_to_be_unique(p, r);
        assert forall|j: int| 0 <= j < buf@.len() - i implies buf@[j] == 0 by {
            assert(buf@[j] == old_buf[j]);
        }
    }
    Ok(i)
}

} // verus!
