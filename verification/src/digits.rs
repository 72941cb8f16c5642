//! Decimal digit strings: zero-padded fixed-width encodings of integers
//! and their numeric values. These underpin the lexicographically sortable
//! composite message keys and the message record encoding.

use vstd::prelude::*;

verus! {

/// The character for one decimal digit (`0 <= d < 10`).
pub open spec fn digit_char(d: int) -> char {
    if d == 0 { '0' } else if d == 1 { '1' } else if d == 2 { '2' } else if d == 3 { '3' }
    else if d == 4 { '4' } else if d == 5 { '5' } else if d == 6 { '6' } else if d == 7 { '7' }
    else if d == 8 { '8' } else { '9' }
}

/// The numeric value of a digit character, or -1 for any other character.
pub open spec fn char_digit(c: char) -> int {
    if c == '0' { 0 } else if c == '1' { 1 } else if c == '2' { 2 } else if c == '3' { 3 }
    else if c == '4' { 4 } else if c == '5' { 5 } else if c == '6' { 6 } else if c == '7' { 7 }
    else if c == '8' { 8 } else if c == '9' { 9 } else { -1 }
}

pub open spec fn is_digit(c: char) -> bool {
    char_digit(c) != -1
}

pub open spec fn all_digits(s: Seq<char>) -> bool {
    forall|i: int| 0 <= i < s.len() ==> is_digit(#[trigger] s[i])
}

pub open spec fn pow10(n: nat) -> nat
    decreases n,
{
    if n == 0 { 1 } else { 10 * pow10((n - 1) as nat) }
}

/// `v` written in decimal, zero-padded to exactly `n` digits
/// (the low-order `n` digits of `v`).
pub open spec fn pad(v: int, n: nat) -> Seq<char>
    decreases n,
{
    if n == 0 { Seq::empty() } else { pad(v / 10, (n - 1) as nat).push(digit_char(v % 10)) }
}

/// The numeric value of a digit string.
pub open spec fn num(s: Seq<char>) -> int
    decreases s.len(),
{
    if s.len() == 0 { 0 } else { num(s.drop_last()) * 10 + char_digit(s.last()) }
}

pub proof fn lemma_pow10_20()
    ensures
        pow10(20) == 0x56BC75E2D63100000,
        u64::MAX < pow10(20),
        pow10(20) < u128::MAX,
{
    assert(pow10(20) == 0x56BC75E2D63100000) by {
        reveal_with_fuel(pow10, 21);
    }
}

pub proof fn lemma_pow10_increases(m: nat, n: nat)
    requires
        m <= n,
    ensures
        pow10(m) <= pow10(n),
    decreases n,
{
    if m < n && n > 0 {
        lemma_pow10_increases(m, (n - 1) as nat);
    }
}

pub proof fn lemma_pad_len(v: int, n: nat)
    ensures
        pad(v, n).len() == n,
        0 <= v ==> all_digits(pad(v, n)),
    decreases n,
{
    if n > 0 {
        lemma_pad_len(v / 10, (n - 1) as nat);
        if 0 <= v {
            let s = pad(v, n);
            let t = pad(v / 10, (n - 1) as nat);
            assert(0 <= v % 10 < 10);
            assert(is_digit(digit_char(v % 10)));
            assert(forall|i: int| 0 <= i < s.len() ==> is_digit(#[trigger] s[i])) by {
                assert(forall|i: int| 0 <= i < t.len() ==> s[i] == #[trigger] t[i]);
            }
        }
    }
}

pub proof fn lemma_num_pad(v: int, n: nat)
    requires
        0 <= v < pow10(n),
    ensures
        num(pad(v, n)) == v,
    decreases n,
{
    if n == 0 {
        assert(v == 0);
    } else {
        let t = pad(v / 10, (n - 1) as nat);
        lemma_pad_len(v / 10, (n - 1) as nat);
        assert(v / 10 < pow10((n - 1) as nat) && 0 <= v / 10) by (nonlinear_arith)
            requires
                0 <= v,
                v < 10 * pow10((n - 1) as nat),
        {}
        lemma_num_pad(v / 10, (n - 1) as nat);
        let s = pad(v, n);
        assert(s.drop_last() =~= t);
        assert(s.last() == digit_char(v % 10));
        assert(char_digit(digit_char(v % 10)) == v % 10);
        assert((v / 10) * 10 + v % 10 == v) by (nonlinear_arith);
    }
}

pub proof fn lemma_num_bound(s: Seq<char>)
    requires
        all_digits(s),
    ensures
        0 <= num(s) < pow10(s.len()),
    decreases s.len(),
{
    if s.len() > 0 {
        assert(all_digits(s.drop_last()));
        lemma_num_bound(s.drop_last());
        assert(is_digit(s.last()));
        assert(0 <= char_digit(s.last()) < 10);
    }
}

pub proof fn lemma_pad_num(s: Seq<char>)
    requires
        all_digits(s),
    ensures
        pad(num(s), s.len()) == s,
    decreases s.len(),
{
    if s.len() == 0 {
        assert(pad(num(s), 0) =~= s);
    } else {
        let t = s.drop_last();
        let d = char_digit(s.last());
        assert(all_digits(t));
        lemma_num_bound(t);
        assert(is_digit(s.last()));
        assert(0 <= d < 10);
        let v = num(s);
        assert(v == num(t) * 10 + d);
        assert(v / 10 == num(t) && v % 10 == d) by (nonlinear_arith)
            requires
                v == num(t) * 10 + d,
                0 <= num(t),
                0 <= d < 10,
        {}
        lemma_pad_num(t);
        assert(digit_char(char_digit(s.last())) == s.last());
        assert(pad(v, s.len()) =~= s) by {
            assert(pad(v, s.len()) == pad(num(t), t.len()).push(digit_char(d)));
        }
    }
}

/// Equal fixed-width encodings have equal values; with `lemma_num_pad`
/// this makes `pad` injective on values below `pow10(n)`.
pub proof fn lemma_pad_injective(v1: int, v2: int, n: nat)
    requires
        0 <= v1 < pow10(n),
        0 <= v2 < pow10(n),
        pad(v1, n) == pad(v2, n),
    ensures
        v1 == v2,
{
    lemma_num_pad(v1, n);
    lemma_num_pad(v2, n);
}

fn digit_to_char(d: u64) -> (c: char)
    requires
        d < 10,
    ensures
        c == digit_char(d as int),
{
    if d == 0 { '0' } else if d == 1 { '1' } else if d == 2 { '2' } else if d == 3 { '3' }
    else if d == 4 { '4' } else if d == 5 { '5' } else if d == 6 { '6' } else if d == 7 { '7' }
    else if d == 8 { '8' } else { '9' }
}

fn char_to_digit(c: char) -> (r: Option<u64>)
    ensures
        match r {
            Some(d) => is_digit(c) && d == char_digit(c),
            None => !is_digit(c),
        },
{
    if c == '0' { Some(0) } else if c == '1' { Some(1) } else if c == '2' { Some(2) }
    else if c == '3' { Some(3) } else if c == '4' { Some(4) } else if c == '5' { Some(5) }
    else if c == '6' { Some(6) } else if c == '7' { Some(7) } else if c == '8' { Some(8) }
    else if c == '9' { Some(9) } else { None }
}

/// Append `v` to `out` as exactly `n` decimal digits, zero padded.
pub fn push_pad(out: &mut Vec<char>, v: u64, n: u64)
    ensures
        final(out)@ == old(out)@ + pad(v as int, n as nat),
    decreases n,
{
    if n == 0 {
        assert(final(out)@ =~= old(out)@ + pad(v as int, 0));
    } else {
        push_pad(out, v / 10, n - 1);
        let d: char = digit_to_char(v % 10);
        out.push(d);
        assert(final(out)@ =~= old(out)@ + pad(v as int, n as nat)) by {
            assert(pad(v as int, n as nat) == pad((v as int) / 10, (n - 1) as nat).push(
                digit_char((v as int) % 10),
            ));
        }
    }
}

/// Strict lexicographic order on text, by code point — the order in
/// which an engine comparing keys byte by byte sees UTF-8 text.
pub open spec fn lex_lt(a: Seq<char>, b: Seq<char>) -> bool
    decreases a.len(),
{
    if b.len() == 0 {
        false
    } else if a.len() == 0 {
        true
    } else if (a[0] as u32) < (b[0] as u32) {
        true
    } else if a[0] != b[0] {
        false
    } else {
        lex_lt(a.subrange(1, a.len() as int), b.subrange(1, b.len() as int))
    }
}

/// A common prefix never decides the order.
pub proof fn lemma_lex_same_prefix(p: Seq<char>, x: Seq<char>, y: Seq<char>)
    ensures
        lex_lt(p + x, p + y) == lex_lt(x, y),
    decreases p.len(),
{
    if p.len() == 0 {
        assert(p + x =~= x);
        assert(p + y =~= y);
    } else {
        let px = p + x;
        let py = p + y;
        let pt = p.subrange(1, p.len() as int);
        assert(px[0] == p[0] && py[0] == p[0]);
        assert(px.subrange(1, px.len() as int) =~= pt + x);
        assert(py.subrange(1, py.len() as int) =~= pt + y);
        lemma_lex_same_prefix(pt, x, y);
    }
}

/// Prefixes of one width decide the order whenever they differ,
/// whatever follows them.
pub proof fn lemma_lex_eqlen_prefix(x1: Seq<char>, y1: Seq<char>, x2: Seq<char>, y2: Seq<char>)
    requires
        x1.len() == x2.len(),
        x1 != x2,
    ensures
        lex_lt(x1 + y1, x2 + y2) == lex_lt(x1, x2),
    decreases x1.len(),
{
    if x1.len() == 0 {
        assert(x1 =~= x2);
    } else {
        let a = x1 + y1;
        let b = x2 + y2;
        assert(a[0] == x1[0] && b[0] == x2[0]);
        if x1[0] == x2[0] {
            let t1 = x1.subrange(1, x1.len() as int);
            let t2 = x2.subrange(1, x2.len() as int);
            assert(t1 != t2) by {
                if t1 == t2 {
                    assert forall|i: int| 0 <= i < x1.len() implies x1[i] == x2[i] by {
                        if i > 0 {
                            assert(t1[i - 1] == x1[i] && t2[i - 1] == x2[i]);
                        }
                    }
                    assert(x1 =~= x2);
                }
            }
            assert(a.subrange(1, a.len() as int) =~= t1 + y1);
            assert(b.subrange(1, b.len() as int) =~= t2 + y2);
            lemma_lex_eqlen_prefix(t1, y1, t2, y2);
        }
    }
}

/// The value of a digit string, read off its leading digit.
pub proof fn lemma_num_front(s: Seq<char>)
    requires
        s.len() > 0,
    ensures
        num(s) == char_digit(s[0]) * pow10((s.len() - 1) as nat) + num(
            s.subrange(1, s.len() as int),
        ),
    decreases s.len(),
{
    if s.len() == 1 {
        assert(s.drop_last() =~= Seq::<char>::empty());
        assert(s.subrange(1, 1) =~= Seq::<char>::empty());
    } else {
        let t = s.drop_last();
        lemma_num_front(t);
        let st = s.subrange(1, s.len() as int);
        let tt = t.subrange(1, t.len() as int);
        assert(st.drop_last() =~= tt);
        assert(st.last() == s.last());
        assert(t[0] == s[0]);
        let d0 = char_digit(s[0]);
        let dl = char_digit(s.last());
        let pw = pow10((t.len() - 1) as nat);
        assert(num(t) == d0 * pw + num(tt));
        assert(num(s) == num(t) * 10 + dl);
        assert(num(st) == num(tt) * 10 + dl);
        assert((d0 * pw + num(tt)) * 10 + dl == d0 * (10 * pw) + (num(tt) * 10 + dl))
            by (nonlinear_arith);
        assert(pow10((s.len() - 1) as nat) == 10 * pw);
    }
}

/// On digit strings of one width, text order is numeric order: this is
/// what the zero padding buys.
pub proof fn lemma_digits_lex(a: Seq<char>, b: Seq<char>)
    requires
        all_digits(a),
        all_digits(b),
        a.len() == b.len(),
    ensures
        lex_lt(a, b) == (num(a) < num(b)),
    decreases a.len(),
{
    if a.len() > 0 {
        let ta = a.subrange(1, a.len() as int);
        let tb = b.subrange(1, b.len() as int);
        assert(all_digits(ta) && all_digits(tb)) by {
            assert(forall|i: int| 0 <= i < ta.len() ==> #[trigger] ta[i] == a[i + 1]);
            assert(forall|i: int| 0 <= i < tb.len() ==> #[trigger] tb[i] == b[i + 1]);
        }
        lemma_num_front(a);
        lemma_num_front(b);
        lemma_num_bound(ta);
        lemma_num_bound(tb);
        let da = char_digit(a[0]);
        let db = char_digit(b[0]);
        let pw = pow10((a.len() - 1) as nat);
        assert(is_digit(a[0]) && is_digit(b[0]));
        if a[0] == b[0] {
            lemma_digits_lex(ta, tb);
        } else if (a[0] as u32) < (b[0] as u32) {
            assert(da < db);
            assert(da * pw + num(ta) < db * pw + num(tb)) by (nonlinear_arith)
                requires
                    da < db,
                    0 <= num(ta) < pw,
                    0 <= num(tb),
                    pw > 0,
            {}
        } else {
            assert(da > db);
            assert(da * pw + num(ta) > db * pw + num(tb)) by (nonlinear_arith)
                requires
                    da > db,
                    0 <= num(tb) < pw,
                    0 <= num(ta),
                    pw > 0,
            {}
        }
    }
}

/// `v` in plain decimal, no padding (the usual notation).
pub open spec fn dec_str(v: int) -> Seq<char>
    decreases v,
{
    if v < 10 {
        seq![digit_char(v)]
    } else {
        dec_str(v / 10).push(digit_char(v % 10))
    }
}

/// Append `v` to `out` in plain decimal.
pub fn push_dec(out: &mut Vec<char>, v: u64)
    ensures
        final(out)@ == old(out)@ + dec_str(v as int),
    decreases v,
{
    if v < 10 {
        let d: char = digit_to_char(v);
        out.push(d);
        proof {
            assert(final(out)@ =~= old(out)@ + dec_str(v as int));
        }
    } else {
        push_dec(out, v / 10);
        let d: char = digit_to_char(v % 10);
        out.push(d);
        proof {
            assert(final(out)@ =~= old(out)@ + dec_str(v as int)) by {
                assert(dec_str(v as int) == dec_str((v as int) / 10).push(
                    digit_char((v as int) % 10),
                ));
            }
        }
    }
}

/// Read `n` decimal digits of `s` starting at `pos` as a number;
/// `None` when a non-digit stands among them.
pub fn read_num(s: &Vec<char>, pos: usize, n: usize) -> (r: Option<u128>)
    requires
        pos + n <= s@.len(),
        n <= 20,
    ensures
        match r {
            Some(val) => all_digits(s@.subrange(pos as int, pos as int + n as int)) && val
                == num(s@.subrange(pos as int, pos as int + n as int)),
            None => !all_digits(s@.subrange(pos as int, pos as int + n as int)),
        },
{
    let ghost full = s@.subrange(pos as int, pos as int + n as int);
    let slen: usize = s.len();
    let mut acc: u128 = 0;
    let mut i: usize = 0;
    proof {
        lemma_pow10_20();
    }
    while i < n
        invariant
            i <= n,
            n <= 20,
            pos + n <= slen,
            slen == s@.len(),
            all_digits(s@.subrange(pos as int, pos as int + i as int)),
            acc == num(s@.subrange(pos as int, pos as int + i as int)),
            acc < pow10(i as nat),
            pow10(20) < u128::MAX,
        decreases n - i,
    {
        let ghost pre = s@.subrange(pos as int, pos as int + i as int);
        match char_to_digit(s[pos + i]) {
            None => {
                proof {
                    let cur = s@.subrange(pos as int, pos as int + n as int);
                    assert(cur[i as int] == s@[pos + i]);
                    assert(!is_digit(cur[i as int]));
                }
                return None;
            },
            Some(d) => {
                proof {
                    lemma_pow10_increases((i + 1) as nat, 20);
                    lemma_num_bound(pre);
                    assert(acc * 10 + 9 < pow10((i + 1) as nat)) by (nonlinear_arith)
                        requires
                            acc < pow10(i as nat),
                            0 <= acc,
                            pow10((i + 1) as nat) == 10 * pow10(i as nat),
                    {}
                }
                acc = acc * 10 + (d as u128);
                i = i + 1;
                proof {
                    let cur = s@.subrange(pos as int, pos as int + i as int);
                    assert(cur.drop_last() =~= pre);
                    assert(cur.last() == s@[pos + i - 1]);
                    assert(forall|j: int| 0 <= j < cur.len() ==> #[trigger] cur[j] == if j
                        < pre.len() { pre[j] } else { s@[pos + i - 1] });
                }
            },
        }
    }
    proof {
        assert(s@.subrange(pos as int, pos as int + i as int) =~= full);
    }
    Some(acc)
}

} // verus!
