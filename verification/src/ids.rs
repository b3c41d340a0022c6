//! Short unique identifiers: `"{prefix}-{nanos:x}-{counter:x}"`.

use vstd::prelude::*;
use crate::text::push_char;

verus! {

/// Lower-case hexadecimal digit for `d < 16`.
pub open spec fn hex_digit(d: nat) -> char {
    if d < 10 {
        ('0' as u32 + d) as char
    } else {
        ('a' as u32 + (d - 10)) as char
    }
}

/// Lower-case hexadecimal rendering of `n` without leading zeros (the
/// `{:x}` format).
pub open spec fn hex_seq(n: nat) -> Seq<char>
    decreases n,
{
    if n < 16 {
        seq![hex_digit(n)]
    } else {
        hex_seq(n / 16).push(hex_digit(n % 16))
    }
}

/// Decimal digit for `d < 10`.
pub open spec fn dec_digit(d: nat) -> char {
    ('0' as u32 + d) as char
}

/// Decimal rendering of `n` without leading zeros (the `{}` format).
pub open spec fn dec_seq(n: nat) -> Seq<char>
    decreases n,
{
    if n < 10 {
        seq![dec_digit(n)]
    } else {
        dec_seq(n / 10).push(dec_digit(n % 10))
    }
}

/// The identifier built from a prefix, a clock reading and a counter.
pub open spec fn id_spec(prefix: Seq<char>, nanos: nat, counter: nat) -> Seq<char> {
    prefix + seq!['-'] + hex_seq(nanos) + seq!['-'] + hex_seq(counter)
}

fn hex_char(d: u128) -> (c: char)
    requires
        d < 16,
    ensures
        c == hex_digit(d as nat),
{
    let v: u8 = d as u8;
    if v < 10 {
        let c = (48u8 + v) as char;
        assert(c == ('0' as u32 + d) as char);
        c
    } else {
        let c = (87u8 + v) as char;
        assert(c == ('a' as u32 + (d - 10)) as char);
        c
    }
}

/// Appends the hexadecimal rendering of `n` to `s`.
pub fn push_hex(s: &mut String, n: u128)
    ensures
        final(s)@ == old(s)@ + hex_seq(n as nat),
    decreases n,
{
    if n >= 16 {
        push_hex(s, n / 16);
    }
    push_char(s, hex_char(n % 16));
    proof {
        if n < 16 {
            assert(n % 16 == n);
        }
    }
}

/// Appends the decimal rendering of `n` to `s`.
pub fn push_dec(s: &mut String, n: u64)
    ensures
        final(s)@ == old(s)@ + dec_seq(n as nat),
    decreases n,
{
    if n >= 10 {
        push_dec(s, n / 10);
    }
    let d: u8 = (n % 10) as u8;
    let c = (48u8 + d) as char;
    assert(c == dec_digit((n % 10) as nat));
    push_char(s, c);
    proof {
        if n < 10 {
            assert(n % 10 == n);
        }
    }
}

/// Builds the identifier `"{prefix}-{nanos:x}-{counter:x}"`. The clock
/// reading and the process-wide counter are supplied by the caller.
pub fn new_id(prefix: &str, nanos: u128, counter: u32) -> (r: String)
    ensures
        r@ == id_spec(prefix@, nanos as nat, counter as nat),
{
    let mut s = String::from_str(prefix);
    push_char(&mut s, '-');
    push_hex(&mut s, nanos);
    push_char(&mut s, '-');
    push_hex(&mut s, counter as u128);
    s
}

/// Every hex digit is an ASCII alphanumeric, never `-`.
pub proof fn lemma_hex_seq_shape(n: nat)
    ensures
        hex_seq(n).len() >= 1,
        forall|i: int| 0 <= i < hex_seq(n).len() ==> #[trigger] hex_seq(n)[i] != '-',
    decreases n,
{
    if n >= 16 {
        lemma_hex_seq_shape(n / 16);
        let p = hex_seq(n / 16);
        assert forall|i: int| 0 <= i < hex_seq(n).len() implies #[trigger] hex_seq(n)[i] != '-' by {
            if i < p.len() {
                assert(hex_seq(n)[i] == p[i]);
            }
        }
    }
}

proof fn lemma_hex_digit_injective(a: nat, b: nat)
    requires
        a < 16,
        b < 16,
        hex_digit(a) == hex_digit(b),
    ensures
        a == b,
{
}

/// Distinct numbers have distinct hexadecimal renderings.
pub proof fn lemma_hex_seq_injective(a: nat, b: nat)
    requires
        hex_seq(a) == hex_seq(b),
    ensures
        a == b,
    decreases a + b,
{
    lemma_hex_seq_shape(a / 16);
    lemma_hex_seq_shape(b / 16);
    if a < 16 && b < 16 {
        assert(hex_seq(a) == seq![hex_digit(a)]);
        assert(hex_seq(b) == seq![hex_digit(b)]);
        assert(hex_seq(a)[0] == hex_digit(a));
        assert(hex_seq(b)[0] == hex_digit(b));
        lemma_hex_digit_injective(a, b);
    } else if a < 16 {
        assert(hex_seq(a).len() == 1);
        assert(hex_seq(b).len() >= 2);
    } else if b < 16 {
        assert(hex_seq(b).len() == 1);
        assert(hex_seq(a).len() >= 2);
    } else {
        let pa = hex_seq(a / 16);
        let pb = hex_seq(b / 16);
        assert(hex_seq(a) == pa.push(hex_digit(a % 16)));
        assert(hex_seq(b) == pb.push(hex_digit(b % 16)));
        assert(pa.len() == pb.len());
        assert(hex_seq(a).last() == hex_digit(a % 16));
        assert(hex_seq(b).last() == hex_digit(b % 16));
        lemma_hex_digit_injective(a % 16, b % 16);
        assert(pa =~= hex_seq(a).drop_last());
        assert(pb =~= hex_seq(b).drop_last());
        lemma_hex_seq_injective(a / 16, b / 16);
    }
}

/// Identifiers are unique: for one prefix, two identifiers are equal only
/// when they were built from the same clock reading and the same counter.
pub proof fn lemma_id_injective(prefix: Seq<char>, n1: nat, c1: nat, n2: nat, c2: nat)
    requires
        id_spec(prefix, n1, c1) == id_spec(prefix, n2, c2),
    ensures
        n1 == n2,
        c1 == c2,
{
    let h1 = hex_seq(n1);
    let h2 = hex_seq(n2);
    let k1 = hex_seq(c1);
    let k2 = hex_seq(c2);
    lemma_hex_seq_shape(n1);
    lemma_hex_seq_shape(n2);
    lemma_hex_seq_shape(c1);
    lemma_hex_seq_shape(c2);
    let s1 = id_spec(prefix, n1, c1);
    let s2 = id_spec(prefix, n2, c2);
    let p: int = prefix.len() + 1int;
    let t1 = h1 + seq!['-'] + k1;
    let t2 = h2 + seq!['-'] + k2;
    assert(s1.subrange(p, s1.len() as int) =~= t1);
    assert(s2.subrange(p, s2.len() as int) =~= t2);
    assert(t1 == t2);
    if h1.len() < h2.len() {
        assert(t1[h1.len() as int] == '-');
        assert(t2[h1.len() as int] == h2[h1.len() as int]);
    } else if h2.len() < h1.len() {
        assert(t2[h2.len() as int] == '-');
        assert(t1[h2.len() as int] == h1[h2.len() as int]);
    }
    assert(h1.len() == h2.len());
    assert(h1 =~= t1.subrange(0, h1.len() as int));
    assert(h2 =~= t2.subrange(0, h2.len() as int));
    assert(k1 =~= t1.subrange(h1.len() + 1int, t1.len() as int));
    assert(k2 =~= t2.subrange(h2.len() + 1int, t2.len() as int));
    lemma_hex_seq_injective(n1, n2);
    lemma_hex_seq_injective(c1, c2);
}

/// Identifiers built from different counters differ, whatever their
/// prefixes and clock readings: the counter is the part after the last `-`.
pub proof fn lemma_id_counter_determined(p1: Seq<char>, n1: nat, c1: nat, p2: Seq<char>, n2: nat, c2: nat)
    requires
        id_spec(p1, n1, c1) == id_spec(p2, n2, c2),
    ensures
        c1 == c2,
{
    let k1 = hex_seq(c1);
    let k2 = hex_seq(c2);
    lemma_hex_seq_shape(c1);
    lemma_hex_seq_shape(c2);
    let s1 = id_spec(p1, n1, c1);
    let s2 = id_spec(p2, n2, c2);
    let a1 = p1 + seq!['-'] + hex_seq(n1) + seq!['-'];
    let a2 = p2 + seq!['-'] + hex_seq(n2) + seq!['-'];
    assert(s1 =~= a1 + k1);
    assert(s2 =~= a2 + k2);
    let len = s1.len() as int;
    if k1.len() < k2.len() {
        let i = len - k1.len() - 1;
        assert(s1[i] == a1[a1.len() - 1]);
        assert(s2[i] == k2[i - a2.len()]);
    } else if k2.len() < k1.len() {
        let i = len - k2.len() - 1;
        assert(s2[i] == a2[a2.len() - 1]);
        assert(s1[i] == k1[i - a1.len()]);
    }
    assert(k1 =~= s1.subrange(len - k1.len(), len));
    assert(k2 =~= s2.subrange(len - k2.len(), len));
    lemma_hex_seq_injective(c1, c2);
}

} // verus!
