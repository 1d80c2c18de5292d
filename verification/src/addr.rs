//! Dotted-quad IPv4 text: grammar predicates, strict parsing, and encoding.
//!
//! The grammar separates two phases, as the rule engine requires: a purely
//! syntactic pattern check (four groups of one to three digits separated by
//! dots), and a strict numeric parse that additionally bounds every octet
//! by 255.

use vstd::prelude::*;
use vstd::string::StringExecFns;

verus! {

/// True iff `c` is a decimal digit.
pub open spec fn is_digit_char(c: char) -> bool {
    48 <= c as u32 <= 57
}

/// Numeric value of a digit character.
pub open spec fn digit_val(c: char) -> int {
    c as u32 - 48
}

/// The indices at which `sep` occurs in `s`, in increasing order.
pub open spec fn char_positions(s: Seq<char>, sep: char) -> Seq<int>
    decreases s.len(),
{
    if s.len() == 0 {
        Seq::empty()
    } else if s.last() == sep {
        char_positions(s.drop_last(), sep).push(s.len() - 1)
    } else {
        char_positions(s.drop_last(), sep)
    }
}

/// Every listed position holds `sep`, every occurrence of `sep` is listed,
/// and the list is strictly increasing.
pub proof fn lemma_char_positions_props(s: Seq<char>, sep: char)
    ensures
        forall|k: int|
            0 <= k < char_positions(s, sep).len() ==> 0 <= #[trigger] char_positions(s, sep)[k]
                < s.len() && s[char_positions(s, sep)[k]] == sep,
        forall|i: int| 0 <= i < s.len() && s[i] == sep ==> char_positions(s, sep).contains(i),
        forall|k1: int, k2: int|
            0 <= k1 < k2 < char_positions(s, sep).len() ==> #[trigger] char_positions(s, sep)[k1]
                < #[trigger] char_positions(s, sep)[k2],
    decreases s.len(),
{
    if s.len() == 0 {
    } else {
        let d = s.drop_last();
        lemma_char_positions_props(d, sep);
        assert(forall|p: int| 0 <= p < d.len() ==> d[p] == s[p]);
        assert forall|i: int| 0 <= i < s.len() && s[i] == sep implies char_positions(
            s,
            sep,
        ).contains(i) by {
            if i < s.len() - 1 {
                assert(char_positions(d, sep).contains(i));
                let k = choose|k: int|
                    0 <= k < char_positions(d, sep).len() && char_positions(d, sep)[k] == i;
                assert(char_positions(s, sep)[k] == i);
            } else {
                assert(s.last() == sep);
                assert(char_positions(s, sep).last() == i);
            }
        }
    }
}

/// The separator positions of a concatenation are those of the left part
/// followed by those of the right part, shifted by the left part's length.
pub proof fn lemma_char_positions_append(x: Seq<char>, y: Seq<char>, sep: char)
    ensures
        char_positions(x + y, sep) == char_positions(x, sep) + char_positions(y, sep).map_values(
            |p: int| p + x.len(),
        ),
    decreases y.len(),
{
    let shift = |p: int| p + x.len();
    if y.len() == 0 {
        assert(x + y =~= x);
        assert(char_positions(y, sep).map_values(shift) =~= Seq::<int>::empty());
        assert(char_positions(x, sep) + Seq::<int>::empty() =~= char_positions(x, sep));
    } else {
        lemma_char_positions_append(x, y.drop_last(), sep);
        assert((x + y).drop_last() =~= x + y.drop_last());
        assert((x + y).last() == y.last());
        if y.last() == sep {
            assert(char_positions(y, sep) == char_positions(y.drop_last(), sep).push(
                y.len() - 1,
            ));
            assert(char_positions(y, sep).map_values(shift) =~= char_positions(
                y.drop_last(),
                sep,
            ).map_values(shift).push(x.len() + y.len() - 1));
            assert(char_positions(x + y, sep) =~= char_positions(x, sep) + char_positions(
                y,
                sep,
            ).map_values(shift));
        } else {
            assert(char_positions(y, sep) == char_positions(y.drop_last(), sep));
        }
    }
}

/// A string without the separator contributes no positions.
pub proof fn lemma_char_positions_absent(s: Seq<char>, sep: char)
    requires
        forall|i: int| 0 <= i < s.len() ==> s[i] != sep,
    ensures
        char_positions(s, sep) == Seq::<int>::empty(),
    decreases s.len(),
{
    if s.len() > 0 {
        lemma_char_positions_absent(s.drop_last(), sep);
    }
}

/// Collects the indices at which `sep` occurs in `s`, in increasing order.
fn char_pos_list(s: &str, sep: char) -> (r: Vec<usize>)
    ensures
        r@.map_values(|u: usize| u as int) == char_positions(s@, sep),
{
    let n = s.unicode_len();
    let mut r: Vec<usize> = Vec::new();
    assert(s@.take(0) =~= Seq::<char>::empty());
    assert(r@.map_values(|u: usize| u as int) =~= Seq::<int>::empty());
    for i in 0..n
        invariant
            n == s@.len(),
            r@.map_values(|u: usize| u as int) == char_positions(s@.take(i as int), sep),
    {
        let c = s.get_char(i);
        proof {
            assert(s@.take(i + 1).drop_last() =~= s@.take(i as int));
            assert(s@.take(i + 1).last() == s@[i as int]);
        }
        if c == sep {
            let ghost old_r = r@;
            r.push(i);
            proof {
                assert(r@.map_values(|u: usize| u as int) =~= old_r.map_values(
                    |u: usize| u as int,
                ).push(i as int));
            }
        }
    }
    proof {
        assert(s@.take(n as int) =~= s@);
    }
    r
}

/// An octet pattern: one to three decimal digits. No numeric bound is
/// checked here; that belongs to the strict parse.
pub open spec fn is_octet_pattern(s: Seq<char>) -> bool {
    1 <= s.len() <= 3 && forall|i: int| 0 <= i < s.len() ==> is_digit_char(#[trigger] s[i])
}

/// Decimal value of a digit string.
pub open spec fn octet_val(s: Seq<char>) -> int
    decreases s.len(),
{
    if s.len() == 0 {
        0
    } else {
        octet_val(s.drop_last()) * 10 + digit_val(s.last())
    }
}

/// A string of at most three digits denotes a value below 1000, and one of
/// at most two digits a value below 100.
pub proof fn lemma_octet_val_bound(s: Seq<char>)
    requires
        forall|i: int| 0 <= i < s.len() ==> is_digit_char(#[trigger] s[i]),
    ensures
        0 <= octet_val(s),
        s.len() <= 1 ==> octet_val(s) < 10,
        s.len() <= 2 ==> octet_val(s) < 100,
        s.len() <= 3 ==> octet_val(s) < 1000,
    decreases s.len(),
{
    if s.len() > 0 {
        lemma_octet_val_bound(s.drop_last());
    }
}

/// Unfolds `octet_val` for the short strings the grammars use.
pub proof fn lemma_octet_val_small(s: Seq<char>)
    ensures
        s.len() == 1 ==> octet_val(s) == digit_val(s[0]),
        s.len() == 2 ==> octet_val(s) == digit_val(s[0]) * 10 + digit_val(s[1]),
        s.len() == 3 ==> octet_val(s) == (digit_val(s[0]) * 10 + digit_val(s[1])) * 10 + digit_val(
            s[2],
        ),
{
    reveal_with_fuel(octet_val, 4);
    if 1 <= s.len() <= 3 {
        assert(s.last() == s[s.len() - 1]);
        let d1 = s.drop_last();
        if d1.len() > 0 {
            assert(d1.last() == s[s.len() - 2]);
            let d2 = d1.drop_last();
            if d2.len() > 0 {
                assert(d2.last() == s[s.len() - 3]);
                assert(d2.drop_last().len() == 0);
            }
        }
    }
}

/// Checks whether `s[start..end]` is an octet pattern.
fn check_octet_pattern(s: &str, start: usize, end: usize) -> (b: bool)
    requires
        start <= end <= s@.len(),
    ensures
        b == is_octet_pattern(s@.subrange(start as int, end as int)),
{
    let ghost seg = s@.subrange(start as int, end as int);
    if end - start < 1 || end - start > 3 {
        return false;
    }
    for j in start..end
        invariant
            start <= j <= end <= s@.len(),
            seg == s@.subrange(start as int, end as int),
            forall|i: int| start <= i < j ==> is_digit_char(#[trigger] s@[i]),
    {
        let cv = s.get_char(j) as u32;
        if cv < 48 || cv > 57 {
            assert(!is_digit_char(seg[j - start]));
            return false;
        }
    }
    assert forall|i: int| 0 <= i < seg.len() implies is_digit_char(#[trigger] seg[i]) by {
        assert(seg[i] == s@[start + i]);
    }
    true
}

/// Numeric value of the octet pattern at `s[start..end]`.
fn octet_value(s: &str, start: usize, end: usize) -> (v: u16)
    requires
        start <= end <= s@.len(),
        is_octet_pattern(s@.subrange(start as int, end as int)),
    ensures
        v == octet_val(s@.subrange(start as int, end as int)),
        v < 1000,
{
    let ghost seg = s@.subrange(start as int, end as int);
    let mut acc: u16 = 0;
    for j in start..end
        invariant
            start <= j <= end <= s@.len(),
            end - start <= 3,
            seg == s@.subrange(start as int, end as int),
            is_octet_pattern(seg),
            acc == octet_val(s@.subrange(start as int, j as int)),
            acc < 1000,
    {
        let ghost pre = s@.subrange(start as int, j as int);
        let ghost cur = s@.subrange(start as int, j + 1);
        proof {
            assert(cur.drop_last() =~= pre);
            assert(cur.last() == seg[j - start]);
            assert(forall|i: int| 0 <= i < pre.len() ==> pre[i] == #[trigger] seg[i]);
            lemma_octet_val_bound(pre);
        }
        let cv = s.get_char(j) as u32;
        assert(is_digit_char(seg[j - start]));
        acc = acc * 10 + ((cv - 48) as u16);
    }
    proof {
        assert(s@.subrange(start as int, end as int) =~= seg);
    }
    acc
}

/// The `k`-th dot-separated segment of `s`, for a string whose dot
/// positions are exactly three.
pub open spec fn addr_seg(s: Seq<char>, k: int) -> Seq<char> {
    let d = char_positions(s, '.');
    if k == 0 {
        s.subrange(0, d[0])
    } else if k == 1 {
        s.subrange(d[0] + 1, d[1])
    } else if k == 2 {
        s.subrange(d[1] + 1, d[2])
    } else {
        s.subrange(d[2] + 1, s.len() as int)
    }
}

/// The dotted-quad pattern: four octet patterns separated by three dots.
pub open spec fn is_addr_pattern(s: Seq<char>) -> bool {
    char_positions(s, '.').len() == 3 && is_octet_pattern(addr_seg(s, 0)) && is_octet_pattern(
        addr_seg(s, 1),
    ) && is_octet_pattern(addr_seg(s, 2)) && is_octet_pattern(addr_seg(s, 3))
}

/// The 32-bit value of an address given as four octet values, the first
/// octet being the most significant byte.
pub open spec fn addr_value(a: int, b: int, c: int, d: int) -> int {
    a * 0x100_0000 + b * 0x1_0000 + c * 0x100 + d
}

/// Strict parse of a dotted-quad string: the pattern must match and every
/// octet value must lie within 0..=255.
pub open spec fn spec_parse_ipv4(s: Seq<char>) -> Option<u32> {
    if is_addr_pattern(s) && octet_val(addr_seg(s, 0)) <= 255 && octet_val(addr_seg(s, 1)) <= 255
        && octet_val(addr_seg(s, 2)) <= 255 && octet_val(addr_seg(s, 3)) <= 255 {
        Some(
            addr_value(
                octet_val(addr_seg(s, 0)),
                octet_val(addr_seg(s, 1)),
                octet_val(addr_seg(s, 2)),
                octet_val(addr_seg(s, 3)),
            ) as u32,
        )
    } else {
        None
    }
}

/// Checks the dotted-quad pattern, without any numeric bound.
pub(crate) fn check_addr_pattern(s: &str) -> (b: bool)
    ensures
        b == is_addr_pattern(s@),
{
    let n = s.unicode_len();
    let dots = char_pos_list(s, '.');
    proof {
        lemma_char_positions_props(s@, '.');
    }
    if dots.len() != 3 {
        return false;
    }
    let d0 = dots[0];
    let d1 = dots[1];
    let d2 = dots[2];
    assert(d0 as int == char_positions(s@, '.')[0]);
    assert(d1 as int == char_positions(s@, '.')[1]);
    assert(d2 as int == char_positions(s@, '.')[2]);
    check_octet_pattern(s, 0, d0) && check_octet_pattern(s, d0 + 1, d1) && check_octet_pattern(
        s,
        d1 + 1,
        d2,
    ) && check_octet_pattern(s, d2 + 1, n)
}

/// Strict parse of a dotted-quad string into its 32-bit value.
pub fn parse_ipv4(s: &str) -> (r: Option<u32>)
    ensures
        r == spec_parse_ipv4(s@),
{
    if !check_addr_pattern(s) {
        return None;
    }
    let n = s.unicode_len();
    let dots = char_pos_list(s, '.');
    proof {
        lemma_char_positions_props(s@, '.');
    }
    let d0 = dots[0];
    let d1 = dots[1];
    let d2 = dots[2];
    assert(d0 as int == char_positions(s@, '.')[0]);
    assert(d1 as int == char_positions(s@, '.')[1]);
    assert(d2 as int == char_positions(s@, '.')[2]);
    let a = octet_value(s, 0, d0);
    let b = octet_value(s, d0 + 1, d1);
    let c = octet_value(s, d1 + 1, d2);
    let d = octet_value(s, d2 + 1, n);
    if a > 255 || b > 255 || c > 255 || d > 255 {
        return None;
    }
    Some((a as u32) * 0x100_0000 + (b as u32) * 0x1_0000 + (c as u32) * 0x100 + (d as u32))
}

/// The digit character for a value from 0 to 9.
pub open spec fn digit_char(d: int) -> char {
    if d == 0 {
        '0'
    } else if d == 1 {
        '1'
    } else if d == 2 {
        '2'
    } else if d == 3 {
        '3'
    } else if d == 4 {
        '4'
    } else if d == 5 {
        '5'
    } else if d == 6 {
        '6'
    } else if d == 7 {
        '7'
    } else if d == 8 {
        '8'
    } else {
        '9'
    }
}

/// Canonical decimal spelling of an octet value, without leading zeros.
pub open spec fn spec_encode_octet(o: int) -> Seq<char> {
    if o < 10 {
        seq![digit_char(o)]
    } else if o < 100 {
        seq![digit_char(o / 10), digit_char(o % 10)]
    } else {
        seq![digit_char(o / 100), digit_char((o / 10) % 10), digit_char(o % 10)]
    }
}

/// Canonical dotted-quad spelling of a 32-bit address value.
pub open spec fn spec_encode_ipv4(x: u32) -> Seq<char> {
    spec_encode_octet(x as int / 0x100_0000) + seq!['.'] + spec_encode_octet(
        (x as int / 0x1_0000) % 0x100,
    ) + seq!['.'] + spec_encode_octet((x as int / 0x100) % 0x100) + seq!['.'] + spec_encode_octet(
        x as int % 0x100,
    )
}

/// `digit_char` and `digit_val` are inverse on single digits.
pub proof fn lemma_digit_char(d: int)
    requires
        0 <= d <= 9,
    ensures
        is_digit_char(digit_char(d)),
        digit_val(digit_char(d)) == d,
{
}

/// The canonical spelling of an octet value is an octet pattern and
/// evaluates back to the value.
pub proof fn lemma_encode_octet(o: int)
    requires
        0 <= o <= 255,
    ensures
        is_octet_pattern(spec_encode_octet(o)),
        octet_val(spec_encode_octet(o)) == o,
{
    let e = spec_encode_octet(o);
    lemma_octet_val_small(e);
    if o < 10 {
        lemma_digit_char(o);
    } else if o < 100 {
        assert(0 <= o / 10 <= 9 && 0 <= o % 10 <= 9) by (nonlinear_arith)
            requires
                10 <= o < 100,
        ;
        lemma_digit_char(o / 10);
        lemma_digit_char(o % 10);
        assert((o / 10) * 10 + o % 10 == o) by (nonlinear_arith);
    } else {
        assert(0 <= o / 100 <= 9 && 0 <= (o / 10) % 10 <= 9 && 0 <= o % 10 <= 9)
            by (nonlinear_arith)
            requires
                100 <= o <= 255,
        ;
        lemma_digit_char(o / 100);
        lemma_digit_char((o / 10) % 10);
        lemma_digit_char(o % 10);
        assert(((o / 100) * 10 + (o / 10) % 10) * 10 + o % 10 == o) by (nonlinear_arith)
            requires
                100 <= o <= 255,
        ;
    }
}

/// Appends one decimal digit.
fn push_digit(out: &mut String, d: u16)
    requires
        d <= 9,
    ensures
        final(out)@ == old(out)@.push(digit_char(d as int)),
{
    proof {
        reveal_strlit("0");
        reveal_strlit("1");
        reveal_strlit("2");
        reveal_strlit("3");
        reveal_strlit("4");
        reveal_strlit("5");
        reveal_strlit("6");
        reveal_strlit("7");
        reveal_strlit("8");
        reveal_strlit("9");
    }
    match d {
        0 => out.append("0"),
        1 => out.append("1"),
        2 => out.append("2"),
        3 => out.append("3"),
        4 => out.append("4"),
        5 => out.append("5"),
        6 => out.append("6"),
        7 => out.append("7"),
        8 => out.append("8"),
        _ => out.append("9"),
    }
    proof {
        assert(final(out)@ =~= old(out)@.push(digit_char(d as int)));
    }
}

/// Appends the canonical decimal spelling of an octet value.
fn push_octet(out: &mut String, o: u16)
    requires
        o <= 255,
    ensures
        final(out)@ == old(out)@ + spec_encode_octet(o as int),
{
    if o >= 100 {
        push_digit(out, o / 100);
        push_digit(out, (o / 10) % 10);
        push_digit(out, o % 10);
    } else if o >= 10 {
        push_digit(out, o / 10);
        push_digit(out, o % 10);
    } else {
        push_digit(out, o);
    }
    proof {
        assert(final(out)@ =~= old(out)@ + spec_encode_octet(o as int));
    }
}

/// Canonical dotted-quad spelling of a 32-bit address value.
pub fn encode_ipv4(x: u32) -> (r: String)
    ensures
        r@ == spec_encode_ipv4(x),
{
    proof {
        reveal_strlit(".");
    }
    let mut out = String::new();
    push_octet(&mut out, (x / 0x100_0000) as u16);
    out.append(".");
    push_octet(&mut out, ((x / 0x1_0000) % 0x100) as u16);
    out.append(".");
    push_octet(&mut out, ((x / 0x100) % 0x100) as u16);
    out.append(".");
    push_octet(&mut out, (x % 0x100) as u16);
    proof {
        assert(out@ =~= spec_encode_ipv4(x));
    }
    out
}

/// The separator positions of a one-character string.
proof fn lemma_char_positions_single(c: char, sep: char)
    ensures
        c == sep ==> char_positions(seq![c], sep) == seq![0int],
        c != sep ==> char_positions(seq![c], sep) == Seq::<int>::empty(),
{
    reveal_with_fuel(char_positions, 2);
    assert(seq![c].drop_last() =~= Seq::<char>::empty());
    assert(seq![c].last() == c);
    if c == sep {
        assert(char_positions(seq![c], sep) =~= seq![0int]);
    }
}

/// Round trip: strict-parsing the canonical spelling of any 32-bit address
/// value yields that value back.
pub proof fn lemma_parse_encode_roundtrip(x: u32)
    ensures
        spec_parse_ipv4(spec_encode_ipv4(x)) == Some(x),
{
    let xi = x as int;
    let a = xi / 0x100_0000;
    let b = (xi / 0x1_0000) % 0x100;
    let c = (xi / 0x100) % 0x100;
    let d = xi % 0x100;
    assert(x / 0x100_0000 < 256 && (x / 0x1_0000) % 0x100 < 256 && (x / 0x100) % 0x100 < 256 && x
        % 0x100 < 256 && (x / 0x100_0000) * 0x100_0000 + ((x / 0x1_0000) % 0x100) * 0x1_0000 + ((x
        / 0x100) % 0x100) * 0x100 + (x % 0x100) == x) by (bit_vector);
    assert(0 <= a <= 255 && 0 <= b <= 255 && 0 <= c <= 255 && 0 <= d <= 255);
    assert(addr_value(a, b, c, d) == xi);
    let ea = spec_encode_octet(a);
    let eb = spec_encode_octet(b);
    let ec = spec_encode_octet(c);
    let ed = spec_encode_octet(d);
    lemma_encode_octet(a);
    lemma_encode_octet(b);
    lemma_encode_octet(c);
    lemma_encode_octet(d);
    let dot = seq!['.'];
    assert(forall|i: int| 0 <= i < ea.len() ==> #[trigger] ea[i] != '.') by {
        assert(forall|i: int| 0 <= i < ea.len() ==> is_digit_char(#[trigger] ea[i]));
    }
    assert(forall|i: int| 0 <= i < eb.len() ==> #[trigger] eb[i] != '.') by {
        assert(forall|i: int| 0 <= i < eb.len() ==> is_digit_char(#[trigger] eb[i]));
    }
    assert(forall|i: int| 0 <= i < ec.len() ==> #[trigger] ec[i] != '.') by {
        assert(forall|i: int| 0 <= i < ec.len() ==> is_digit_char(#[trigger] ec[i]));
    }
    assert(forall|i: int| 0 <= i < ed.len() ==> #[trigger] ed[i] != '.') by {
        assert(forall|i: int| 0 <= i < ed.len() ==> is_digit_char(#[trigger] ed[i]));
    }
    lemma_char_positions_absent(ea, '.');
    lemma_char_positions_absent(eb, '.');
    lemma_char_positions_absent(ec, '.');
    lemma_char_positions_absent(ed, '.');
    lemma_char_positions_single('.', '.');
    let la = ea.len() as int;
    let lb = eb.len() as int;
    let lc = ec.len() as int;
    let t1 = ea + dot;
    let t2 = t1 + eb;
    let t3 = t2 + dot;
    let t4 = t3 + ec;
    let t5 = t4 + dot;
    let full = t5 + ed;
    assert(full == spec_encode_ipv4(x));
    let d0 = la;
    let d1 = la + 1 + lb;
    let d2 = la + 2 + lb + lc;
    lemma_char_positions_append(ea, dot, '.');
    assert(char_positions(t1, '.') =~= seq![d0]);
    lemma_char_positions_append(t1, eb, '.');
    assert(char_positions(t2, '.') =~= seq![d0]);
    lemma_char_positions_append(t2, dot, '.');
    assert(char_positions(t3, '.') =~= seq![d0, d1]);
    lemma_char_positions_append(t3, ec, '.');
    assert(char_positions(t4, '.') =~= seq![d0, d1]);
    lemma_char_positions_append(t4, dot, '.');
    assert(char_positions(t5, '.') =~= seq![d0, d1, d2]);
    lemma_char_positions_append(t5, ed, '.');
    assert(char_positions(full, '.') =~= seq![d0, d1, d2]);
    assert(addr_seg(full, 0) =~= ea);
    assert(addr_seg(full, 1) =~= eb);
    assert(addr_seg(full, 2) =~= ec);
    assert(addr_seg(full, 3) =~= ed);
    assert(is_addr_pattern(full));
    assert(spec_parse_ipv4(full) == Some(addr_value(a, b, c, d) as u32));
    assert(addr_value(a, b, c, d) as u32 == x);
}

/// Round trip in terms of parsed strings: strict-parsing any valid
/// dotted-quad string and re-encoding the value yields a string that
/// strict-parses to the same 32-bit value.
pub proof fn lemma_strict_parse_reencode(s: Seq<char>)
    requires
        spec_parse_ipv4(s) is Some,
    ensures
        spec_parse_ipv4(spec_encode_ipv4(spec_parse_ipv4(s)->Some_0)) == spec_parse_ipv4(s),
{
    lemma_parse_encode_roundtrip(spec_parse_ipv4(s)->Some_0);
}

/// The subnet-prefix pattern: a decimal number from 0 to 32, written with
/// one digit, or with two digits and no leading zero.
pub open spec fn is_prefix_pattern(s: Seq<char>) -> bool {
    (s.len() == 1 && is_digit_char(s[0])) || (s.len() == 2 && is_digit_char(s[0]) && is_digit_char(
        s[1],
    ) && digit_val(s[0]) >= 1 && octet_val(s) <= 32)
}

/// The range pattern: two dotted-quad patterns joined by a single hyphen.
pub open spec fn is_range_pattern(s: Seq<char>) -> bool {
    let h = char_positions(s, '-');
    h.len() == 1 && is_addr_pattern(s.subrange(0, h[0])) && is_addr_pattern(
        s.subrange(h[0] + 1, s.len() as int),
    )
}

/// The subnet pattern: a dotted-quad pattern, a slash, and a prefix pattern.
pub open spec fn is_subnet_pattern(s: Seq<char>) -> bool {
    let h = char_positions(s, '/');
    h.len() == 1 && is_addr_pattern(s.subrange(0, h[0])) && is_prefix_pattern(
        s.subrange(h[0] + 1, s.len() as int),
    )
}

/// The strict parses of the two sides of a range pattern.
pub open spec fn range_bounds(s: Seq<char>) -> (Option<u32>, Option<u32>) {
    let p = char_positions(s, '-')[0];
    (spec_parse_ipv4(s.subrange(0, p)), spec_parse_ipv4(s.subrange(p + 1, s.len() as int)))
}

/// The strict parse of the address part and the value of the prefix part
/// of a subnet pattern.
pub open spec fn subnet_parts(s: Seq<char>) -> (Option<u32>, int) {
    let p = char_positions(s, '/')[0];
    (spec_parse_ipv4(s.subrange(0, p)), octet_val(s.subrange(p + 1, s.len() as int)))
}

/// A dotted-quad pattern consists of digits and dots only.
pub proof fn lemma_addr_pattern_chars(s: Seq<char>)
    requires
        is_addr_pattern(s),
    ensures
        forall|i: int| 0 <= i < s.len() ==> is_digit_char(#[trigger] s[i]) || s[i] == '.',
{
    lemma_char_positions_props(s, '.');
    let d = char_positions(s, '.');
    let d0 = d[0];
    let d1 = d[1];
    let d2 = d[2];
    assert(d0 < d1 < d2);
    assert forall|i: int| 0 <= i < s.len() implies is_digit_char(#[trigger] s[i]) || s[i]
        == '.' by {
        if i < d0 {
            assert(s[i] == addr_seg(s, 0)[i]);
        } else if d0 < i < d1 {
            assert(s[i] == addr_seg(s, 1)[i - d0 - 1]);
        } else if d1 < i < d2 {
            assert(s[i] == addr_seg(s, 2)[i - d1 - 1]);
        } else if d2 < i {
            assert(s[i] == addr_seg(s, 3)[i - d2 - 1]);
        }
    }
}

/// Joining two separator-free strings with a single separator puts that
/// separator's only occurrence between them, so the two sides are recovered
/// exactly.
pub proof fn lemma_join_single_sep(a: Seq<char>, sep: char, b: Seq<char>)
    requires
        forall|i: int| 0 <= i < a.len() ==> #[trigger] a[i] != sep,
        forall|i: int| 0 <= i < b.len() ==> #[trigger] b[i] != sep,
    ensures
        char_positions(a + seq![sep] + b, sep) == seq![a.len() as int],
        (a + seq![sep] + b).subrange(0, a.len() as int) == a,
        (a + seq![sep] + b).subrange(a.len() as int + 1, (a + seq![sep] + b).len() as int) == b,
{
    let s = a + seq![sep] + b;
    lemma_char_positions_absent(a, sep);
    lemma_char_positions_absent(b, sep);
    lemma_char_positions_single(sep, sep);
    lemma_char_positions_append(a, seq![sep], sep);
    assert(char_positions(a + seq![sep], sep) =~= seq![a.len() as int]);
    lemma_char_positions_append(a + seq![sep], b, sep);
    assert(char_positions(s, sep) =~= seq![a.len() as int]);
    assert(s.subrange(0, a.len() as int) =~= a);
    assert(s.subrange(a.len() as int + 1, s.len() as int) =~= b);
}

/// Checks the range pattern.
pub(crate) fn check_range_pattern(s: &str) -> (b: bool)
    ensures
        b == is_range_pattern(s@),
{
    let n = s.unicode_len();
    let hy = char_pos_list(s, '-');
    proof {
        lemma_char_positions_props(s@, '-');
    }
    if hy.len() != 1 {
        return false;
    }
    let p = hy[0];
    assert(p as int == char_positions(s@, '-')[0]);
    let left = s.substring_char(0, p);
    let right = s.substring_char(p + 1, n);
    check_addr_pattern(left) && check_addr_pattern(right)
}

/// Checks the subnet pattern.
pub(crate) fn check_subnet_pattern(s: &str) -> (b: bool)
    ensures
        b == is_subnet_pattern(s@),
{
    let n = s.unicode_len();
    let sl = char_pos_list(s, '/');
    proof {
        lemma_char_positions_props(s@, '/');
    }
    if sl.len() != 1 {
        return false;
    }
    let p = sl[0];
    assert(p as int == char_positions(s@, '/')[0]);
    let left = s.substring_char(0, p);
    if !check_addr_pattern(left) {
        return false;
    }
    let ghost pre = s@.subrange(p + 1, s@.len() as int);
    if n - p - 1 == 1 {
        let cv = s.get_char(p + 1) as u32;
        assert(pre[0] == s@[p + 1]);
        48 <= cv && cv <= 57
    } else if n - p - 1 == 2 {
        let cv0 = s.get_char(p + 1) as u32;
        let cv1 = s.get_char(p + 2) as u32;
        assert(pre[0] == s@[p + 1]);
        assert(pre[1] == s@[p + 2]);
        if 49 <= cv0 && cv0 <= 57 && 48 <= cv1 && cv1 <= 57 {
            proof {
                lemma_octet_val_small(pre);
            }
            (cv0 - 48) * 10 + (cv1 - 48) <= 32
        } else {
            false
        }
    } else {
        assert(pre.len() != 1 && pre.len() != 2);
        false
    }
}

/// Strict-parses both sides of a range pattern.
pub(crate) fn parse_range(s: &str) -> (r: (Option<u32>, Option<u32>))
    requires
        is_range_pattern(s@),
    ensures
        r == range_bounds(s@),
{
    let n = s.unicode_len();
    let hy = char_pos_list(s, '-');
    proof {
        lemma_char_positions_props(s@, '-');
    }
    let p = hy[0];
    assert(p as int == char_positions(s@, '-')[0]);
    let left = s.substring_char(0, p);
    let right = s.substring_char(p + 1, n);
    (parse_ipv4(left), parse_ipv4(right))
}

/// Strict-parses the address part of a subnet pattern and computes the
/// prefix length, which the pattern bounds by 32.
pub(crate) fn parse_subnet(s: &str) -> (r: (Option<u32>, u8))
    requires
        is_subnet_pattern(s@),
    ensures
        r.0 == subnet_parts(s@).0,
        r.1 == subnet_parts(s@).1,
        r.1 <= 32,
{
    let n = s.unicode_len();
    let sl = char_pos_list(s, '/');
    proof {
        lemma_char_positions_props(s@, '/');
    }
    let p = sl[0];
    assert(p as int == char_positions(s@, '/')[0]);
    let left = s.substring_char(0, p);
    let ghost pre = s@.subrange(p + 1, s@.len() as int);
    assert(is_octet_pattern(pre));
    let v = octet_value(s, p + 1, n);
    proof {
        lemma_octet_val_small(pre);
        assert(v <= 32);
    }
    (parse_ipv4(left), v as u8)
}

} // verus!
