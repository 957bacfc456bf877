//! Verified textual classification of network addresses: a string is an
//! IPv4 address (record type `A`), an IPv6 address (record type `AAAA`),
//! or neither (excluded from the desired record set).

use vstd::prelude::*;
use vstd::string::StrSliceExecFns;

verus! {

/// Positions, in order, at which character `c` occurs in `s`.
pub open spec fn char_positions(s: Seq<char>, c: char) -> Seq<int>
    decreases s.len(),
{
    if s.len() == 0 {
        Seq::empty()
    } else {
        char_positions(s.drop_last(), c) + if s.last() == c {
            seq![s.len() - 1]
        } else {
            Seq::empty()
        }
    }
}

/// `char_positions` lists exactly the occurrences of `c`, in increasing order.
pub proof fn lemma_char_positions_props(s: Seq<char>, c: char)
    ensures
        forall|q: int|
            0 <= q < char_positions(s, c).len() ==> 0 <= #[trigger] char_positions(s, c)[q]
                < s.len() && s[char_positions(s, c)[q]] == c,
        forall|q1: int, q2: int|
            0 <= q1 < q2 < char_positions(s, c).len() ==> char_positions(s, c)[q1]
                < char_positions(s, c)[q2],
        forall|m: int| 0 <= m < s.len() && s[m] == c ==> char_positions(s, c).contains(m),
    decreases s.len(),
{
    let pos = char_positions(s, c);
    if s.len() > 0 {
        let pre = char_positions(s.drop_last(), c);
        lemma_char_positions_props(s.drop_last(), c);
        assert(forall|i: int| 0 <= i < s.len() - 1 ==> s.drop_last()[i] == s[i]);
        assert forall|m: int| 0 <= m < s.len() && s[m] == c implies pos.contains(m) by {
            if m < s.len() - 1 {
                assert(pre.contains(m));
                let q = choose|q: int| 0 <= q < pre.len() && pre[q] == m;
                assert(pos[q] == m);
            } else {
                assert(s.last() == c);
                assert(pos[pre.len() as int] == m);
            }
        }
    }
}

/// The integer views of a vector of indices.
pub open spec fn index_views(v: Seq<usize>) -> Seq<int> {
    v.map_values(|x: usize| x as int)
}

/// Collect the positions at which `c` occurs in `s`.
pub fn find_char_positions(s: &str, c: char) -> (v: Vec<usize>)
    ensures
        index_views(v@) == char_positions(s@, c),
{
    let n = s.unicode_len();
    let mut v: Vec<usize> = Vec::new();
    let mut i: usize = 0;
    while i < n
        invariant
            n == s@.len(),
            0 <= i <= n,
            index_views(v@) == char_positions(s@.take(i as int), c),
        decreases n - i,
    {
        let ghost prefix = s@.take(i as int);
        let ghost next = s@.take(i + 1);
        proof {
            assert(next.drop_last() =~= prefix);
            assert(next.last() == s@[i as int]);
        }
        if s.get_char(i) == c {
            v.push(i);
            proof {
                assert(index_views(v@) =~= char_positions(prefix, c) + seq![i as int]);
            }
        } else {
            proof {
                assert(char_positions(next, c) =~= char_positions(prefix, c));
            }
        }
        i += 1;
    }
    proof {
        assert(s@.take(n as int) =~= s@);
    }
    v
}

/// A decimal digit.
pub open spec fn is_digit(c: char) -> bool {
    48 <= c as u32 <= 57
}

/// Value of a decimal digit.
pub open spec fn digit_val(c: char) -> int {
    c as u32 - 48
}

/// Value of a string of decimal digits, most significant first.
pub open spec fn dec_val(s: Seq<char>) -> int
    decreases s.len(),
{
    if s.len() == 0 {
        0
    } else {
        dec_val(s.drop_last()) * 10 + digit_val(s.last())
    }
}

/// A textual IPv4 octet: one to three digits, no leading zero, value at
/// most 255.
pub open spec fn is_octet(s: Seq<char>) -> bool {
    &&& 1 <= s.len() <= 3
    &&& forall|m: int| 0 <= m < s.len() ==> is_digit(#[trigger] s[m])
    &&& (s.len() > 1 ==> s[0] != '0')
    &&& dec_val(s) <= 255
}

/// `s` is four valid octets separated by dots standing exactly at
/// positions `i`, `j` and `k`.
pub open spec fn ipv4_shape(s: Seq<char>, i: int, j: int, k: int) -> bool {
    &&& 0 <= i < j < k < s.len()
    &&& s[i] == '.' && s[j] == '.' && s[k] == '.'
    &&& forall|m: int| 0 <= m < s.len() && #[trigger] s[m] == '.' ==> m == i || m == j || m == k
    &&& is_octet(s.subrange(0, i))
    &&& is_octet(s.subrange(i + 1, j))
    &&& is_octet(s.subrange(j + 1, k))
    &&& is_octet(s.subrange(k + 1, s.len() as int))
}

/// A textual IPv4 address in dotted-quad form.
pub open spec fn is_ipv4(s: Seq<char>) -> bool {
    exists|i: int, j: int, k: int| ipv4_shape(s, i, j, k)
}

/// In an IPv4 address the dot positions are forced: they are exactly the
/// three entries of `char_positions(s, '.')`.
proof fn lemma_ipv4_dots(s: Seq<char>, i: int, j: int, k: int)
    requires
        ipv4_shape(s, i, j, k),
    ensures
        char_positions(s, '.').len() == 3,
        char_positions(s, '.')[0] == i,
        char_positions(s, '.')[1] == j,
        char_positions(s, '.')[2] == k,
{
    let pos = char_positions(s, '.');
    lemma_char_positions_props(s, '.');
    assert(pos.contains(i));
    assert(pos.contains(j));
    assert(pos.contains(k));
    let qi = choose|q: int| 0 <= q < pos.len() && pos[q] == i;
    let qj = choose|q: int| 0 <= q < pos.len() && pos[q] == j;
    let qk = choose|q: int| 0 <= q < pos.len() && pos[q] == k;
    assert(qi != qj && qj != qk && qi != qk);
    assert(pos.len() >= 3);
    if pos.len() > 3 {
        assert(pos[0] < pos[1] < pos[2] < pos[3]);
        assert(pos[0] == i || pos[0] == j || pos[0] == k);
        assert(pos[1] == i || pos[1] == j || pos[1] == k);
        assert(pos[2] == i || pos[2] == j || pos[2] == k);
        assert(pos[3] == i || pos[3] == j || pos[3] == k);
        assert(false);
    }
    assert(pos[0] < pos[1] < pos[2]);
    assert(pos[0] == i || pos[0] == j || pos[0] == k);
    assert(pos[1] == i || pos[1] == j || pos[1] == k);
    assert(pos[2] == i || pos[2] == j || pos[2] == k);
}

/// Octet test on the characters of `s` between `from` (inclusive) and
/// `to` (exclusive).
fn check_octet(s: &str, from: usize, to: usize) -> (r: bool)
    requires
        from <= to <= s@.len(),
    ensures
        r == is_octet(s@.subrange(from as int, to as int)),
{
    let ghost sub = s@.subrange(from as int, to as int);
    let n = to - from;
    if n < 1 || n > 3 {
        return false;
    }
    let mut m: usize = 0;
    let mut acc: u32 = 0;
    while m < n
        invariant
            from <= to <= s@.len(),
            n == to - from,
            1 <= n <= 3,
            0 <= m <= n,
            sub == s@.subrange(from as int, to as int),
            forall|p: int| 0 <= p < m ==> is_digit(#[trigger] sub[p]),
            acc == dec_val(sub.take(m as int)),
            m == 0 ==> acc == 0,
            m == 1 ==> acc <= 9,
            m == 2 ==> acc <= 99,
            m == 3 ==> acc <= 999,
        decreases n - m,
    {
        let c = s.get_char(from + m);
        proof {
            assert(sub[m as int] == s@[from + m]);
        }
        let cv = c as u32;
        if cv < 48 || cv > 57 {
            proof {
                assert(!is_digit(sub[m as int]));
            }
            return false;
        }
        proof {
            assert(sub.take(m + 1).drop_last() =~= sub.take(m as int));
            assert(sub.take(m + 1).last() == sub[m as int]);
        }
        acc = acc * 10 + (cv - 48);
        m += 1;
    }
    proof {
        assert(sub.take(n as int) =~= sub);
    }
    if n > 1 {
        let c0 = s.get_char(from);
        proof {
            assert(sub[0] == s@[from as int]);
        }
        if c0 == '0' {
            return false;
        }
    }
    acc <= 255
}

/// IPv4 test, proved against `is_ipv4`.
pub fn check_ipv4(s: &str) -> (r: bool)
    ensures
        r == is_ipv4(s@),
{
    let dots = find_char_positions(s, '.');
    proof {
        lemma_char_positions_props(s@, '.');
    }
    if dots.len() != 3 {
        proof {
            if is_ipv4(s@) {
                let (i, j, k) = choose|i: int, j: int, k: int| ipv4_shape(s@, i, j, k);
                lemma_ipv4_dots(s@, i, j, k);
            }
        }
        return false;
    }
    let i = dots[0];
    let j = dots[1];
    let k = dots[2];
    proof {
        assert(index_views(dots@)[0] == i as int);
        assert(index_views(dots@)[1] == j as int);
        assert(index_views(dots@)[2] == k as int);
    }
    let n = s.unicode_len();
    let ok = check_octet(s, 0, i) && check_octet(s, i + 1, j) && check_octet(s, j + 1, k)
        && check_octet(s, k + 1, n);
    proof {
        if ok {
            assert(ipv4_shape(s@, i as int, j as int, k as int));
        } else {
            if is_ipv4(s@) {
                let (i2, j2, k2) = choose|i2: int, j2: int, k2: int| ipv4_shape(s@, i2, j2, k2);
                lemma_ipv4_dots(s@, i2, j2, k2);
                assert(false);
            }
        }
    }
    ok
}

/// A hexadecimal digit.
pub open spec fn is_hex_digit(c: char) -> bool {
    is_digit(c) || 97 <= c as u32 <= 102 || 65 <= c as u32 <= 70
}

/// Start of colon-separated segment `q`, given the colon positions.
pub open spec fn seg_start(pos: Seq<int>, q: int) -> int {
    if q == 0 {
        0
    } else {
        pos[q - 1] + 1
    }
}

/// End (exclusive) of colon-separated segment `q`.
pub open spec fn seg_end(s: Seq<char>, pos: Seq<int>, q: int) -> int {
    if q == pos.len() {
        s.len() as int
    } else {
        pos[q]
    }
}

/// A hexadecimal IPv6 group: one to four hex digits.
pub open spec fn hex_group(s: Seq<char>, a: int, b: int) -> bool {
    &&& 1 <= b - a <= 4
    &&& forall|m: int| a <= m < b ==> is_hex_digit(#[trigger] s[m])
}

/// The last colon-separated segment is an embedded dotted-quad IPv4
/// address, which stands for the final two groups.
pub open spec fn ipv4_tail(s: Seq<char>, pos: Seq<int>) -> bool {
    is_ipv4(s.subrange(seg_start(pos, pos.len() as int), s.len() as int))
}

/// Eight groups without compression: eight hexadecimal groups separated
/// by seven colons, or six hexadecimal groups and an embedded IPv4 tail.
pub open spec fn ipv6_uncompressed(s: Seq<char>, pos: Seq<int>) -> bool {
    ||| (pos.len() == 7 && forall|q: int|
        0 <= q <= 7 ==> hex_group(s, #[trigger] seg_start(pos, q), seg_end(s, pos, q)))
    ||| (pos.len() == 6 && (forall|q: int|
        0 <= q <= 5 ==> hex_group(s, #[trigger] seg_start(pos, q), seg_end(s, pos, q)))
        && ipv4_tail(s, pos))
}

/// Number of groups standing left of the `::` whose colons are
/// `pos[a]` and `pos[a + 1]`.
pub open spec fn left_group_count(pos: Seq<int>, a: int) -> int {
    if pos[a] == 0 {
        0
    } else {
        a + 1
    }
}

/// The groups right of the `::`, together with the whole group budget:
/// `k` groups stand left of it, the `::` covers at least one, and an
/// embedded IPv4 tail counts for two.
pub open spec fn ipv6_right_side(s: Seq<char>, pos: Seq<int>, a: int, k: int) -> bool {
    if pos[a + 1] == s.len() - 1 {
        a + 1 == pos.len() - 1 && k <= 7
    } else {
        ||| ((forall|q: int|
            a + 2 <= q <= pos.len() ==> hex_group(
                s,
                #[trigger] seg_start(pos, q),
                seg_end(s, pos, q),
            )) && k + pos.len() - a - 1 <= 7)
        ||| ((forall|q: int|
            a + 2 <= q < pos.len() ==> hex_group(
                s,
                #[trigger] seg_start(pos, q),
                seg_end(s, pos, q),
            )) && ipv4_tail(s, pos) && k + pos.len() - a <= 7)
    }
}

/// An IPv6 address compressed with one `::`, whose two colons are
/// `pos[a]` and `pos[a + 1]`: valid groups on both sides, at most seven
/// groups in all, and no second `::`.
pub open spec fn ipv6_compressed_at(s: Seq<char>, pos: Seq<int>, a: int) -> bool {
    &&& 0 <= a < pos.len() - 1
    &&& pos[a] + 1 == pos[a + 1]
    &&& forall|b: int| 0 <= b < pos.len() - 1 && b != a ==> pos[b] + 1 != #[trigger] pos[b + 1]
    &&& (pos[a] == 0 ==> a == 0)
    &&& (pos[a] != 0 ==> forall|q: int|
        0 <= q <= a ==> hex_group(s, #[trigger] seg_start(pos, q), seg_end(s, pos, q)))
    &&& ipv6_right_side(s, pos, a, left_group_count(pos, a))
}

/// A textual IPv6 address: eight colon-separated hexadecimal groups, or
/// fewer groups around a single `::`.
pub open spec fn is_ipv6(s: Seq<char>) -> bool {
    ||| ipv6_uncompressed(s, char_positions(s, ':'))
    ||| exists|a: int| ipv6_compressed_at(s, char_positions(s, ':'), a)
}

/// Hexadecimal-group test on the characters of `s` between `from`
/// (inclusive) and `to` (exclusive).
fn check_hex_group(s: &str, from: usize, to: usize) -> (r: bool)
    requires
        from <= to <= s@.len(),
    ensures
        r == hex_group(s@, from as int, to as int),
{
    let n = to - from;
    if n < 1 || n > 4 {
        return false;
    }
    let mut m: usize = 0;
    while m < n
        invariant
            from <= to <= s@.len(),
            n == to - from,
            0 <= m <= n,
            forall|p: int| from <= p < from + m ==> is_hex_digit(#[trigger] s@[p]),
        decreases n - m,
    {
        let cv = s.get_char(from + m) as u32;
        if !(48 <= cv && cv <= 57 || 97 <= cv && cv <= 102 || 65 <= cv && cv <= 70) {
            proof {
                assert(!is_hex_digit(s@[from + m]));
            }
            return false;
        }
        m += 1;
    }
    true
}

/// Check segments `q_from..q_to` of `s` against `hex_group`, where the
/// segments are delimited by the colon positions `pos`.
fn check_segments(s: &str, pos: &Vec<usize>, q_from: usize, q_to: usize) -> (r: bool)
    requires
        index_views(pos@) == char_positions(s@, ':'),
        q_to <= pos@.len() + 1,
    ensures
        r == forall|q: int|
            q_from <= q < q_to ==> hex_group(
                s@,
                #[trigger] seg_start(char_positions(s@, ':'), q),
                seg_end(s@, char_positions(s@, ':'), q),
            ),
{
    proof {
        lemma_char_positions_props(s@, ':');
    }
    let ghost posv = char_positions(s@, ':');
    let n = s.unicode_len();
    let t = pos.len();
    let mut q = q_from;
    if q_from >= q_to {
        return true;
    }
    while q < q_to
        invariant
            index_views(pos@) == posv,
            posv == char_positions(s@, ':'),
            n == s@.len(),
            t == pos@.len(),
            q_from <= q <= q_to,
            q_to <= t + 1,
            forall|q2: int|
                q_from <= q2 < q ==> hex_group(
                    s@,
                    #[trigger] seg_start(posv, q2),
                    seg_end(s@, posv, q2),
                ),
        decreases q_to - q,
    {
        proof {
            lemma_char_positions_props(s@, ':');
        }
        let start: usize;
        if q == 0 {
            start = 0;
        } else {
            proof {
                assert(pos@[q as int - 1] as int == posv[q as int - 1]);
                assert(posv[q as int - 1] < s@.len());
            }
            start = pos[q - 1] + 1;
        }
        let end: usize = if q == t {
            n
        } else {
            pos[q]
        };
        proof {
            assert(start as int == seg_start(posv, q as int));
            assert(end as int == seg_end(s@, posv, q as int));
        }
        if !check_hex_group(s, start, end) {
            return false;
        }
        q += 1;
    }
    true
}

/// Whether the last colon-separated segment is a dotted-quad IPv4
/// address.
fn check_ipv4_tail(s: &str, pos: &Vec<usize>) -> (r: bool)
    requires
        index_views(pos@) == char_positions(s@, ':'),
        pos@.len() > 0,
    ensures
        r == ipv4_tail(s@, char_positions(s@, ':')),
{
    proof {
        lemma_char_positions_props(s@, ':');
    }
    let n = s.unicode_len();
    let t = pos.len();
    proof {
        assert(pos@[t as int - 1] as int == char_positions(s@, ':')[t as int - 1]);
        assert(char_positions(s@, ':')[t as int - 1] < s@.len());
    }
    let start = pos[t - 1] + 1;
    let tail = s.substring_char(start, n);
    let r = check_ipv4(tail);
    proof {
        assert(tail@ == s@.subrange(
            seg_start(char_positions(s@, ':'), pos@.len() as int),
            s@.len() as int,
        ));
    }
    r
}

/// An all-hexadecimal segment holds no dot, so it is never a dotted quad.
proof fn lemma_hex_group_not_ipv4(s: Seq<char>, a: int, b: int)
    requires
        hex_group(s, a, b),
        0 <= a <= b <= s.len(),
    ensures
        !is_ipv4(s.subrange(a, b)),
{
    let sub = s.subrange(a, b);
    if is_ipv4(sub) {
        let (i, j, k) = choose|i: int, j: int, k: int| ipv4_shape(sub, i, j, k);
        assert(sub[i] == '.');
        assert(sub[i] == s[a + i]);
        assert(is_hex_digit(s[a + i]));
        assert(false);
    }
}

/// IPv6 test, proved against `is_ipv6`.
pub fn check_ipv6(s: &str) -> (r: bool)
    ensures
        r == is_ipv6(s@),
{
    let pos = find_char_positions(s, ':');
    proof {
        lemma_char_positions_props(s@, ':');
    }
    let ghost posv = char_positions(s@, ':');
    let t = pos.len();
    let n = s.unicode_len();

    // More than eight colons can satisfy neither form: the group budget
    // alone rules it out.
    if t > 8 {
        proof {
            if exists|a: int| ipv6_compressed_at(s@, posv, a) {
                let a = choose|a: int| ipv6_compressed_at(s@, posv, a);
                assert(false);
            }
        }
        return false;
    }

    // Find the adjacent colon pairs: a valid address has none (eight
    // plain groups) or exactly one (the `::`).
    let mut first: Option<usize> = None;
    let mut second = false;
    let ghost mut second_at: int = 0;
    let mut b: usize = 0;
    while b + 1 < t
        invariant
            index_views(pos@) == posv,
            posv == char_positions(s@, ':'),
            t == pos@.len(),
            t <= 8,
            n == s@.len(),
            0 <= b,
            t > 0 ==> b <= t - 1,
            t == 0 ==> b == 0,
            match first {
                Option::None => !second && forall|b2: int|
                    0 <= b2 < b ==> posv[b2] + 1 != #[trigger] posv[b2 + 1],
                Option::Some(a0) => {
                    &&& 0 <= a0 < b
                    &&& posv[a0 as int] + 1 == posv[a0 as int + 1]
                    &&& forall|b2: int| 0 <= b2 < a0 ==> posv[b2] + 1 != #[trigger] posv[b2 + 1]
                    &&& (!second ==> forall|b2: int|
                        a0 < b2 < b ==> posv[b2] + 1 != #[trigger] posv[b2 + 1])
                    &&& (second ==> a0 < second_at < b && posv[second_at] + 1 == posv[second_at
                        + 1])
                },
            },
        decreases t - b,
    {
        proof {
            lemma_char_positions_props(s@, ':');
            assert(pos@[b as int] as int == posv[b as int]);
            assert(posv[b as int] < s@.len());
        }
        if pos[b] + 1 == pos[b + 1] {
            match first {
                Option::None => {
                    first = Some(b);
                },
                Option::Some(_) => {
                    if !second {
                        second = true;
                        proof {
                            second_at = b as int;
                        }
                    }
                },
            }
        }
        b += 1;
    }

    match first {
        Option::None => {
            // No `::` anywhere: only the eight-group forms can hold.
            assert(forall|b2: int| 0 <= b2 < t - 1 ==> posv[b2] + 1 != #[trigger] posv[b2 + 1]);
            if t == 7 {
                let ok = check_segments(s, &pos, 0, 8);
                proof {
                    if !ok && is_ipv6(s@) {
                        assert(false);
                    }
                }
                ok
            } else if t == 6 {
                let hex_ok = check_segments(s, &pos, 0, 6);
                let v4_ok = check_ipv4_tail(s, &pos);
                let ok = hex_ok && v4_ok;
                proof {
                    if !ok && is_ipv6(s@) {
                        assert(false);
                    }
                }
                ok
            } else {
                proof {
                    if is_ipv6(s@) {
                        assert(false);
                    }
                }
                false
            }
        },
        Option::Some(a0) => {
            if second {
                // Two separate `::` runs: no form can hold.
                proof {
                    if ipv6_uncompressed(s@, posv) {
                        assert(seg_start(posv, a0 as int + 1) == seg_end(s@, posv, a0 as int + 1));
                        assert(!hex_group(
                            s@,
                            seg_start(posv, a0 as int + 1),
                            seg_end(s@, posv, a0 as int + 1),
                        ));
                        assert(false);
                    }
                    if exists|a: int| ipv6_compressed_at(s@, posv, a) {
                        let a = choose|a: int| ipv6_compressed_at(s@, posv, a);
                        assert(a == a0 || a == second_at);
                        assert(false);
                    }
                }
                return false;
            }
            // Exactly one `::`, whose colons are pos[a0] and pos[a0 + 1].
            proof {
                if ipv6_uncompressed(s@, posv) {
                    assert(seg_start(posv, a0 as int + 1) == seg_end(s@, posv, a0 as int + 1));
                    assert(!hex_group(
                        s@,
                        seg_start(posv, a0 as int + 1),
                        seg_end(s@, posv, a0 as int + 1),
                    ));
                    assert(false);
                }
            }
            let left_ok: bool;
            let left_count: usize;
            if pos[a0] == 0 {
                proof {
                    if a0 > 0 {
                        assert(posv[0] < posv[a0 as int]);
                        assert(false);
                    }
                }
                left_ok = true;
                left_count = 0;
            } else {
                left_ok = check_segments(s, &pos, 0, a0 + 1);
                left_count = a0 + 1;
            }
            let right_ok: bool;
            let right_m: usize;
            if pos[a0 + 1] == n - 1 {
                proof {
                    if a0 + 2 < t {
                        assert(posv[a0 + 2] > posv[a0 as int + 1]);
                        assert(posv[a0 + 2] < s@.len());
                        assert(false);
                    }
                }
                right_ok = true;
                right_m = 0;
            } else {
                let hex_all = check_segments(s, &pos, a0 + 2, t + 1);
                if hex_all {
                    right_ok = true;
                    right_m = t - a0 - 1;
                    proof {
                        // The all-hexadecimal last segment rules the
                        // embedded-IPv4 reading out.
                        assert(hex_group(s@, seg_start(posv, t as int), seg_end(s@, posv, t as int)));
                        assert(seg_end(s@, posv, t as int) == s@.len() as int);
                        assert(0 <= seg_start(posv, t as int) <= s@.len());
                        lemma_hex_group_not_ipv4(
                            s@,
                            seg_start(posv, t as int),
                            s@.len() as int,
                        );
                        assert(!ipv4_tail(s@, posv));
                    }
                } else {
                    let hex_front = check_segments(s, &pos, a0 + 2, t);
                    let v4_ok = check_ipv4_tail(s, &pos);
                    right_ok = hex_front && v4_ok;
                    right_m = t - a0;
                }
            }
            let ok = left_ok && right_ok && left_count + right_m <= 7;
            proof {
                assert(left_count as int == left_group_count(posv, a0 as int));
                if ok {
                    assert(ipv6_right_side(s@, posv, a0 as int, left_count as int));
                    assert(ipv6_compressed_at(s@, posv, a0 as int));
                } else {
                    if exists|a: int| ipv6_compressed_at(s@, posv, a) {
                        let a = choose|a: int| ipv6_compressed_at(s@, posv, a);
                        assert(a == a0 as int);
                        assert(false);
                    }
                }
            }
            ok
        },
    }
}

/// The DNS record type a textual address yields: `A` for IPv4, `AAAA`
/// for IPv6, none for anything else.
pub open spec fn addr_record_type(s: Seq<char>) -> Option<Seq<char>> {
    if is_ipv4(s) {
        Option::Some("A"@)
    } else if is_ipv6(s) {
        Option::Some("AAAA"@)
    } else {
        Option::None
    }
}

/// Classify one textual address, proved against `addr_record_type`.
pub fn classify_address(s: &str) -> (r: Option<String>)
    ensures
        match r {
            Option::Some(t) => addr_record_type(s@) == Option::Some(t@),
            Option::None => addr_record_type(s@) is None,
        },
{
    if check_ipv4(s) {
        Some("A".to_owned())
    } else if check_ipv6(s) {
        Some("AAAA".to_owned())
    } else {
        None
    }
}

} // verus!
