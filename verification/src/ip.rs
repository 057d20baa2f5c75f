use vstd::prelude::*;

verus! {

/// An IP address held as plain numeric components: four octets for IPv4,
/// eight 16-bit groups for IPv6.
#[derive(Clone, Copy, Debug, PartialEq, Eq, Structural)]
pub enum IpAddress {
    V4(u8, u8, u8, u8),
    V6(u16, u16, u16, u16, u16, u16, u16, u16),
}

pub open spec fn is_dec_digit(b: u8) -> bool {
    48 <= b && b <= 57
}

pub open spec fn is_hex_digit(b: u8) -> bool {
    is_dec_digit(b) || (97 <= b && b <= 102) || (65 <= b && b <= 70)
}

pub open spec fn dec_digit_val(b: u8) -> int {
    b - 48
}

pub open spec fn hex_digit_val(b: u8) -> int {
    if is_dec_digit(b) {
        b - 48
    } else if 97 <= b && b <= 102 {
        b - 87
    } else {
        b - 55
    }
}

/// First position at or after `i` that does not hold a decimal digit.
pub open spec fn dec_run_end(s: Seq<u8>, i: int) -> int
    decreases s.len() - i
        when 0 <= i <= s.len()
{
    if i < s.len() && is_dec_digit(s[i]) {
        dec_run_end(s, i + 1)
    } else {
        i
    }
}

/// First position at or after `i` that does not hold a hexadecimal digit.
pub open spec fn hex_run_end(s: Seq<u8>, i: int) -> int
    decreases s.len() - i
        when 0 <= i <= s.len()
{
    if i < s.len() && is_hex_digit(s[i]) {
        hex_run_end(s, i + 1)
    } else {
        i
    }
}

/// Value of the decimal digits `s[i..j]`.
pub open spec fn dec_value(s: Seq<u8>, i: int, j: int) -> int
    decreases j - i,
{
    if i >= j {
        0
    } else {
        dec_value(s, i, j - 1) * 10 + dec_digit_val(s[j - 1])
    }
}

/// Value of the hexadecimal digits `s[i..j]`.
pub open spec fn hex_value(s: Seq<u8>, i: int, j: int) -> int
    decreases j - i,
{
    if i >= j {
        0
    } else {
        hex_value(s, i, j - 1) * 16 + hex_digit_val(s[j - 1])
    }
}

pub proof fn lemma_dec_run_end(s: Seq<u8>, i: int)
    requires
        0 <= i <= s.len(),
    ensures
        i <= dec_run_end(s, i) <= s.len(),
        forall|k: int| i <= k < dec_run_end(s, i) ==> is_dec_digit(s[k]),
    decreases s.len() - i,
{
    if i < s.len() && is_dec_digit(s[i]) {
        lemma_dec_run_end(s, i + 1);
    }
}

pub proof fn lemma_hex_run_end(s: Seq<u8>, i: int)
    requires
        0 <= i <= s.len(),
    ensures
        i <= hex_run_end(s, i) <= s.len(),
        forall|k: int| i <= k < hex_run_end(s, i) ==> is_hex_digit(s[k]),
    decreases s.len() - i,
{
    if i < s.len() && is_hex_digit(s[i]) {
        lemma_hex_run_end(s, i + 1);
    }
}

/// A dotted-decimal octet starting at `i`: one to three digits, no leading
/// zero, value at most 255. Yields the value and the position after it.
pub open spec fn spec_octet_at(s: Seq<u8>, i: int) -> Option<(u8, int)> {
    let j = dec_run_end(s, i);
    if j == i || j - i > 3 {
        None
    } else if j - i > 1 && s[i] == 48 {
        None
    } else if dec_value(s, i, j) > 255 {
        None
    } else {
        Some((dec_value(s, i, j) as u8, j))
    }
}

/// Four octets separated by dots, starting at `i`.
pub open spec fn spec_ipv4_at(s: Seq<u8>, i: int) -> Option<((u8, u8, u8, u8), int)> {
    match spec_octet_at(s, i) {
        None => None,
        Some((a, p1)) => if p1 < s.len() && s[p1] == 46 {
            match spec_octet_at(s, p1 + 1) {
                None => None,
                Some((b, p2)) => if p2 < s.len() && s[p2] == 46 {
                    match spec_octet_at(s, p2 + 1) {
                        None => None,
                        Some((c, p3)) => if p3 < s.len() && s[p3] == 46 {
                            match spec_octet_at(s, p3 + 1) {
                                None => None,
                                Some((d, p4)) => Some(((a, b, c, d), p4)),
                            }
                        } else {
                            None
                        },
                    }
                } else {
                    None
                },
            }
        } else {
            None
        },
    }
}

/// A whole string in IPv4 dotted-decimal form.
pub open spec fn spec_parse_ipv4(s: Seq<u8>) -> Option<(u8, u8, u8, u8)> {
    match spec_ipv4_at(s, 0) {
        Some((q, p)) => if p == s.len() {
            Some(q)
        } else {
            None
        },
        None => None,
    }
}

fn dec_run_end_exec(s: &[u8], i: usize) -> (r: usize)
    requires
        i <= s@.len(),
    ensures
        r == dec_run_end(s@, i as int),
        i <= r <= s@.len(),
{
    let mut j = i;
    while j < s.len() && 48 <= s[j] && s[j] <= 57
        invariant
            i <= j <= s@.len(),
            dec_run_end(s@, i as int) == dec_run_end(s@, j as int),
        decreases s@.len() - j,
    {
        j = j + 1;
    }
    j
}

fn hex_run_end_exec(s: &[u8], i: usize) -> (r: usize)
    requires
        i <= s@.len(),
    ensures
        r == hex_run_end(s@, i as int),
        i <= r <= s@.len(),
{
    let mut j = i;
    while j < s.len() && (48 <= s[j] && s[j] <= 57 || 97 <= s[j] && s[j] <= 102 || 65 <= s[j]
        && s[j] <= 70)
        invariant
            i <= j <= s@.len(),
            hex_run_end(s@, i as int) == hex_run_end(s@, j as int),
        decreases s@.len() - j,
    {
        j = j + 1;
    }
    j
}

fn parse_octet_at(s: &[u8], i: usize) -> (r: Option<(u8, usize)>)
    requires
        i <= s@.len(),
    ensures
        r is None ==> spec_octet_at(s@, i as int) is None,
        r matches Some(p) ==> spec_octet_at(s@, i as int) == Some((p.0, p.1 as int)) && i < p.1
            <= s@.len(),
{
    let j = dec_run_end_exec(s, i);
    proof {
        lemma_dec_run_end(s@, i as int);
    }
    if j == i || j - i > 3 {
        return None;
    }
    if j - i > 1 && s[i] == 48 {
        return None;
    }
    let mut v: u32 = 0;
    let mut k = i;
    while k < j
        invariant
            i <= k <= j,
            j <= s@.len(),
            j - i <= 3,
            forall|t: int| i <= t < j ==> is_dec_digit(s@[t]),
            v == dec_value(s@, i as int, k as int),
            k - i == 0 ==> v == 0,
            k - i == 1 ==> v <= 9,
            k - i == 2 ==> v <= 99,
            k - i == 3 ==> v <= 999,
        decreases j - k,
    {
        v = v * 10 + (s[k] - 48) as u32;
        k = k + 1;
    }
    if v > 255 {
        None
    } else {
        Some((v as u8, j))
    }
}

fn parse_ipv4_at(s: &[u8], i: usize) -> (r: Option<(u8, u8, u8, u8, usize)>)
    requires
        i <= s@.len(),
    ensures
        r is None ==> spec_ipv4_at(s@, i as int) is None,
        r matches Some(p) ==> spec_ipv4_at(s@, i as int) == Some(((p.0, p.1, p.2, p.3), p.4 as int))
            && i < p.4 <= s@.len(),
{
    match parse_octet_at(s, i) {
        None => None,
        Some((a, p1)) => if p1 < s.len() && s[p1] == 46 {
            match parse_octet_at(s, p1 + 1) {
                None => None,
                Some((b, p2)) => if p2 < s.len() && s[p2] == 46 {
                    match parse_octet_at(s, p2 + 1) {
                        None => None,
                        Some((c, p3)) => if p3 < s.len() && s[p3] == 46 {
                            match parse_octet_at(s, p3 + 1) {
                                None => None,
                                Some((d, p4)) => Some((a, b, c, d, p4)),
                            }
                        } else {
                            None
                        },
                    }
                } else {
                    None
                },
            }
        } else {
            None
        },
    }
}

pub fn parse_ipv4(s: &[u8]) -> (r: Option<(u8, u8, u8, u8)>)
    ensures
        r == spec_parse_ipv4(s@),
{
    match parse_ipv4_at(s, 0) {
        None => None,
        Some((a, b, c, d, p)) => if p == s.len() {
            Some((a, b, c, d))
        } else {
            None
        },
    }
}

/// A 16-bit group: one to four hexadecimal digits.
pub open spec fn spec_h16_at(s: Seq<u8>, i: int) -> Option<(u16, int)> {
    let j = hex_run_end(s, i);
    if j == i || j - i > 4 {
        None
    } else {
        Some((hex_value(s, i, j) as u16, j))
    }
}

/// The two groups an embedded IPv4 address stands for.
pub open spec fn v4_groups(a: u8, b: u8, c: u8, d: u8) -> Seq<u16> {
    seq![(a as int * 256 + b as int) as u16, (c as int * 256 + d as int) as u16]
}

/// Colon-separated group list running to the end of the string: at most `m`
/// groups, the last of which may be an embedded IPv4 address (two groups).
/// No empty group, so a `::` is never consumed here.
pub open spec fn spec_pieces(s: Seq<u8>, i: int, m: nat) -> Option<Seq<u16>>
    decreases m,
{
    if m == 0 {
        None
    } else {
        let j = hex_run_end(s, i);
        if j < s.len() && s[j] == 46 {
            if m >= 2 {
                match spec_ipv4_at(s, i) {
                    Some((q, p)) => if p == s.len() {
                        Some(v4_groups(q.0, q.1, q.2, q.3))
                    } else {
                        None
                    },
                    None => None,
                }
            } else {
                None
            }
        } else {
            match spec_h16_at(s, i) {
                None => None,
                Some((g, j2)) => if j2 == s.len() {
                    Some(seq![g])
                } else if s[j2] == 58 {
                    match spec_pieces(s, j2 + 1, (m - 1) as nat) {
                        None => None,
                        Some(rest) => Some(seq![g] + rest),
                    }
                } else {
                    None
                },
            }
        }
    }
}

/// Colon-separated 16-bit groups running exactly to position `endpos`:
/// at most `m` of them, no embedded IPv4, no empty group.
pub open spec fn spec_front(s: Seq<u8>, i: int, endpos: int, m: nat) -> Option<Seq<u16>>
    decreases m,
{
    if m == 0 {
        None
    } else {
        match spec_h16_at(s, i) {
            None => None,
            Some((g, j2)) => if j2 == endpos {
                Some(seq![g])
            } else if j2 < endpos && s[j2] == 58 {
                match spec_front(s, j2 + 1, endpos, (m - 1) as nat) {
                    None => None,
                    Some(rest) => Some(seq![g] + rest),
                }
            } else {
                None
            },
        }
    }
}

/// Position of the first `::`, or -1 if there is none.
pub open spec fn spec_dc_pos(s: Seq<u8>, i: int) -> int
    decreases s.len() - i
        when 0 <= i <= s.len()
{
    if i + 1 >= s.len() {
        -1
    } else if s[i] == 58 && s[i + 1] == 58 {
        i
    } else {
        spec_dc_pos(s, i + 1)
    }
}

pub open spec fn zero_groups(n: int) -> Seq<u16> {
    Seq::new(n as nat, |k: int| 0u16)
}

/// A whole string in IPv6 form: eight groups, or a `::` standing for at
/// least one zero group, with an embedded IPv4 address allowed as the last
/// two groups. Yields the eight group values.
pub open spec fn spec_parse_ipv6(s: Seq<u8>) -> Option<Seq<u16>> {
    let p = spec_dc_pos(s, 0);
    if p < 0 {
        match spec_pieces(s, 0, 8) {
            Some(g) => if g.len() == 8 {
                Some(g)
            } else {
                None
            },
            None => None,
        }
    } else {
        let front = if p == 0 {
            Some(Seq::<u16>::empty())
        } else {
            spec_front(s, 0, p, 7)
        };
        match front {
            None => None,
            Some(f) => if f.len() > 7 {
                None
            } else if p + 2 == s.len() {
                Some(f + zero_groups(8 - f.len()))
            } else {
                match spec_pieces(s, p + 2, (7 - f.len()) as nat) {
                    None => None,
                    Some(b) => if f.len() + b.len() <= 7 {
                        Some(f + zero_groups(8 - f.len() - b.len()) + b)
                    } else {
                        None
                    },
                }
            },
        }
    }
}

fn parse_h16_at(s: &[u8], i: usize) -> (r: Option<(u16, usize)>)
    requires
        i <= s@.len(),
    ensures
        r is None ==> spec_h16_at(s@, i as int) is None,
        r matches Some(p) ==> spec_h16_at(s@, i as int) == Some((p.0, p.1 as int)) && i < p.1
            <= s@.len(),
{
    let j = hex_run_end_exec(s, i);
    proof {
        lemma_hex_run_end(s@, i as int);
    }
    if j == i || j - i > 4 {
        return None;
    }
    let mut v: u32 = 0;
    let mut k = i;
    while k < j
        invariant
            i <= k <= j,
            j <= s@.len(),
            j - i <= 4,
            forall|t: int| i <= t < j ==> is_hex_digit(s@[t]),
            v == hex_value(s@, i as int, k as int),
            k - i == 0 ==> v == 0,
            k - i == 1 ==> v <= 15,
            k - i == 2 ==> v <= 255,
            k - i == 3 ==> v <= 4095,
            k - i == 4 ==> v <= 65535,
        decreases j - k,
    {
        let b = s[k];
        let d: u32 = if 48 <= b && b <= 57 {
            (b - 48) as u32
        } else if 97 <= b && b <= 102 {
            (b - 87) as u32
        } else {
            (b - 55) as u32
        };
        v = v * 16 + d;
        k = k + 1;
    }
    Some((v as u16, j))
}

fn parse_pieces(s: &[u8], i: usize, m: usize) -> (r: Option<Vec<u16>>)
    requires
        i <= s@.len(),
    ensures
        r is None ==> spec_pieces(s@, i as int, m as nat) is None,
        r matches Some(v) ==> spec_pieces(s@, i as int, m as nat) == Some(v@) && v@.len() <= m,
    decreases m,
{
    if m == 0 {
        return None;
    }
    let j = hex_run_end_exec(s, i);
    if j < s.len() && s[j] == 46 {
        if m >= 2 {
            match parse_ipv4_at(s, i) {
                Some((a, b, c, d, p)) => if p == s.len() {
                    let mut out: Vec<u16> = Vec::new();
                    out.push((a as u16) * 256 + (b as u16));
                    out.push((c as u16) * 256 + (d as u16));
                    proof {
                        assert(out@ =~= v4_groups(a, b, c, d));
                    }
                    Some(out)
                } else {
                    None
                },
                None => None,
            }
        } else {
            None
        }
    } else {
        match parse_h16_at(s, i) {
            None => None,
            Some((g, j2)) => if j2 == s.len() {
                let mut out: Vec<u16> = Vec::new();
                out.push(g);
                proof {
                    assert(out@ =~= seq![g]);
                }
                Some(out)
            } else if s[j2] == 58 {
                match parse_pieces(s, j2 + 1, m - 1) {
                    None => None,
                    Some(mut rest) => {
                        rest.insert(0, g);
                        proof {
                            assert(rest@ =~= seq![g] + rest@.subrange(1, rest@.len() as int));
                        }
                        Some(rest)
                    },
                }
            } else {
                None
            },
        }
    }
}

fn parse_front(s: &[u8], i: usize, endpos: usize, m: usize) -> (r: Option<Vec<u16>>)
    requires
        i <= s@.len(),
        endpos <= s@.len(),
    ensures
        r is None ==> spec_front(s@, i as int, endpos as int, m as nat) is None,
        r matches Some(v) ==> spec_front(s@, i as int, endpos as int, m as nat) == Some(v@)
            && v@.len() <= m,
    decreases m,
{
    if m == 0 {
        return None;
    }
    match parse_h16_at(s, i) {
        None => None,
        Some((g, j2)) => if j2 == endpos {
            let mut out: Vec<u16> = Vec::new();
            out.push(g);
            proof {
                assert(out@ =~= seq![g]);
            }
            Some(out)
        } else if j2 < endpos && s[j2] == 58 {
            match parse_front(s, j2 + 1, endpos, m - 1) {
                None => None,
                Some(mut rest) => {
                    rest.insert(0, g);
                    proof {
                        assert(rest@ =~= seq![g] + rest@.subrange(1, rest@.len() as int));
                    }
                    Some(rest)
                },
            }
        } else {
            None
        },
    }
}

fn find_double_colon(s: &[u8]) -> (r: Option<usize>)
    ensures
        r is None ==> spec_dc_pos(s@, 0) == -1,
        r matches Some(p) ==> spec_dc_pos(s@, 0) == p as int && p + 1 < s@.len(),
{
    let n = s.len();
    if n == 0 {
        return None;
    }
    let mut i: usize = 0;
    while i < n - 1
        invariant
            n == s@.len(),
            1 <= n,
            i <= s@.len(),
            spec_dc_pos(s@, 0) == spec_dc_pos(s@, i as int),
        decreases s@.len() - i,
    {
        if s[i] == 58 && s[i + 1] == 58 {
            return Some(i);
        }
        i = i + 1;
    }
    None
}

pub fn parse_ipv6(s: &[u8]) -> (r: Option<(u16, u16, u16, u16, u16, u16, u16, u16)>)
    ensures
        r is None ==> spec_parse_ipv6(s@) is None,
        r matches Some(t) ==> spec_parse_ipv6(s@) == Some(
            seq![t.0, t.1, t.2, t.3, t.4, t.5, t.6, t.7],
        ),
{
    let groups: Option<Vec<u16>> = match find_double_colon(s) {
        None => {
            match parse_pieces(s, 0, 8) {
                Some(g) => if g.len() == 8 {
                    Some(g)
                } else {
                    None
                },
                None => None,
            }
        },
        Some(p) => {
            let n = s.len();
            let front: Option<Vec<u16>> = if p == 0 {
                let e: Vec<u16> = Vec::new();
                proof {
                    assert(e@ =~= Seq::<u16>::empty());
                }
                Some(e)
            } else {
                parse_front(s, 0, p, 7)
            };
            match front {
                None => None,
                Some(f) => if f.len() > 7 {
                    None
                } else if p + 2 == n {
                    let mut g = f;
                    let ghost f0 = g@;
                    while g.len() < 8
                        invariant
                            f0.len() <= g@.len() <= 8,
                            g@ =~= f0 + zero_groups(g@.len() - f0.len()),
                        decreases 8 - g@.len(),
                    {
                        g.push(0);
                    }
                    proof {
                        assert(g@ =~= f0 + zero_groups(8 - f0.len()));
                    }
                    Some(g)
                } else {
                    match parse_pieces(s, p + 2, 7 - f.len()) {
                        None => None,
                        Some(b) => {
                            let mut g = f;
                            let ghost f0 = g@;
                            let pad = 8 - g.len() - b.len();
                            let mut z: usize = 0;
                            while z < pad
                                invariant
                                    z <= pad,
                                    pad + f0.len() + b@.len() == 8,
                                    g@ =~= f0 + zero_groups(z as int),
                                decreases pad - z,
                            {
                                g.push(0);
                                z = z + 1;
                            }
                            let mut t: usize = 0;
                            while t < b.len()
                                invariant
                                    t <= b@.len(),
                                    pad + f0.len() + b@.len() == 8,
                                    g@ =~= f0 + zero_groups(pad as int) + b@.subrange(
                                        0,
                                        t as int,
                                    ),
                                decreases b@.len() - t,
                            {
                                g.push(b[t]);
                                t = t + 1;
                            }
                            proof {
                                assert(g@ =~= f0 + zero_groups(pad as int) + b@);
                            }
                            Some(g)
                        },
                    }
                },
            }
        },
    };
    match groups {
        None => None,
        Some(g) => {
            proof {
                assert(g@ =~= seq![g@[0], g@[1], g@[2], g@[3], g@[4], g@[5], g@[6], g@[7]]);
            }
            Some((g[0], g[1], g[2], g[3], g[4], g[5], g[6], g[7]))
        },
    }
}

/// An IPv6 address text written by the formatter always parses back as the
/// very groups it was written from, and holds no dot.
#[verifier::rlimit(100)]
pub proof fn lemma_format_ipv6_parses(g: Seq<u16>)
    requires
        g.len() == 8,
    ensures
        spec_parse_ipv6(spec_format_ipv6(g)) == Some(g),
        forall|k: int| 0 <= k < spec_format_ipv6(g).len() ==> spec_format_ipv6(g)[k] != 46,
{
    let s = spec_format_ipv6(g);
    let b = best_run(g, 0);
    lemma_best_run_bounds(g, 0);
    let rl = run_len(g, b);
    lemma_run_len_zeros(g, b);
    if rl < 2 {
        let t = hex_groups(g, 0, 8);
        assert(s == t);
        lemma_hex_groups_chars(g, 0, 8);
        assert forall|q: int|
            0 <= q < s.len() - 1 implies !(#[trigger] s[q] == 58 && s[q + 1] == 58) by {
            assert(s[q] == t[q] && s[q + 1] == t[q + 1]);
        }
        lemma_dc_pos_none(s, 0);
        assert(forall|k: int| 0 <= k < t.len() ==> s[0 + k] == t[k]);
        lemma_pieces_of_formatted(s, g, 0, 8, 0, 8);
        assert(g.subrange(0, 8) =~= g);
        assert forall|k: int| 0 <= k < s.len() implies s[k] != 46 by {
            assert(is_hex_digit(t[k]) || t[k] == 58);
        }
    } else {
        let ft = hex_groups(g, 0, b);
        let bt = hex_groups(g, b + rl, 8);
        assert(s == ft + seq![58u8, 58u8] + bt);
        let p = ft.len() as int;
        assert(s.len() == p + 2 + bt.len());
        assert(s[p] == 58 && s[p + 1] == 58);
        if b > 0 {
            lemma_hex_groups_chars(g, 0, b);
            assert forall|q: int| 0 <= q < p implies !(#[trigger] s[q] == 58 && s[q + 1] == 58) by {
                assert(s[q] == ft[q]);
                if q + 1 < p {
                    assert(s[q + 1] == ft[q + 1]);
                } else {
                    assert(is_hex_digit(ft[p - 1]));
                }
            }
        }
        lemma_dc_pos_at(s, 0, p);
        assert(spec_dc_pos(s, 0) == p);
        if b > 0 {
            assert forall|k: int| 0 <= k < ft.len() implies s[0 + k] == ft[k] by {}
            lemma_front_of_formatted(s, g, 0, b, 0, p, 7);
        }
        let f = g.subrange(0, b);
        assert(f.len() == b <= 6);
        if b == 0 {
            assert(f =~= Seq::<u16>::empty());
        }
        if b + rl == 8 {
            assert(bt.len() == 0);
            assert(s.len() == p + 2);
            assert forall|k: int| 0 <= k < 8 implies (f + zero_groups(8 - b))[k] == g[k] by {
                if k >= b {
                    assert(g[k] == 0);
                }
            }
            assert(f + zero_groups(8 - f.len() as int) =~= g);
        } else {
            lemma_hex_groups_chars(g, b + rl, 8);
            assert(s.len() > p + 2);
            assert forall|k: int| 0 <= k < bt.len() implies s[(p + 2) + k] == bt[k] by {}
            lemma_pieces_of_formatted(s, g, b + rl, 8, p + 2, (7 - b) as nat);
            let bk = g.subrange(b + rl, 8);
            assert(f.len() + bk.len() == 8 - rl <= 7);
            assert forall|k: int|
                0 <= k < 8 implies (f + zero_groups(rl) + bk)[k] == g[k] by {
                if b <= k < b + rl {
                    assert(g[k] == 0);
                }
            }
            assert(f + zero_groups(8 - f.len() - bk.len()) + bk =~= g);
        }
        assert forall|k: int| 0 <= k < s.len() implies s[k] != 46 by {
            if k < p {
                assert(s[k] == ft[k]);
                assert(is_hex_digit(ft[k]) || ft[k] == 58);
            } else if k >= p + 2 {
                assert(s[k] == bt[k - p - 2]);
                assert(is_hex_digit(bt[k - p - 2]) || bt[k - p - 2] == 58);
            }
        }
    }
}

/// An address text written by the formatter always parses back as the very
/// address it was written from.
pub proof fn lemma_format_ip_parses(a: IpAddress)
    ensures
        spec_parse_ip(spec_format_ip(a)) == Some(a),
{
    match a {
        IpAddress::V4(x0, x1, x2, x3) => {
            lemma_format_ipv4_parses(x0, x1, x2, x3);
        },
        IpAddress::V6(g0, g1, g2, g3, g4, g5, g6, g7) => {
            let g = seq![g0, g1, g2, g3, g4, g5, g6, g7];
            lemma_format_ipv6_parses(g);
            let s = spec_format_ip(a);
            assert(s == spec_format_ipv6(g));
            match spec_octet_at(s, 0) {
                None => {
                    assert(spec_ipv4_at(s, 0) is None);
                },
                Some((x, p1)) => {
                    lemma_dec_run_end(s, 0);
                    if p1 < s.len() {
                        assert(s[p1] != 46);
                    }
                    assert(spec_ipv4_at(s, 0) is None);
                },
            }
            assert(spec_parse_ipv4(s) is None);
        },
    }
}

/// What it means for a byte string to be a textual IP address, and which
/// address it denotes: dotted-decimal IPv4 first, IPv6 otherwise.
pub open spec fn spec_parse_ip(s: Seq<u8>) -> Option<IpAddress> {
    match spec_parse_ipv4(s) {
        Some((a, b, c, d)) => Some(IpAddress::V4(a, b, c, d)),
        None => match spec_parse_ipv6(s) {
            Some(g) => Some(IpAddress::V6(g[0], g[1], g[2], g[3], g[4], g[5], g[6], g[7])),
            None => None,
        },
    }
}

/// Decimal text of a nonnegative number, no leading zeros.
pub open spec fn dec_string(n: int) -> Seq<u8>
    decreases n
        when n >= 0
{
    if n < 10 {
        seq![(48 + n) as u8]
    } else {
        dec_string(n / 10) + seq![(48 + n % 10) as u8]
    }
}

pub open spec fn hex_digit_char(d: int) -> u8 {
    if d < 10 {
        (48 + d) as u8
    } else {
        (87 + d) as u8
    }
}

/// Lowercase hexadecimal text of a nonnegative number, no leading zeros.
pub open spec fn hex_string(n: int) -> Seq<u8>
    decreases n
        when n >= 0
{
    if n < 16 {
        seq![hex_digit_char(n)]
    } else {
        hex_string(n / 16) + seq![hex_digit_char(n % 16)]
    }
}

pub fn u16_to_dec(n: u16) -> (r: Vec<u8>)
    ensures
        r@ == dec_string(n as int),
    decreases n,
{
    if n < 10 {
        let mut v: Vec<u8> = Vec::new();
        v.push(48 + n as u8);
        proof {
            assert(v@ =~= dec_string(n as int));
        }
        v
    } else {
        let mut v = u16_to_dec(n / 10);
        v.push(48 + (n % 10) as u8);
        proof {
            assert(v@ =~= dec_string((n / 10) as int) + seq![(48 + n as int % 10) as u8]);
        }
        v
    }
}

fn u16_to_hex(n: u16) -> (r: Vec<u8>)
    ensures
        r@ == hex_string(n as int),
    decreases n,
{
    if n < 16 {
        let d = n as u8;
        let mut v: Vec<u8> = Vec::new();
        v.push(if d < 10 {
            48 + d
        } else {
            87 + d
        });
        proof {
            assert(v@ =~= hex_string(n as int));
        }
        v
    } else {
        let mut v = u16_to_hex(n / 16);
        let d = (n % 16) as u8;
        v.push(if d < 10 {
            48 + d
        } else {
            87 + d
        });
        proof {
            assert(v@ =~= hex_string((n / 16) as int) + seq![hex_digit_char(n as int % 16)]);
        }
        v
    }
}

/// Appends the bytes of `piece` to `out`.
fn append_bytes(out: &mut Vec<u8>, piece: &[u8])
    ensures
        final(out)@ == old(out)@ + piece@,
{
    let mut k: usize = 0;
    while k < piece.len()
        invariant
            k <= piece@.len(),
            out@ == old(out)@ + piece@.subrange(0, k as int),
        decreases piece@.len() - k,
    {
        out.push(piece[k]);
        proof {
            assert(old(out)@ + piece@.subrange(0, k as int) + seq![piece@[k as int]] =~= old(
                out,
            )@ + piece@.subrange(0, k + 1));
        }
        k = k + 1;
    }
    proof {
        assert(piece@.subrange(0, piece@.len() as int) =~= piece@);
    }
}

/// Dotted-decimal text of an IPv4 address.
pub open spec fn spec_format_ipv4(a: u8, b: u8, c: u8, d: u8) -> Seq<u8> {
    dec_string(a as int) + seq![46u8] + dec_string(b as int) + seq![46u8] + dec_string(c as int)
        + seq![46u8] + dec_string(d as int)
}

/// Length of the run of zero groups starting at `i`.
pub open spec fn run_len(g: Seq<u16>, i: int) -> int
    decreases g.len() - i
        when 0 <= i <= g.len()
{
    if i < g.len() && g[i] == 0 {
        1 + run_len(g, i + 1)
    } else {
        0
    }
}

/// Start of the longest run of zero groups at or after `i`; the leftmost
/// such run on a tie.
pub open spec fn best_run(g: Seq<u16>, i: int) -> int
    decreases g.len() - i
        when 0 <= i <= g.len()
{
    if i >= g.len() {
        i
    } else {
        let rest = best_run(g, i + 1);
        if run_len(g, i) >= run_len(g, rest) {
            i
        } else {
            rest
        }
    }
}

/// Colon-separated lowercase hexadecimal text of the groups `g[i..j]`.
pub open spec fn hex_groups(g: Seq<u16>, i: int, j: int) -> Seq<u8>
    decreases j - i,
{
    if i >= j {
        Seq::<u8>::empty()
    } else if i + 1 == j {
        hex_string(g[i] as int)
    } else {
        hex_string(g[i] as int) + seq![58u8] + hex_groups(g, i + 1, j)
    }
}

/// Canonical text of an IPv6 address: lowercase hexadecimal groups, with the
/// longest run of two or more zero groups (the leftmost on a tie) written
/// `::`.
pub open spec fn spec_format_ipv6(g: Seq<u16>) -> Seq<u8> {
    let b = best_run(g, 0);
    if run_len(g, b) < 2 {
        hex_groups(g, 0, 8)
    } else {
        hex_groups(g, 0, b) + seq![58u8, 58u8] + hex_groups(g, b + run_len(g, b), 8)
    }
}

/// Textual form of an address, as the transport peer address is reported.
pub open spec fn spec_format_ip(a: IpAddress) -> Seq<u8> {
    match a {
        IpAddress::V4(x0, x1, x2, x3) => spec_format_ipv4(x0, x1, x2, x3),
        IpAddress::V6(g0, g1, g2, g3, g4, g5, g6, g7) => spec_format_ipv6(
            seq![g0, g1, g2, g3, g4, g5, g6, g7],
        ),
    }
}

fn run_len_exec(g: &Vec<u16>, i: usize) -> (r: usize)
    requires
        i <= g@.len(),
    ensures
        r == run_len(g@, i as int),
        i + r <= g@.len(),
    decreases g@.len() - i,
{
    if i < g.len() && g[i] == 0 {
        let rest = run_len_exec(g, i + 1);
        1 + rest
    } else {
        0
    }
}

fn best_run_exec(g: &Vec<u16>, i: usize) -> (r: usize)
    requires
        i <= g@.len(),
    ensures
        r == best_run(g@, i as int),
        i <= r <= g@.len(),
    decreases g@.len() - i,
{
    if i >= g.len() {
        i
    } else {
        let rest = best_run_exec(g, i + 1);
        if run_len_exec(g, i) >= run_len_exec(g, rest) {
            i
        } else {
            rest
        }
    }
}

fn hex_groups_exec(g: &Vec<u16>, i: usize, j: usize) -> (r: Vec<u8>)
    requires
        i <= g@.len(),
        j <= g@.len(),
    ensures
        r@ == hex_groups(g@, i as int, j as int),
    decreases g@.len() - i,
{
    if i >= j {
        let v: Vec<u8> = Vec::new();
        proof {
            assert(v@ =~= hex_groups(g@, i as int, j as int));
        }
        v
    } else if i + 1 == j {
        u16_to_hex(g[i])
    } else {
        let mut v = u16_to_hex(g[i]);
        v.push(58);
        let rest = hex_groups_exec(g, i + 1, j);
        append_bytes(&mut v, rest.as_slice());
        proof {
            assert(v@ =~= hex_string(g@[i as int] as int) + seq![58u8] + hex_groups(
                g@,
                i as int + 1,
                j as int,
            ));
        }
        v
    }
}

/// Writes an address in its textual form.
pub fn format_ip(a: &IpAddress) -> (r: Vec<u8>)
    ensures
        r@ == spec_format_ip(*a),
{
    match a {
        IpAddress::V4(x0, x1, x2, x3) => {
            let mut v = u16_to_dec(*x0 as u16);
            v.push(46);
            let p1 = u16_to_dec(*x1 as u16);
            append_bytes(&mut v, p1.as_slice());
            v.push(46);
            let p2 = u16_to_dec(*x2 as u16);
            append_bytes(&mut v, p2.as_slice());
            v.push(46);
            let p3 = u16_to_dec(*x3 as u16);
            append_bytes(&mut v, p3.as_slice());
            proof {
                assert(v@ =~= spec_format_ipv4(*x0, *x1, *x2, *x3));
            }
            v
        },
        IpAddress::V6(g0, g1, g2, g3, g4, g5, g6, g7) => {
            let mut g: Vec<u16> = Vec::new();
            g.push(*g0);
            g.push(*g1);
            g.push(*g2);
            g.push(*g3);
            g.push(*g4);
            g.push(*g5);
            g.push(*g6);
            g.push(*g7);
            proof {
                assert(g@ =~= seq![*g0, *g1, *g2, *g3, *g4, *g5, *g6, *g7]);
            }
            let b = best_run_exec(&g, 0);
            let rl = run_len_exec(&g, b);
            if rl < 2 {
                hex_groups_exec(&g, 0, 8)
            } else {
                let mut v = hex_groups_exec(&g, 0, b);
                v.push(58);
                v.push(58);
                let tail = hex_groups_exec(&g, b + rl, 8);
                append_bytes(&mut v, tail.as_slice());
                proof {
                    assert(v@ =~= hex_groups(g@, 0, b as int) + seq![58u8, 58u8] + hex_groups(
                        g@,
                        b + rl,
                        8,
                    ));
                }
                v
            }
        },
    }
}

pub proof fn lemma_dec_string_digits(n: int)
    requires
        0 <= n,
    ensures
        dec_string(n).len() >= 1,
        forall|k: int| 0 <= k < dec_string(n).len() ==> is_dec_digit(dec_string(n)[k]),
    decreases n,
{
    if n >= 10 {
        lemma_dec_string_digits(n / 10);
    }
}

pub proof fn lemma_dec_string_len(n: int)
    requires
        0 <= n,
    ensures
        dec_string(n).len() >= 1,
        n < 10 ==> dec_string(n).len() == 1,
        n < 100 ==> dec_string(n).len() <= 2,
        n < 1000 ==> dec_string(n).len() <= 3,
        n >= 10 ==> dec_string(n)[0] != 48,
    decreases n,
{
    if n >= 10 {
        lemma_dec_string_len(n / 10);
    }
}

pub proof fn lemma_dec_value_agree(s1: Seq<u8>, s2: Seq<u8>, i: int, j: int)
    requires
        forall|k: int| i <= k < j ==> s1[k] == s2[k],
    ensures
        dec_value(s1, i, j) == dec_value(s2, i, j),
    decreases j - i,
{
    if i < j {
        lemma_dec_value_agree(s1, s2, i, j - 1);
    }
}

pub proof fn lemma_dec_value_shift(s: Seq<u8>, t: Seq<u8>, off: int, j: int)
    requires
        0 <= j <= t.len(),
        forall|k: int| 0 <= k < t.len() ==> s[off + k] == t[k],
    ensures
        dec_value(s, off, off + j) == dec_value(t, 0, j),
    decreases j,
{
    if j > 0 {
        lemma_dec_value_shift(s, t, off, j - 1);
    }
}

pub proof fn lemma_dec_value_of_dec_string(n: int)
    requires
        0 <= n,
    ensures
        dec_value(dec_string(n), 0, dec_string(n).len() as int) == n,
    decreases n,
{
    let s = dec_string(n);
    if n < 10 {
        assert(dec_value(s, 0, 0) == 0);
        assert(dec_value(s, 0, 1) == dec_digit_val(s[0]));
    } else {
        let t = dec_string(n / 10);
        lemma_dec_value_of_dec_string(n / 10);
        lemma_dec_string_digits(n / 10);
        assert(s == t + seq![(48 + n % 10) as u8]);
        assert(forall|k: int| 0 <= k < t.len() ==> s[k] == t[k]);
        lemma_dec_value_agree(s, t, 0, t.len() as int);
        assert(s[s.len() - 1] == (48 + n % 10) as u8);
        assert(dec_value(s, 0, s.len() as int) == dec_value(s, 0, t.len() as int) * 10
            + dec_digit_val(s[s.len() - 1]));
        assert(n / 10 * 10 + n % 10 == n);
    }
}

pub proof fn lemma_dec_run_end_at(s: Seq<u8>, i: int, j: int)
    requires
        0 <= i <= j <= s.len(),
        forall|k: int| i <= k < j ==> is_dec_digit(s[k]),
        j == s.len() || !is_dec_digit(s[j]),
    ensures
        dec_run_end(s, i) == j,
    decreases j - i,
{
    if i < j {
        lemma_dec_run_end_at(s, i + 1, j);
    }
}

/// An octet written in decimal at offset `o`, delimited by the end of the
/// string or a non-digit, reads back as itself.
proof fn lemma_octet_at_offset(s: Seq<u8>, o: int, n: int)
    requires
        0 <= o <= s.len(),
        0 <= n <= 255,
        forall|k: int| 0 <= k < dec_string(n).len() ==> s[o + k] == dec_string(n)[k],
        o + dec_string(n).len() <= s.len(),
        o + dec_string(n).len() == s.len() || !is_dec_digit(s[o + dec_string(n).len()]),
    ensures
        spec_octet_at(s, o) == Some((n as u8, o + dec_string(n).len())),
{
    let t = dec_string(n);
    lemma_dec_string_digits(n);
    lemma_dec_string_len(n);
    lemma_dec_value_of_dec_string(n);
    assert forall|k: int| o <= k < o + t.len() implies is_dec_digit(s[k]) by {
        assert(s[o + (k - o)] == t[k - o]);
        assert(is_dec_digit(t[k - o]));
    }
    lemma_dec_run_end_at(s, o, o + t.len());
    lemma_dec_value_shift(s, t, o, t.len() as int);
    assert(dec_value(s, o, o + t.len()) == n);
    if t.len() > 1 {
        assert(n >= 10);
        assert(s[o] == t[0]);
        assert(s[o] != 48);
    }
}

pub proof fn lemma_hex_string_digits(n: int)
    requires
        0 <= n,
    ensures
        hex_string(n).len() >= 1,
        forall|k: int| 0 <= k < hex_string(n).len() ==> is_hex_digit(hex_string(n)[k]),
    decreases n,
{
    if n >= 16 {
        lemma_hex_string_digits(n / 16);
    }
}

pub proof fn lemma_hex_string_len(n: int)
    requires
        0 <= n,
    ensures
        hex_string(n).len() >= 1,
        n < 16 ==> hex_string(n).len() == 1,
        n < 256 ==> hex_string(n).len() <= 2,
        n < 4096 ==> hex_string(n).len() <= 3,
        n < 65536 ==> hex_string(n).len() <= 4,
    decreases n,
{
    if n >= 16 {
        lemma_hex_string_len(n / 16);
    }
}

pub proof fn lemma_hex_value_agree(s1: Seq<u8>, s2: Seq<u8>, i: int, j: int)
    requires
        forall|k: int| i <= k < j ==> s1[k] == s2[k],
    ensures
        hex_value(s1, i, j) == hex_value(s2, i, j),
    decreases j - i,
{
    if i < j {
        lemma_hex_value_agree(s1, s2, i, j - 1);
    }
}

pub proof fn lemma_hex_value_shift(s: Seq<u8>, t: Seq<u8>, off: int, j: int)
    requires
        0 <= j <= t.len(),
        forall|k: int| 0 <= k < t.len() ==> s[off + k] == t[k],
    ensures
        hex_value(s, off, off + j) == hex_value(t, 0, j),
    decreases j,
{
    if j > 0 {
        lemma_hex_value_shift(s, t, off, j - 1);
    }
}

pub proof fn lemma_hex_value_of_hex_string(n: int)
    requires
        0 <= n,
    ensures
        hex_value(hex_string(n), 0, hex_string(n).len() as int) == n,
    decreases n,
{
    let s = hex_string(n);
    if n < 16 {
        assert(hex_value(s, 0, 0) == 0);
        assert(hex_value(s, 0, 1) == hex_digit_val(s[0]));
        assert(hex_digit_val(hex_digit_char(n)) == n);
    } else {
        let t = hex_string(n / 16);
        lemma_hex_value_of_hex_string(n / 16);
        lemma_hex_string_digits(n / 16);
        assert(s == t + seq![hex_digit_char(n % 16)]);
        assert(forall|k: int| 0 <= k < t.len() ==> s[k] == t[k]);
        lemma_hex_value_agree(s, t, 0, t.len() as int);
        assert(s[s.len() - 1] == hex_digit_char(n % 16));
        assert(hex_digit_val(hex_digit_char(n % 16)) == n % 16);
        assert(hex_value(s, 0, s.len() as int) == hex_value(s, 0, t.len() as int) * 16
            + hex_digit_val(s[s.len() - 1]));
        assert(n / 16 * 16 + n % 16 == n);
    }
}

pub proof fn lemma_hex_run_end_at(s: Seq<u8>, i: int, j: int)
    requires
        0 <= i <= j <= s.len(),
        forall|k: int| i <= k < j ==> is_hex_digit(s[k]),
        j == s.len() || !is_hex_digit(s[j]),
    ensures
        hex_run_end(s, i) == j,
    decreases j - i,
{
    if i < j {
        lemma_hex_run_end_at(s, i + 1, j);
    }
}

/// A 16-bit group written in hexadecimal at offset `o`, delimited by the
/// end of the string or a non-hex-digit, reads back as itself.
proof fn lemma_h16_at_offset(s: Seq<u8>, o: int, n: int)
    requires
        0 <= o <= s.len(),
        0 <= n <= 65535,
        forall|k: int| 0 <= k < hex_string(n).len() ==> s[o + k] == hex_string(n)[k],
        o + hex_string(n).len() <= s.len(),
        o + hex_string(n).len() == s.len() || !is_hex_digit(s[o + hex_string(n).len()]),
    ensures
        spec_h16_at(s, o) == Some((n as u16, o + hex_string(n).len())),
        hex_run_end(s, o) == o + hex_string(n).len(),
    decreases n,
{
    let t = hex_string(n);
    lemma_hex_string_digits(n);
    lemma_hex_string_len(n);
    lemma_hex_value_of_hex_string(n);
    assert forall|k: int| o <= k < o + t.len() implies is_hex_digit(s[k]) by {
        assert(s[o + (k - o)] == t[k - o]);
        assert(is_hex_digit(t[k - o]));
    }
    lemma_hex_run_end_at(s, o, o + t.len());
    lemma_hex_value_shift(s, t, o, t.len() as int);
    assert(hex_value(s, o, o + t.len()) == n);
}

/// The text of a group range holds only hex digits and single colons: it
/// starts and ends with a hex digit and never holds two adjacent colons.
proof fn lemma_hex_groups_chars(g: Seq<u16>, i: int, j: int)
    requires
        0 <= i < j <= g.len(),
    ensures
        hex_groups(g, i, j).len() >= 1,
        is_hex_digit(hex_groups(g, i, j)[0]),
        is_hex_digit(hex_groups(g, i, j)[hex_groups(g, i, j).len() - 1]),
        forall|k: int|
            0 <= k < hex_groups(g, i, j).len() ==> (is_hex_digit(hex_groups(g, i, j)[k])
                || hex_groups(g, i, j)[k] == 58),
        forall|k: int|
            0 <= k < hex_groups(g, i, j).len() - 1 ==> !(#[trigger] hex_groups(g, i, j)[k] == 58
                && hex_groups(g, i, j)[k + 1] == 58),
    decreases j - i,
{
    let t = hex_groups(g, i, j);
    lemma_hex_string_digits(g[i] as int);
    let hs = hex_string(g[i] as int);
    if i + 1 == j {
        assert(t == hs);
    } else {
        lemma_hex_groups_chars(g, i + 1, j);
        let rest = hex_groups(g, i + 1, j);
        assert(t == hs + seq![58u8] + rest);
        let hl = hs.len() as int;
        assert forall|k: int|
            0 <= k < t.len() implies (is_hex_digit(t[k]) || t[k] == 58) by {
            if k < hl {
                assert(t[k] == hs[k]);
            } else if k == hl {
                assert(t[k] == 58);
            } else {
                assert(t[k] == rest[k - hl - 1]);
            }
        }
        assert forall|k: int|
            0 <= k < t.len() - 1 implies !(#[trigger] t[k] == 58 && t[k + 1] == 58) by {
            if k + 1 < hl {
                assert(t[k] == hs[k]);
            } else if k + 1 == hl {
                assert(t[k] == hs[k]);
            } else if k == hl {
                assert(t[k + 1] == rest[0]);
                assert(is_hex_digit(rest[0]));
            } else {
                assert(t[k] == rest[k - hl - 1]);
                assert(t[k + 1] == rest[k - hl]);
            }
        }
        assert(t[t.len() - 1] == rest[rest.len() - 1]);
        assert(t[0] == hs[0]);
    }
}

/// The run of zero groups starting at `i` is in bounds, holds only zeros,
/// and is delimited by the end or a nonzero group.
proof fn lemma_run_len_zeros(g: Seq<u16>, i: int)
    requires
        0 <= i <= g.len(),
    ensures
        0 <= run_len(g, i),
        i + run_len(g, i) <= g.len(),
        forall|k: int| i <= k < i + run_len(g, i) ==> g[k] == 0,
    decreases g.len() - i,
{
    if i < g.len() && g[i] == 0 {
        lemma_run_len_zeros(g, i + 1);
    }
}

proof fn lemma_best_run_bounds(g: Seq<u16>, i: int)
    requires
        0 <= i <= g.len(),
    ensures
        i <= best_run(g, i) <= g.len(),
    decreases g.len() - i,
{
    if i < g.len() {
        lemma_best_run_bounds(g, i + 1);
    }
}

/// A string without adjacent colons holds no `::`.
proof fn lemma_dc_pos_none(s: Seq<u8>, i: int)
    requires
        0 <= i <= s.len(),
        forall|q: int| 0 <= q < s.len() - 1 ==> !(#[trigger] s[q] == 58 && s[q + 1] == 58),
    ensures
        spec_dc_pos(s, i) == -1,
    decreases s.len() - i,
{
    if i + 1 < s.len() {
        lemma_dc_pos_none(s, i + 1);
    }
}

/// The first `::` of a string stands where the first adjacent colon pair
/// stands.
proof fn lemma_dc_pos_at(s: Seq<u8>, i: int, p: int)
    requires
        0 <= i <= p,
        p + 1 < s.len(),
        s[p] == 58 && s[p + 1] == 58,
        forall|q: int| i <= q < p ==> !(#[trigger] s[q] == 58 && s[q + 1] == 58),
    ensures
        spec_dc_pos(s, i) == p,
    decreases p - i,
{
    if i < p {
        lemma_dc_pos_at(s, i + 1, p);
    }
}

/// Formatted groups standing at `off` and running to the end of the string
/// read back as exactly those groups.
proof fn lemma_pieces_of_formatted(s: Seq<u8>, g: Seq<u16>, i: int, j: int, off: int, m: nat)
    requires
        0 <= i < j <= g.len(),
        m >= j - i,
        0 <= off <= s.len(),
        forall|k: int| 0 <= k < hex_groups(g, i, j).len() ==> s[off + k] == hex_groups(g, i, j)[k],
        off + hex_groups(g, i, j).len() == s.len(),
    ensures
        spec_pieces(s, off, m) == Some(g.subrange(i, j)),
    decreases j - i,
{
    let t = hex_groups(g, i, j);
    let hs = hex_string(g[i] as int);
    lemma_hex_string_digits(g[i] as int);
    let hl = hs.len() as int;
    if i + 1 == j {
        assert(t == hs);
        lemma_h16_at_offset(s, off, g[i] as int);
        assert(spec_h16_at(s, off) == Some((g[i], s.len() as int)));
        assert(g.subrange(i, j) =~= seq![g[i]]);
    } else {
        let rest = hex_groups(g, i + 1, j);
        assert(t == hs + seq![58u8] + rest);
        lemma_hex_groups_chars(g, i + 1, j);
        assert forall|k: int| 0 <= k < hl implies s[off + k] == hs[k] by {
            assert(s[off + k] == t[k]);
        }
        assert(s[off + hl] == t[hl]);
        assert(t[hl] == 58);
        lemma_h16_at_offset(s, off, g[i] as int);
        assert(hex_run_end(s, off) == off + hl);
        assert(spec_h16_at(s, off) == Some((g[i], off + hl)));
        assert(off + hl < s.len());
        assert forall|k: int| 0 <= k < rest.len() implies s[(off + hl + 1) + k] == rest[k] by {
            assert(s[off + (hl + 1 + k)] == t[hl + 1 + k]);
            assert(t[hl + 1 + k] == rest[k]);
        }
        lemma_pieces_of_formatted(s, g, i + 1, j, off + hl + 1, (m - 1) as nat);
        assert(seq![g[i]] + g.subrange(i + 1, j) =~= g.subrange(i, j));
    }
}

/// Formatted groups standing at `off` and running exactly to `endpos` read
/// back as exactly those groups.
proof fn lemma_front_of_formatted(
    s: Seq<u8>,
    g: Seq<u16>,
    i: int,
    j: int,
    off: int,
    endpos: int,
    m: nat,
)
    requires
        0 <= i < j <= g.len(),
        m >= j - i,
        0 <= off <= endpos <= s.len(),
        forall|k: int| 0 <= k < hex_groups(g, i, j).len() ==> s[off + k] == hex_groups(g, i, j)[k],
        off + hex_groups(g, i, j).len() == endpos,
        endpos == s.len() || !is_hex_digit(s[endpos]),
    ensures
        spec_front(s, off, endpos, m) == Some(g.subrange(i, j)),
    decreases j - i,
{
    let t = hex_groups(g, i, j);
    let hs = hex_string(g[i] as int);
    lemma_hex_string_digits(g[i] as int);
    let hl = hs.len() as int;
    if i + 1 == j {
        assert(t == hs);
        lemma_h16_at_offset(s, off, g[i] as int);
        assert(spec_h16_at(s, off) == Some((g[i], endpos)));
        assert(g.subrange(i, j) =~= seq![g[i]]);
    } else {
        let rest = hex_groups(g, i + 1, j);
        assert(t == hs + seq![58u8] + rest);
        lemma_hex_groups_chars(g, i + 1, j);
        assert forall|k: int| 0 <= k < hl implies s[off + k] == hs[k] by {
            assert(s[off + k] == t[k]);
        }
        assert(s[off + hl] == t[hl]);
        assert(t[hl] == 58);
        lemma_h16_at_offset(s, off, g[i] as int);
        assert(spec_h16_at(s, off) == Some((g[i], off + hl)));
        assert(off + hl < endpos);
        assert forall|k: int| 0 <= k < rest.len() implies s[(off + hl + 1) + k] == rest[k] by {
            assert(s[off + (hl + 1 + k)] == t[hl + 1 + k]);
            assert(t[hl + 1 + k] == rest[k]);
        }
        lemma_front_of_formatted(s, g, i + 1, j, off + hl + 1, endpos, (m - 1) as nat);
        assert(seq![g[i]] + g.subrange(i + 1, j) =~= g.subrange(i, j));
    }
}

/// An IPv4 address text written by the formatter always parses back as the
/// very address it was written from.
pub proof fn lemma_format_ipv4_parses(a: u8, b: u8, c: u8, d: u8)
    ensures
        spec_parse_ip(spec_format_ipv4(a, b, c, d)) == Some(IpAddress::V4(a, b, c, d)),
{
    let s = spec_format_ipv4(a, b, c, d);
    let ta = dec_string(a as int);
    let tb = dec_string(b as int);
    let tc = dec_string(c as int);
    let td = dec_string(d as int);
    lemma_dec_string_digits(a as int);
    lemma_dec_string_digits(b as int);
    lemma_dec_string_digits(c as int);
    lemma_dec_string_digits(d as int);
    let ob = ta.len() as int + 1;
    let oc = ob + tb.len() as int + 1;
    let od = oc + tc.len() as int + 1;
    assert(s.len() == od + td.len());
    assert forall|k: int| 0 <= k < ta.len() implies s[k] == ta[k] by {}
    assert(s[ta.len() as int] == 46);
    assert forall|k: int| 0 <= k < tb.len() implies s[ob + k] == tb[k] by {}
    assert(s[ob + tb.len()] == 46);
    assert forall|k: int| 0 <= k < tc.len() implies s[oc + k] == tc[k] by {}
    assert(s[oc + tc.len()] == 46);
    assert forall|k: int| 0 <= k < td.len() implies s[od + k] == td[k] by {}
    lemma_octet_at_offset(s, 0, a as int);
    lemma_octet_at_offset(s, ob, b as int);
    lemma_octet_at_offset(s, oc, c as int);
    lemma_octet_at_offset(s, od, d as int);
    assert(spec_ipv4_at(s, 0) == Some(((a, b, c, d), s.len() as int)));
    assert(spec_parse_ipv4(s) == Some((a, b, c, d)));
}

pub fn parse_ip(s: &[u8]) -> (r: Option<IpAddress>)
    ensures
        r == spec_parse_ip(s@),
{
    match parse_ipv4(s) {
        Some((a, b, c, d)) => Some(IpAddress::V4(a, b, c, d)),
        None => match parse_ipv6(s) {
            Some((g0, g1, g2, g3, g4, g5, g6, g7)) => Some(
                IpAddress::V6(g0, g1, g2, g3, g4, g5, g6, g7),
            ),
            None => None,
        },
    }
}

} // verus!
