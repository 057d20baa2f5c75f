use vstd::prelude::*;
use crate::ip::{hex_digit_char, hex_digit_val, is_hex_digit};

verus! {

/// How one byte appears inside a JSON string: quote and backslash get a
/// backslash escape, control bytes a `\u00XX` escape, all else is itself.
pub open spec fn esc_byte(b: u8) -> Seq<u8> {
    if b == 34 {
        seq![92u8, 34u8]
    } else if b == 92 {
        seq![92u8, 92u8]
    } else if b < 32 {
        seq![92u8, 117u8, 48u8, 48u8, hex_digit_char(b as int / 16), hex_digit_char(b as int % 16)]
    } else {
        seq![b]
    }
}

/// A byte string as it appears inside a JSON string literal.
pub open spec fn json_escape(s: Seq<u8>) -> Seq<u8>
    decreases s.len(),
{
    if s.len() == 0 {
        Seq::<u8>::empty()
    } else {
        esc_byte(s[0]) + json_escape(s.drop_first())
    }
}

pub proof fn lemma_escape_push(a: Seq<u8>, x: u8)
    ensures
        json_escape(a.push(x)) == json_escape(a) + esc_byte(x),
    decreases a.len(),
{
    if a.len() == 0 {
        assert(a.push(x) =~= seq![x]);
        assert(seq![x].drop_first() =~= Seq::<u8>::empty());
        assert(seq![x][0] == x);
        assert(json_escape(Seq::<u8>::empty()) =~= Seq::<u8>::empty());
        assert(esc_byte(x) + Seq::<u8>::empty() =~= esc_byte(x));
        assert(json_escape(seq![x]) =~= esc_byte(x));
        assert(json_escape(a) + esc_byte(x) =~= esc_byte(x));
    } else {
        assert(a.push(x).drop_first() =~= a.drop_first().push(x));
        lemma_escape_push(a.drop_first(), x);
        assert(json_escape(a.push(x)) == esc_byte(a[0]) + (json_escape(a.drop_first()) + esc_byte(
            x,
        )));
        assert(esc_byte(a[0]) + (json_escape(a.drop_first()) + esc_byte(x)) =~= (esc_byte(a[0])
            + json_escape(a.drop_first())) + esc_byte(x));
    }
}

/// Appends `s` to `out` in its JSON-escaped form.
fn push_escaped(out: &mut Vec<u8>, s: &Vec<u8>)
    ensures
        final(out)@ == old(out)@ + json_escape(s@),
{
    let n = s.len();
    let mut k: usize = 0;
    proof {
        assert(s@.subrange(0, 0) =~= Seq::<u8>::empty());
        assert(out@ + json_escape(s@.subrange(0, 0)) =~= out@);
    }
    while k < n
        invariant
            n == s@.len(),
            k <= n,
            out@ == old(out)@ + json_escape(s@.subrange(0, k as int)),
        decreases n - k,
    {
        let b = s[k];
        if b == 34 {
            out.push(92);
            out.push(34);
        } else if b == 92 {
            out.push(92);
            out.push(92);
        } else if b < 32 {
            out.push(92);
            out.push(117);
            out.push(48);
            out.push(48);
            out.push(48 + b / 16);
            let lo = b % 16;
            out.push(if lo < 10 {
                48 + lo
            } else {
                87 + lo
            });
        } else {
            out.push(b);
        }
        proof {
            lemma_escape_push(s@.subrange(0, k as int), s@[k as int]);
            assert(s@.subrange(0, k as int).push(s@[k as int]) =~= s@.subrange(0, k as int + 1));
            assert(out@ =~= old(out)@ + (json_escape(s@.subrange(0, k as int)) + esc_byte(
                s@[k as int],
            )));
        }
        k = k + 1;
    }
    proof {
        assert(s@.subrange(0, s@.len() as int) =~= s@);
    }
}

/// The text `{"ip":"`.
pub open spec fn lit_open_ip() -> Seq<u8> {
    seq![123u8, 34u8, 105u8, 112u8, 34u8, 58u8, 34u8]
}

/// The text `,"port":"`.
pub open spec fn lit_mid_port() -> Seq<u8> {
    seq![44u8, 34u8, 112u8, 111u8, 114u8, 116u8, 34u8, 58u8, 34u8]
}

/// The text `,"hostname":"`.
pub open spec fn lit_mid_hostname() -> Seq<u8> {
    seq![44u8, 34u8, 104u8, 111u8, 115u8, 116u8, 110u8, 97u8, 109u8, 101u8, 34u8, 58u8, 34u8]
}

/// The response body: a JSON object with exactly the members `ip`, `port`
/// and `hostname`, in that order, each a string.
pub open spec fn spec_response_body(ip: Seq<u8>, port: Seq<u8>, hostname: Seq<u8>) -> Seq<u8> {
    lit_open_ip() + json_escape(ip) + seq![34u8] + lit_mid_port() + json_escape(port) + seq![34u8]
        + lit_mid_hostname() + json_escape(hostname) + seq![34u8, 125u8]
}

/// Serializes the three reported fields as the JSON response body.
pub fn assemble_response(ip: &Vec<u8>, port: &Vec<u8>, hostname: &Vec<u8>) -> (r: Vec<u8>)
    ensures
        r@ == spec_response_body(ip@, port@, hostname@),
{
    let mut v: Vec<u8> = Vec::new();
    v.push(123);
    v.push(34);
    v.push(105);
    v.push(112);
    v.push(34);
    v.push(58);
    v.push(34);
    proof {
        assert(v@ =~= lit_open_ip());
    }
    push_escaped(&mut v, ip);
    v.push(34);
    v.push(44);
    v.push(34);
    v.push(112);
    v.push(111);
    v.push(114);
    v.push(116);
    v.push(34);
    v.push(58);
    v.push(34);
    proof {
        assert(v@ =~= lit_open_ip() + json_escape(ip@) + seq![34u8] + lit_mid_port());
    }
    push_escaped(&mut v, port);
    v.push(34);
    v.push(44);
    v.push(34);
    v.push(104);
    v.push(111);
    v.push(115);
    v.push(116);
    v.push(110);
    v.push(97);
    v.push(109);
    v.push(101);
    v.push(34);
    v.push(58);
    v.push(34);
    proof {
        assert(v@ =~= lit_open_ip() + json_escape(ip@) + seq![34u8] + lit_mid_port() + json_escape(
            port@,
        ) + seq![34u8] + lit_mid_hostname());
    }
    push_escaped(&mut v, hostname);
    v.push(34);
    v.push(125);
    proof {
        assert(v@ =~= spec_response_body(ip@, port@, hostname@));
    }
    v
}

/// Strips `lit` from the front of `s`, if it stands there.
pub open spec fn strip_prefix(s: Seq<u8>, lit: Seq<u8>) -> Option<Seq<u8>> {
    if lit.len() <= s.len() && s.subrange(0, lit.len() as int) == lit {
        Some(s.subrange(lit.len() as int, s.len() as int))
    } else {
        None
    }
}

/// Reads a JSON string body up to its closing quote: the unescaped content
/// and what follows the quote. Accepts exactly the escapes `assemble_response`
/// writes, and no raw quote, backslash or control byte.
pub open spec fn scan_string(s: Seq<u8>) -> Option<(Seq<u8>, Seq<u8>)>
    decreases s.len(),
{
    if s.len() == 0 {
        None
    } else if s[0] == 34 {
        Some((Seq::<u8>::empty(), s.drop_first()))
    } else if s[0] == 92 {
        if s.len() >= 2 && s[1] == 34 {
            match scan_string(s.skip(2)) {
                None => None,
                Some((c, r)) => Some((seq![34u8] + c, r)),
            }
        } else if s.len() >= 2 && s[1] == 92 {
            match scan_string(s.skip(2)) {
                None => None,
                Some((c, r)) => Some((seq![92u8] + c, r)),
            }
        } else if s.len() >= 6 && s[1] == 117 && s[2] == 48 && s[3] == 48 && is_hex_digit(s[4])
            && is_hex_digit(s[5]) {
            match scan_string(s.skip(6)) {
                None => None,
                Some((c, r)) => Some(
                    (seq![(hex_digit_val(s[4]) * 16 + hex_digit_val(s[5])) as u8] + c, r),
                ),
            }
        } else {
            None
        }
    } else if s[0] < 32 {
        None
    } else {
        match scan_string(s.drop_first()) {
            None => None,
            Some((c, r)) => Some((seq![s[0]] + c, r)),
        }
    }
}

/// Reads a response body back as a JSON object with exactly the members
/// `ip`, `port` and `hostname`, in that order, each a string; anything of
/// another shape is refused.
pub open spec fn spec_parse_response(s: Seq<u8>) -> Option<(Seq<u8>, Seq<u8>, Seq<u8>)> {
    match strip_prefix(s, lit_open_ip()) {
        None => None,
        Some(s1) => match scan_string(s1) {
            None => None,
            Some((ip, s2)) => match strip_prefix(s2, lit_mid_port()) {
                None => None,
                Some(s3) => match scan_string(s3) {
                    None => None,
                    Some((port, s4)) => match strip_prefix(s4, lit_mid_hostname()) {
                        None => None,
                        Some(s5) => match scan_string(s5) {
                            None => None,
                            Some((hostname, s6)) => if s6 == seq![125u8] {
                                Some((ip, port, hostname))
                            } else {
                                None
                            },
                        },
                    },
                },
            },
        },
    }
}

/// Reading an escaped field back yields the field: scanning the escaped
/// bytes, a closing quote and a tail returns the unescaped bytes and the
/// tail.
pub proof fn lemma_scan_escaped(v: Seq<u8>, tail: Seq<u8>)
    ensures
        scan_string(json_escape(v) + seq![34u8] + tail) == Some((v, tail)),
    decreases v.len(),
{
    let s = json_escape(v) + seq![34u8] + tail;
    if v.len() == 0 {
        assert(json_escape(v) =~= Seq::<u8>::empty());
        assert(s =~= seq![34u8] + tail);
        assert(s[0] == 34);
        assert(s.drop_first() =~= tail);
    } else {
        let b = v[0];
        let rest = json_escape(v.drop_first()) + seq![34u8] + tail;
        lemma_scan_escaped(v.drop_first(), tail);
        assert(s =~= esc_byte(b) + rest);
        if b == 34 {
            assert(s[0] == 92 && s[1] == 34 && s.len() >= 2);
            assert(s.skip(2) =~= rest);
            assert(seq![34u8] + v.drop_first() =~= v);
        } else if b == 92 {
            assert(s[0] == 92 && s[1] == 92 && s.len() >= 2);
            assert(s.skip(2) =~= rest);
            assert(seq![92u8] + v.drop_first() =~= v);
        } else if b < 32 {
            let hi = hex_digit_char(b as int / 16);
            let lo = hex_digit_char(b as int % 16);
            assert(s[0] == 92 && s[1] == 117 && s[2] == 48 && s[3] == 48 && s[4] == hi && s[5]
                == lo && s.len() >= 6);
            assert(is_hex_digit(hi) && hex_digit_val(hi) == b as int / 16);
            assert(is_hex_digit(lo) && hex_digit_val(lo) == b as int % 16);
            assert(hex_digit_val(s[4]) * 16 + hex_digit_val(s[5]) == b as int);
            assert(s.skip(6) =~= rest);
            assert(seq![b] + v.drop_first() =~= v);
        } else {
            assert(s[0] == b);
            assert(s.drop_first() =~= rest);
            assert(seq![b] + v.drop_first() =~= v);
        }
    }
}

/// Every response body is the JSON object with exactly the three string
/// members `ip`, `port` and `hostname`, and carries the three reported
/// fields intact: reading the body back recovers them exactly.
pub proof fn lemma_response_round_trip(ip: Seq<u8>, port: Seq<u8>, hostname: Seq<u8>)
    ensures
        spec_parse_response(spec_response_body(ip, port, hostname)) == Some(
            (ip, port, hostname),
        ),
{
    let s = spec_response_body(ip, port, hostname);
    let t3 = lit_mid_hostname() + json_escape(hostname) + seq![34u8, 125u8];
    let t1 = lit_mid_port() + json_escape(port) + seq![34u8] + t3;
    assert(s.subrange(0, 7) =~= lit_open_ip());
    assert(s.subrange(7, s.len() as int) =~= json_escape(ip) + seq![34u8] + t1);
    assert(strip_prefix(s, lit_open_ip()) == Some(json_escape(ip) + seq![34u8] + t1));
    lemma_scan_escaped(ip, t1);
    assert(t1.subrange(0, 9) =~= lit_mid_port());
    assert(t1.subrange(9, t1.len() as int) =~= json_escape(port) + seq![34u8] + t3);
    assert(strip_prefix(t1, lit_mid_port()) == Some(json_escape(port) + seq![34u8] + t3));
    lemma_scan_escaped(port, t3);
    assert(t3.subrange(0, 13) =~= lit_mid_hostname());
    assert(t3.subrange(13, t3.len() as int) =~= json_escape(hostname) + seq![34u8] + seq![125u8]);
    assert(strip_prefix(t3, lit_mid_hostname()) == Some(
        json_escape(hostname) + seq![34u8] + seq![125u8],
    ));
    lemma_scan_escaped(hostname, seq![125u8]);
}

} // verus!
