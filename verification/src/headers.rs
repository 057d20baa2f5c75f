use vstd::prelude::*;

verus! {

/// One request header, name and value as raw bytes.
pub struct Header {
    pub name: Vec<u8>,
    pub value: Vec<u8>,
}

/// ASCII uppercase letters folded to lowercase; every other byte unchanged.
pub open spec fn ascii_lower(b: u8) -> u8 {
    if 65 <= b && b <= 90 {
        (b + 32) as u8
    } else {
        b
    }
}

/// Header names match without regard to ASCII case.
pub open spec fn name_matches(n: Seq<u8>, t: Seq<u8>) -> bool {
    n.len() == t.len() && forall|k: int| 0 <= k < n.len() ==> ascii_lower(n[k]) == ascii_lower(t[k])
}

/// Value of the first header whose name matches `t`, if any.
pub open spec fn spec_find_header(hs: Seq<Header>, t: Seq<u8>) -> Option<Seq<u8>>
    decreases hs.len(),
{
    if hs.len() == 0 {
        None
    } else if name_matches(hs[0].name@, t) {
        Some(hs[0].value@)
    } else {
        spec_find_header(hs.drop_first(), t)
    }
}

fn names_match(a: &[u8], b: &[u8]) -> (r: bool)
    ensures
        r == name_matches(a@, b@),
{
    if a.len() != b.len() {
        return false;
    }
    let n = a.len();
    let mut k: usize = 0;
    while k < n
        invariant
            n == a@.len() == b@.len(),
            k <= n,
            forall|t: int| 0 <= t < k ==> ascii_lower(a@[t]) == ascii_lower(b@[t]),
        decreases n - k,
    {
        let x = a[k];
        let y = b[k];
        let lx = if 65 <= x && x <= 90 {
            x + 32
        } else {
            x
        };
        let ly = if 65 <= y && y <= 90 {
            y + 32
        } else {
            y
        };
        if lx != ly {
            proof {
                assert(ascii_lower(a@[k as int]) != ascii_lower(b@[k as int]));
            }
            return false;
        }
        k = k + 1;
    }
    true
}

/// Looks up a header by name, without regard to ASCII case; the first match
/// wins.
pub fn find_header<'a>(headers: &'a Vec<Header>, name: &[u8]) -> (r: Option<&'a Vec<u8>>)
    ensures
        r is None ==> spec_find_header(headers@, name@) is None,
        r matches Some(v) ==> spec_find_header(headers@, name@) == Some(v@),
{
    let n = headers.len();
    let mut i: usize = 0;
    proof {
        assert(headers@.skip(0) =~= headers@);
    }
    while i < n
        invariant
            n == headers@.len(),
            i <= n,
            spec_find_header(headers@, name@) == spec_find_header(
                headers@.skip(i as int),
                name@,
            ),
        decreases n - i,
    {
        proof {
            assert(headers@.skip(i as int)[0] == headers@[i as int]);
            assert(headers@.skip(i as int).drop_first() =~= headers@.skip(i as int + 1));
        }
        if names_match(headers[i].name.as_slice(), name) {
            return Some(&headers[i].value);
        }
        i = i + 1;
    }
    None
}

} // verus!
