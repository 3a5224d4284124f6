use vstd::prelude::*;
use vstd::string::StrSliceExecFns;
use vstd::string::StringExecFns;

verus! {

/// Whether `n` occurs as a contiguous run of characters inside `h`.
pub open spec fn is_substring(n: Seq<char>, h: Seq<char>) -> bool {
    exists|k: int|
        0 <= k && k + n.len() <= h.len() && (#[trigger] h.subrange(k, k + n.len())) == n
}

/// Whether `h` begins with `n`.
pub open spec fn starts_with(n: Seq<char>, h: Seq<char>) -> bool {
    n.len() <= h.len() && h.subrange(0, n.len() as int) == n
}

/// Two module-path segments joined as source text: `m::n`, or `n` alone when
/// `m` is empty.
pub open spec fn join_path(m: Seq<char>, n: Seq<char>) -> Seq<char> {
    if m.len() == 0 {
        n
    } else {
        m + "::"@ + n
    }
}

/// A whole stack of module names joined with `::`.
pub open spec fn joined_path(parts: Seq<Seq<char>>) -> Seq<char>
    decreases parts.len(),
{
    if parts.len() == 0 {
        Seq::empty()
    } else {
        join_path(joined_path(parts.drop_last()), parts.last())
    }
}

/// The characters of `s`, one by one.
pub fn chars_of(s: &str) -> (r: Vec<char>)
    ensures
        r@ == s@,
{
    let n = s.unicode_len();
    let mut out: Vec<char> = Vec::new();
    let mut i: usize = 0;
    while i < n
        invariant
            n == s@.len(),
            i <= n,
            out@ =~= s@.take(i as int),
        decreases n - i,
    {
        out.push(s.get_char(i));
        i += 1;
    }
    proof {
        assert(out@ =~= s@);
    }
    out
}

/// Character-for-character equality of two string slices.
pub fn str_eq(a: &str, b: &str) -> (r: bool)
    ensures
        r == (a@ == b@),
{
    let n = a.unicode_len();
    let m = b.unicode_len();
    if n != m {
        return false;
    }
    let mut i: usize = 0;
    while i < n
        invariant
            n == a@.len(),
            n == b@.len(),
            i <= n,
            forall|j: int| 0 <= j < i ==> a@[j] == b@[j],
        decreases n - i,
    {
        if a.get_char(i) != b.get_char(i) {
            return false;
        }
        i += 1;
    }
    proof {
        assert(a@ =~= b@);
    }
    true
}

/// Whether the characters `h[k..k+n.len()]` spell out `n`.
fn matches_at(h: &Vec<char>, n: &Vec<char>, k: usize) -> (r: bool)
    requires
        k + n@.len() <= h@.len(),
    ensures
        r == (h@.subrange(k as int, k + n@.len()) == n@),
{
    let hl = h.len();
    let mut j: usize = 0;
    while j < n.len()
        invariant
            hl == h@.len(),
            k + n@.len() <= h@.len(),
            j <= n@.len(),
            forall|l: int| 0 <= l < j ==> h@[k + l] == n@[l],
        decreases n@.len() - j,
    {
        if h[k + j] != n[j] {
            proof {
                assert(h@.subrange(k as int, k + n@.len())[j as int] != n@[j as int]);
            }
            return false;
        }
        j += 1;
    }
    proof {
        assert(h@.subrange(k as int, k + n@.len()) =~= n@);
    }
    true
}

/// Whether `n` occurs anywhere inside `h`.
pub fn chars_contain(h: &Vec<char>, n: &Vec<char>) -> (r: bool)
    ensures
        r == is_substring(n@, h@),
{
    if n.len() > h.len() {
        proof {
            assert(!is_substring(n@, h@));
        }
        return false;
    }
    if n.len() == 0 {
        proof {
            assert(h@.subrange(0, 0 + n@.len() as int) =~= n@);
            assert(is_substring(n@, h@));
        }
        return true;
    }
    let hl = h.len();
    let last = h.len() - n.len();
    let mut k: usize = 0;
    while k <= last
        invariant
            hl == h@.len(),
            1 <= n@.len() <= h@.len(),
            last == h@.len() - n@.len(),
            k <= last + 1,
            forall|p: int| 0 <= p < k ==> (#[trigger] h@.subrange(p, p + n@.len())) != n@,
        decreases last + 1 - k,
    {
        if matches_at(h, n, k) {
            return true;
        }
        k += 1;
    }
    false
}

/// Whether `n` occurs anywhere inside `h`, on string slices.
pub fn str_contains(h: &str, n: &str) -> (r: bool)
    ensures
        r == is_substring(n@, h@),
{
    let hc = chars_of(h);
    let nc = chars_of(n);
    chars_contain(&hc, &nc)
}

/// Whether `h` begins with the characters of `n`.
pub fn str_starts_with(h: &str, n: &str) -> (r: bool)
    ensures
        r == starts_with(n@, h@),
{
    let hc = chars_of(h);
    let nc = chars_of(n);
    if nc.len() > hc.len() {
        return false;
    }
    matches_at(&hc, &nc, 0)
}

/// Relies on String's FromIterator over char: the collected string holds
/// exactly the characters of `v`, in order.
#[verifier::external_body]
pub(crate) fn string_from_chars(v: &Vec<char>) -> (r: String)
    ensures
        r@ == v@,
{
    v.iter().collect()
}

/// A fresh copy of a string, equal to the original.
pub fn clone_string(s: &String) -> (r: String)
    ensures
        r == *s,
{
    s.clone()
}

/// A fresh copy of a vector of strings, equal element by element.
pub fn clone_string_vec(v: &Vec<String>) -> (r: Vec<String>)
    ensures
        r@.len() == v@.len(),
        forall|i: int| 0 <= i < v@.len() ==> r@[i] == v@[i],
        r.deep_view() == v.deep_view(),
{
    let mut out: Vec<String> = Vec::new();
    let mut i: usize = 0;
    while i < v.len()
        invariant
            i <= v@.len(),
            out@.len() == i,
            forall|j: int| 0 <= j < i ==> out@[j] == v@[j],
        decreases v@.len() - i,
    {
        out.push(v[i].clone());
        i += 1;
    }
    proof {
        assert(out.deep_view() =~= v.deep_view());
    }
    out
}

/// Whether some entry of `v` spells the same characters as `s`.
pub fn vec_contains_string(v: &Vec<String>, s: &String) -> (r: bool)
    ensures
        r == v.deep_view().contains(s@),
{
    let mut i: usize = 0;
    while i < v.len()
        invariant
            i <= v@.len(),
            forall|j: int| 0 <= j < i ==> v.deep_view()[j] != s@,
        decreases v@.len() - i,
    {
        if str_eq(v[i].as_str(), s.as_str()) {
            proof {
                assert(v.deep_view()[i as int] == s@);
            }
            return true;
        }
        i += 1;
    }
    proof {
        if v.deep_view().contains(s@) {
            let j = choose|j: int| 0 <= j < v.deep_view().len() && v.deep_view()[j] == s@;
            assert(false);
        }
    }
    false
}

/// `m` and `n` joined as one path string.
pub fn path_join(m: &String, n: &String) -> (r: String)
    ensures
        r@ == join_path(m@, n@),
{
    if m.as_str().is_empty() {
        n.clone()
    } else {
        let mut r = m.clone();
        r.append("::");
        r.append(n.as_str());
        r
    }
}

/// A stack of module names joined with `::` from first to last.
pub fn join_module_path(parts: &Vec<String>) -> (r: String)
    ensures
        r@ == joined_path(parts.deep_view()),
{
    let mut out = String::new();
    let mut i: usize = 0;
    while i < parts.len()
        invariant
            i <= parts@.len(),
            out@ == joined_path(parts.deep_view().take(i as int)),
        decreases parts@.len() - i,
    {
        proof {
            assert(parts.deep_view().take(i + 1).drop_last() =~= parts.deep_view().take(i as int));
            assert(parts.deep_view().take(i + 1).last() == parts.deep_view()[i as int]);
        }
        if i > 0 && out.as_str().is_empty() == false {
            out.append("::");
            out.append(parts[i].as_str());
        } else if i == 0 {
            out = parts[0].clone();
        } else {
            out.append(parts[i].as_str());
        }
        i += 1;
    }
    proof {
        assert(parts.deep_view().take(parts.deep_view().len() as int) =~= parts.deep_view());
    }
    out
}

} // verus!
