use vstd::prelude::*;

verus! {

/// Calls `String::push` of std, whose documentation says that it appends the
/// given char to the end of the string: the contract says exactly that.
#[verifier::external_body]
pub(crate) fn push_char(s: &mut String, c: char)
    ensures
        final(s)@ == old(s)@.push(c),
{
    s.push(c);
}

/// The character at `i` in `v`.
pub(crate) fn char_at(v: &Vec<char>, i: usize) -> (c: char)
    requires
        i < v.len(),
    ensures
        c == v@[i as int],
{
    v[i]
}

/// The code point of `c`.
pub(crate) fn code_point(c: char) -> (n: u32)
    ensures
        n as int == c as int,
{
    c as u32
}

/// Where the first `c` in `s` stands (`s.len()` if there is none).
pub open spec fn find_char(s: Seq<char>, c: char) -> nat
    decreases s.len(),
{
    if s.len() == 0 {
        0
    } else if s[0] == c {
        0
    } else {
        1 + find_char(s.drop_first(), c)
    }
}

pub(crate) proof fn lemma_find_char(s: Seq<char>, c: char, i: nat)
    requires
        i <= s.len(),
        forall|j: int| 0 <= j < i ==> #[trigger] s[j] != c,
        i == s.len() || s[i as int] == c,
    ensures
        find_char(s, c) == i,
    decreases i,
{
    if i > 0 {
        let t = s.drop_first();
        assert forall|j: int| 0 <= j < i - 1 implies #[trigger] t[j] != c by {
            assert(t[j] == s[j + 1]);
        }
        if i < s.len() {
            assert(t[i - 1] == s[i as int]);
        }
        lemma_find_char(t, c, (i - 1) as nat);
        assert(s[0] != c);
    }
}

/// Where `find_char` stops: no `c` before it, and a `c` at it unless it is
/// the end.
pub(crate) proof fn lemma_find_char_stops(s: Seq<char>, c: char)
    ensures
        find_char(s, c) <= s.len(),
        forall|j: int| 0 <= j < find_char(s, c) ==> #[trigger] s[j] != c,
        find_char(s, c) < s.len() ==> s[find_char(s, c) as int] == c,
    decreases s.len(),
{
    if s.len() > 0 && s[0] != c {
        let t = s.drop_first();
        lemma_find_char_stops(t, c);
        assert forall|j: int| 0 <= j < find_char(s, c) implies #[trigger] s[j] != c by {
            if j > 0 {
                assert(s[j] == t[j - 1]);
            }
        }
    }
}

/// The characters of `s`, in order.
pub(crate) fn chars_of(s: &str) -> (v: Vec<char>)
    ensures
        v@ == s@,
{
    let n = s.unicode_len();
    let mut v: Vec<char> = Vec::new();
    for i in 0..n
        invariant
            n == s@.len(),
            v@ == s@.take(i as int),
    {
        v.push(s.get_char(i));
        assert(v@ =~= s@.take(i + 1));
    }
    assert(s@.take(n as int) =~= s@);
    v
}

/// Where the first `c` at or after `start` stands in `v` (`v.len()` if none).
pub(crate) fn find_from(v: &Vec<char>, start: usize, c: char) -> (k: usize)
    requires
        start <= v.len(),
    ensures
        k == start + find_char(v@.skip(start as int), c),
        k <= v.len(),
{
    let mut k = start;
    while k < v.len() && v[k] != c
        invariant
            start <= k <= v.len(),
            forall|j: int| start <= j < k ==> v@[j] != c,
        decreases v.len() - k,
    {
        k = k + 1;
    }
    proof {
        let t = v@.skip(start as int);
        assert forall|j: int| 0 <= j < k - start implies #[trigger] t[j] != c by {
            assert(t[j] == v@[j + start]);
        }
        if k < v.len() {
            assert(t[k - start] == v@[k as int]);
        }
        lemma_find_char(t, c, (k - start) as nat);
    }
    k
}

} // verus!
