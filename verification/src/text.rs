//! Character classes and the name/label rules that stable symbolic identities
//! and player-facing labels must satisfy.

use vstd::prelude::*;

verus! {

/// Unicode `White_Space`, the class `char::is_whitespace` tests.
pub open spec fn is_ws(c: char) -> bool {
    let n = c as u32;
    (0x9 <= n <= 0xD) || n == 0x20 || n == 0x85 || n == 0xA0 || n == 0x1680 || (0x2000 <= n
        <= 0x200A) || n == 0x2028 || n == 0x2029 || n == 0x202F || n == 0x205F || n == 0x3000
}

/// Unicode general category `Cc`, the class `char::is_control` tests.
pub open spec fn is_ctrl(c: char) -> bool {
    let n = c as u32;
    n <= 0x1F || (0x7F <= n <= 0x9F)
}

/// Whether `c` is whitespace in the sense of `char::is_whitespace`.
pub fn char_is_whitespace(c: char) -> (r: bool)
    ensures
        r == is_ws(c),
{
    let n = c as u32;
    (0x9 <= n && n <= 0xD) || n == 0x20 || n == 0x85 || n == 0xA0 || n == 0x1680 || (0x2000 <= n
        && n <= 0x200A) || n == 0x2028 || n == 0x2029 || n == 0x202F || n == 0x205F || n == 0x3000
}

/// Whether `c` is a control character in the sense of `char::is_control`.
pub fn char_is_control(c: char) -> (r: bool)
    ensures
        r == is_ctrl(c),
{
    let n = c as u32;
    n <= 0x1F || (0x7F <= n && n <= 0x9F)
}

/// A stable symbolic name: nonempty, no whitespace, no control characters.
pub open spec fn valid_name(s: Seq<char>) -> bool {
    s.len() > 0 && forall|i: int| 0 <= i < s.len() ==> !is_ws(#[trigger] s[i]) && !is_ctrl(s[i])
}

/// A player-facing label: some visible (non-whitespace) character and no control
/// characters.
pub open spec fn valid_label(s: Seq<char>) -> bool {
    (exists|i: int| 0 <= i < s.len() && !is_ws(#[trigger] s[i])) && forall|i: int|
        0 <= i < s.len() ==> !is_ctrl(#[trigger] s[i])
}

/// Checks the stable-name rule.
pub fn is_valid_name(s: &str) -> (r: bool)
    ensures
        r == valid_name(s@),
{
    let n = s.unicode_len();
    if n == 0 {
        return false;
    }
    let mut i: usize = 0;
    while i < n
        invariant
            n == s@.len(),
            i <= n,
            forall|j: int| 0 <= j < i ==> !is_ws(#[trigger] s@[j]) && !is_ctrl(s@[j]),
        decreases n - i,
    {
        let c = s.get_char(i);
        if char_is_whitespace(c) || char_is_control(c) {
            return false;
        }
        i = i + 1;
    }
    true
}

/// Checks the label rule.
pub fn is_valid_label(s: &str) -> (r: bool)
    ensures
        r == valid_label(s@),
{
    let n = s.unicode_len();
    let mut visible = false;
    let mut i: usize = 0;
    while i < n
        invariant
            n == s@.len(),
            i <= n,
            forall|j: int| 0 <= j < i ==> !is_ctrl(#[trigger] s@[j]),
            visible == exists|j: int| 0 <= j < i && !is_ws(#[trigger] s@[j]),
        decreases n - i,
    {
        let c = s.get_char(i);
        if char_is_control(c) {
            return false;
        }
        if !char_is_whitespace(c) {
            visible = true;
        }
        i = i + 1;
    }
    visible
}

} // verus!

verus! {

/// Whether two strings hold the same characters.
pub fn str_eq(a: &str, b: &str) -> (r: bool)
    ensures
        r == (a@ == b@),
{
    let n = a.unicode_len();
    let m = b.unicode_len();
    if n != m {
        return false;
    }
    let mut i: usize = 0;
    while i < n
        invariant
            n == a@.len(),
            m == b@.len(),
            n == m,
            i <= n,
            forall|j: int| 0 <= j < i ==> a@[j] == b@[j],
        decreases n - i,
    {
        if a.get_char(i) != b.get_char(i) {
            return false;
        }
        i = i + 1;
    }
    assert(a@ =~= b@);
    true
}

/// Strict lexicographic order on character sequences, by code point: the
/// order `str`'s `Ord` gives, since UTF-8 preserves code-point order.
pub open spec fn seq_lt(a: Seq<char>, b: Seq<char>) -> bool
    decreases a.len(),
{
    if a.len() == 0 {
        b.len() > 0
    } else if b.len() == 0 {
        false
    } else if a[0] == b[0] {
        seq_lt(a.drop_first(), b.drop_first())
    } else {
        (a[0] as int) < (b[0] as int)
    }
}

/// No sequence precedes itself.
pub proof fn lemma_seq_lt_irreflexive(a: Seq<char>)
    ensures
        !seq_lt(a, a),
    decreases a.len(),
{
    if a.len() > 0 {
        lemma_seq_lt_irreflexive(a.drop_first());
    }
}

/// Of two distinct sequences, exactly one precedes the other.
pub proof fn lemma_seq_lt_total(a: Seq<char>, b: Seq<char>)
    ensures
        a != b ==> (seq_lt(a, b) || seq_lt(b, a)),
        !(seq_lt(a, b) && seq_lt(b, a)),
    decreases a.len(),
{
    if a.len() > 0 && b.len() > 0 {
        lemma_seq_lt_total(a.drop_first(), b.drop_first());
        if a[0] == b[0] && a != b {
            if a.drop_first() == b.drop_first() {
                assert(a =~= seq![a[0]] + a.drop_first());
                assert(b =~= seq![b[0]] + b.drop_first());
                assert(false);
            }
        }

    } else if a.len() == 0 && b.len() == 0 {
        assert(a =~= b);
    }
}

/// The order is transitive.
pub proof fn lemma_seq_lt_transitive(a: Seq<char>, b: Seq<char>, c: Seq<char>)
    requires
        seq_lt(a, b),
        seq_lt(b, c),
    ensures
        seq_lt(a, c),
    decreases a.len(),
{
    if a.len() > 0 && b.len() > 0 && c.len() > 0 && a[0] == b[0] && b[0] == c[0] {
        lemma_seq_lt_transitive(a.drop_first(), b.drop_first(), c.drop_first());
    }
}

/// Whether `a` sorts strictly before `b`.
pub fn str_lt(a: &str, b: &str) -> (r: bool)
    ensures
        r == seq_lt(a@, b@),
{
    let n = a.unicode_len();
    let m = b.unicode_len();
    let mut i: usize = 0;
    assert(a@.skip(0) =~= a@);
    assert(b@.skip(0) =~= b@);
    while i < n && i < m
        invariant
            n == a@.len(),
            m == b@.len(),
            i <= n,
            i <= m,
            seq_lt(a@, b@) == seq_lt(a@.skip(i as int), b@.skip(i as int)),
        decreases n - i,
    {
        let x = a.get_char(i);
        let y = b.get_char(i);
        if x != y {
            return x < y;
        }
        proof {
            let sa = a@.skip(i as int);
            let sb = b@.skip(i as int);
            assert(sa.drop_first() =~= a@.skip(i + 1));
            assert(sb.drop_first() =~= b@.skip(i + 1));
        }
        i = i + 1;
    }
    i < m && i == n
}

/// A sequence of strings in nondecreasing order.
pub open spec fn strings_sorted(s: Seq<Seq<char>>) -> bool {
    forall|i: int, j: int| 0 <= i < j < s.len() ==> !seq_lt(#[trigger] s[j], #[trigger] s[i])
}

/// Sort strings into nondecreasing order, keeping every one.
pub fn sort_strings(v: Vec<String>) -> (r: Vec<String>)
    ensures
        strings_sorted(r@.map_values(|s: String| s@)),
        r@.map_values(|s: String| s@).to_multiset() == v@.map_values(|s: String| s@).to_multiset(),
{
    let ghost input = v@.map_values(|s: String| s@);
    let mut out: Vec<String> = Vec::new();
    let mut rest = v;
    let ghost consumed: Seq<Seq<char>> = Seq::empty();
    proof {
        assert(out@.map_values(|s: String| s@) =~= Seq::<Seq<char>>::empty());
        assert(input.take(0) =~= Seq::<Seq<char>>::empty());
    }
    let mut k: usize = 0;
    let n = rest.len();
    while k < n
        invariant
            n == rest@.len(),
            input == rest@.map_values(|s: String| s@),
            k <= n,
            strings_sorted(out@.map_values(|s: String| s@)),
            out@.map_values(|s: String| s@).to_multiset() == input.take(k as int).to_multiset(),
        decreases n - k,
    {
        let item = rest[k].clone();
        let ghost o = out@.map_values(|s: String| s@);
        let ghost x = item@;
        assert(x == input[k as int]);
        // first position whose string sorts after `item`
        let mut p: usize = out.len();
        while p > 0
            invariant
                p <= out@.len(),
                o == out@.map_values(|s: String| s@),
                strings_sorted(o),
                x == item@,
                forall|j: int| p <= j < o.len() ==> seq_lt(x, #[trigger] o[j]),
            ensures
                p <= o.len(),
                forall|j: int| p <= j < o.len() ==> seq_lt(x, #[trigger] o[j]),
                p > 0 ==> !seq_lt(x, o[p - 1]),
            decreases p,
        {
            if !str_lt(item.as_str(), out[p - 1].as_str()) {
                break;
            }
            p = p - 1;
        }
        proof {
            assert forall|j: int| 0 <= j < p implies !seq_lt(x, #[trigger] o[j]) by {
                if seq_lt(x, o[j]) {
                    if j < p - 1 {
                        assert(!seq_lt(o[p - 1], o[j]));
                        lemma_seq_lt_total(o[j], o[p - 1]);
                        if o[j] != o[p - 1] {
                            lemma_seq_lt_transitive(x, o[j], o[p - 1]);
                        }
                    }
                }
            }
        }
        out.insert(p, item);
        proof {
            let o2 = out@.map_values(|s: String| s@);
            assert(o2 =~= o.insert(p as int, x));
            assert forall|i: int, j: int| 0 <= i < j < o2.len() implies !seq_lt(#[trigger] o2[j], #[trigger] o2[i]) by {
                if j == p {
                    assert(!seq_lt(x, o[i]));
                } else if i == p {
                    assert(seq_lt(x, o[j - 1]));
                    lemma_seq_lt_total(x, o[j - 1]);
                } else if i < p && j > p {
                    assert(!seq_lt(o[j - 1], o[i]));
                }
            }
            vstd::seq_lib::to_multiset_insert(o, p as int, x);
            assert(input.take(k + 1) =~= input.take(k as int).push(x));
            vstd::seq_lib::to_multiset_build(input.take(k as int), x);
        }
        k = k + 1;
    }
    assert(input.take(n as int) =~= input);
    out
}

} // verus!
