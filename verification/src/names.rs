//! Name resolution: turn a typed noun into an entity. A thing's description
//! doubles as its name, matched case-insensitively as a substring over what
//! the actor can plausibly refer to. First match wins.

use vstd::prelude::*;
use crate::id::EntityId;
use crate::text::{char_is_whitespace, is_ws};

verus! {

/// Where to look for a named thing, relative to the actor.
#[derive(Clone, Copy, Debug, PartialEq, Eq, Structural)]
pub enum Scope {
    /// Things the actor is holding.
    Inventory,
    /// Things on the floor of the actor's room.
    Room,
}

/// The Unicode lowercase mapping of a string, as `str::to_lowercase` computes it.
pub uninterp spec fn lowercased(s: Seq<char>) -> Seq<char>;

/// `str::to_lowercase`: the string with every character replaced by its
/// Unicode lowercase mapping. Its result is named, not spelled out.
#[verifier::external_body]
pub(crate) fn to_lowercase(s: &str) -> (r: String)
    ensures
        r@ == lowercased(s@),
{
    s.to_lowercase()
}

/// `s` without its leading whitespace.
pub open spec fn ltrim(s: Seq<char>) -> Seq<char>
    decreases s.len(),
{
    if s.len() > 0 && is_ws(s[0]) {
        ltrim(s.drop_first())
    } else {
        s
    }
}

/// `s` without its trailing whitespace.
pub open spec fn rtrim(s: Seq<char>) -> Seq<char>
    decreases s.len(),
{
    if s.len() > 0 && is_ws(s.last()) {
        rtrim(s.drop_last())
    } else {
        s
    }
}

/// `s` without leading or trailing whitespace, as `str::trim` gives it.
pub open spec fn trimmed(s: Seq<char>) -> Seq<char> {
    rtrim(ltrim(s))
}

/// Whether `n` occurs in `h` as a contiguous run.
pub open spec fn has_sub(h: Seq<char>, n: Seq<char>) -> bool {
    exists|i: int| 0 <= i && i + n.len() <= h.len() && #[trigger] h.subrange(i, i + n.len()) == n
}

/// What a query is matched by: trimmed, then lowercased.
pub open spec fn needle_of(query: Seq<char>) -> Seq<char> {
    lowercased(trimmed(query))
}

/// Whether a candidate's description, lowercased, contains the needle.
pub open spec fn names(description: Option<Seq<char>>, needle: Seq<char>) -> bool {
    match description {
        Some(d) => has_sub(lowercased(d), needle),
        None => false,
    }
}

/// The first candidate, other than the actor, whose description matches.
pub open spec fn first_match(cands: Seq<(u64, Option<Seq<char>>)>, actor: u64, needle: Seq<char>) -> Option<u64>
    decreases cands.len(),
{
    if cands.len() == 0 {
        None
    } else if cands[0].0 != actor && names(cands[0].1, needle) {
        Some(cands[0].0)
    } else {
        first_match(cands.drop_first(), actor, needle)
    }
}

proof fn lemma_trim_pushed_ws(q: Seq<char>, c: char)
    requires
        is_ws(c),
    ensures
        trimmed(q.push(c)) == trimmed(q),
    decreases q.len(),
{
    if q.len() == 0 {
        assert(q.push(c).drop_first() =~= Seq::<char>::empty());
        assert(ltrim(q.push(c)) == ltrim(Seq::<char>::empty()));
    } else if is_ws(q[0]) {
        assert(q.push(c).drop_first() =~= q.drop_first().push(c));
        lemma_trim_pushed_ws(q.drop_first(), c);
    } else {
        assert(q.push(c).drop_last() =~= q);
    }
}

/// Whitespace around a query does not change what it names: a query padded
/// with a whitespace character on either side is matched by the same needle.
pub proof fn lemma_query_padding(q: Seq<char>, c: char)
    requires
        is_ws(c),
    ensures
        needle_of(seq![c] + q) == needle_of(q),
        needle_of(q.push(c)) == needle_of(q),
{
    assert((seq![c] + q).drop_first() =~= q);
    assert(ltrim(seq![c] + q) == ltrim(q));
    lemma_trim_pushed_ws(q, c);
}

/// Whether `n` occurs in `h` starting at offset `i`, character by character.
pub open spec fn occurs_at(h: Seq<char>, n: Seq<char>, i: int) -> bool {
    0 <= i && i + n.len() <= h.len() && forall|t: int| 0 <= t < n.len() ==> h[i + t] == n[t]
}

/// Whether candidate `c` is not the actor and `n` occurs at offset `i` of
/// its lowercased description.
pub open spec fn described_at(c: (u64, Option<Seq<char>>), actor: u64, n: Seq<char>, i: int) -> bool {
    c.0 != actor && match c.1 {
        Some(d) => occurs_at(lowercased(d), n, i),
        None => false,
    }
}

proof fn lemma_names_at(d: Seq<char>, n: Seq<char>)
    ensures
        names(Some(d), n) <==> exists|i: int| occurs_at(lowercased(d), n, i),
{
    let h = lowercased(d);
    if names(Some(d), n) {
        let i = choose|i: int| 0 <= i && i + n.len() <= h.len() && #[trigger] h.subrange(i, i + n.len()) == n;
        assert forall|t: int| 0 <= t < n.len() implies h[i + t] == n[t] by {
            assert(h.subrange(i, i + n.len())[t] == h[i + t]);
        }
        assert(occurs_at(h, n, i));
    }
    if exists|i: int| occurs_at(h, n, i) {
        let i = choose|i: int| occurs_at(h, n, i);
        assert(h.subrange(i, i + n.len()) =~= n);
    }
}

/// A match may start anywhere in a description, not only at a word: when
/// candidate `k` is not the actor and the lowercased needle occurs at any
/// offset of its lowercased description, some candidate is found; and when
/// no earlier candidate other than the actor holds the needle at any offset,
/// the one found is candidate `k`.
pub proof fn lemma_match_anywhere(cands: Seq<(u64, Option<Seq<char>>)>, actor: u64, n: Seq<char>, k: int, i: int)
    requires
        0 <= k < cands.len(),
        described_at(cands[k], actor, n, i),
    ensures
        first_match(cands, actor, n) is Some,
        (forall|j: int, o: int| 0 <= j < k ==> !#[trigger] described_at(cands[j], actor, n, o)) ==> first_match(
            cands,
            actor,
            n,
        ) == Some(cands[k].0),
    decreases k,
{
    if let Some(d) = cands[k].1 {
        lemma_names_at(d, n);
    }
    if let Some(d0) = cands[0].1 {
        lemma_names_at(d0, n);
    }
    if k > 0 {
        let rest = cands.drop_first();
        assert(rest[k - 1] == cands[k]);
        lemma_match_anywhere(rest, actor, n, k - 1, i);
        if forall|j: int, o: int| 0 <= j < k ==> !#[trigger] described_at(cands[j], actor, n, o) {
            assert forall|j: int, o: int| 0 <= j < k - 1 implies !#[trigger] described_at(rest[j], actor, n, o) by {
                assert(rest[j] == cands[j + 1]);
                assert(!described_at(cands[j + 1], actor, n, o));
            }
            if cands[0].0 != actor && names(cands[0].1, n) {
                let d0 = cands[0].1->Some_0;
                let o = choose|o: int| occurs_at(lowercased(d0), n, o);
                assert(described_at(cands[0], actor, n, o));
            }
        }
    }
}

/// Whatever is found is a candidate other than the actor whose lowercased
/// description holds the needle at some offset.
pub proof fn lemma_match_found(cands: Seq<(u64, Option<Seq<char>>)>, actor: u64, n: Seq<char>)
    ensures
        first_match(cands, actor, n) matches Some(e) ==> exists|j: int, o: int|
            0 <= j < cands.len() && cands[j].0 == e && #[trigger] described_at(cands[j], actor, n, o),
    decreases cands.len(),
{
    if cands.len() > 0 {
        if let Some(d0) = cands[0].1 {
            lemma_names_at(d0, n);
        }
        if cands[0].0 != actor && names(cands[0].1, n) {
            let d0 = cands[0].1->Some_0;
            let o = choose|o: int| occurs_at(lowercased(d0), n, o);
            assert(described_at(cands[0], actor, n, o));
        } else {
            let rest = cands.drop_first();
            lemma_match_found(rest, actor, n);
            if first_match(rest, actor, n) is Some {
                let (j, o) = choose|j: int, o: int|
                    0 <= j < rest.len() && rest[j].0 == first_match(rest, actor, n)->Some_0 && #[trigger] described_at(
                        rest[j],
                        actor,
                        n,
                        o,
                    );
                assert(rest[j] == cands[j + 1]);
                assert(described_at(cands[j + 1], actor, n, o));
            }
        }
    }
}

/// Model of the candidates: each entity with its description, if it has one.
pub open spec fn candidates_view(v: Seq<(EntityId, Option<String>)>) -> Seq<(u64, Option<Seq<char>>)> {
    v.map_values(
        |c: (EntityId, Option<String>)|
            (
                c.0.0,
                match c.1 {
                    Some(d) => Some(d@),
                    None => None,
                },
            ),
    )
}

/// The container whose contents a scope searches: the actor itself for its
/// inventory, its room otherwise.
pub fn scope_container(scope: Scope, actor: EntityId, room: Option<EntityId>) -> (r: Option<EntityId>)
    ensures
        r == match scope {
            Scope::Inventory => Some(actor),
            Scope::Room => room,
        },
{
    match scope {
        Scope::Inventory => Some(actor),
        Scope::Room => room,
    }
}

/// The positions `[a, b)` of `s` that remain once surrounding whitespace is cut.
pub(crate) fn trim_bounds(s: &str) -> (r: (usize, usize))
    ensures
        r.0 <= r.1 <= s@.len(),
        s@.subrange(r.0 as int, r.1 as int) == trimmed(s@),
{
    let n = s.unicode_len();
    let mut a: usize = 0;
    assert(s@.subrange(0, n as int) =~= s@);
    while a < n && char_is_whitespace(s.get_char(a))
        invariant
            n == s@.len(),
            a <= n,
            ltrim(s@) == ltrim(s@.subrange(a as int, n as int)),
        decreases n - a,
    {
        assert(s@.subrange(a as int, n as int).drop_first() =~= s@.subrange(a + 1, n as int));
        a = a + 1;
    }
    assert(ltrim(s@) == s@.subrange(a as int, n as int));
    let mut b: usize = n;
    while b > a && char_is_whitespace(s.get_char(b - 1))
        invariant
            n == s@.len(),
            a <= b <= n,
            rtrim(ltrim(s@)) == rtrim(s@.subrange(a as int, b as int)),
        decreases b - a,
    {
        assert(s@.subrange(a as int, b as int).drop_last() =~= s@.subrange(a as int, b - 1));
        b = b - 1;
    }
    (a, b)
}

/// The characters of `s`.
fn chars_of(s: &str) -> (r: Vec<char>)
    ensures
        r@ == s@,
{
    let n = s.unicode_len();
    let mut out: Vec<char> = Vec::new();
    let mut i: usize = 0;
    while i < n
        invariant
            n == s@.len(),
            i <= n,
            out@ == s@.take(i as int),
        decreases n - i,
    {
        out.push(s.get_char(i));
        assert(out@ =~= s@.take(i + 1));
        i = i + 1;
    }
    assert(s@.take(n as int) =~= s@);
    out
}

/// Whether `needle` occurs in `hay`.
fn contains_sub(hay: &Vec<char>, needle: &Vec<char>) -> (r: bool)
    ensures
        r == has_sub(hay@, needle@),
{
    let h = hay.len();
    let m = needle.len();
    if m > h {
        return false;
    }
    let mut i: usize = 0;
    while i <= h - m
        invariant
            h == hay@.len(),
            m == needle@.len(),
            m <= h,
            i <= h - m + 1,
            forall|k: int| 0 <= k < i ==> #[trigger] hay@.subrange(k, k + m) != needle@,
        decreases h - m + 1 - i,
    {
        let mut j: usize = 0;
        while j < m && hay[i + j] == needle[j]
            invariant
                h == hay@.len(),
                m == needle@.len(),
                i + m <= h,
                j <= m,
                forall|t: int| 0 <= t < j ==> hay@[i + t] == needle@[t],
            decreases m - j,
        {
            j = j + 1;
        }
        if j == m {
            assert(hay@.subrange(i as int, i + m) =~= needle@);
            return true;
        }
        assert(hay@.subrange(i as int, i + m)[j as int] != needle@[j as int]);
        i = i + 1;
    }
    proof {
        assert forall|k: int| 0 <= k && k + m <= h implies #[trigger] hay@.subrange(k, k + m) != needle@ by {
            assert(k < i);
        }
    }
    false
}

/// Resolve `query` to the first of `candidates`, in order, whose description
/// contains it case-insensitively, never the actor itself (you don't `take`
/// yourself). A query that is blank once trimmed names nothing.
pub fn resolve(candidates: &[(EntityId, Option<String>)], actor: EntityId, query: &str) -> (r: Option<EntityId>)
    ensures
        match r {
            Some(e) => needle_of(query@).len() > 0 && first_match(candidates_view(candidates@), actor.0, needle_of(query@)) == Some(e.0),
            None => needle_of(query@).len() == 0 || first_match(candidates_view(candidates@), actor.0, needle_of(query@)) is None,
        },
{
    let (a, b) = trim_bounds(query);
    let lowered = to_lowercase(query.substring_char(a, b));
    let needle = chars_of(lowered.as_str());
    if needle.len() == 0 {
        return None;
    }
    let ghost cv = candidates_view(candidates@);
    let ghost nv = needle_of(query@);
    let mut i: usize = 0;
    assert(cv.skip(0) =~= cv);
    while i < candidates.len()
        invariant
            cv == candidates_view(candidates@),
            nv == needle_of(query@),
            needle@ == nv,
            nv.len() > 0,
            i <= cv.len(),
            first_match(cv, actor.0, nv) == first_match(cv.skip(i as int), actor.0, nv),
        decreases candidates.len() - i,
    {
        assert(cv.skip(i as int).drop_first() =~= cv.skip(i + 1));
        let (entity, description) = (&candidates[i].0, &candidates[i].1);
        assert(cv[i as int].0 == entity.0);
        assert(cv.skip(i as int)[0] == cv[i as int]);
        if entity.0 != actor.0 {
            match description {
                Some(d) => {
                    let hay = chars_of(to_lowercase(d.as_str()).as_str());
                    if contains_sub(&hay, &needle) {
                        proof {
                            assert(cv[i as int] == (entity.0, Some(d@)));
                            assert(cv.skip(i as int)[0] == cv[i as int]);
                            assert(names(cv[i as int].1, nv));
                        }
                        return Some(*entity);
                    }
                },
                None => {},
            }
        }
        i = i + 1;
    }
    None
}

} // verus!
