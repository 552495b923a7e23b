//! The command table: the verbs an app registers, looked up by name with
//! abbreviations resolved, and the decision of what one typed line runs.
//! Lookup prefers an exact name, then the first registered verb the input is a
//! prefix of, so registration order is the abbreviation tie-break.

use vstd::prelude::*;
use crate::caps::{Gate, Verdict};
use crate::names::{lowercased, ltrim, to_lowercase, trim_bounds, trimmed};
use crate::text::{char_is_whitespace, is_ws};

verus! {

/// A registrable verb name: one nonempty, lowercase parser word.
pub open spec fn verb_name_ok(name: Seq<char>) -> bool {
    &&& name.len() > 0
    &&& forall|i: int| 0 <= i < name.len() ==> !is_ws(#[trigger] name[i])
    &&& lowercased(name) == name
}

/// `w` is a prefix of `name`.
pub open spec fn is_prefix(w: Seq<char>, name: Seq<char>) -> bool {
    w.len() <= name.len() && name.subrange(0, w.len() as int) == w
}

/// The verb `w` resolves to among `names`: the one named exactly `w`, else the
/// first whose name `w` abbreviates.
pub open spec fn lookup_spec(names: Seq<Seq<char>>, w: Seq<char>) -> Option<int> {
    if exists|i: int| 0 <= i < names.len() && names[i] == w {
        Some(choose|i: int| 0 <= i < names.len() && names[i] == w)
    } else {
        first_prefix(names, w, 0)
    }
}

/// The first position from `from` on whose name `w` abbreviates.
pub open spec fn first_prefix(names: Seq<Seq<char>>, w: Seq<char>, from: nat) -> Option<int>
    decreases names.len() - from,
{
    if from >= names.len() {
        None
    } else if is_prefix(w, names[from as int]) {
        Some(from as int)
    } else {
        first_prefix(names, w, from + 1)
    }
}

/// The position of the first whitespace character of `s`, if any.
pub open spec fn first_ws(s: Seq<char>, from: nat) -> Option<int>
    decreases s.len() - from,
{
    if from >= s.len() {
        None
    } else if is_ws(s[from as int]) {
        Some(from as int)
    } else {
        first_ws(s, from + 1)
    }
}

/// The verb word of a line: up to the first whitespace of the trimmed line.
pub open spec fn line_word(line: Seq<char>) -> Seq<char> {
    let t = trimmed(line);
    match first_ws(t, 0) {
        Some(k) => t.subrange(0, k),
        None => t,
    }
}

/// The argument tail of a line: after the verb word and the whitespace that
/// follows it.
pub open spec fn line_rest(line: Seq<char>) -> Seq<char> {
    let t = trimmed(line);
    match first_ws(t, 0) {
        Some(k) => ltrim(t.subrange(k + 1, t.len() as int)),
        None => Seq::empty(),
    }
}

/// What one command line asks for.
#[derive(Debug, PartialEq, Eq)]
pub enum Dispatch {
    /// A wordless line: nothing runs and nothing is said.
    Nothing,
    /// Run the verb at this position of the table on the argument tail.
    Run { verb: usize, rest: String },
    /// Tell the caller why nothing ran.
    Feedback(String),
}

/// The refusal a gated verb gives a caller whose verdict lacks its capability.
pub open spec fn refusal_text() -> Seq<char> {
    "You aren't allowed to do that."@
}

/// The reply to a word that names no verb.
pub open spec fn unknown_text(word: Seq<char>) -> Seq<char> {
    "I don't understand \""@ + word + "\"."@
}

/// The registry of in-app verbs, each with its permission gate and handler.
pub struct CommandTable<H> {
    verbs: Vec<(String, Gate, H)>,
}

impl<H> CommandTable<H> {
    /// The verb names, in registration order.
    pub closed spec fn names(&self) -> Seq<Seq<char>> {
        self.verbs@.map_values(|v: (String, Gate, H)| v.0@)
    }

    /// The verb gates, in registration order.
    pub closed spec fn gates(&self) -> Seq<Gate> {
        self.verbs@.map_values(|v: (String, Gate, H)| v.1)
    }

    /// The verb handlers, in registration order.
    pub closed spec fn handlers(&self) -> Seq<H> {
        self.verbs@.map_values(|v: (String, Gate, H)| v.2)
    }

    #[verifier::type_invariant]
    spec fn inv(self) -> bool {
        forall|i: int, j: int|
            0 <= i < j < self.verbs@.len() ==> #[trigger] self.verbs@[i].0@ != #[trigger] self.verbs@[j].0@
    }

    /// A fresh, empty table.
    pub fn new() -> (r: Self)
        ensures
            r.names().len() == 0,
    {
        let r = CommandTable { verbs: Vec::new() };
        assert(r.names() =~= Seq::<Seq<char>>::empty());
        r
    }

    pub fn len(&self) -> (r: usize)
        ensures
            r == self.names().len(),
    {
        self.verbs.len()
    }

    /// Whether `name` may be registered: one lowercase parser word not yet taken.
    pub fn can_register(&self, name: &str) -> (r: bool)
        ensures
            r == (verb_name_ok(name@) && !self.names().contains(name@)),
    {
        let n = name.unicode_len();
        if n == 0 {
            return false;
        }
        let mut i: usize = 0;
        while i < n
            invariant
                n == name@.len(),
                i <= n,
                forall|j: int| 0 <= j < i ==> !is_ws(#[trigger] name@[j]),
            decreases n - i,
        {
            if char_is_whitespace(name.get_char(i)) {
                return false;
            }
            i = i + 1;
        }
        let lower = to_lowercase(name);
        if !crate::text::str_eq(lower.as_str(), name) {
            return false;
        }
        match self.find(name) {
            Some(_) => false,
            None => true,
        }
    }

    /// The position of the verb named exactly `name`.
    fn find(&self, name: &str) -> (r: Option<usize>)
        ensures
            match r {
                Some(i) => i < self.names().len() && self.names()[i as int] == name@,
                None => !self.names().contains(name@),
            },
    {
        let mut i: usize = 0;
        while i < self.verbs.len()
            invariant
                i <= self.verbs@.len(),
                forall|j: int| 0 <= j < i ==> self.verbs@[j].0@ != name@,
            decreases self.verbs.len() - i,
        {
            if crate::text::str_eq(self.verbs[i].0.as_str(), name) {
                return Some(i);
            }
            i = i + 1;
        }
        proof {
            if self.names().contains(name@) {
                let j = choose|j: int| 0 <= j < self.names().len() && self.names()[j] == name@;
                assert(self.verbs@[j].0@ == name@);
            }
        }
        None
    }

    /// Register a verb. Order matters for abbreviation ties.
    pub fn register(&mut self, name: &str, gate: Gate, handler: H)
        requires
            verb_name_ok(name@),
            !old(self).names().contains(name@),
        ensures
            final(self).names() == old(self).names().push(name@),
            final(self).gates() == old(self).gates().push(gate),
            final(self).handlers() == old(self).handlers().push(handler),
    {
        proof {
            use_type_invariant(&*self);
        }
        let ghost before = self.verbs@;
        let mut verbs: Vec<(String, Gate, H)> = Vec::new();
        std::mem::swap(&mut verbs, &mut self.verbs);
        verbs.push((name.to_owned(), gate, handler));
        proof {
            assert forall|i: int, j: int| 0 <= i < j < verbs@.len() implies #[trigger] verbs@[i].0@
                != #[trigger] verbs@[j].0@ by {
                if j == before.len() {
                    assert(before.map_values(|v: (String, Gate, H)| v.0@)[i] == before[i].0@);
                } else {
                    assert(before[i].0@ != before[j].0@);
                }
            }
        }
        self.verbs = verbs;
        proof {
            assert(self.names() =~= old(self).names().push(name@));
            assert(self.gates() =~= old(self).gates().push(gate));
            assert(self.handlers() =~= old(self).handlers().push(handler));
        }
    }

    /// The handler at position `verb`.
    pub fn handler(&self, verb: usize) -> (r: &H)
        requires
            verb < self.names().len(),
        ensures
            *r == self.handlers()[verb as int],
    {
        &self.verbs[verb].2
    }

    /// The verb `word` resolves to: an exact name first, else the first
    /// registered verb it abbreviates.
    pub fn lookup(&self, word: &str) -> (r: Option<usize>)
        ensures
            match r {
                Some(i) => i < self.names().len() && lookup_spec(self.names(), word@) == Some(i as int),
                None => lookup_spec(self.names(), word@) is None,
            },
    {
        proof {
            use_type_invariant(self);
        }
        let ghost names = self.names();
        assert(names.len() == self.verbs@.len());
        match self.find(word) {
            Some(i) => {
                proof {
                    let k = choose|k: int| 0 <= k < names.len() && names[k] == word@;
                    if k != i {
                        let (a, b) = if k < i { (k, i as int) } else { (i as int, k) };
                        assert(self.verbs@[a].0@ != self.verbs@[b].0@);
                    }
                }
                return Some(i);
            },
            None => {},
        }
        let m = word.unicode_len();
        let mut i: usize = 0;
        while i < self.verbs.len()
            invariant
                names == self.names(),
                names.len() == self.verbs@.len(),
                !names.contains(word@),
                m == word@.len(),
                i <= names.len(),
                first_prefix(names, word@, 0) == first_prefix(names, word@, i as nat),
            decreases self.verbs.len() - i,
        {
            let name = self.verbs[i].0.as_str();
            assert(names[i as int] == name@);
            let n = name.unicode_len();
            let mut prefix = m <= n;
            if prefix {
                let mut j: usize = 0;
                while j < m
                    invariant
                        m == word@.len(),
                        n == name@.len(),
                        m <= n,
                        j <= m,
                        prefix <==> forall|t: int| 0 <= t < j ==> name@[t] == word@[t],
                    decreases m - j,
                {
                    if name.get_char(j) != word.get_char(j) {
                        prefix = false;
                    }
                    j = j + 1;
                }
                proof {
                    if prefix {
                        assert(name@.subrange(0, m as int) =~= word@);
                    } else {
                        let t = choose|t: int| 0 <= t < m && name@[t] != word@[t];
                        assert(name@.subrange(0, m as int)[t] != word@[t]);
                    }
                }
            }
            if prefix {
                proof {
                    assert(is_prefix(word@, names[i as int]));
                    assert(first_prefix(names, word@, i as nat) == Some(i as int));
                    assert(!(exists|x: int| 0 <= x < names.len() && names[x] == word@));
                }
                return Some(i);
            }
            proof {
                assert(!is_prefix(word@, names[i as int]));
                assert(first_prefix(names, word@, i as nat) == first_prefix(names, word@, (i + 1) as nat));
            }
            i = i + 1;
        }
        proof {
            assert(first_prefix(names, word@, i as nat) is None);
            assert(!(exists|x: int| 0 <= x < names.len() && names[x] == word@));
        }
        None
    }
}

/// The position of the first whitespace character of `s` at or after `from`,
/// or its length when there is none.
fn word_end(s: &str, from: usize) -> (r: usize)
    requires
        from <= s@.len(),
    ensures
        from <= r <= s@.len(),
        first_ws(s@, from as nat) == if r < s@.len() { Some(r as int) } else { None::<int> },
{
    let n = s.unicode_len();
    let mut k: usize = from;
    while k < n && !char_is_whitespace(s.get_char(k))
        invariant
            n == s@.len(),
            from <= k <= n,
            first_ws(s@, from as nat) == first_ws(s@, k as nat),
        decreases n - k,
    {
        k = k + 1;
    }
    k
}

/// The position of the first non-whitespace character at or after `from`.
fn skip_ws(s: &str, from: usize) -> (r: usize)
    requires
        from <= s@.len(),
    ensures
        from <= r <= s@.len(),
        ltrim(s@.subrange(from as int, s@.len() as int)) == s@.subrange(r as int, s@.len() as int),
{
    let n = s.unicode_len();
    let mut k: usize = from;
    while k < n && char_is_whitespace(s.get_char(k))
        invariant
            n == s@.len(),
            from <= k <= n,
            ltrim(s@.subrange(from as int, n as int)) == ltrim(s@.subrange(k as int, n as int)),
        decreases n - k,
    {
        assert(s@.subrange(k as int, n as int).drop_first() =~= s@.subrange(k + 1, n as int));
        k = k + 1;
    }
    k
}

/// Decide what a command line runs for a caller holding `verdict`: a wordless
/// line does nothing; otherwise the first word, lowercased, is looked up, and
/// the verb runs on the rest of the line if its gate admits the verdict.
pub fn dispatch_command<H>(table: &CommandTable<H>, verdict: &Verdict, line: &str) -> (r: Dispatch)
    ensures
        line_word(line@).len() == 0 ==> r == Dispatch::Nothing,
        line_word(line@).len() > 0 ==> match lookup_spec(table.names(), lowercased(line_word(line@))) {
            Some(i) => if table.gates()[i].admits(verdict) {
                r matches Dispatch::Run { verb, rest } && verb == i && rest@ == line_rest(line@)
            } else {
                r matches Dispatch::Feedback(t) && t@ == refusal_text()
            },
            None => r matches Dispatch::Feedback(t) && t@ == unknown_text(line_word(line@)),
        },
{
    let (a, b) = trim_bounds(line);
    let t = line.substring_char(a, b);
    let k = word_end(t, 0);
    let word = t.substring_char(0, k);
    proof {
        assert(t@ == trimmed(line@));
        if k == t@.len() {
            assert(t@.subrange(0, k as int) =~= t@);
        }
    }
    if k == 0 {
        return Dispatch::Nothing;
    }
    let rest: &str = if k < t.unicode_len() {
        let r0 = skip_ws(t, k + 1);
        t.substring_char(r0, t.unicode_len())
    } else {
        ""
    };
    proof {
        if k < t@.len() {
            assert(rest@ == line_rest(line@));
        } else {
            reveal_strlit("");
            assert(rest@ =~= line_rest(line@));
        }
    }
    let lower = to_lowercase(word);
    match table.lookup(lower.as_str()) {
        Some(i) => {
            proof {
                assert(table.names().len() == table.verbs@.len());
            }
            let gate = table.verbs[i].1;
            proof {
                assert(table.gates()[i as int] == gate);
            }
            if gate.permits(verdict) {
                Dispatch::Run { verb: i, rest: rest.to_owned() }
            } else {
                Dispatch::Feedback("You aren't allowed to do that.".to_owned())
            }
        },
        None => {
            let mut text = String::from_str("I don't understand \"");
            text.append(word);
            text.append("\".");
            proof {
                reveal_strlit("I don't understand \"");
                reveal_strlit("\".");
            }
            Dispatch::Feedback(text)
        },
    }
}

} // verus!
