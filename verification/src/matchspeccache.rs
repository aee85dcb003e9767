//! The interning store for constraints: each distinct constraint text is
//! read once, what the parser made of it is kept, and from then on it
//! stands under one handle.
//!
//! A handle is a position, not a reference: it stays good while the cache
//! grows, and the cache can be handed on by `&mut` to whoever interns and
//! by `&` to whoever matches.

use vstd::hash_map::StringHashMap;
use vstd::prelude::*;
use vstd::string::StringExecFns;

use crate::conda::channel_key_at;
use crate::conda::constraint_ok;
use crate::conda::last_bracket;
use crate::conda::matchspec_parses;
use crate::conda::names_channel;
use crate::conda::past_space;
use crate::conda::positional_end;
use crate::conda::read_constraint;
use crate::conda::two_colons;
use crate::conda::Constraint;
use crate::text::char_is_whitespace;
use crate::text::chars_of;

verus! {

/// The handle of an interned constraint: its place in the cache.
#[derive(Clone, Copy, Debug, PartialEq, Eq, Structural)]
pub struct ConstraintId {
    pub index: usize,
}

/// Where the part of `chars` ends that stands before its brackets.
fn end_before_brackets(chars: &Vec<char>) -> (res: usize)
    ensures
        res == positional_end(chars@),
        res <= chars.len(),
{
    let n: usize = chars.len();
    if n == 0 || chars[n - 1] != ']' {
        return n;
    }
    let mut j: usize = n;
    while j > 0
        invariant
            j <= n,
            0 < n == chars.len(),
            chars@[n - 1] == ']',
            last_bracket(chars@, n as int) == last_bracket(chars@, j as int),
        decreases j,
    {
        if chars[j - 1] == '[' {
            assert(last_bracket(chars@, j as int) == j - 1);
            assert(chars@.last() == ']');
            return j - 1;
        }
        j = j - 1;
    }
    n
}

/// Whether the first `end` of `chars` hold two colons.
fn holds_two_colons(chars: &Vec<char>, end: usize) -> (res: bool)
    requires
        end <= chars.len(),
    ensures
        res == two_colons(chars@.take(end as int)),
{
    let ghost part = chars@.take(end as int);
    let mut seen_colon = false;
    let ghost mut colon_at: int = 0;
    let mut i: usize = 0;
    while i < end
        invariant
            i <= end <= chars.len(),
            part == chars@.take(end as int),
            seen_colon ==> 0 <= colon_at < i && part[colon_at] == ':',
            forall|j: int| 0 <= j < i && part[j] == ':' ==> seen_colon && j == colon_at,
        decreases end - i,
    {
        assert(part[i as int] == chars@[i as int]);
        if chars[i] == ':' {
            if seen_colon {
                assert(part[colon_at] == ':' && part[i as int] == ':');
                return true;
            }
            seen_colon = true;
            proof {
                colon_at = i as int;
            }
        }
        i = i + 1;
    }
    proof {
        assert forall|a: int, b: int| 0 <= a < b < part.len() implies !(part[a] == ':' && part[b]
            == ':') by {
            if part[a] == ':' && part[b] == ':' {
                assert(a == colon_at && b == colon_at);
            }
        }
    }
    false
}

/// Whether `channel` stands at `i` in `chars` as a key may.
fn is_channel_key(chars: &Vec<char>, i: usize) -> (res: bool)
    requires
        i < chars.len(),
    ensures
        res == channel_key_at(chars@, i as int),
{
    let n: usize = chars.len();
    if n - i < 7 || chars[i] != 'c' || chars[i + 1] != 'h' || chars[i + 2] != 'a' || chars[i + 3]
        != 'n' || chars[i + 4] != 'n' || chars[i + 5] != 'e' || chars[i + 6] != 'l' {
        return false;
    }
    let mut k: usize = i + 7;
    while k < n && char_is_whitespace(chars[k])
        invariant
            i + 7 <= k <= n,
            n == chars.len(),
            past_space(chars@, i + 7) == past_space(chars@, k as int),
        decreases n - k,
    {
        k = k + 1;
    }
    k < n && chars[k] == '='
}

/// Whether `text` may name a channel: whether it holds two colons before
/// its brackets, or the word `channel` with `=` after it.
pub fn mentions_channel(text: &str) -> (res: bool)
    ensures
        res == names_channel(text@),
{
    let chars = chars_of(text);
    let end = end_before_brackets(&chars);
    if holds_two_colons(&chars, end) {
        return true;
    }
    let mut i: usize = 0;
    while i < chars.len()
        invariant
            chars@ == text@,
            i <= chars.len(),
            forall|j: int| 0 <= j < i ==> !channel_key_at(chars@, j),
        decreases chars.len() - i,
    {
        if is_channel_key(&chars, i) {
            return true;
        }
        i = i + 1;
    }
    proof {
        assert forall|j: int| !channel_key_at(text@, j) by {
            if 0 <= j < chars.len() {
                assert(!channel_key_at(chars@, j));
            }
        }
    }
    false
}

/// The constraints read so far. The view is their texts, in the order in
/// which they came; a text's handle is its position.
pub struct Cache {
    entries: Vec<Constraint>,
    lookup: StringHashMap<usize>,
}

impl View for Cache {
    type V = Seq<Seq<char>>;

    closed spec fn view(&self) -> Seq<Seq<char>> {
        self.entries@.map_values(|constraint: Constraint| constraint@)
    }
}

/// `texts`, with `key` at its end if it was not among them.
pub open spec fn with_text(texts: Seq<Seq<char>>, key: Seq<char>) -> Seq<Seq<char>> {
    if texts.contains(key) {
        texts
    } else {
        texts.push(key)
    }
}

/// No text stands twice in `texts`.
pub open spec fn interned(texts: Seq<Seq<char>>) -> bool {
    forall|i: int, j: int| 0 <= i < j < texts.len() ==> texts[i] != texts[j]
}

/// Whether a cache that holds `texts` takes `key` for sure, whatever the
/// parser would say when asked: `key` is among the texts, or it is a
/// constraint wherever it is read.
pub open spec fn taken_for_sure(texts: Seq<Seq<char>>, key: Seq<char>) -> bool {
    texts.contains(key) || constraint_ok(key)
}

/// Whether a cache that holds `texts` refuses `key` for sure: `key` is not
/// among the texts, it names no channel, and the parser does not take it.
pub open spec fn refused_for_sure(texts: Seq<Seq<char>>, key: Seq<char>) -> bool {
    !texts.contains(key) && !names_channel(key) && !matchspec_parses(key)
}

/// What a cache takes for sure it takes for sure once it holds more.
pub proof fn lemma_taken_later(texts: Seq<Seq<char>>, later: Seq<Seq<char>>, key: Seq<char>)
    requires
        texts.is_prefix_of(later),
        taken_for_sure(texts, key),
    ensures
        taken_for_sure(later, key),
{
    if texts.contains(key) {
        let i = choose|i: int| 0 <= i < texts.len() && texts[i] == key;
        assert(later[i] == key);
    }
}

impl Cache {
    /// The cache's invariant: the lookup table finds exactly the texts of
    /// the constraints held, each at its position.
    pub closed spec fn wf(&self) -> bool {
        &&& forall|i: int|
            0 <= i < self.entries.len() ==> self.lookup@.contains_key(#[trigger] self.entries[i]@)
                && self.lookup@[self.entries[i]@] == i
        &&& forall|text: Seq<char>| #[trigger]
            self.lookup@.contains_key(text) ==> 0 <= self.lookup@[text] < self.entries.len()
                && self.entries[self.lookup@[text] as int]@ == text
    }

    /// A well-formed cache holds interned texts.
    pub proof fn lemma_interned(&self)
        requires
            self.wf(),
        ensures
            interned(self@),
    {
        assert forall|i: int, j: int| 0 <= i < j < self@.len() implies self@[i] != self@[j] by {
            assert(self.lookup@[self.entries[i]@] == i);
            assert(self.lookup@[self.entries[j]@] == j);
        }
    }

    /// An empty cache with room for `capacity` constraints.
    pub fn with_capacity(capacity: usize) -> (res: Cache)
        ensures
            res.wf(),
            res@ == Seq::<Seq<char>>::empty(),
    {
        Cache { entries: Vec::with_capacity(capacity), lookup: StringHashMap::with_capacity(capacity) }
    }

    /// How many constraints are interned.
    pub fn len(&self) -> (res: usize)
        ensures
            res == self@.len(),
    {
        self.entries.len()
    }

    /// The constraint that stands under `id`, as the parser read it.
    pub fn constraint(&self, id: ConstraintId) -> (res: &Constraint)
        requires
            id.index < self@.len(),
        ensures
            res@ == self@[id.index as int],
    {
        &self.entries[id.index]
    }

    /// The handle under which `key` stands, if it is interned.
    pub fn find(&self, key: &str) -> (res: Option<ConstraintId>)
        requires
            self.wf(),
        ensures
            match res {
                Some(id) => id.index < self@.len() && self@[id.index as int] == key@,
                None => !self@.contains(key@),
            },
    {
        match self.lookup.get(key) {
            Some(found) => {
                let index: usize = *found;
                assert(self@[index as int] == key@);
                Some(ConstraintId { index })
            },
            None => {
                proof {
                    if self@.contains(key@) {
                        let i = choose|i: int| 0 <= i < self@.len() && self@[i] == key@;
                        assert(self.lookup@.contains_key(self.entries[i]@));
                    }
                }
                None
            },
        }
    }

    /// Interns `key`, which is not interned yet, given what came of reading
    /// it: the constraint read is kept under a new handle, and where none
    /// was read the parser's error is handed on as it is.
    pub fn intern_read(
        &mut self,
        key: &str,
        read: Result<Constraint, rattler_conda_types::ParseMatchSpecError>,
    ) -> (res: Result<ConstraintId, rattler_conda_types::ParseMatchSpecError>)
        requires
            old(self).wf(),
            !old(self)@.contains(key@),
            read matches Ok(constraint) ==> constraint@ == key@,
        ensures
            final(self).wf(),
            match read {
                Ok(constraint) => {
                    &&& res == Ok::<ConstraintId, rattler_conda_types::ParseMatchSpecError>(
                        ConstraintId { index: old(self)@.len() as usize },
                    )
                    &&& final(self)@ == old(self)@.push(key@)
                },
                Err(error) => {
                    &&& res == Err::<ConstraintId, rattler_conda_types::ParseMatchSpecError>(error)
                    &&& final(self)@ == old(self)@
                },
            },
    {
        match read {
            Err(error) => Err(error),
            Ok(constraint) => {
                let index: usize = self.entries.len();
                self.entries.push(constraint);
                self.lookup.insert(String::from_str(key), index);
                proof {
                    assert(self@ =~= old(self)@.push(key@));
                    assert forall|i: int| 0 <= i < self.entries.len() implies self.lookup@.contains_key(
                        #[trigger] self.entries[i]@,
                    ) && self.lookup@[self.entries[i]@] == i by {
                        if i < index {
                            assert(self.entries[i] == old(self).entries[i]);
                            assert(old(self).lookup@.contains_key(old(self).entries[i]@));
                            assert(old(self)@[i] == old(self).entries[i]@);
                            assert(old(self)@[i] != key@);
                        }
                    }
                    assert forall|text: Seq<char>| #[trigger]
                        self.lookup@.contains_key(text) implies 0 <= self.lookup@[text]
                        < self.entries.len() && self.entries[self.lookup@[text] as int]@ == text by {
                        if text != key@ {
                            assert(old(self).lookup@.contains_key(text));
                        }
                    }
                }
                Ok(ConstraintId { index })
            },
        }
    }

    /// The handle of the constraint `key`, which is read and interned if it
    /// is not in the cache yet. A text is read at most once: what the
    /// parser made of it is kept.
    ///
    /// It fails only where the parser refuses `key`, with the parser's own
    /// error, and the cache is then left as it was. Handles given out
    /// earlier stay good. Of a `key` that is interned, or that names no
    /// channel, the outcome is known beforehand; whether the parser takes a
    /// `key` that names a channel is for the parser to say, when it is
    /// asked.
    pub fn get_or_insert(&mut self, key: &str) -> (res: Result<
        ConstraintId,
        rattler_conda_types::ParseMatchSpecError,
    >)
        requires
            old(self).wf(),
        ensures
            final(self).wf(),
            old(self)@.is_prefix_of(final(self)@),
            match res {
                Ok(id) => {
                    &&& id.index < final(self)@.len()
                    &&& final(self)@[id.index as int] == key@
                    &&& final(self)@ == with_text(old(self)@, key@)
                    &&& !refused_for_sure(old(self)@, key@)
                },
                Err(_) => {
                    &&& !taken_for_sure(old(self)@, key@)
                    &&& final(self)@ == old(self)@
                },
            },
    {
        match self.find(key) {
            Some(id) => Ok(id),
            None => self.intern_read(key, read_constraint(key)),
        }
    }
}

/// Equal texts stand under one handle: two handles of a cache under which
/// the same text stands are the same handle.
pub proof fn lemma_intern_identity(cache: &Cache, a: ConstraintId, b: ConstraintId)
    requires
        cache.wf(),
        a.index < cache@.len(),
        b.index < cache@.len(),
        cache@[a.index as int] == cache@[b.index as int],
    ensures
        a == b,
{
    cache.lemma_interned();
    if a.index < b.index {
        assert(cache@[a.index as int] != cache@[b.index as int]);
    } else if b.index < a.index {
        assert(cache@[b.index as int] != cache@[a.index as int]);
    }
}

} // verus!
