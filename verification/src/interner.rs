//! A dictionary from strings to small, stable integer ids.

use vstd::prelude::*;
use vstd::hash_map::StringHashMap;
use vstd::string::StringSliceAdditionalSpecFns;
use vstd::utf8::{encode_utf8, encode_utf8_decode_utf8};

verus! {

/// Two texts with the same UTF-8 bytes are the same text.
pub proof fn lemma_encode_injective(a: Seq<char>, b: Seq<char>)
    requires
        encode_utf8(a) == encode_utf8(b),
    ensures
        a == b,
{
    encode_utf8_decode_utf8(a);
    encode_utf8_decode_utf8(b);
}

/// A bidirectional dictionary between strings and ids.
///
/// Strings are kept in the order in which they arrived. The first
/// `seeded()` of them carry their position as id; each later one carries its
/// position plus one, which is the number of entries the dictionary held
/// after it was added. An id, once given, never changes.
pub struct Interner {
    names: Vec<String>,
    index: StringHashMap<u32>,
    seeded: usize,
}

impl View for Interner {
    type V = Map<Seq<u8>, u32>;

    /// The dictionary as a map from the bytes of each string to its id.
    open spec fn view(&self) -> Map<Seq<u8>, u32> {
        Map::new(
            |b: Seq<u8>| self.names().contains(b),
            |b: Seq<u8>| self.id_at(self.names().index_of(b)) as u32,
        )
    }
}

impl Interner {
    /// The interned strings, as bytes, in order of arrival.
    pub closed spec fn names(&self) -> Seq<Seq<u8>> {
        Seq::new(self.names@.len(), |i: int| encode_utf8(self.names@[i]@))
    }

    /// How many of the first strings carry their position as id.
    pub closed spec fn seeded(&self) -> nat {
        self.seeded as nat
    }

    /// The id of the string at position `pos`.
    pub open spec fn id_at(&self, pos: int) -> int {
        if pos < self.seeded() {
            pos
        } else {
            pos + 1
        }
    }

    /// Every id is the position of its string.
    pub open spec fn is_positional(&self) -> bool {
        self.seeded() >= u32::MAX
    }

    /// The id of `b`, if `b` is interned.
    pub open spec fn lookup(&self, b: Seq<u8>) -> Option<u32> {
        if self.names().contains(b) {
            Some(self@[b])
        } else {
            None
        }
    }

    /// The string that carries `id`, if any does.
    pub open spec fn name_of(&self, id: u32) -> Option<Seq<u8>> {
        if exists|pos: int| 0 <= pos < self.names().len() && self.id_at(pos) == id {
            let pos = choose|pos: int| 0 <= pos < self.names().len() && self.id_at(pos) == id;
            Some(self.names()[pos])
        } else {
            None
        }
    }

    /// The hash index agrees with the list of names.
    pub closed spec fn index_agrees(&self) -> bool {
        &&& forall|i: int|
            0 <= i < self.names@.len() ==> #[trigger] self.index@.contains_key(self.names@[i]@)
                && self.index@[self.names@[i]@] == self.id_at(i)
        &&& forall|k: Seq<char>| #[trigger]
            self.index@.contains_key(k) ==> exists|i: int|
                0 <= i < self.names@.len() && self.names@[i]@ == k
    }

    /// Validity: no string occurs twice, every id fits in `u32`, and the
    /// index agrees with the list.
    pub open spec fn wf(&self) -> bool {
        &&& self.names().no_duplicates()
        &&& self.names().len() <= u32::MAX
        &&& self.index_agrees()
    }

    /// The position of an interned string is where `index_of` finds it.
    pub proof fn lemma_position(&self, pos: int)
        requires
            self.names().no_duplicates(),
            self.names().len() <= u32::MAX,
            0 <= pos < self.names().len(),
        ensures
            self.names().contains(self.names()[pos]),
            self.names().index_of(self.names()[pos]) == pos,
            self@.contains_key(self.names()[pos]),
            self@[self.names()[pos]] == self.id_at(pos),
    {
        let b = self.names()[pos];
        assert(self.names().contains(b));
        let k = self.names().index_of(b);
        assert(0 <= k < self.names().len() && self.names()[k] == b);
    }

    /// In a positional dictionary the id of a string is where it stands.
    pub proof fn lemma_positional(&self, b: Seq<u8>)
        requires
            self.wf(),
            self.is_positional(),
            self.names().contains(b),
        ensures
            self.lookup(b) == Some(self.names().index_of(b) as u32),
            0 <= self.names().index_of(b) < self.names().len(),
            self.names()[self.names().index_of(b)] == b,
    {
    }

    /// Two positions never share an id.
    pub proof fn lemma_id_at_injective(&self, i: int, j: int)
        requires
            0 <= i,
            0 <= j,
            self.id_at(i) == self.id_at(j),
        ensures
            i == j,
    {
    }

    /// At most one string carries a given id.
    pub proof fn lemma_name_of(&self, pos: int)
        requires
            0 <= pos < self.names().len(),
            self.names().len() <= u32::MAX,
        ensures
            self.name_of(self.id_at(pos) as u32) == Some(self.names()[pos]),
    {
        let id = self.id_at(pos) as u32;
        let p = choose|p: int| 0 <= p < self.names().len() && self.id_at(p) == id;
        self.lemma_id_at_injective(p, pos);
    }

    /// An empty dictionary whose first id is 1.
    pub fn new() -> (r: Interner)
        ensures
            r.wf(),
            r.names() == Seq::<Seq<u8>>::empty(),
            r.seeded() == 0,
    {
        let r = Interner { names: Vec::new(), index: StringHashMap::new(), seeded: 0 };
        assert(r.names() =~= Seq::<Seq<u8>>::empty());
        r
    }

    /// An empty dictionary in which every id is the position of its string.
    pub fn positional() -> (r: Interner)
        ensures
            r.wf(),
            r.names() == Seq::<Seq<u8>>::empty(),
            r.is_positional(),
    {
        let r = Interner { names: Vec::new(), index: StringHashMap::new(), seeded: usize::MAX };
        assert(r.names() =~= Seq::<Seq<u8>>::empty());
        r
    }

    /// Ends the positional numbering: the strings interned so far keep
    /// their ids, and each later one takes its position plus one.
    pub fn seal(&mut self)
        requires
            old(self).wf(),
            old(self).is_positional(),
        ensures
            final(self).wf(),
            final(self).names() == old(self).names(),
            final(self).seeded() == old(self).names().len(),
            final(self)@ == old(self)@,
    {
        self.seeded = self.names.len();
        proof {
            assert(self.names() =~= old(self).names());
            assert forall|i: int| 0 <= i < self.names@.len() implies self.id_at(i) == old(
                self,
            ).id_at(i) by {}
            assert(self@ =~= old(self)@);
        }
    }

    /// Number of interned strings.
    pub fn len(&self) -> (n: usize)
        ensures
            n == self.names().len(),
    {
        self.names.len()
    }

    /// The string at position `pos`.
    pub fn name_at(&self, pos: usize) -> (s: &str)
        requires
            pos < self.names().len(),
        ensures
            s.spec_bytes() == self.names()[pos as int],
    {
        self.names[pos].as_str()
    }

    /// The id of the string at position `pos`.
    pub fn id_of_position(&self, pos: usize) -> (id: u32)
        requires
            self.wf(),
            pos < self.names().len(),
        ensures
            id == self.id_at(pos as int),
            self@.contains_key(self.names()[pos as int]),
            self@[self.names()[pos as int]] == id,
    {
        proof {
            self.lemma_position(pos as int);
        }
        if pos < self.seeded {
            pos as u32
        } else {
            (pos + 1) as u32
        }
    }

    /// Membership in the index is membership in the list of names.
    proof fn lemma_index_contains(&self, s: Seq<char>)
        requires
            self.wf(),
        ensures
            self.index@.contains_key(s) <==> self.names().contains(encode_utf8(s)),
            self.index@.contains_key(s) ==> self.index@[s] == self@[encode_utf8(s)],
    {
        let b = encode_utf8(s);
        if self.index@.contains_key(s) {
            let i = choose|i: int| 0 <= i < self.names@.len() && self.names@[i]@ == s;
            assert(self.names()[i] == b);
            self.lemma_position(i);
            assert(self.index@.contains_key(self.names@[i]@));
        }
        if self.names().contains(b) {
            let i = choose|i: int| 0 <= i < self.names().len() && self.names()[i] == b;
            lemma_encode_injective(self.names@[i]@, s);
            assert(self.index@.contains_key(self.names@[i]@));
        }
    }

    /// The id of `s`, if `s` is interned.
    pub fn get(&self, s: &str) -> (r: Option<u32>)
        requires
            self.wf(),
        ensures
            r == self.lookup(s.spec_bytes()),
    {
        proof {
            self.lemma_index_contains(s@);
        }
        match self.index.get(s) {
            Some(v) => Some(*v),
            None => None,
        }
    }

    /// Looks `s` up and, if it is new, adds it with the id that follows the
    /// current number of entries.
    pub fn intern(&mut self, s: &str) -> (id: u32)
        requires
            old(self).wf(),
            old(self).names().len() < u32::MAX,
        ensures
            is_interned(*old(self), *final(self), s.spec_bytes(), id),
            final(self).wf(),
            final(self).seeded() == old(self).seeded(),
            old(self).names().contains(s.spec_bytes()) ==> final(self).names() == old(
                self,
            ).names(),
            !old(self).names().contains(s.spec_bytes()) ==> final(self).names() == old(
                self,
            ).names().push(s.spec_bytes()),
            final(self).lookup(s.spec_bytes()) == Some(id),
            old(self).lookup(s.spec_bytes()) is Some ==> old(self).lookup(s.spec_bytes()) == Some(
                id,
            ),
            old(self).lookup(s.spec_bytes()) is None ==> id == old(self).id_at(
                old(self).names().len() as int,
            ),
    {
        proof {
            self.lemma_index_contains(s@);
        }
        match self.index.get(s) {
            Some(v) => *v,
            None => {
                let pos = self.names.len();
                let id: u32 = if pos < self.seeded {
                    pos as u32
                } else {
                    (pos + 1) as u32
                };
                self.names.push(s.to_owned());
                self.index.insert(s.to_owned(), id);
                proof {
                    let b = s.spec_bytes();
                    assert(self.names() =~= old(self).names().push(b));
                    assert forall|i: int, j: int|
                        0 <= i < self.names().len() && 0 <= j < self.names().len() && i
                            != j implies self.names()[i] != self.names()[j] by {
                        if i < pos && j < pos {
                            assert(old(self).names()[i] != old(self).names()[j]);
                        } else if i < pos {
                            assert(old(self).names().contains(old(self).names()[i]));
                        } else {
                            assert(old(self).names().contains(old(self).names()[j]));
                        }
                    }
                    assert forall|i: int| 0 <= i < self.names@.len() implies #[trigger]
                        self.index@.contains_key(self.names@[i]@) && self.index@[self.names@[i]@]
                        == self.id_at(i) by {
                        if i < pos {
                            assert(old(self).index@.contains_key(old(self).names@[i]@));
                            assert(old(self).names()[i] == encode_utf8(self.names@[i]@));
                            assert(old(self).names().contains(old(self).names()[i]));
                            if self.names@[i]@ == s@ {
                                assert(false);
                            }
                        }
                    }
                    assert forall|k: Seq<char>| #[trigger]
                        self.index@.contains_key(k) implies exists|i: int|
                        0 <= i < self.names@.len() && self.names@[i]@ == k by {
                        if k == s@ {
                            assert(self.names@[pos as int]@ == k);
                        } else {
                            assert(old(self).index@.contains_key(k));
                            let i = choose|i: int|
                                0 <= i < old(self).names@.len() && old(self).names@[i]@ == k;
                            assert(self.names@[i]@ == k);
                        }
                    }
                    self.lemma_position(pos as int);
                }
                id
            },
        }
    }

    /// The string that carries `id`, if any does.
    pub fn resolve(&self, id: u32) -> (r: Option<&str>)
        requires
            self.wf(),
        ensures
            match r {
                Some(s) => self.name_of(id) == Some(s.spec_bytes()) && self.lookup(s.spec_bytes())
                    == Some(id),
                None => self.name_of(id) is None,
            },
    {
        let n = self.names.len();
        let id_pos = id as usize;
        if id_pos < self.seeded {
            if id_pos < n {
                proof {
                    self.lemma_name_of(id_pos as int);
                    self.lemma_position(id_pos as int);
                }
                return Some(self.names[id_pos].as_str());
            }
        } else if id_pos >= 1 && id_pos - 1 >= self.seeded && id_pos - 1 < n {
            proof {
                self.lemma_name_of(id_pos - 1);
                self.lemma_position(id_pos - 1);
            }
            return Some(self.names[id_pos - 1].as_str());
        }
        proof {
            if exists|pos: int| 0 <= pos < self.names().len() && self.id_at(pos) == id {
                let pos = choose|pos: int| 0 <= pos < self.names().len() && self.id_at(pos) == id;
                assert(false);
            }
        }
        None
    }
}

/// Interning `s` in the dictionary `before` gives the id `id` and leaves
/// the dictionary `after`: a known string keeps its id and changes nothing,
/// and a new one is added at the end with the id that follows the number of
/// entries.
pub open spec fn is_interned(before: Interner, after: Interner, s: Seq<u8>, id: u32) -> bool {
    &&& before.wf()
    &&& after.wf()
    &&& after.seeded() == before.seeded()
    &&& after.names() == if before.names().contains(s) {
        before.names()
    } else {
        before.names().push(s)
    }
    &&& after.lookup(s) == Some(id)
}

/// Interning is idempotent and invertible: the string that carries the id
/// just given is the string that was interned, every string that was known
/// keeps its id, and interning the same string once more gives the same id
/// and changes nothing.
pub proof fn law_intern_round_trip(
    before: Interner,
    after: Interner,
    again: Interner,
    s: Seq<u8>,
    id: u32,
    id_again: u32,
)
    requires
        is_interned(before, after, s, id),
        is_interned(after, again, s, id_again),
    ensures
        after.name_of(id) == Some(s),
        id_again == id,
        again.names() == after.names(),
        before.lookup(s) is Some ==> before.lookup(s) == Some(id),
        forall|b: Seq<u8>| before.lookup(b) is Some ==> after.lookup(b) == before.lookup(b),
{
    let pos = after.names().index_of(s);
    assert(after.names().contains(s));
    assert(0 <= pos < after.names().len() && after.names()[pos] == s);
    after.lemma_name_of(pos);
    after.lemma_position(pos);
    assert forall|b: Seq<u8>| before.lookup(b) is Some implies after.lookup(b) == before.lookup(
        b,
    ) by {
        let i = before.names().index_of(b);
        assert(0 <= i < before.names().len() && before.names()[i] == b);
        assert(after.names()[i] == b);
        before.lemma_position(i);
        after.lemma_position(i);
    }
    if before.lookup(s) is Some {
        assert(after.lookup(s) == before.lookup(s));
    }
}

/// Different strings have different ids.
pub proof fn law_ids_distinct(t: Interner, a: Seq<u8>, b: Seq<u8>)
    requires
        t.wf(),
        t.lookup(a) is Some,
        t.lookup(b) is Some,
        t.lookup(a) == t.lookup(b),
    ensures
        a == b,
{
    let i = t.names().index_of(a);
    let j = t.names().index_of(b);
    assert(0 <= i < t.names().len() && t.names()[i] == a);
    assert(0 <= j < t.names().len() && t.names()[j] == b);
    t.lemma_position(i);
    t.lemma_position(j);
    t.lemma_id_at_injective(i, j);
}

} // verus!
