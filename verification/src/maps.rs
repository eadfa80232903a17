//! Insertion-ordered string-keyed and position-keyed maps, backed by vectors
//! of entries. Both keep the behaviour of a key-unique mapping in which the
//! last insert of a key wins, while fixing a deterministic entry order.

use vstd::prelude::*;
use vstd::string::StringSliceAdditionalSpecFns;
use vstd::utf8::*;
use crate::bytes::{
    assoc_insert, assoc_lookup, lemma_assoc_insert_absent, lemma_assoc_insert_at,
    lemma_assoc_lookup_absent, lemma_assoc_lookup_at, lemma_encode_injective,
};

verus! {

/// A mapping from strings to strings, viewed as a sequence of
/// (key bytes, value bytes) entries in insertion order.
pub struct StrMap {
    entries: Vec<(String, String)>,
}

impl View for StrMap {
    type V = Seq<(Seq<u8>, Seq<u8>)>;

    closed spec fn view(&self) -> Seq<(Seq<u8>, Seq<u8>)> {
        self.entries@.map_values(|p: (String, String)| (encode_utf8(p.0@), encode_utf8(p.1@)))
    }
}

impl StrMap {
    proof fn lemma_view_index(&self, j: int)
        requires
            0 <= j < self.entries@.len(),
        ensures
            self@.len() == self.entries@.len(),
            self@[j] == (encode_utf8(self.entries@[j].0@), encode_utf8(self.entries@[j].1@)),
    {
    }

    pub fn new() -> (r: StrMap)
        ensures
            r@ == Seq::<(Seq<u8>, Seq<u8>)>::empty(),
    {
        let r = StrMap { entries: Vec::new() };
        proof {
            assert(r@ =~= Seq::<(Seq<u8>, Seq<u8>)>::empty());
        }
        r
    }

    pub fn len(&self) -> (r: usize)
        ensures
            r == self@.len(),
    {
        self.entries.len()
    }

    /// Insert a binding; a later insert of the same key replaces the value in
    /// place, as in an ordinary key-unique mapping.
    pub fn insert(&mut self, k: String, v: String)
        ensures
            final(self)@ == assoc_insert(old(self)@, encode_utf8(k@), encode_utf8(v@)),
    {
        let ghost kb = encode_utf8(k@);
        let ghost vb = encode_utf8(v@);
        let ghost orig = self@;
        let mut i: usize = 0;
        while i < self.entries.len()
            invariant
                i <= self.entries.len(),
                self == old(self),
                orig == self@,
                kb == encode_utf8(k@),
                vb == encode_utf8(v@),
                forall|j: int| 0 <= j < i ==> #[trigger] self@[j].0 != kb,
            decreases self.entries.len() - i,
        {
            proof {
                assert(self@.len() == self.entries@.len());
            }
            if self.entries[i].0 == k {
                proof {
                    assert(self@[i as int].0 == kb);
                }
                let ghost e0 = self.entries@;
                self.entries[i] = (k, v);
                proof {
                    lemma_assoc_insert_at(orig, kb, vb, i as int);
                    assert(self.entries@ == e0.update(i as int, self.entries@[i as int]));
                    assert forall|j: int| 0 <= j < self@.len() implies self@[j] == orig.update(
                        i as int,
                        (kb, vb),
                    )[j] by {
                        self.lemma_view_index(j);
                    }
                    assert(self@ =~~= orig.update(i as int, (kb, vb)));
                }
                return ;
            }
            proof {
                if self@[i as int].0 == kb {
                    lemma_encode_injective(self.entries@[i as int].0@, k@);
                    assert(false);
                }
            }
            i = i + 1;
        }
        self.entries.push((k, v));
        proof {
            lemma_assoc_insert_absent(orig, kb, vb);
            assert(self@ =~~= orig.push((kb, vb)));
        }
    }

    /// Value bound to this key, or `None` when the key is absent.
    pub fn get(&self, k: &str) -> (r: Option<&String>)
        ensures
            r matches Some(v) ==> assoc_lookup(self@, k.spec_bytes()) == Some(encode_utf8(v@)),
            r is None ==> assoc_lookup(self@, k.spec_bytes()) is None,
    {
        let mut i: usize = 0;
        while i < self.entries.len()
            invariant
                i <= self.entries.len(),
                forall|j: int| 0 <= j < i ==> #[trigger] self@[j].0 != k.spec_bytes(),
            decreases self.entries.len() - i,
        {
            proof {
                assert(self@.len() == self.entries@.len());
            }
            if crate::bytes::str_eq(self.entries[i].0.as_str(), k) {
                proof {
                    assert(self@[i as int].0 == k.spec_bytes());
                    lemma_assoc_lookup_at(self@, k.spec_bytes(), i as int);
                }
                return Some(&self.entries[i].1);
            }
            i = i + 1;
        }
        proof {
            lemma_assoc_lookup_absent(self@, k.spec_bytes());
        }
        None
    }
}

/// A mapping from segment positions to parameter names, viewed as a sequence
/// of (position, name bytes) entries in insertion order.
pub struct PosMap {
    entries: Vec<(usize, String)>,
}

impl View for PosMap {
    type V = Seq<(int, Seq<u8>)>;

    closed spec fn view(&self) -> Seq<(int, Seq<u8>)> {
        self.entries@.map_values(|p: (usize, String)| (p.0 as int, encode_utf8(p.1@)))
    }
}

impl PosMap {
    proof fn lemma_view_index(&self, j: int)
        requires
            0 <= j < self.entries@.len(),
        ensures
            self@.len() == self.entries@.len(),
            self@[j] == (self.entries@[j].0 as int, encode_utf8(self.entries@[j].1@)),
    {
    }

    pub fn new() -> (r: PosMap)
        ensures
            r@ == Seq::<(int, Seq<u8>)>::empty(),
    {
        let r = PosMap { entries: Vec::new() };
        proof {
            assert(r@ =~= Seq::<(int, Seq<u8>)>::empty());
        }
        r
    }

    pub fn len(&self) -> (r: usize)
        ensures
            r == self@.len(),
    {
        self.entries.len()
    }

    /// The position stored at entry `i`; lets callers walk the entries.
    pub fn position_at(&self, i: usize) -> (r: usize)
        requires
            i < self@.len(),
        ensures
            r == self@[i as int].0,
    {
        self.entries[i].0
    }

    /// The parameter name stored at entry `i`.
    pub fn name_at(&self, i: usize) -> (r: &String)
        requires
            i < self@.len(),
        ensures
            encode_utf8(r@) == self@[i as int].1,
    {
        &self.entries[i].1
    }

    /// Insert a binding; a later insert of the same position replaces the
    /// name in place.
    pub fn insert(&mut self, pos: usize, name: String)
        ensures
            final(self)@ == assoc_insert(old(self)@, pos as int, encode_utf8(name@)),
    {
        let ghost nb = encode_utf8(name@);
        let ghost orig = self@;
        let mut i: usize = 0;
        while i < self.entries.len()
            invariant
                i <= self.entries.len(),
                self == old(self),
                orig == self@,
                nb == encode_utf8(name@),
                forall|j: int| 0 <= j < i ==> #[trigger] self@[j].0 != pos as int,
            decreases self.entries.len() - i,
        {
            proof {
                assert(self@.len() == self.entries@.len());
            }
            if self.entries[i].0 == pos {
                let ghost e0 = self.entries@;
                self.entries[i] = (pos, name);
                proof {
                    lemma_assoc_insert_at(orig, pos as int, nb, i as int);
                    assert(self.entries@ == e0.update(i as int, self.entries@[i as int]));
                    assert forall|j: int| 0 <= j < self@.len() implies self@[j] == orig.update(
                        i as int,
                        (pos as int, nb),
                    )[j] by {
                        self.lemma_view_index(j);
                    }
                    assert(self@ =~~= orig.update(i as int, (pos as int, nb)));
                }
                return ;
            }
            i = i + 1;
        }
        self.entries.push((pos, name));
        proof {
            lemma_assoc_insert_absent(orig, pos as int, nb);
            assert(self@ =~~= orig.push((pos as int, nb)));
        }
    }

    /// Name bound to this position, or `None` when the position is absent.
    pub fn get(&self, pos: usize) -> (r: Option<&String>)
        ensures
            r matches Some(v) ==> assoc_lookup(self@, pos as int) == Some(encode_utf8(v@)),
            r is None ==> assoc_lookup(self@, pos as int) is None,
    {
        let mut i: usize = 0;
        while i < self.entries.len()
            invariant
                i <= self.entries.len(),
                forall|j: int| 0 <= j < i ==> #[trigger] self@[j].0 != pos as int,
            decreases self.entries.len() - i,
        {
            proof {
                assert(self@.len() == self.entries@.len());
            }
            if self.entries[i].0 == pos {
                proof {
                    lemma_assoc_lookup_at(self@, pos as int, i as int);
                }
                return Some(&self.entries[i].1);
            }
            i = i + 1;
        }
        proof {
            lemma_assoc_lookup_absent(self@, pos as int);
        }
        None
    }
}

} // verus!
