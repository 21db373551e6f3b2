//! The symbol table: every symbol seen for the first time is assigned a fresh
//! random hypervector and keeps that vector for the lifetime of the table,
//! which keeps previously computed n-grams algebraically consistent.

use crate::hdv::Hdv;
use crate::rng::RandSource;
use crate::HdcError;
use std::collections::HashMap;
use vstd::prelude::*;

verus! {

broadcast use vstd::std_specs::hash::group_hash_axioms;

/// Maps each symbol, keyed by its Unicode code point, to its assigned
/// hypervector. Append-only: assignments are never replaced.
pub struct SymbolTable {
    words: usize,
    map: HashMap<u32, Hdv>,
    rng: RandSource,
}

impl View for SymbolTable {
    type V = Map<u32, Seq<bool>>;

    closed spec fn view(&self) -> Map<u32, Seq<bool>> {
        self.map@.map_values(|h: Hdv| h@)
    }
}

impl SymbolTable {
    /// How many words each assigned vector holds.
    pub closed spec fn spec_word_len(&self) -> nat {
        self.words as nat
    }

    /// Every assigned vector has the table's width, and positions fit `usize`.
    pub closed spec fn wf(&self) -> bool {
        &&& 64 * self.spec_word_len() <= usize::MAX
        &&& forall|c: u32|
            self.map@.contains_key(c) ==> (#[trigger] self.map@[c]).wf()
                && self.map@[c].spec_words().len() == self.spec_word_len()
    }

    /// A well-formed table's width keeps every bit position within `usize`.
    pub proof fn lemma_wf_width(&self)
        requires
            self.wf(),
        ensures
            64 * self.spec_word_len() <= usize::MAX,
    {
    }

    /// An empty table assigning vectors of `words` words, drawing from `rng`.
    pub fn new(words: usize, rng: RandSource) -> (r: SymbolTable)
        requires
            64 * words <= usize::MAX,
        ensures
            r.wf(),
            r.spec_word_len() == words,
            r@ == Map::<u32, Seq<bool>>::empty(),
    {
        let t = SymbolTable { words, map: HashMap::new(), rng };
        proof {
            assert(t@ =~= Map::<u32, Seq<bool>>::empty());
        }
        t
    }

    /// How many words each assigned vector holds.
    pub fn word_len(&self) -> (n: usize)
        ensures
            n == self.spec_word_len(),
    {
        self.words
    }

    /// Whether `c` has been assigned a vector.
    pub fn contains(&self, c: char) -> (b: bool)
        ensures
            b == self@.contains_key(c as u32),
    {
        self.map.contains_key(&(c as u32))
    }

    /// The vector of `c`, assigning a fresh random one on first sight.
    pub fn get_or_assign(&mut self, c: char) -> (v: Hdv)
        requires
            old(self).wf(),
        ensures
            final(self).wf(),
            final(self).spec_word_len() == old(self).spec_word_len(),
            v.wf(),
            v.spec_words().len() == final(self).spec_word_len(),
            v@ == final(self)@[c as u32],
            final(self)@ == old(self)@.insert(c as u32, v@),
            old(self)@.contains_key(c as u32) ==> final(self)@ == old(self)@,
    {
        let key = c as u32;
        let found = self.map.contains_key(&key);
        if found {
            let r = match self.map.get(&key) {
                Some(h) => h.duplicate(),
                None => Hdv::zeros(self.words),
            };
            proof {
                assert(old(self)@.insert(key, r@) =~= old(self)@);
            }
            r
        } else {
            let h = Hdv::new(&mut self.rng, self.words);
            let r = h.duplicate();
            self.map.insert(key, h);
            proof {
                assert(self@ =~= old(self)@.insert(key, r@));
            }
            r
        }
    }

    /// The vector of `c` in a read-only lookup: a symbol never assigned is
    /// reported as `UnknownSymbol`.
    pub fn get(&self, c: char) -> (r: Result<Hdv, HdcError>)
        requires
            self.wf(),
        ensures
            match r {
                Ok(v) => self@.contains_key(c as u32) && v@ == self@[c as u32] && v.wf()
                    && v.spec_words().len() == self.spec_word_len(),
                Err(e) => e == HdcError::UnknownSymbol && !self@.contains_key(c as u32),
            },
    {
        match self.map.get(&(c as u32)) {
            Some(h) => Ok(h.duplicate()),
            None => Err(HdcError::UnknownSymbol),
        }
    }
}

} // verus!
