//! Net highlighting: the cached netlist and the highlighted set.
//!
//! Extraction over the flattened top cell is the extractor's work and is not
//! free, so a [`Netlight`] keeps the last netlist with the document
//! generation it was extracted at and asks for a new one only when the
//! generation changes. The generation is a token the app bumps on every
//! edit, so undo, redo and edits all invalidate the cache.
use vstd::prelude::*;

verus! {

/// Whether a netlist cached at `cached` must be extracted again for
/// `generation`: nothing is cached, or it was cached at another generation.
pub open spec fn is_stale_for(cached: Option<u64>, generation: u64) -> bool {
    cached != Some(generation)
}

/// The net-highlight state: a cached netlist (of type `N`) with the
/// generation it was extracted at, plus the highlighted shape indices.
pub struct Netlight<N> {
    cache: Option<(u64, N)>,
    highlighted: Vec<usize>,
}

impl<N> Netlight<N> {
    /// The generation of the cached netlist, if any.
    pub closed spec fn generation_spec(&self) -> Option<u64> {
        match self.cache {
            Some((g, _)) => Some(g),
            None => None,
        }
    }

    /// The cached netlist, if any.
    pub closed spec fn netlist_spec(&self) -> Option<N> {
        match self.cache {
            Some((_, n)) => Some(n),
            None => None,
        }
    }

    /// The highlighted shape indices.
    pub closed spec fn highlighted_spec(&self) -> Seq<usize> {
        self.highlighted@
    }

    /// An empty state: nothing cached, nothing highlighted.
    pub fn new() -> (r: Netlight<N>)
        ensures
            r.generation_spec() is None,
            r.highlighted_spec().len() == 0,
    {
        Netlight { cache: None, highlighted: Vec::new() }
    }

    /// The shape indices of the highlighted net.
    pub fn highlighted(&self) -> (r: &[usize])
        ensures
            r@ == self.highlighted_spec(),
    {
        self.highlighted.as_slice()
    }

    /// Whether shape `index` is part of the highlighted net.
    pub fn contains(&self, index: usize) -> (r: bool)
        ensures
            r == self.highlighted_spec().contains(index),
    {
        let mut i: usize = 0;
        while i < self.highlighted.len()
            invariant
                i <= self.highlighted@.len(),
                forall|j: int| 0 <= j < i ==> self.highlighted@[j] != index,
            decreases self.highlighted@.len() - i,
        {
            if self.highlighted[i] == index {
                return true;
            }
            i = i + 1;
        }
        false
    }

    /// Whether nothing is highlighted.
    pub fn is_empty(&self) -> (r: bool)
        ensures
            r == (self.highlighted_spec().len() == 0),
    {
        self.highlighted.len() == 0
    }

    /// Clears the highlighted net (a click on empty space); the cache stays.
    pub fn clear(&mut self)
        ensures
            final(self).highlighted_spec().len() == 0,
            final(self).generation_spec() == old(self).generation_spec(),
            final(self).netlist_spec() == old(self).netlist_spec(),
    {
        self.highlighted = Vec::new();
    }

    /// Whether the netlist must be extracted again for `generation`.
    pub fn is_stale(&self, generation: u64) -> (r: bool)
        ensures
            r == is_stale_for(self.generation_spec(), generation),
    {
        match &self.cache {
            Some((g, _)) => *g != generation,
            None => true,
        }
    }

    /// The generation of the cached netlist, if any.
    pub fn cached_generation(&self) -> (r: Option<u64>)
        ensures
            r == self.generation_spec(),
    {
        match &self.cache {
            Some((g, _)) => Some(*g),
            None => None,
        }
    }

    /// Caches `netlist`, extracted at `generation`, replacing any older one.
    pub fn store(&mut self, generation: u64, netlist: N)
        ensures
            final(self).generation_spec() == Some(generation),
            final(self).netlist_spec() == Some(netlist),
            final(self).highlighted_spec() == old(self).highlighted_spec(),
    {
        self.cache = Some((generation, netlist));
    }

    /// The cached netlist, if any.
    pub fn netlist(&self) -> (r: Option<&N>)
        ensures
            match r {
                Some(n) => self.netlist_spec() == Some(*n),
                None => self.netlist_spec() is None,
            },
            self.netlist_spec() is Some == self.generation_spec() is Some,
    {
        match &self.cache {
            Some((_, n)) => Some(n),
            None => None,
        }
    }

    /// Highlights the net whose shape indices are `net` (`None` when the
    /// picked shape is on no net) and returns how many shapes are now
    /// highlighted.
    pub fn highlight(&mut self, net: Option<&[usize]>) -> (r: usize)
        ensures
            final(self).highlighted_spec() == match net {
                Some(s) => s@,
                None => Seq::<usize>::empty(),
            },
            r == final(self).highlighted_spec().len(),
            final(self).generation_spec() == old(self).generation_spec(),
            final(self).netlist_spec() == old(self).netlist_spec(),
    {
        let mut out: Vec<usize> = Vec::new();
        match net {
            Some(s) => {
                let mut i: usize = 0;
                while i < s.len()
                    invariant
                        i <= s@.len(),
                        out@ == s@.take(i as int),
                    decreases s@.len() - i,
                {
                    out.push(s[i]);
                    i = i + 1;
                    assert(out@ =~= s@.take(i as int));
                }
                assert(s@.take(s@.len() as int) =~= s@);
            },
            None => {},
        }
        self.highlighted = out;
        self.highlighted.len()
    }
}

/// A netlist cached at one generation is reused for picks at that generation
/// and extracted again for any other.
pub proof fn lemma_cache_reused_within_generation(g: u64, other: u64)
    requires
        g != other,
    ensures
        !is_stale_for(Some(g), g),
        is_stale_for(Some(g), other),
        is_stale_for(None, g),
{
}

} // verus!
