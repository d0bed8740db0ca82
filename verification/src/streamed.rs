//! The streamed scene's client-side decisions: validating an archive header,
//! keeping a bounded working set of resident tiles in recency order, and
//! choosing the level to paint while fine tiles are still arriving.
//!
//! Mapping a viewport to the tiles that cover it at each level, fetching, and
//! decoding are the archive reader's work; this module takes their results as
//! plain values.
use vstd::prelude::*;
use crate::geom::Rect;
use crate::text::{decimal, extend_str, push_decimal, string_of};

verus! {

/// Why a streamed scene could not be built from a header.
#[derive(Clone, Copy, Debug, PartialEq, Eq, Structural)]
pub enum SceneError {
    /// The header magic did not match the archive magic.
    BadMagic,
    /// The header named a format version this build does not read.
    UnsupportedVersion(u32),
    /// The header carried no levels, or more than the mapper supports (`1..=31`).
    LevelCount(usize),
    /// The world bounding box has zero or negative area, so it cannot be tiled.
    DegenerateWorld,
    /// Level `level` was not the `2^level x 2^level` square grid this reader
    /// maps against.
    NonPyramidLevel {
        /// The offending level index.
        level: usize,
        /// The `2^level` side count both `cols` and `rows` were expected to equal.
        expected: u32,
        /// The `cols` the header actually carried at this level.
        cols: u32,
        /// The `rows` the header actually carried at this level.
        rows: u32,
    },
}

/// The grid size of one pyramid level.
#[derive(Clone, Copy, Debug, PartialEq, Eq, Structural)]
pub struct LevelDims {
    /// Tile columns.
    pub cols: u32,
    /// Tile rows.
    pub rows: u32,
}

/// The fields of an archive header that the scene checks.
#[derive(Clone, Debug, PartialEq, Eq)]
pub struct HeaderInfo {
    /// The archive magic bytes.
    pub magic: [u8; 8],
    /// The archive format version.
    pub version: u32,
    /// The world bounding box every level tiles.
    pub world: Rect,
    /// Each level's grid, coarsest first.
    pub levels: Vec<LevelDims>,
}

/// The first level, from `from` on, that is not the `2^level` square grid.
pub open spec fn first_bad_level(levels: Seq<LevelDims>, from: nat) -> Option<nat>
    decreases levels.len() - from,
{
    if from >= levels.len() {
        None
    } else if levels[from as int].cols != pow2(from) || levels[from as int].rows != pow2(from) {
        Some(from)
    } else {
        first_bad_level(levels, from + 1)
    }
}

/// Two to the power `n`.
pub open spec fn pow2(n: nat) -> nat
    decreases n,
{
    if n == 0 {
        1
    } else {
        2 * pow2((n - 1) as nat)
    }
}

/// The verdict on a header, checked against the archive's `magic` and
/// `version`: the first failing check in the order magic, version, level
/// count, world area, level grids; `None` when every check passes.
pub open spec fn header_error(h: HeaderInfo, magic: [u8; 8], version: u32) -> Option<SceneError> {
    if h.magic@ != magic@ {
        Some(SceneError::BadMagic)
    } else if h.version != version {
        Some(SceneError::UnsupportedVersion(h.version))
    } else if h.levels@.len() == 0 || h.levels@.len() > 31 {
        Some(SceneError::LevelCount(h.levels@.len() as usize))
    } else if h.world.max.x - h.world.min.x <= 0 || h.world.max.y - h.world.min.y <= 0 {
        Some(SceneError::DegenerateWorld)
    } else {
        match first_bad_level(h.levels@, 0) {
            Some(l) => Some(
                SceneError::NonPyramidLevel {
                    level: l as usize,
                    expected: pow2(l) as u32,
                    cols: h.levels@[l as int].cols,
                    rows: h.levels@[l as int].rows,
                },
            ),
            None => None,
        }
    }
}

proof fn lemma_pow2_mono(n: nat, m: nat)
    requires
        n <= m,
    ensures
        1 <= pow2(n) <= pow2(m),
    decreases m,
{
    if m > n {
        lemma_pow2_mono(n, (m - 1) as nat);
    } else if n > 0 {
        lemma_pow2_mono((n - 1) as nat, (n - 1) as nat);
    }
}

proof fn lemma_pow2_bound(n: nat)
    requires
        n <= 30,
    ensures
        1 <= pow2(n) <= 0x4000_0000,
{
    lemma_pow2_mono(n, 30);
    reveal_with_fuel(pow2, 31);
}

fn same_magic(a: &[u8; 8], b: &[u8; 8]) -> (r: bool)
    ensures
        r == (a@ == b@),
{
    let mut i: usize = 0;
    while i < 8
        invariant
            i <= 8,
            a@.len() == 8,
            b@.len() == 8,
            forall|j: int| 0 <= j < i ==> a@[j] == b@[j],
        decreases 8 - i,
    {
        if a[i] != b[i] {
            return false;
        }
        i = i + 1;
    }
    assert(a@ =~= b@);
    true
}

/// Checks a header against the archive's `magic` and `version` (see
/// [`header_error`]).
pub fn check_header(h: &HeaderInfo, magic: [u8; 8], version: u32) -> (r: Result<(), SceneError>)
    ensures
        match header_error(*h, magic, version) {
            Some(e) => r == Err::<(), SceneError>(e),
            None => r is Ok,
        },
{
    if !same_magic(&h.magic, &magic) {
        return Err(SceneError::BadMagic);
    }
    if h.version != version {
        return Err(SceneError::UnsupportedVersion(h.version));
    }
    let level_count = h.levels.len();
    if level_count == 0 || level_count > 31 {
        return Err(SceneError::LevelCount(level_count));
    }
    if (h.world.max.x as i64) - (h.world.min.x as i64) <= 0 || (h.world.max.y as i64) - (
    h.world.min.y as i64) <= 0 {
        return Err(SceneError::DegenerateWorld);
    }
    let mut level: usize = 0;
    let mut expected: u32 = 1;
    while level < level_count
        invariant
            level <= level_count,
            level_count == h.levels@.len(),
            level_count <= 31,
            level < level_count ==> expected == pow2(level as nat),
            h.magic@ == magic@,
            h.version == version,
            h.world.max.x - h.world.min.x > 0,
            h.world.max.y - h.world.min.y > 0,
            first_bad_level(h.levels@, 0) == first_bad_level(h.levels@, level as nat),
        decreases level_count - level,
    {
        let dims = h.levels[level];
        proof {
            lemma_pow2_bound(level as nat);
        }
        if dims.cols != expected || dims.rows != expected {
            return Err(SceneError::NonPyramidLevel { level, expected, cols: dims.cols, rows: dims.rows });
        }
        if level + 1 < level_count {
            proof {
                lemma_pow2_bound(level as nat);
            }
            expected = expected * 2;
        }
        level = level + 1;
    }
    Ok(())
}

/// The address of one tile: its pyramid level and grid cell.
#[derive(Clone, Copy, Debug, PartialEq, Eq, Hash, Structural)]
pub struct TileCoord {
    /// The pyramid level (`0` is coarsest).
    pub level: u32,
    /// The grid column.
    pub col: u32,
    /// The grid row.
    pub row: u32,
}

/// The addresses of `entries`, in order.
pub open spec fn keys_of<T>(entries: Seq<(TileCoord, T)>) -> Seq<TileCoord> {
    entries.map_values(|e: (TileCoord, T)| e.0)
}

/// Whether no address occurs twice in `keys`.
pub open spec fn distinct_keys(keys: Seq<TileCoord>) -> bool {
    forall|i: int, j: int| 0 <= i < j < keys.len() ==> keys[i] != keys[j]
}

/// `entries` without the entries addressed `coord`, in order.
pub open spec fn without_key<T>(entries: Seq<(TileCoord, T)>, coord: TileCoord) -> Seq<(TileCoord, T)>
    decreases entries.len(),
{
    if entries.len() == 0 {
        Seq::empty()
    } else {
        let rest = without_key(entries.drop_last(), coord);
        if entries.last().0 == coord {
            rest
        } else {
            rest.push(entries.last())
        }
    }
}

proof fn lemma_without_absent<T>(entries: Seq<(TileCoord, T)>, coord: TileCoord)
    requires
        forall|j: int| 0 <= j < entries.len() ==> (#[trigger] entries[j]).0 != coord,
    ensures
        without_key(entries, coord) == entries,
    decreases entries.len(),
{
    if entries.len() > 0 {
        let d = entries.drop_last();
        assert forall|j: int| 0 <= j < d.len() implies (#[trigger] d[j]).0 != coord by {
            assert(d[j] == entries[j]);
        }
        lemma_without_absent(d, coord);
        assert(entries.last() == entries[entries.len() - 1]);
        assert(d.push(entries.last()) =~= entries);
    } else {
        assert(entries =~= Seq::empty());
    }
}

proof fn lemma_without_present<T>(entries: Seq<(TileCoord, T)>, coord: TileCoord, i: int)
    requires
        distinct_keys(keys_of(entries)),
        0 <= i < entries.len(),
        entries[i].0 == coord,
    ensures
        without_key(entries, coord) == entries.remove(i),
    decreases entries.len(),
{
    let d = entries.drop_last();
    let n = entries.len() - 1;
    assert(keys_of(d) =~= keys_of(entries).drop_last());
    if i == n {
        assert forall|j: int| 0 <= j < d.len() implies (#[trigger] d[j]).0 != coord by {
            assert(d[j] == entries[j]);
            assert(keys_of(entries)[j] != keys_of(entries)[n]);
        }
        lemma_without_absent(d, coord);
        assert(entries.remove(i) =~= d);
    } else {
        assert(keys_of(entries)[i] != keys_of(entries)[n]);
        assert(entries.last().0 != coord);
        lemma_without_present(d, coord, i);
        assert(d.remove(i).push(entries.last()) =~= entries.remove(i));
    }
}

/// The working set after adopting `payload` at `coord`: any older entry for
/// `coord` is dropped, the new one becomes most recent, and the least
/// recently used entries go until at most `bound` remain.
pub open spec fn adopted<T>(entries: Seq<(TileCoord, T)>, coord: TileCoord, payload: T, bound: nat) -> Seq<
    (TileCoord, T),
> {
    let e = without_key(entries, coord).push((coord, payload));
    if e.len() > bound {
        e.skip(e.len() - bound)
    } else {
        e
    }
}

/// The tiles of `tiles` whose address is not among `keys`, in order.
pub open spec fn missing_from(tiles: Seq<TileCoord>, keys: Seq<TileCoord>) -> Seq<TileCoord>
    decreases tiles.len(),
{
    if tiles.len() == 0 {
        Seq::empty()
    } else {
        let rest = missing_from(tiles.drop_last(), keys);
        if keys.contains(tiles.last()) {
            rest
        } else {
            rest.push(tiles.last())
        }
    }
}

/// The tiles resident in RAM, least recently used first, kept to a bound.
pub struct Residency<T> {
    entries: Vec<(TileCoord, T)>,
    max_resident: usize,
}

impl<T> Residency<T> {
    /// The resident tiles with their payloads, least recently used first.
    pub closed spec fn entries_spec(&self) -> Seq<(TileCoord, T)> {
        self.entries@
    }

    /// The working-set bound.
    pub closed spec fn bound(&self) -> nat {
        self.max_resident as nat
    }

    /// The working set's invariant: no tile twice, and within the bound.
    pub closed spec fn wf(&self) -> bool {
        &&& distinct_keys(keys_of(self.entries@))
        &&& self.entries@.len() <= self.max_resident
        &&& self.max_resident >= 1
    }

    /// An empty working set keeping at most `max_resident` tiles (at least
    /// one).
    pub fn new(max_resident: usize) -> (r: Residency<T>)
        ensures
            r.wf(),
            r.entries_spec().len() == 0,
            r.bound() == if max_resident >= 1 {
                max_resident as nat
            } else {
                1
            },
    {
        Residency { entries: Vec::new(), max_resident: if max_resident >= 1 { max_resident } else { 1 } }
    }

    /// The working-set bound.
    pub fn max_resident(&self) -> (r: usize)
        ensures
            r == self.bound(),
    {
        self.max_resident
    }

    /// The number of resident tiles.
    pub fn resident_count(&self) -> (r: usize)
        ensures
            r == self.entries_spec().len(),
    {
        self.entries.len()
    }

    fn index_of(&self, coord: TileCoord) -> (r: Option<usize>)
        ensures
            match r {
                Some(i) => i < self.entries@.len() && self.entries@[i as int].0 == coord,
                None => forall|j: int| 0 <= j < self.entries@.len() ==> (#[trigger] self.entries@[j]).0 != coord,
            },
    {
        let mut i: usize = 0;
        while i < self.entries.len()
            invariant
                i <= self.entries@.len(),
                forall|j: int| 0 <= j < i ==> (#[trigger] self.entries@[j]).0 != coord,
            decreases self.entries@.len() - i,
        {
            if self.entries[i].0 == coord {
                return Some(i);
            }
            i = i + 1;
        }
        None
    }

    /// Whether the tile at `coord` is resident.
    pub fn is_resident(&self, coord: TileCoord) -> (r: bool)
        ensures
            r == keys_of(self.entries_spec()).contains(coord),
    {
        let found = self.index_of(coord);
        proof {
            if keys_of(self.entries@).contains(coord) {
                let k = choose|k: int| 0 <= k < keys_of(self.entries@).len() && keys_of(self.entries@)[k] == coord;
                assert(self.entries@[k].0 == coord);
            }
            if let Some(i) = found {
                assert(keys_of(self.entries@)[i as int] == coord);
            }
        }
        found.is_some()
    }

    /// The payload of the resident tile at `coord`, if any.
    pub fn payload(&self, coord: TileCoord) -> (r: Option<&T>)
        ensures
            match r {
                Some(p) => exists|i: int| 0 <= i < self.entries_spec().len() && (#[trigger] self.entries_spec()[i]) == (coord, *p),
                None => !keys_of(self.entries_spec()).contains(coord),
            },
    {
        match self.index_of(coord) {
            Some(i) => {
                assert(self.entries_spec()[i as int] == (coord, self.entries@[i as int].1));
                Some(&self.entries[i].1)
            },
            None => {
                proof {
                    if keys_of(self.entries@).contains(coord) {
                        let k = choose|k: int| 0 <= k < keys_of(self.entries@).len() && keys_of(self.entries@)[k] == coord;
                        assert(self.entries@[k].0 == coord);
                    }
                }
                None
            },
        }
    }

    /// Marks the tile at `coord` resident with `payload`, making it the most
    /// recently used, and evicts the least recently used tiles past the bound.
    pub fn insert_tile(&mut self, coord: TileCoord, payload: T)
        requires
            old(self).wf(),
        ensures
            final(self).wf(),
            final(self).bound() == old(self).bound(),
            final(self).entries_spec() == adopted(old(self).entries_spec(), coord, payload, old(self).bound()),
    {
        let ghost before = self.entries@;
        match self.index_of(coord) {
            Some(i) => {
                let _ = self.entries.remove(i);
                proof {
                    lemma_without_present(before, coord, i as int);
                    assert forall|a: int| 0 <= a < self.entries@.len() implies (#[trigger] self.entries@[a]).0
                        != coord by {
                        let src = if a < i { a } else { a + 1 };
                        assert(self.entries@[a] == before[src]);
                        assert(keys_of(before)[src] != keys_of(before)[i as int]);
                    }
                    assert forall|a: int, b: int| 0 <= a < b < keys_of(self.entries@).len() implies keys_of(
                        self.entries@,
                    )[a] != keys_of(self.entries@)[b] by {
                        let sa = if a < i { a } else { a + 1 };
                        let sb = if b < i { b } else { b + 1 };
                        assert(self.entries@[a] == before[sa]);
                        assert(self.entries@[b] == before[sb]);
                        assert(keys_of(before)[sa] != keys_of(before)[sb]);
                    }
                }
            },
            None => {
                proof {
                    lemma_without_absent(before, coord);
                }
            },
        }
        let ghost mid = self.entries@;
        assert(mid == without_key(before, coord));
        assert(forall|a: int| 0 <= a < mid.len() ==> (#[trigger] mid[a]).0 != coord);
        assert(distinct_keys(keys_of(mid)));
        self.entries.push((coord, payload));
        proof {
            let e = mid.push((coord, payload));
            assert(self.entries@ == e);
            assert forall|a: int, b: int| 0 <= a < b < keys_of(e).len() implies keys_of(e)[a] != keys_of(e)[b] by {
                if b < mid.len() {
                    assert(keys_of(mid)[a] != keys_of(mid)[b]);
                } else {
                    assert(mid[a].0 != coord);
                }
            }
        }
        let n = self.entries.len();
        let ghost full = self.entries@;
        let mut dropped: usize = 0;
        while self.entries.len() > self.max_resident
            invariant
                self.max_resident >= 1,
                self.max_resident == old(self).max_resident,
                full.len() > 0,
                dropped <= full.len(),
                self.entries@ == full.skip(dropped as int),
                distinct_keys(keys_of(full)),
                dropped == 0 || full.len() - dropped >= self.max_resident,
                full.len() == n,
            decreases self.entries@.len(),
        {
            let _ = self.entries.remove(0);
            dropped = dropped + 1;
            assert(self.entries@ =~= full.skip(dropped as int));
        }
        proof {
            if full.len() > self.max_resident {
                assert(dropped == full.len() - self.max_resident);
            } else {
                assert(dropped == 0);
                assert(full.skip(0) =~= full);
            }
            assert forall|a: int, b: int| 0 <= a < b < keys_of(self.entries@).len() implies keys_of(self.entries@)[a] != keys_of(self.entries@)[b] by {
                assert(self.entries@[a] == full[a + dropped]);
                assert(self.entries@[b] == full[b + dropped]);
                assert(keys_of(full)[a + dropped] != keys_of(full)[b + dropped]);
            }
        }
    }

    /// Empties the working set (on opening a different archive).
    pub fn clear(&mut self)
        requires
            old(self).wf(),
        ensures
            final(self).wf(),
            final(self).bound() == old(self).bound(),
            final(self).entries_spec().len() == 0,
    {
        self.entries = Vec::new();
    }

    /// The tiles of `tiles` that are not resident: the fetch list for a
    /// residency pass, in the order given.
    pub fn missing_tiles(&self, tiles: &[TileCoord]) -> (r: Vec<TileCoord>)
        ensures
            r@ == missing_from(tiles@, keys_of(self.entries_spec())),
    {
        let mut out: Vec<TileCoord> = Vec::new();
        let mut i: usize = 0;
        while i < tiles.len()
            invariant
                i <= tiles@.len(),
                out@ == missing_from(tiles@.take(i as int), keys_of(self.entries_spec())),
            decreases tiles@.len() - i,
        {
            let c = tiles[i];
            let resident = self.is_resident(c);
            proof {
                assert(tiles@.take(i + 1).drop_last() =~= tiles@.take(i as int));
                assert(tiles@.take(i + 1).last() == c);
            }
            if !resident {
                out.push(c);
            }
            i = i + 1;
        }
        assert(tiles@.take(tiles@.len() as int) =~= tiles@);
        out
    }
}


/// Whether every tile of `tiles` is among `keys`, and there is at least one.
pub open spec fn covers(tiles: Seq<TileCoord>, keys: Seq<TileCoord>) -> bool {
    tiles.len() > 0 && forall|k: int| 0 <= k < tiles.len() ==> keys.contains(#[trigger] tiles[k])
}

/// The finest level at or below `top` whose tiles `levels[level]` are all
/// among `keys`, if any.
pub open spec fn finest_covered(levels: Seq<Seq<TileCoord>>, top: int, keys: Seq<TileCoord>) -> Option<nat>
    decreases top + 1,
{
    if top < 0 {
        None
    } else if covers(levels[top], keys) {
        Some(top as nat)
    } else {
        finest_covered(levels, top - 1, keys)
    }
}

/// The level to paint for a viewport whose covering tiles at each level are
/// `levels` (coarsest first), aiming at level `target`: the finest level no
/// finer than `target` whose covering tiles are all resident. Coarser levels
/// have fewer, larger tiles, so they are covered first; the view degrades to
/// coarse detail rather than to nothing while fine tiles arrive.
pub open spec fn paint_choice(levels: Seq<Seq<TileCoord>>, target: nat, keys: Seq<TileCoord>) -> Option<nat> {
    if levels.len() == 0 {
        None
    } else {
        finest_covered(levels, if target < levels.len() { target as int } else { levels.len() - 1 }, keys)
    }
}

impl<T> Residency<T> {
    fn covers_exec(&self, tiles: &Vec<TileCoord>) -> (r: bool)
        ensures
            r == covers(tiles@, keys_of(self.entries_spec())),
    {
        if tiles.len() == 0 {
            return false;
        }
        let mut k: usize = 0;
        while k < tiles.len()
            invariant
                k <= tiles@.len(),
                forall|j: int| 0 <= j < k ==> keys_of(self.entries_spec()).contains(#[trigger] tiles@[j]),
            decreases tiles@.len() - k,
        {
            if !self.is_resident(tiles[k]) {
                return false;
            }
            k = k + 1;
        }
        true
    }

    /// The level to paint (see [`paint_choice`]), given the tiles covering
    /// the viewport at each level, coarsest first.
    pub fn paint_level(&self, levels: &[Vec<TileCoord>], target: u32) -> (r: Option<u32>)
        ensures
            match paint_choice(levels@.map_values(|v: Vec<TileCoord>| v@), target as nat, keys_of(self.entries_spec())) {
                Some(l) => r == Some(l as u32),
                None => r is None,
            },
    {
        let ghost lv = levels@.map_values(|v: Vec<TileCoord>| v@);
        let ghost keys = keys_of(self.entries_spec());
        if levels.len() == 0 {
            return None;
        }
        let top: usize = if (target as usize) < levels.len() {
            target as usize
        } else {
            levels.len() - 1
        };
        let mut level: usize = top + 1;
        while level > 0
            invariant
                level <= top + 1,
                top < levels@.len(),
                top <= target,
                top as int == if (target as nat) < levels@.len() {
                    target as int
                } else {
                    levels@.len() - 1
                },
                lv == levels@.map_values(|v: Vec<TileCoord>| v@),
                keys == keys_of(self.entries_spec()),
                finest_covered(lv, top as int, keys) == finest_covered(lv, level - 1, keys),
            decreases level,
        {
            level = level - 1;
            assert(lv[level as int] == levels@[level as int]@);
            if self.covers_exec(&levels[level]) {
                assert(finest_covered(lv, level as int, keys) == Some(level as nat));
                return Some(level as u32);
            }
        }
        None
    }
}


/// The tile just adopted is resident afterwards, as the most recently used,
/// and the working set stays within its bound.
pub proof fn lemma_adopted_keeps_newest<T>(entries: Seq<(TileCoord, T)>, coord: TileCoord, payload: T, bound: nat)
    requires
        bound >= 1,
        entries.len() <= bound,
    ensures
        adopted(entries, coord, payload, bound).len() <= bound,
        adopted(entries, coord, payload, bound).last() == (coord, payload),
        keys_of(adopted(entries, coord, payload, bound)).contains(coord),
{
    let e = without_key(entries, coord).push((coord, payload));
    lemma_without_len(entries, coord);
    let a = adopted(entries, coord, payload, bound);
    if e.len() > bound {
        assert(a.last() == e.last());
    }
    assert(keys_of(a)[a.len() - 1] == coord);
}

proof fn lemma_without_len<T>(entries: Seq<(TileCoord, T)>, coord: TileCoord)
    ensures
        without_key(entries, coord).len() <= entries.len(),
    decreases entries.len(),
{
    if entries.len() > 0 {
        lemma_without_len(entries.drop_last(), coord);
    }
}

/// The message an error shows.
pub open spec fn scene_error_message(e: SceneError) -> Seq<char> {
    match e {
        SceneError::BadMagic => "rtla header magic mismatch"@,
        SceneError::UnsupportedVersion(v) => "unsupported rtla version "@ + decimal(v as nat),
        SceneError::LevelCount(n) => "rtla header has an unusable level count: "@ + decimal(n as nat),
        SceneError::DegenerateWorld => "rtla world bounding box has no area"@,
        SceneError::NonPyramidLevel { level, expected, cols, rows } => "rtla level "@ + decimal(
            level as nat,
        ) + " is not a "@ + decimal(expected as nat) + "x"@ + decimal(expected as nat)
            + " grid (got "@ + decimal(cols as nat) + "x"@ + decimal(rows as nat) + ")"@,
    }
}

impl SceneError {
    /// The message this error shows.
    pub fn message(&self) -> (r: String)
        ensures
            r@ == scene_error_message(*self),
    {
        let mut out: Vec<char> = Vec::new();
        match *self {
            SceneError::BadMagic => {
                extend_str(&mut out, "rtla header magic mismatch");
            },
            SceneError::UnsupportedVersion(v) => {
                extend_str(&mut out, "unsupported rtla version ");
                push_decimal(&mut out, v as u64);
            },
            SceneError::LevelCount(n) => {
                extend_str(&mut out, "rtla header has an unusable level count: ");
                push_decimal(&mut out, n as u64);
            },
            SceneError::DegenerateWorld => {
                extend_str(&mut out, "rtla world bounding box has no area");
            },
            SceneError::NonPyramidLevel { level, expected, cols, rows } => {
                extend_str(&mut out, "rtla level ");
                push_decimal(&mut out, level as u64);
                extend_str(&mut out, " is not a ");
                push_decimal(&mut out, expected as u64);
                extend_str(&mut out, "x");
                push_decimal(&mut out, expected as u64);
                extend_str(&mut out, " grid (got ");
                push_decimal(&mut out, cols as u64);
                extend_str(&mut out, "x");
                push_decimal(&mut out, rows as u64);
                extend_str(&mut out, ")");
            },
        }
        assert(out@ =~= scene_error_message(*self));
        string_of(&out)
    }
}

} // verus!
