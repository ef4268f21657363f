use crate::coords::{
    chunk_of, lemma_axis_round_trip, lemma_div_mod_parts, local_of, to_chunk_and_local,
};
use crate::model::{instances_of, position_key, Instance};
use vstd::prelude::*;

verus! {

/// The kinds of block a world can hold.
#[derive(Clone, Copy, Debug, PartialEq, Eq, Structural)]
pub enum BlockType {
    NORMAL,
}

/// An occupied voxel. Each colour channel holds the IEEE-754 bit pattern of a
/// single-precision value, so that blocks stay plain integer data.
#[derive(Clone, Copy, Debug, PartialEq, Eq)]
pub struct Block {
    pub blocktype: BlockType,
    pub color: (u32, u32, u32),
}

/// Local coordinate of a block inside its chunk, as integers.
pub open spec fn local_key(l: (u8, u8, u8)) -> (int, int, int) {
    (l.0 as int, l.1 as int, l.2 as int)
}

/// Chunk coordinate in the chunk lattice, as integers.
pub open spec fn chunk_key(c: (i64, i64, i64)) -> (int, int, int) {
    (c.0 as int, c.1 as int, c.2 as int)
}

/// Whether every axis of `k` lies in `[0, size)`.
pub open spec fn in_chunk(k: (int, int, int), size: int) -> bool {
    &&& 0 <= k.0 < size
    &&& 0 <= k.1 < size
    &&& 0 <= k.2 < size
}

/// Whether the global addresses of one axis of a chunk, `[k * size, k * size + size)`,
/// all fit in an `i64`.
pub open spec fn axis_fits(k: int, size: int) -> bool {
    i64::MIN <= k * size && k * size + size - 1 <= i64::MAX
}

/// Whether every block of the chunk at `k` has a global address that fits in an `i64`.
pub open spec fn chunk_fits(k: (int, int, int), size: int) -> bool {
    axis_fits(k.0, size) && axis_fits(k.1, size) && axis_fits(k.2, size)
}

/// The value under `k`, if any.
pub open spec fn map_get<K, V>(m: Map<K, V>, k: K) -> Option<V> {
    if m.contains_key(k) {
        Some(m[k])
    } else {
        None
    }
}

/// Chunk coordinate of the global address `g`.
pub open spec fn chunk_of_global(g: (int, int, int), size: int) -> (int, int, int) {
    (chunk_of(g.0, size), chunk_of(g.1, size), chunk_of(g.2, size))
}

/// Local coordinate of the global address `g` inside its chunk.
pub open spec fn local_of_global(g: (int, int, int), size: int) -> (int, int, int) {
    (local_of(g.0, size), local_of(g.1, size), local_of(g.2, size))
}

/// Global address of the block at local coordinate `l` of the chunk at `k`.
pub open spec fn global_of(k: (int, int, int), l: (int, int, int), size: int) -> (int, int, int) {
    (k.0 * size + l.0, k.1 * size + l.1, k.2 * size + l.2)
}

/// Whether the local coordinates of `l`, `l` itself included, come before
/// `(a, b, c)` in the order in which a chunk is filled.
pub open spec fn filled_before(l: (int, int, int), size: int, a: int, b: int, c: int) -> bool {
    &&& in_chunk(l, size)
    &&& (l.0 < a || (l.0 == a && (l.1 < b || (l.1 == b && l.2 < c))))
}

/// Two global addresses with the same chunk and the same local coordinate are equal.
pub proof fn lemma_address_determined(g: (int, int, int), h: (int, int, int), c: int)
    requires
        c > 0,
        chunk_of_global(g, c) == chunk_of_global(h, c),
        local_of_global(g, c) == local_of_global(h, c),
    ensures
        g == h,
{
    lemma_div_mod_parts(g.0, c);
    lemma_div_mod_parts(g.1, c);
    lemma_div_mod_parts(g.2, c);
    lemma_div_mod_parts(h.0, c);
    lemma_div_mod_parts(h.1, c);
    lemma_div_mod_parts(h.2, c);
}

/// For every chunk size, chunk coordinate `k` and local coordinate `l` inside
/// the chunk, the global address of `l` in `k` maps back to exactly `k` and `l`.
pub proof fn lemma_address_round_trip(k: (int, int, int), l: (int, int, int), c: int)
    requires
        c > 0,
        in_chunk(l, c),
    ensures
        chunk_of_global(global_of(k, l, c), c) == k,
        local_of_global(global_of(k, l, c), c) == l,
{
    lemma_axis_round_trip(k.0, l.0, c);
    lemma_axis_round_trip(k.1, l.1, c);
    lemma_axis_round_trip(k.2, l.2, c);
}

/// The entry `src = (a, b)` of `world` (block `b` of chunk `a`) is a block of
/// type `t` and `inst` is its instance.
pub(crate) open spec fn instance_from(world: World, t: BlockType, src: (int, int), inst: Instance) -> bool {
    let (a, b) = src;
    &&& 0 <= a < world.chunks@.len()
    &&& 0 <= b < world.chunks@[a].1.blocks@.len()
    &&& world.chunks@[a].1.blocks@[b].1.blocktype == t
    &&& inst.color == world.chunks@[a].1.blocks@[b].1.color
    &&& position_key(inst.position) == global_of(
        chunk_key(world.chunks@[a].0),
        local_key(world.chunks@[a].1.blocks@[b].0),
        world.chunk_size as int,
    )
}

/// A cube of `size`³ cells, each empty or holding one block.
pub struct Chunk {
    pub(crate) size: u8,
    pub(crate) blocks: Vec<((u8, u8, u8), Block)>,
    pub(crate) contents: Ghost<Map<(int, int, int), Block>>,
}

impl View for Chunk {
    type V = Map<(int, int, int), Block>;

    closed spec fn view(&self) -> Map<(int, int, int), Block> {
        self.contents@
    }
}

impl Chunk {
    /// The edge length of the chunk, in blocks.
    pub closed spec fn spec_size(&self) -> int {
        self.size as int
    }

    /// The stored entries have distinct keys inside the chunk and are exactly the view.
    pub closed spec fn wf(&self) -> bool {
        &&& self.size > 0
        &&& forall|i: int, j: int|
            0 <= i < j < self.blocks@.len() ==> self.blocks@[i].0 != self.blocks@[j].0
        &&& forall|i: int|
            0 <= i < self.blocks@.len() ==> {
                &&& self.contents@.contains_key(local_key(#[trigger] self.blocks@[i].0))
                &&& self.contents@[local_key(self.blocks@[i].0)] == self.blocks@[i].1
            }
        &&& forall|k: (int, int, int)| #[trigger]
            self.contents@.contains_key(k) ==> exists|i: int|
                0 <= i < self.blocks@.len() && local_key(self.blocks@[i].0) == k
        &&& forall|k: (int, int, int)| #[trigger]
            self.contents@.contains_key(k) ==> in_chunk(k, self.size as int)
    }

    /// Every block of a well-formed chunk sits inside it.
    pub proof fn lemma_keys_in_chunk(&self)
        requires
            self.wf(),
        ensures
            self.spec_size() > 0,
            forall|k: (int, int, int)| #[trigger]
                self@.contains_key(k) ==> in_chunk(k, self.spec_size()),
    {
    }

    /// An empty chunk of edge length `size`.
    pub fn new(size: u8) -> (r: Chunk)
        requires
            size > 0,
        ensures
            r.wf(),
            r@ == Map::<(int, int, int), Block>::empty(),
            r.spec_size() == size,
    {
        Chunk { size, blocks: Vec::new(), contents: Ghost(Map::empty()) }
    }

    /// A chunk of edge length `size` with `block` in every cell.
    pub fn filled(size: u8, block: Block) -> (r: Chunk)
        requires
            size > 0,
        ensures
            r.wf(),
            r.spec_size() == size,
            forall|l: (int, int, int)| #[trigger] r@.contains_key(l) <==> in_chunk(l, size as int),
            forall|l: (int, int, int)| r@.contains_key(l) ==> #[trigger] r@[l] == block,
    {
        let mut chunk = Chunk::new(size);
        let mut a: u8 = 0;
        while a < size
            invariant
                chunk.wf(),
                chunk.spec_size() == size,
                a <= size,
                forall|l: (int, int, int)| #[trigger]
                    chunk@.contains_key(l) <==> filled_before(l, size as int, a as int, 0, 0),
                forall|l: (int, int, int)| chunk@.contains_key(l) ==> #[trigger] chunk@[l] == block,
            decreases size - a,
        {
            let mut b: u8 = 0;
            while b < size
                invariant
                    chunk.wf(),
                    chunk.spec_size() == size,
                    a < size,
                    b <= size,
                    forall|l: (int, int, int)| #[trigger]
                        chunk@.contains_key(l) <==> filled_before(l, size as int, a as int, b as int, 0),
                    forall|l: (int, int, int)| chunk@.contains_key(l) ==> #[trigger] chunk@[l] == block,
                decreases size - b,
            {
                let mut c: u8 = 0;
                while c < size
                    invariant
                        chunk.wf(),
                        chunk.spec_size() == size,
                        a < size,
                        b < size,
                        c <= size,
                        forall|l: (int, int, int)| #[trigger]
                            chunk@.contains_key(l) <==> filled_before(
                                l,
                                size as int,
                                a as int,
                                b as int,
                                c as int,
                            ),
                        forall|l: (int, int, int)|
                            chunk@.contains_key(l) ==> #[trigger] chunk@[l] == block,
                    decreases size - c,
                {
                    chunk.insert((a, b, c), block);
                    c = c + 1;
                }
                b = b + 1;
            }
            a = a + 1;
        }
        chunk
    }

    /// The edge length of the chunk, in blocks.
    pub fn size(&self) -> (r: u8)
        ensures
            r as int == self.spec_size(),
    {
        self.size
    }

    /// Index of the entry stored under `l`, if there is one.
    fn find(&self, l: (u8, u8, u8)) -> (r: Option<usize>)
        requires
            self.wf(),
        ensures
            match r {
                Some(i) => i < self.blocks@.len() && self.blocks@[i as int].0 == l,
                None => !self@.contains_key(local_key(l)),
            },
    {
        let mut i: usize = 0;
        while i < self.blocks.len()
            invariant
                self.wf(),
                i <= self.blocks@.len(),
                forall|j: int| 0 <= j < i ==> self.blocks@[j].0 != l,
            decreases self.blocks@.len() - i,
        {
            let k = self.blocks[i].0;
            if k.0 == l.0 && k.1 == l.1 && k.2 == l.2 {
                return Some(i);
            }
            i = i + 1;
        }
        None
    }

    /// The block at local coordinate `l`, if the cell is occupied.
    pub fn get(&self, l: (u8, u8, u8)) -> (r: Option<Block>)
        requires
            self.wf(),
        ensures
            r == map_get(self@, local_key(l)),
    {
        match self.find(l) {
            Some(i) => Some(self.blocks[i].1),
            None => None,
        }
    }

    /// Puts `block` at local coordinate `l`, replacing what was there.
    pub fn insert(&mut self, l: (u8, u8, u8), block: Block)
        requires
            old(self).wf(),
            in_chunk(local_key(l), old(self).spec_size()),
        ensures
            final(self).wf(),
            final(self).spec_size() == old(self).spec_size(),
            final(self)@ == old(self)@.insert(local_key(l), block),
    {
        let ghost old_blocks = self.blocks@;
        let ghost old_map = self.contents@;
        let ghost new_map = old_map.insert(local_key(l), block);
        match self.find(l) {
            Some(i) => {
                self.blocks[i] = (l, block);
                self.contents = Ghost(new_map);
                proof {
                    assert forall|k: (int, int, int)| #[trigger]
                        new_map.contains_key(k) implies exists|j: int|
                            0 <= j < self.blocks@.len() && local_key(self.blocks@[j].0) == k by {
                        if k == local_key(l) {
                            assert(local_key(self.blocks@[i as int].0) == k);
                        } else {
                            let j = choose|j: int|
                                0 <= j < old_blocks.len() && local_key(old_blocks[j].0) == k;
                            assert(local_key(self.blocks@[j].0) == k);
                        }
                    }
                }
            },
            None => {
                self.blocks.push((l, block));
                self.contents = Ghost(new_map);
                proof {
                    let n = old_blocks.len() as int;
                    assert forall|k: (int, int, int)| #[trigger]
                        new_map.contains_key(k) implies exists|j: int|
                            0 <= j < self.blocks@.len() && local_key(self.blocks@[j].0) == k by {
                        if k == local_key(l) {
                            assert(local_key(self.blocks@[n].0) == k);
                        } else {
                            let j = choose|j: int|
                                0 <= j < old_blocks.len() && local_key(old_blocks[j].0) == k;
                            assert(local_key(self.blocks@[j].0) == k);
                        }
                    }
                    assert forall|i: int, j: int|
                        0 <= i < j < self.blocks@.len() implies self.blocks@[i].0
                        != self.blocks@[j].0 by {
                        if j == n {
                            assert(old_map.contains_key(local_key(old_blocks[i].0)));
                        }
                    }
                }
            },
        }
    }

    /// Empties the cell at local coordinate `l`, returning the block it held.
    pub fn remove(&mut self, l: (u8, u8, u8)) -> (r: Option<Block>)
        requires
            old(self).wf(),
        ensures
            final(self).wf(),
            final(self).spec_size() == old(self).spec_size(),
            r == map_get(old(self)@, local_key(l)),
            final(self)@ == old(self)@.remove(local_key(l)),
    {
        let ghost old_blocks = self.blocks@;
        let ghost old_map = self.contents@;
        let ghost new_map = old_map.remove(local_key(l));
        match self.find(l) {
            Some(i) => {
                let e = self.blocks.swap_remove(i);
                self.contents = Ghost(new_map);
                proof {
                    let last = old_blocks.len() - 1;
                    assert forall|k: (int, int, int)| #[trigger]
                        new_map.contains_key(k) implies exists|j: int|
                            0 <= j < self.blocks@.len() && local_key(self.blocks@[j].0) == k by {
                        let j = choose|j: int|
                            0 <= j < old_blocks.len() && local_key(old_blocks[j].0) == k;
                        if j == last {
                            assert(local_key(self.blocks@[i as int].0) == k);
                        } else {
                            assert(local_key(self.blocks@[j].0) == k);
                        }
                    }
                    assert forall|a: int, b: int|
                        0 <= a < b < self.blocks@.len() implies self.blocks@[a].0
                        != self.blocks@[b].0 by {
                        if a == i {
                            assert(old_blocks[last].0 != old_blocks[b].0);
                        } else if b == i {
                            assert(old_blocks[a].0 != old_blocks[last].0);
                        }
                    }
                    assert forall|a: int| 0 <= a < self.blocks@.len() implies {
                        &&& new_map.contains_key(local_key(#[trigger] self.blocks@[a].0))
                        &&& new_map[local_key(self.blocks@[a].0)] == self.blocks@[a].1
                    } by {
                        if a == i {
                            assert(old_blocks[last].0 != old_blocks[a].0);
                        } else {
                            assert(old_blocks[a].0 != old_blocks[i as int].0);
                        }
                    }
                }
                Some(e.1)
            },
            None => {
                assert(new_map =~= old_map);
                None
            },
        }
    }
}

/// The sparse voxel world: chunks keyed by their coordinate in the chunk lattice.
pub struct World {
    pub(crate) chunk_size: u8,
    pub(crate) chunks: Vec<((i64, i64, i64), Chunk)>,
    pub(crate) contents: Ghost<Map<(int, int, int), Map<(int, int, int), Block>>>,
}

impl View for World {
    type V = Map<(int, int, int), Map<(int, int, int), Block>>;

    closed spec fn view(&self) -> Map<(int, int, int), Map<(int, int, int), Block>> {
        self.contents@
    }
}

impl World {
    /// The edge length of every chunk of the world, in blocks.
    pub closed spec fn spec_chunk_size(&self) -> int {
        self.chunk_size as int
    }

    /// Chunk keys are distinct, every chunk is well formed, of the world's size
    /// and within the `i64` address range, and the entries are exactly the view.
    pub closed spec fn wf(&self) -> bool {
        &&& self.chunk_size > 0
        &&& forall|i: int, j: int|
            0 <= i < j < self.chunks@.len() ==> self.chunks@[i].0 != self.chunks@[j].0
        &&& forall|i: int|
            0 <= i < self.chunks@.len() ==> {
                &&& (#[trigger] self.chunks@[i]).1.wf()
                &&& self.chunks@[i].1.spec_size() == self.chunk_size
                &&& self.contents@.contains_key(chunk_key(self.chunks@[i].0))
                &&& self.contents@[chunk_key(self.chunks@[i].0)] == self.chunks@[i].1@
            }
        &&& forall|k: (int, int, int)| #[trigger]
            self.contents@.contains_key(k) ==> exists|i: int|
                0 <= i < self.chunks@.len() && chunk_key(self.chunks@[i].0) == k
        &&& forall|k: (int, int, int)| #[trigger]
            self.contents@.contains_key(k) ==> chunk_fits(k, self.chunk_size as int)
        &&& forall|k: (int, int, int), l: (int, int, int)|
            #![trigger self.contents@[k].contains_key(l)]
            self.contents@.contains_key(k) && self.contents@[k].contains_key(l) ==> in_chunk(
                l,
                self.chunk_size as int,
            )
    }

    /// The block at global address `g`, if any: the one stored in the chunk
    /// that holds `g`, under `g`'s local coordinate.
    pub open spec fn block_at(&self, g: (int, int, int)) -> Option<Block> {
        let k = chunk_of_global(g, self.spec_chunk_size());
        if self@.contains_key(k) {
            map_get(self@[k], local_of_global(g, self.spec_chunk_size()))
        } else {
            None
        }
    }

    /// What a well-formed world guarantees of its chunks.
    pub proof fn lemma_wf_facts(&self)
        requires
            self.wf(),
        ensures
            0 < self.spec_chunk_size() <= 255,
            forall|k: (int, int, int)| #[trigger]
                self@.contains_key(k) ==> chunk_fits(k, self.spec_chunk_size()),
            forall|k: (int, int, int), l: (int, int, int)|
                #![trigger self@[k].contains_key(l)]
                self@.contains_key(k) && self@[k].contains_key(l) ==> in_chunk(
                    l,
                    self.spec_chunk_size(),
                ),
    {
    }

    /// An empty world whose chunks have edge length `chunk_size`.
    pub fn new(chunk_size: u8) -> (r: World)
        requires
            chunk_size > 0,
        ensures
            r.wf(),
            r@ == Map::<(int, int, int), Map<(int, int, int), Block>>::empty(),
            r.spec_chunk_size() == chunk_size,
    {
        World { chunk_size, chunks: Vec::new(), contents: Ghost(Map::empty()) }
    }

    /// The edge length of every chunk of the world, in blocks.
    pub fn chunk_size(&self) -> (r: u8)
        ensures
            r as int == self.spec_chunk_size(),
    {
        self.chunk_size
    }

    /// Index of the chunk stored under `k`, if there is one.
    fn find(&self, k: (i64, i64, i64)) -> (r: Option<usize>)
        requires
            self.wf(),
        ensures
            match r {
                Some(i) => i < self.chunks@.len() && self.chunks@[i as int].0 == k,
                None => !self@.contains_key(chunk_key(k)),
            },
    {
        let mut i: usize = 0;
        while i < self.chunks.len()
            invariant
                self.wf(),
                i <= self.chunks@.len(),
                forall|j: int| 0 <= j < i ==> self.chunks@[j].0 != k,
            decreases self.chunks@.len() - i,
        {
            let c = self.chunks[i].0;
            if c.0 == k.0 && c.1 == k.1 && c.2 == k.2 {
                return Some(i);
            }
            i = i + 1;
        }
        None
    }

    /// Whether every block of a chunk at `coord` would have a global address
    /// that fits in an `i64`.
    pub fn chunk_in_range(&self, coord: (i64, i64, i64)) -> (r: bool)
        requires
            self.wf(),
        ensures
            r == chunk_fits(chunk_key(coord), self.spec_chunk_size()),
    {
        let c = self.chunk_size as i128;
        assert(-0x8000_0000_0000_0000 * 256 <= coord.0 * c <= 0x8000_0000_0000_0000 * 256)
            by (nonlinear_arith)
            requires
                0 < c <= 255,
                i64::MIN <= coord.0 <= i64::MAX,
        ;
        assert(-0x8000_0000_0000_0000 * 256 <= coord.1 * c <= 0x8000_0000_0000_0000 * 256)
            by (nonlinear_arith)
            requires
                0 < c <= 255,
                i64::MIN <= coord.1 <= i64::MAX,
        ;
        assert(-0x8000_0000_0000_0000 * 256 <= coord.2 * c <= 0x8000_0000_0000_0000 * 256)
            by (nonlinear_arith)
            requires
                0 < c <= 255,
                i64::MIN <= coord.2 <= i64::MAX,
        ;
        let x = coord.0 as i128 * c;
        let y = coord.1 as i128 * c;
        let z = coord.2 as i128 * c;
        let lo = i64::MIN as i128;
        let hi = i64::MAX as i128;
        lo <= x && x + c - 1 <= hi && lo <= y && y + c - 1 <= hi && lo <= z && z + c - 1 <= hi
    }

    /// Puts `chunk` at `coord`, replacing any chunk there. Returns false, and
    /// leaves the world as it was, when some block of that chunk would have a
    /// global address outside the `i64` range.
    pub fn insert_chunk(&mut self, coord: (i64, i64, i64), chunk: Chunk) -> (r: bool)
        requires
            old(self).wf(),
            chunk.wf(),
            chunk.spec_size() == old(self).spec_chunk_size(),
        ensures
            final(self).wf(),
            final(self).spec_chunk_size() == old(self).spec_chunk_size(),
            r == chunk_fits(chunk_key(coord), old(self).spec_chunk_size()),
            r ==> final(self)@ == old(self)@.insert(chunk_key(coord), chunk@),
            !r ==> final(self)@ == old(self)@,
    {
        if !self.chunk_in_range(coord) {
            return false;
        }
        proof {
            chunk.lemma_keys_in_chunk();
        }
        let ghost old_chunks = self.chunks@;
        let ghost old_map = self.contents@;
        let ghost new_map = old_map.insert(chunk_key(coord), chunk@);
        match self.find(coord) {
            Some(i) => {
                self.chunks[i] = (coord, chunk);
                self.contents = Ghost(new_map);
                proof {
                    assert forall|k: (int, int, int)| #[trigger]
                        new_map.contains_key(k) implies exists|j: int|
                            0 <= j < self.chunks@.len() && chunk_key(self.chunks@[j].0) == k by {
                        if k == chunk_key(coord) {
                            assert(chunk_key(self.chunks@[i as int].0) == k);
                        } else {
                            let j = choose|j: int|
                                0 <= j < old_chunks.len() && chunk_key(old_chunks[j].0) == k;
                            assert(chunk_key(self.chunks@[j].0) == k);
                        }
                    }
                }
            },
            None => {
                self.chunks.push((coord, chunk));
                self.contents = Ghost(new_map);
                proof {
                    let n = old_chunks.len() as int;
                    assert forall|k: (int, int, int)| #[trigger]
                        new_map.contains_key(k) implies exists|j: int|
                            0 <= j < self.chunks@.len() && chunk_key(self.chunks@[j].0) == k by {
                        if k == chunk_key(coord) {
                            assert(chunk_key(self.chunks@[n].0) == k);
                        } else {
                            let j = choose|j: int|
                                0 <= j < old_chunks.len() && chunk_key(old_chunks[j].0) == k;
                            assert(chunk_key(self.chunks@[j].0) == k);
                        }
                    }
                    assert forall|i: int, j: int|
                        0 <= i < j < self.chunks@.len() implies self.chunks@[i].0
                        != self.chunks@[j].0 by {
                        if j == n {
                            assert(old_map.contains_key(chunk_key(old_chunks[i].0)));
                        }
                    }
                }
            },
        }
        true
    }

    /// The block at global address `(x, y, z)`, if that voxel is occupied.
    /// An address whose chunk was never inserted is empty.
    #[allow(non_snake_case)]
    pub fn GetBlockFromGlobalAddress(&self, x: i64, y: i64, z: i64) -> (r: Option<Block>)
        requires
            self.wf(),
        ensures
            r == self.block_at((x as int, y as int, z as int)),
    {
        let (cx, lx) = to_chunk_and_local(x, self.chunk_size);
        let (cy, ly) = to_chunk_and_local(y, self.chunk_size);
        let (cz, lz) = to_chunk_and_local(z, self.chunk_size);
        match self.find((cx, cy, cz)) {
            Some(i) => self.chunks[i].1.get((lx, ly, lz)),
            None => None,
        }
    }

    /// Whether the voxel at global address `(x, y, z)` holds a block.
    pub fn is_occupied(&self, x: i64, y: i64, z: i64) -> (r: bool)
        requires
            self.wf(),
        ensures
            r == self.block_at((x as int, y as int, z as int)) is Some,
    {
        self.GetBlockFromGlobalAddress(x, y, z).is_some()
    }

    /// Puts `block` at global address `(x, y, z)`, creating its chunk if needed.
    /// Returns false, and leaves the world as it was, when that chunk is absent
    /// and some of its global addresses fall outside the `i64` range.
    pub fn insert_block(&mut self, x: i64, y: i64, z: i64, block: Block) -> (r: bool)
        requires
            old(self).wf(),
        ensures
            final(self).wf(),
            final(self).spec_chunk_size() == old(self).spec_chunk_size(),
            r == chunk_fits(
                chunk_of_global((x as int, y as int, z as int), old(self).spec_chunk_size()),
                old(self).spec_chunk_size(),
            ),
            forall|g: (int, int, int)| #[trigger]
                final(self).block_at(g) == if r && g == (x as int, y as int, z as int) {
                    Some(block)
                } else {
                    old(self).block_at(g)
                },
    {
        let ghost g0 = (x as int, y as int, z as int);
        let ghost size = self.chunk_size as int;
        let (cx, lx) = to_chunk_and_local(x, self.chunk_size);
        let (cy, ly) = to_chunk_and_local(y, self.chunk_size);
        let (cz, lz) = to_chunk_and_local(z, self.chunk_size);
        let ghost ck = chunk_key((cx, cy, cz));
        let ghost lk = local_key((lx, ly, lz));
        let ghost old_world = *self;
        match self.find((cx, cy, cz)) {
            Some(i) => {
                let ghost old_chunks = self.chunks@;
                let ghost old_map = self.contents@;
                let ghost new_map = old_map.insert(ck, old_map[ck].insert(lk, block));
                assert(self.chunks@[i as int].1.wf());
                self.chunks[i].1.insert((lx, ly, lz), block);
                self.contents = Ghost(new_map);
                proof {
                    assert forall|k: (int, int, int)| #[trigger]
                        new_map.contains_key(k) implies exists|j: int|
                            0 <= j < self.chunks@.len() && chunk_key(self.chunks@[j].0) == k by {
                        if k == ck {
                            assert(chunk_key(self.chunks@[i as int].0) == k);
                        } else {
                            let j = choose|j: int|
                                0 <= j < old_chunks.len() && chunk_key(old_chunks[j].0) == k;
                            assert(chunk_key(self.chunks@[j].0) == k);
                        }
                    }
                    assert forall|j: int| 0 <= j < self.chunks@.len() implies {
                        &&& (#[trigger] self.chunks@[j]).1.wf()
                        &&& self.chunks@[j].1.spec_size() == self.chunk_size
                        &&& new_map.contains_key(chunk_key(self.chunks@[j].0))
                        &&& new_map[chunk_key(self.chunks@[j].0)] == self.chunks@[j].1@
                    } by {
                        if j != i {
                            assert(old_chunks[j] == self.chunks@[j]);
                            assert(old_chunks[j].0 != old_chunks[i as int].0);
                        }
                    }
                    self.lemma_frame_set(old_world, g0, Some(block));
                }
                true
            },
            None => {
                if !self.chunk_in_range((cx, cy, cz)) {
                    return false;
                }
                let mut chunk = Chunk::new(self.chunk_size);
                chunk.insert((lx, ly, lz), block);
                let ok = self.insert_chunk((cx, cy, cz), chunk);
                proof {
                    self.lemma_frame_set_new_chunk(old_world, g0, block);
                }
                ok
            },
        }
    }

    /// Empties the voxel at global address `(x, y, z)`, returning the block it held.
    pub fn remove_block(&mut self, x: i64, y: i64, z: i64) -> (r: Option<Block>)
        requires
            old(self).wf(),
        ensures
            final(self).wf(),
            final(self).spec_chunk_size() == old(self).spec_chunk_size(),
            r == old(self).block_at((x as int, y as int, z as int)),
            forall|g: (int, int, int)| #[trigger]
                final(self).block_at(g) == if g == (x as int, y as int, z as int) {
                    None
                } else {
                    old(self).block_at(g)
                },
    {
        let ghost g0 = (x as int, y as int, z as int);
        let (cx, lx) = to_chunk_and_local(x, self.chunk_size);
        let (cy, ly) = to_chunk_and_local(y, self.chunk_size);
        let (cz, lz) = to_chunk_and_local(z, self.chunk_size);
        let ghost ck = chunk_key((cx, cy, cz));
        let ghost lk = local_key((lx, ly, lz));
        let ghost old_world = *self;
        match self.find((cx, cy, cz)) {
            Some(i) => {
                let ghost old_chunks = self.chunks@;
                let ghost old_map = self.contents@;
                let ghost new_map = old_map.insert(ck, old_map[ck].remove(lk));
                assert(self.chunks@[i as int].1.wf());
                let r = self.chunks[i].1.remove((lx, ly, lz));
                self.contents = Ghost(new_map);
                proof {
                    assert forall|k: (int, int, int)| #[trigger]
                        new_map.contains_key(k) implies exists|j: int|
                            0 <= j < self.chunks@.len() && chunk_key(self.chunks@[j].0) == k by {
                        if k == ck {
                            assert(chunk_key(self.chunks@[i as int].0) == k);
                        } else {
                            let j = choose|j: int|
                                0 <= j < old_chunks.len() && chunk_key(old_chunks[j].0) == k;
                            assert(chunk_key(self.chunks@[j].0) == k);
                        }
                    }
                    assert forall|j: int| 0 <= j < self.chunks@.len() implies {
                        &&& (#[trigger] self.chunks@[j]).1.wf()
                        &&& self.chunks@[j].1.spec_size() == self.chunk_size
                        &&& new_map.contains_key(chunk_key(self.chunks@[j].0))
                        &&& new_map[chunk_key(self.chunks@[j].0)] == self.chunks@[j].1@
                    } by {
                        if j != i {
                            assert(old_chunks[j] == self.chunks@[j]);
                            assert(old_chunks[j].0 != old_chunks[i as int].0);
                        }
                    }
                    self.lemma_frame_set(old_world, g0, None);
                }
                r
            },
            None => {
                proof {
                    assert forall|g: (int, int, int)| #[trigger]
                        self.block_at(g) == if g == g0 {
                            None
                        } else {
                            old_world.block_at(g)
                        } by {}
                }
                None
            },
        }
    }

    /// After the chunk holding `g0` had the cell of `g0` set to `v` (a block, or
    /// empty), only the block at `g0` changed.
    proof fn lemma_frame_set(&self, old_world: World, g0: (int, int, int), v: Option<Block>)
        requires
            self.chunk_size == old_world.chunk_size,
            self.chunk_size > 0,
            old_world@.contains_key(chunk_of_global(g0, self.spec_chunk_size())),
            self@ == old_world@.insert(
                chunk_of_global(g0, self.spec_chunk_size()),
                match v {
                    Some(b) => old_world@[chunk_of_global(g0, self.spec_chunk_size())].insert(
                        local_of_global(g0, self.spec_chunk_size()),
                        b,
                    ),
                    None => old_world@[chunk_of_global(g0, self.spec_chunk_size())].remove(
                        local_of_global(g0, self.spec_chunk_size()),
                    ),
                },
            ),
        ensures
            forall|g: (int, int, int)| #[trigger]
                self.block_at(g) == if g == g0 {
                    v
                } else {
                    old_world.block_at(g)
                },
    {
        let c = self.spec_chunk_size();
        assert forall|g: (int, int, int)| #[trigger]
            self.block_at(g) == if g == g0 {
                v
            } else {
                old_world.block_at(g)
            } by {
            if chunk_of_global(g, c) == chunk_of_global(g0, c) && local_of_global(g, c)
                == local_of_global(g0, c) {
                lemma_address_determined(g, g0, c);
            }
        }
    }

    /// After a chunk holding only the block at `g0` was added where there was
    /// none, only the block at `g0` changed.
    proof fn lemma_frame_set_new_chunk(&self, old_world: World, g0: (int, int, int), b: Block)
        requires
            self.chunk_size == old_world.chunk_size,
            self.chunk_size > 0,
            !old_world@.contains_key(chunk_of_global(g0, self.spec_chunk_size())),
            self@ == old_world@.insert(
                chunk_of_global(g0, self.spec_chunk_size()),
                Map::<(int, int, int), Block>::empty().insert(
                    local_of_global(g0, self.spec_chunk_size()),
                    b,
                ),
            ),
        ensures
            forall|g: (int, int, int)| #[trigger]
                self.block_at(g) == if g == g0 {
                    Some(b)
                } else {
                    old_world.block_at(g)
                },
    {
        let c = self.spec_chunk_size();
        assert forall|g: (int, int, int)| #[trigger]
            self.block_at(g) == if g == g0 {
                Some(b)
            } else {
                old_world.block_at(g)
            } by {
            if chunk_of_global(g, c) == chunk_of_global(g0, c) && local_of_global(g, c)
                == local_of_global(g0, c) {
                lemma_address_determined(g, g0, c);
            }
        }
    }


    /// One render instance per block of type `t`: its global address and its colour.
    pub fn instances_of_type(&self, t: BlockType) -> (r: Vec<Instance>)
        requires
            self.wf(),
        ensures
            instances_of(*self, t, r@),
    {
        let c = self.chunk_size as i64;
        let mut out: Vec<Instance> = Vec::new();
        let ghost mut src: Seq<(int, int)> = Seq::empty();
        let mut i: usize = 0;
        while i < self.chunks.len()
            invariant
                self.wf(),
                c == self.chunk_size,
                i <= self.chunks@.len(),
                src.len() == out@.len(),
                forall|k: int|
                    0 <= k < out@.len() ==> instance_from(*self, t, src[k], #[trigger] out@[k]),
                forall|k: int| 0 <= k < src.len() ==> (#[trigger] src[k]).0 < i,
                forall|k1: int, k2: int| 0 <= k1 < k2 < src.len() ==> src[k1] != src[k2],
                forall|a: int, b: int|
                    0 <= a < i && 0 <= b < self.chunks@[a].1.blocks@.len()
                        && (#[trigger] self.chunks@[a].1.blocks@[b]).1.blocktype == t
                        ==> exists|k: int| 0 <= k < src.len() && src[k] == (a, b),
            decreases self.chunks@.len() - i,
        {
            let entry = &self.chunks[i];
            let ck = entry.0;
            let chunk = &entry.1;
            assert(self.chunks@[i as int].1.wf());
            let mut j: usize = 0;
            while j < chunk.blocks.len()
                invariant
                    self.wf(),
                    c == self.chunk_size,
                    i < self.chunks@.len(),
                    *chunk == self.chunks@[i as int].1,
                    ck == self.chunks@[i as int].0,
                    chunk.wf(),
                    j <= chunk.blocks@.len(),
                    src.len() == out@.len(),
                    forall|k: int|
                        0 <= k < out@.len() ==> instance_from(*self, t, src[k], #[trigger] out@[k]),
                    forall|k: int|
                        0 <= k < src.len() ==> (#[trigger] src[k]).0 < i || (src[k].0 == i
                            && src[k].1 < j),
                    forall|k1: int, k2: int| 0 <= k1 < k2 < src.len() ==> src[k1] != src[k2],
                    forall|a: int, b: int|
                        ((0 <= a < i && 0 <= b < self.chunks@[a].1.blocks@.len()) || (a == i && 0
                            <= b < j)) && (#[trigger] self.chunks@[a].1.blocks@[b]).1.blocktype
                            == t ==> exists|k: int| 0 <= k < src.len() && src[k] == (a, b),
                decreases chunk.blocks@.len() - j,
            {
                let (l, block) = chunk.blocks[j];
                let ghost src0 = src;
                if block.blocktype == t {
                    proof {
                        assert(self.contents@.contains_key(chunk_key(ck)));
                        assert(chunk_fits(chunk_key(ck), c as int));
                        assert(chunk.contents@.contains_key(local_key(l)));
                        assert(in_chunk(local_key(l), c as int));
                    }
                    let x = ck.0 * c + l.0 as i64;
                    let y = ck.1 * c + l.1 as i64;
                    let z = ck.2 * c + l.2 as i64;
                    out.push(Instance { position: (x, y, z), color: block.color });
                    proof {
                        src = src.push((i as int, j as int));
                        assert forall|k: int| 0 <= k < out@.len() - 1 implies instance_from(
                            *self,
                            t,
                            src[k],
                            #[trigger] out@[k],
                        ) by {
                            assert(src[k] == src0[k]);
                        }
                    }
                }
                proof {
                    assert forall|a: int, b: int|
                        ((0 <= a < i && 0 <= b < self.chunks@[a].1.blocks@.len()) || (a == i && 0
                            <= b < j + 1)) && (#[trigger] self.chunks@[a].1.blocks@[b]).1.blocktype
                            == t implies exists|k: int| 0 <= k < src.len() && src[k] == (a, b) by {
                        if a == i && b == j {
                            assert(src[src.len() - 1] == (a, b));
                        } else {
                            let k = choose|k: int| 0 <= k < src0.len() && src0[k] == (a, b);
                            assert(src[k] == (a, b));
                        }
                    }
                }
                j = j + 1;
            }
            i = i + 1;
        }
        proof {
            self.lemma_collected(t, out@, src);
        }
        out
    }

    /// Instances collected from distinct entries of every block of type `t`
    /// are exactly the instances of type `t`.
    proof fn lemma_collected(&self, t: BlockType, out: Seq<Instance>, src: Seq<(int, int)>)
        requires
            self.wf(),
            src.len() == out.len(),
            forall|k: int| 0 <= k < out.len() ==> instance_from(*self, t, src[k], #[trigger] out[k]),
            forall|k1: int, k2: int| 0 <= k1 < k2 < src.len() ==> src[k1] != src[k2],
            forall|a: int, b: int|
                0 <= a < self.chunks@.len() && 0 <= b < self.chunks@[a].1.blocks@.len()
                    && (#[trigger] self.chunks@[a].1.blocks@[b]).1.blocktype == t
                    ==> exists|k: int| 0 <= k < src.len() && src[k] == (a, b),
        ensures
            instances_of(*self, t, out),
    {
        let c = self.chunk_size as int;
        assert forall|k: int| 0 <= k < out.len() implies self.block_at(
            position_key(#[trigger] out[k].position),
        ) == Some(Block { blocktype: t, color: out[k].color }) by {
            let (a, b) = src[k];
            assert(instance_from(*self, t, src[k], out[k]));
            let ck = chunk_key(self.chunks@[a].0);
            let lk = local_key(self.chunks@[a].1.blocks@[b].0);
            assert(self.chunks@[a].1.wf());
            assert(self.chunks@[a].1.contents@.contains_key(lk));
            lemma_address_round_trip(ck, lk, c);
        }
        assert forall|k1: int, k2: int| 0 <= k1 < k2 < out.len() implies out[k1].position
            != out[k2].position by {
            assert(instance_from(*self, t, src[k1], out[k1]));
            assert(instance_from(*self, t, src[k2], out[k2]));
            let (a1, b1) = src[k1];
            let (a2, b2) = src[k2];
            let ck1 = chunk_key(self.chunks@[a1].0);
            let lk1 = local_key(self.chunks@[a1].1.blocks@[b1].0);
            let ck2 = chunk_key(self.chunks@[a2].0);
            let lk2 = local_key(self.chunks@[a2].1.blocks@[b2].0);
            assert(self.chunks@[a1].1.wf());
            assert(self.chunks@[a2].1.wf());
            assert(self.chunks@[a1].1.contents@.contains_key(lk1));
            assert(self.chunks@[a2].1.contents@.contains_key(lk2));
            lemma_address_round_trip(ck1, lk1, c);
            lemma_address_round_trip(ck2, lk2, c);
            if out[k1].position == out[k2].position {
                assert(ck1 == ck2);
                assert(lk1 == lk2);
                if a1 != a2 {
                    if a1 < a2 {
                        assert(self.chunks@[a1].0 != self.chunks@[a2].0);
                    } else {
                        assert(self.chunks@[a2].0 != self.chunks@[a1].0);
                    }
                }
                assert(a1 == a2);
                if b1 != b2 {
                    if b1 < b2 {
                        assert(self.chunks@[a1].1.blocks@[b1].0 != self.chunks@[a1].1.blocks@[b2].0);
                    } else {
                        assert(self.chunks@[a1].1.blocks@[b2].0 != self.chunks@[a1].1.blocks@[b1].0);
                    }
                }
                assert(src[k1] == src[k2]);
            }
        }
        assert forall|g: (int, int, int)|
            (#[trigger] self.block_at(g) matches Some(bl) && bl.blocktype == t) implies exists|k: int|
                0 <= k < out.len() && position_key(out[k].position) == g by {
            let ck = chunk_of_global(g, c);
            let lk = local_of_global(g, c);
            let a = choose|a: int| 0 <= a < self.chunks@.len() && chunk_key(self.chunks@[a].0) == ck;
            assert(self.chunks@[a].1.wf());
            let chunk = self.chunks@[a].1;
            assert(chunk.contents@.contains_key(lk));
            let b = choose|b: int| 0 <= b < chunk.blocks@.len() && local_key(chunk.blocks@[b].0) == lk;
            assert(chunk.blocks@[b].1.blocktype == t);
            let k = choose|k: int| 0 <= k < src.len() && src[k] == (a, b);
            assert(instance_from(*self, t, src[k], out[k]));
            lemma_div_mod_parts(g.0, c);
            lemma_div_mod_parts(g.1, c);
            lemma_div_mod_parts(g.2, c);
            assert(position_key(out[k].position) == g);
        }
    }

}

/// Read-only occupancy queries on voxels by global address, so that a walk
/// over the grid does not depend on how the voxels are stored.
pub trait VoxelLookup {
    /// The lookup is in a state in which it can answer.
    spec fn lookup_ready(&self) -> bool;

    /// Whether the voxel at global address `g` is occupied.
    spec fn spec_occupied(&self, g: (int, int, int)) -> bool;

    /// Whether the voxel at global address `(x, y, z)` is occupied.
    fn occupied(&self, x: i64, y: i64, z: i64) -> (r: bool)
        requires
            self.lookup_ready(),
        ensures
            r == self.spec_occupied((x as int, y as int, z as int)),
    ;
}

impl VoxelLookup for World {
    open spec fn lookup_ready(&self) -> bool {
        self.wf()
    }

    open spec fn spec_occupied(&self, g: (int, int, int)) -> bool {
        self.block_at(g) is Some
    }

    fn occupied(&self, x: i64, y: i64, z: i64) -> (r: bool) {
        self.is_occupied(x, y, z)
    }
}

/// Every address whose chunk was never inserted is empty.
pub proof fn lemma_absent_chunk_is_empty(world: World, g: (int, int, int))
    requires
        !world@.contains_key(chunk_of_global(g, world.spec_chunk_size())),
    ensures
        world.block_at(g) is None,
{
}

} // verus!
