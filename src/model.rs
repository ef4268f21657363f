use crate::world::{in_chunk, Block, BlockType, Chunk, World};
use vstd::arithmetic::div_mod::lemma_fundamental_div_mod_converse;
use vstd::prelude::*;

verus! {

/// One drawn copy of the unit cube: the global address of its block and the
/// block's colour (IEEE-754 bit patterns).
#[derive(Clone, Copy, Debug, PartialEq, Eq)]
pub struct Instance {
    pub position: (i64, i64, i64),
    pub color: (u32, u32, u32),
}

/// A corner of the unit cube, in the cube's local `[0, 1]³` space.
#[derive(Clone, Copy, Debug, PartialEq, Eq)]
pub struct ModelVertex {
    pub position: (u8, u8, u8),
}

/// The instances of one block type, with the cube geometry they share.
pub struct Mesh {
    pub blocktype: BlockType,
    pub vertices: Vec<ModelVertex>,
    pub indices: Vec<u16>,
    pub instances: Vec<Instance>,
}

/// The world together with the render batches derived from it.
pub struct Model {
    pub meshes: Vec<Mesh>,
    pub world: World,
}

/// Position of an instance, as integers.
pub open spec fn position_key(p: (i64, i64, i64)) -> (int, int, int) {
    (p.0 as int, p.1 as int, p.2 as int)
}

/// `s` holds one instance per block of type `t` in `world`, and nothing else:
/// positions are distinct, each instance carries the block found at its
/// position, and every such block has an instance.
pub open spec fn instances_of(world: World, t: BlockType, s: Seq<Instance>) -> bool {
    &&& forall|i: int, j: int|
        0 <= i < j < s.len() ==> s[i].position != s[j].position
    &&& forall|i: int|
        0 <= i < s.len() ==> world.block_at(position_key(#[trigger] s[i].position)) == Some(
            Block { blocktype: t, color: s[i].color },
        )
    &&& forall|g: (int, int, int)|
        (#[trigger] world.block_at(g) matches Some(b) && b.blocktype == t) ==> exists|i: int|
            0 <= i < s.len() && position_key(s[i].position) == g
}

/// The corners of the unit cube, four per face, in the order top, bottom,
/// right, left, front, back; each face wound counter-clockwise seen from outside.
pub open spec fn cube_vertex_positions() -> Seq<(u8, u8, u8)> {
    seq![
        (0, 0, 1), (1, 0, 1), (1, 1, 1), (0, 1, 1),
        (0, 1, 0), (1, 1, 0), (1, 0, 0), (0, 0, 0),
        (1, 0, 0), (1, 1, 0), (1, 1, 1), (1, 0, 1),
        (0, 0, 1), (0, 1, 1), (0, 1, 0), (0, 0, 0),
        (1, 1, 0), (0, 1, 0), (0, 1, 1), (1, 1, 1),
        (1, 0, 1), (0, 0, 1), (0, 0, 0), (1, 0, 0),
    ]
}

/// Two triangles per face of the cube: `(v, v + 1, v + 2)` and `(v + 2, v + 3, v)`
/// for the first corner `v` of each face.
pub open spec fn cube_index_value(i: int) -> int {
    let v = (i / 6) * 4;
    let m = i % 6;
    if m == 0 || m == 5 {
        v
    } else if m == 1 {
        v + 1
    } else if m == 2 || m == 3 {
        v + 2
    } else {
        v + 3
    }
}

/// `batches` are the render batches of `world`: one per block type that has
/// blocks, none empty, each with the unit-cube geometry and exactly the
/// instances of its type.
pub open spec fn batches_of(world: World, batches: Seq<Mesh>) -> bool {
    &&& forall|i: int, j: int|
        0 <= i < j < batches.len() ==> batches[i].blocktype != batches[j].blocktype
    &&& forall|i: int|
        0 <= i < batches.len() ==> {
            &&& (#[trigger] batches[i]).instances@.len() > 0
            &&& instances_of(world, batches[i].blocktype, batches[i].instances@)
            &&& batches[i].vertices@.map_values(|v: ModelVertex| v.position)
                == cube_vertex_positions()
            &&& batches[i].indices@.len() == 36
            &&& forall|k: int|
                0 <= k < 36 ==> batches[i].indices@[k] as int == cube_index_value(k)
        }
    &&& forall|g: (int, int, int)|
        #[trigger] world.block_at(g) is Some ==> exists|i: int|
            0 <= i < batches.len() && batches[i].blocktype == world.block_at(g)->Some_0.blocktype
}

/// What the batches hold of block type `t`: the set of (position, colour)
/// pairs of their instances.
pub open spec fn batch_content(batches: Seq<Mesh>, t: BlockType) -> Set<
    ((int, int, int), (u32, u32, u32)),
> {
    Set::new(
        |pc: ((int, int, int), (u32, u32, u32))|
            exists|i: int, k: int|
                0 <= i < batches.len() && batches[i].blocktype == t && 0 <= k
                    < batches[i].instances@.len() && position_key(
                    batches[i].instances@[k].position,
                ) == pc.0 && batches[i].instances@[k].color == pc.1,
    )
}

/// Building the render batches twice from one unchanged world gives, for every
/// block type, the same (position, colour) content; as instance positions are
/// distinct within a batch, the multisets of instances agree as well.
pub proof fn lemma_batches_idempotent(world: World, b1: Seq<Mesh>, b2: Seq<Mesh>)
    requires
        batches_of(world, b1),
        batches_of(world, b2),
    ensures
        forall|t: BlockType| batch_content(b1, t) == batch_content(b2, t),
{
    assert forall|t: BlockType| batch_content(b1, t) == batch_content(b2, t) by {
        lemma_content_is_world(world, b1, t);
        lemma_content_is_world(world, b2, t);
        assert(batch_content(b1, t) =~= batch_content(b2, t));
    }
}

/// The content of the batches for `t` is exactly the blocks of type `t` of the world.
proof fn lemma_content_is_world(world: World, b: Seq<Mesh>, t: BlockType)
    requires
        batches_of(world, b),
    ensures
        forall|pc: ((int, int, int), (u32, u32, u32))|
            #[trigger] batch_content(b, t).contains(pc) <==> world.block_at(pc.0) == Some(
                Block { blocktype: t, color: pc.1 },
            ),
{
    assert forall|pc: ((int, int, int), (u32, u32, u32))|
        #[trigger] batch_content(b, t).contains(pc) <==> world.block_at(pc.0) == Some(
            Block { blocktype: t, color: pc.1 },
        ) by {
        if batch_content(b, t).contains(pc) {
            let (i, k) = choose|i: int, k: int|
                0 <= i < b.len() && b[i].blocktype == t && 0 <= k < b[i].instances@.len()
                    && position_key(b[i].instances@[k].position) == pc.0
                    && b[i].instances@[k].color == pc.1;
            assert(instances_of(world, b[i].blocktype, b[i].instances@));
            assert(world.block_at(position_key(b[i].instances@[k].position)) == Some(
                Block { blocktype: t, color: b[i].instances@[k].color },
            ));
        }
        if world.block_at(pc.0) == Some(Block { blocktype: t, color: pc.1 }) {
            let i = choose|i: int| 0 <= i < b.len() && b[i].blocktype == t;
            assert(instances_of(world, b[i].blocktype, b[i].instances@));
            let k = choose|k: int|
                0 <= k < b[i].instances@.len() && position_key(b[i].instances@[k].position)
                    == pc.0;
            assert(world.block_at(position_key(b[i].instances@[k].position)) == Some(
                Block { blocktype: t, color: b[i].instances@[k].color },
            ));
            assert(batch_content(b, t).contains(pc));
        }
    }
}

/// Edge length of the chunks of a model's world, in blocks.
pub const CHUNKSIZE: u8 = 3;

/// IEEE-754 bit pattern of `1.0f32`.
pub const ONE_BITS: u32 = 0x3f80_0000;

/// The block that fills a generated chunk: a normal block coloured green.
pub open spec fn generated_block() -> Block {
    Block { blocktype: BlockType::NORMAL, color: (0, ONE_BITS, 0) }
}

/// A vertex at corner `p` of the unit cube.
fn build_vertex(p: (u8, u8, u8)) -> (r: ModelVertex)
    ensures
        r.position == p,
{
    ModelVertex { position: p }
}

/// The 24 corners of the unit cube, four per face.
pub fn create_vertices() -> (r: Vec<ModelVertex>)
    ensures
        r@.map_values(|v: ModelVertex| v.position) == cube_vertex_positions(),
{
    let mut v: Vec<ModelVertex> = Vec::new();
    // top
    v.push(build_vertex((0, 0, 1)));
    v.push(build_vertex((1, 0, 1)));
    v.push(build_vertex((1, 1, 1)));
    v.push(build_vertex((0, 1, 1)));
    // bottom
    v.push(build_vertex((0, 1, 0)));
    v.push(build_vertex((1, 1, 0)));
    v.push(build_vertex((1, 0, 0)));
    v.push(build_vertex((0, 0, 0)));
    // right
    v.push(build_vertex((1, 0, 0)));
    v.push(build_vertex((1, 1, 0)));
    v.push(build_vertex((1, 1, 1)));
    v.push(build_vertex((1, 0, 1)));
    // left
    v.push(build_vertex((0, 0, 1)));
    v.push(build_vertex((0, 1, 1)));
    v.push(build_vertex((0, 1, 0)));
    v.push(build_vertex((0, 0, 0)));
    // front
    v.push(build_vertex((1, 1, 0)));
    v.push(build_vertex((0, 1, 0)));
    v.push(build_vertex((0, 1, 1)));
    v.push(build_vertex((1, 1, 1)));
    // back
    v.push(build_vertex((1, 0, 1)));
    v.push(build_vertex((0, 0, 1)));
    v.push(build_vertex((0, 0, 0)));
    v.push(build_vertex((1, 0, 0)));
    assert(v@.map_values(|v: ModelVertex| v.position) =~= cube_vertex_positions());
    v
}

/// The 36 indices that draw the cube's six faces as two triangles each.
pub fn cube_indices() -> (r: Vec<u16>)
    ensures
        r@.len() == 36,
        forall|k: int| 0 <= k < 36 ==> r@[k] as int == cube_index_value(k),
{
    let mut out: Vec<u16> = Vec::new();
    let mut f: u16 = 0;
    while f < 6
        invariant
            f <= 6,
            out@.len() == 6 * f,
            forall|k: int| 0 <= k < 6 * f ==> out@[k] as int == cube_index_value(k),
        decreases 6 - f,
    {
        let v = f * 4;
        out.push(v);
        out.push(v + 1);
        out.push(v + 2);
        out.push(v + 2);
        out.push(v + 3);
        out.push(v);
        proof {
            assert forall|k: int| 0 <= k < 6 * (f + 1) implies #[trigger] out@[k] as int
                == cube_index_value(k) by {
                if k >= 6 * f {
                    lemma_fundamental_div_mod_converse(k, 6, f as int, k - 6 * f);
                }
            }
        }
        f = f + 1;
    }
    out
}

/// The render batches of `world`: for each block type that has blocks, one
/// batch with the unit-cube geometry and one instance per block of that type.
pub fn build_render_batches(world: &World) -> (r: Vec<Mesh>)
    requires
        world.wf(),
    ensures
        batches_of(*world, r@),
{
    let mut meshes: Vec<Mesh> = Vec::new();
    let instances = world.instances_of_type(BlockType::NORMAL);
    if instances.len() > 0 {
        let mesh = Mesh {
            blocktype: BlockType::NORMAL,
            vertices: create_vertices(),
            indices: cube_indices(),
            instances,
        };
        meshes.push(mesh);
        assert(meshes@[0] == mesh);
    } else {
        assert forall|g: (int, int, int)| #[trigger] world.block_at(g) is Some implies false by {
            let b = world.block_at(g)->Some_0;
            assert(b.blocktype == BlockType::NORMAL);
        }
    }
    meshes
}

impl Model {
    /// A model with an empty world of chunk size `CHUNKSIZE` and no batches.
    pub fn new() -> (r: Model)
        ensures
            r.world.wf(),
            r.world@ == Map::<(int, int, int), Map<(int, int, int), Block>>::empty(),
            r.world.spec_chunk_size() == CHUNKSIZE,
            r.meshes@.len() == 0,
    {
        Model { meshes: Vec::new(), world: World::new(CHUNKSIZE) }
    }

    /// A chunk of the world's size with a green normal block in every cell.
    fn build_random_chunk(&self) -> (r: Chunk)
        requires
            self.world.wf(),
        ensures
            r.wf(),
            r.spec_size() == self.world.spec_chunk_size(),
            forall|l: (int, int, int)| #[trigger]
                r@.contains_key(l) <==> in_chunk(l, self.world.spec_chunk_size()),
            forall|l: (int, int, int)| r@.contains_key(l) ==> #[trigger] r@[l] == generated_block(),
    {
        proof {
            self.world.lemma_wf_facts();
        }
        let block = Block { blocktype: BlockType::NORMAL, color: (0, ONE_BITS, 0) };
        Chunk::filled(self.world.chunk_size(), block)
    }

    /// Generates the world, one filled chunk at the origin, and rebuilds the
    /// render batches from it.
    pub fn load(&mut self)
        requires
            old(self).world.wf(),
        ensures
            final(self).world.wf(),
            final(self).world.spec_chunk_size() == old(self).world.spec_chunk_size(),
            final(self).world@ == old(self).world@.insert(
                (0, 0, 0),
                Map::new(
                    |l: (int, int, int)| in_chunk(l, old(self).world.spec_chunk_size()),
                    |l: (int, int, int)| generated_block(),
                ),
            ),
            batches_of(final(self).world, final(self).meshes@),
    {
        let chunk = self.build_random_chunk();
        let ghost m = chunk@;
        let ok = self.world.insert_chunk((0, 0, 0), chunk);
        proof {
            self.world.lemma_wf_facts();
            assert(m =~= Map::new(
                |l: (int, int, int)| in_chunk(l, old(self).world.spec_chunk_size()),
                |l: (int, int, int)| generated_block(),
            ));
            assert(ok) by (nonlinear_arith)
                requires
                    ok == crate::world::chunk_fits((0, 0, 0), self.world.spec_chunk_size()),
                    0 < self.world.spec_chunk_size() <= 255,
            ;
        }
        self.meshes = build_render_batches(&self.world);
    }
}

} // verus!
