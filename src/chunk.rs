//! Chunk volumes, the block opacity registry and the face-visibility rule.

use vstd::prelude::*;

verus! {

/// Identifies a voxel's block type; `0` is the empty placeholder.
pub type BlockId = u16;

/// A dense cube of values indexed `[x][y][z]`.
pub type Volume<T> = Seq<Seq<Seq<T>>>;

/// Largest accepted chunk side length. It keeps a chunk's `n * n` fragment
/// count and its `n * n * n` voxels well inside `usize` on 32-bit targets as
/// on 64-bit ones, and every coordinate next to a chunk inside `i64`.
pub const MAX_CHUNK_SIZE: usize = 256;

/// The visibility mask every voxel starts with: all direction bits set.
pub const FULL_MASK: u8 = 0xFF;

/// Integer coordinate of a chunk in the world grid.
#[derive(Clone, Copy, Debug, PartialEq, Eq, Structural, Hash)]
pub struct ChunkPos {
    pub x: i64,
    pub y: i64,
    pub z: i64,
}

/// Opacity of each block id; ids beyond the table count as non-opaque.
pub struct BlockRegistry {
    pub opaque: Vec<bool>,
}

pub open spec fn opaque_in(reg: Seq<bool>, id: BlockId) -> bool {
    (id as int) < reg.len() && reg[id as int]
}

impl BlockRegistry {
    pub fn new(opaque: Vec<bool>) -> (r: Self)
        ensures
            r.opaque@ == opaque@,
    {
        BlockRegistry { opaque }
    }

    pub fn is_opaque(&self, id: BlockId) -> (r: bool)
        ensures
            r == opaque_in(self.opaque@, id),
    {
        let i = id as usize;
        i < self.opaque.len() && self.opaque[i]
    }
}

/// A chunk's blocks and its visibility masks, both `[x][y][z]` cubes.
pub struct ChunkData {
    pub blocks: Vec<Vec<Vec<BlockId>>>,
    pub sides: Vec<Vec<Vec<u8>>>,
}

/// `v` is a cube of side `n`.
pub open spec fn is_cube<T>(v: Volume<T>, n: nat) -> bool {
    &&& v.len() == n
    &&& forall|i: int| 0 <= i < n ==> #[trigger] v[i].len() == n
    &&& forall|i: int, j: int| 0 <= i < n && 0 <= j < n ==> #[trigger] v[i][j].len() == n
}

/// A cube of side `n` holding `x` everywhere.
pub open spec fn uniform<T>(n: nat, x: T) -> Volume<T> {
    Seq::new(n, |i: int| Seq::new(n, |j: int| Seq::new(n, |k: int| x)))
}

/// `v` with the column at `(a, b)` replaced by `col`.
pub open spec fn write_column<T>(v: Volume<T>, a: int, b: int, col: Seq<T>) -> Volume<T> {
    v.update(a, v[a].update(b, col))
}

impl ChunkData {
    pub open spec fn blocks_view(&self) -> Volume<BlockId> {
        self.blocks.deep_view()
    }

    pub open spec fn sides_view(&self) -> Volume<u8> {
        self.sides.deep_view()
    }

    pub open spec fn wf(&self, n: nat) -> bool {
        is_cube(self.blocks_view(), n) && is_cube(self.sides_view(), n)
    }

    /// An empty chunk: every block `0`, every mask fully set.
    pub fn fresh(n: usize) -> (r: Self)
        ensures
            r.blocks_view() == uniform(n as nat, 0u16),
            r.sides_view() == uniform(n as nat, FULL_MASK),
            r.wf(n as nat),
    {
        let blocks = filled_cube(n, 0u16);
        let sides = filled_cube(n, FULL_MASK);
        assert(0u16.deep_view() == 0u16);
        assert(FULL_MASK.deep_view() == FULL_MASK);
        ChunkData { blocks, sides }
    }

    /// Stores `col` as the column at `(a, b)`.
    pub fn set_column(&mut self, n: usize, a: usize, b: usize, col: Vec<BlockId>)
        requires
            old(self).wf(n as nat),
            a < n,
            b < n,
            col@.len() == n,
        ensures
            final(self).blocks_view() == write_column(old(self).blocks_view(), a as int, b as int, col@),
            final(self).sides == old(self).sides,
            final(self).wf(n as nat),
    {
        let ghost before = self.blocks_view();
        assert(before[a as int].len() == n);
        let mut row: Vec<Vec<BlockId>> = Vec::new();
        self.blocks.set_and_swap(a, &mut row);
        assert(row.deep_view() == before[a as int]);
        assert(row@.len() == n);
        row.set(b, col);
        self.blocks.set(a, row);
        assert(col.deep_view() =~= col@);
        assert(self.blocks_view() =~~= write_column(before, a as int, b as int, col@));
        assert forall|i: int| 0 <= i < n implies #[trigger] self.blocks_view()[i].len() == n by {}
        assert forall|i: int, j: int| 0 <= i < n && 0 <= j < n implies
            #[trigger] self.blocks_view()[i][j].len() == n by {
            if i != a {
                assert(self.blocks_view()[i] == before[i]);
            }
        }
    }
}

fn filled_column<T: Copy + DeepView>(n: usize, x: T) -> (r: Vec<T>)
    ensures
        r@ == Seq::new(n as nat, |k: int| x),
        r.deep_view() == Seq::new(n as nat, |k: int| x.deep_view()),
{
    let mut col: Vec<T> = Vec::new();
    let mut k: usize = 0;
    while k < n
        invariant
            k <= n,
            col@ == Seq::new(k as nat, |q: int| x),
        decreases n - k,
    {
        col.push(x);
        k = k + 1;
        assert(col@ =~= Seq::new(k as nat, |q: int| x));
    }
    assert(col.deep_view() =~= Seq::new(n as nat, |q: int| x.deep_view()));
    col
}

fn filled_cube<T: Copy + DeepView>(n: usize, x: T) -> (r: Vec<Vec<Vec<T>>>)
    ensures
        r.deep_view() == uniform(n as nat, x.deep_view()),
        is_cube(r.deep_view(), n as nat),
{
    let mut cube: Vec<Vec<Vec<T>>> = Vec::new();
    let mut i: usize = 0;
    while i < n
        invariant
            i <= n,
            cube@.len() == i,
            cube.deep_view() == Seq::new(i as nat, |p: int| Seq::new(n as nat, |j: int| Seq::new(n as nat, |k: int| x.deep_view()))),
        decreases n - i,
    {
        let mut plane: Vec<Vec<T>> = Vec::new();
        let mut j: usize = 0;
        while j < n
            invariant
                j <= n,
                plane@.len() == j,
                plane.deep_view() == Seq::new(j as nat, |q: int| Seq::new(n as nat, |k: int| x.deep_view())),
            decreases n - j,
        {
            let col = filled_column(n, x);
            let ghost prev = plane;
            plane.push(col);
            assert forall|q: int| 0 <= q < j implies #[trigger] plane.deep_view()[q] == prev.deep_view()[q] by {
                assert(plane@[q] == prev@[q]);
            }
            j = j + 1;
            assert(plane.deep_view() =~~= Seq::new(j as nat, |q: int| Seq::new(n as nat, |k: int| x.deep_view())));
        }
        let ghost prev = cube;
        cube.push(plane);
        assert forall|q: int| 0 <= q < i implies #[trigger] cube.deep_view()[q] == prev.deep_view()[q] by {
            assert(cube@[q] == prev@[q]);
        }
        i = i + 1;
        assert(cube.deep_view() =~~= Seq::new(i as nat, |p: int| Seq::new(n as nat, |j: int| Seq::new(n as nat, |k: int| x.deep_view()))));
    }
    assert(cube.deep_view() =~~= uniform(n as nat, x.deep_view()));
    cube
}

/// Offset `(dx, dy, dz)` of direction `s`; the visibility bit of direction `s`
/// is bit `s` of a mask.
pub open spec fn offset(s: int) -> (int, int, int) {
    if s == 0 {
        (0, 0, -1)
    } else if s == 1 {
        (0, 0, 1)
    } else if s == 2 {
        (1, 0, 0)
    } else if s == 3 {
        (-1, 0, 0)
    } else if s == 4 {
        (0, 1, 0)
    } else {
        (0, -1, 0)
    }
}

/// Number of axis directions.
pub const DIRECTIONS: usize = 6;

pub fn direction_offset(s: usize) -> (r: (i64, i64, i64))
    requires
        s < DIRECTIONS,
    ensures
        r.0 as int == offset(s as int).0,
        r.1 as int == offset(s as int).1,
        r.2 as int == offset(s as int).2,
{
    if s == 0 {
        (0, 0, -1)
    } else if s == 1 {
        (0, 0, 1)
    } else if s == 2 {
        (1, 0, 0)
    } else if s == 3 {
        (-1, 0, 0)
    } else if s == 4 {
        (0, 1, 0)
    } else {
        (0, -1, 0)
    }
}

pub open spec fn inside(n: int, x: int) -> bool {
    0 <= x < n
}

/// Index across a chunk boundary: `-1` is the far layer of the previous
/// chunk, `n` the near layer of the next one.
pub open spec fn wrap(n: int, x: int) -> int {
    if x < 0 {
        x + n
    } else if x >= n {
        x - n
    } else {
        x
    }
}

/// The block that voxel `(i, j, k)` faces in direction `s`: inside its own
/// chunk where the step stays in bounds, else in the neighbour chunk of
/// direction `s` (`nbs[s]`).
pub open spec fn facing_block(
    n: int,
    own: Volume<BlockId>,
    nbs: Seq<Volume<BlockId>>,
    i: int,
    j: int,
    k: int,
    s: int,
) -> BlockId {
    let x = i + offset(s).0;
    let y = j + offset(s).1;
    let z = k + offset(s).2;
    if inside(n, x) && inside(n, y) && inside(n, z) {
        own[x][y][z]
    } else {
        nbs[s][wrap(n, x)][wrap(n, y)][wrap(n, z)]
    }
}

/// The mask `m` after the toggles of directions `0 .. upto`: the bit of a
/// direction is flipped when the block faced that way is not opaque.
pub open spec fn toggled_mask(
    m: u8,
    upto: nat,
    n: int,
    own: Volume<BlockId>,
    nbs: Seq<Volume<BlockId>>,
    reg: Seq<bool>,
    i: int,
    j: int,
    k: int,
) -> u8
    decreases upto,
{
    if upto == 0 {
        m
    } else {
        let prev = toggled_mask(m, (upto - 1) as nat, n, own, nbs, reg, i, j, k);
        if !opaque_in(reg, facing_block(n, own, nbs, i, j, k, upto - 1)) {
            prev ^ (1u8 << ((upto - 1) as u8))
        } else {
            prev
        }
    }
}

/// The visibility masks of a chunk with blocks `own` and masks `sides`,
/// whose neighbours in the six directions hold `nbs`.
pub open spec fn occluded(
    n: nat,
    own: Volume<BlockId>,
    sides: Volume<u8>,
    nbs: Seq<Volume<BlockId>>,
    reg: Seq<bool>,
) -> Volume<u8> {
    Seq::new(
        n,
        |i: int|
            Seq::new(
                n,
                |j: int|
                    Seq::new(
                        n,
                        |k: int| toggled_mask(sides[i][j][k], 6, n as int, own, nbs, reg, i, j, k),
                    ),
            ),
    )
}

/// The block volumes of the neighbour chunks, by direction.
pub open spec fn neighbour_blocks(nbs: Seq<&ChunkData>) -> Seq<Volume<BlockId>> {
    Seq::new(nbs.len(), |s: int| nbs[s].blocks_view())
}

fn facing(
    n: usize,
    own: &Vec<Vec<Vec<BlockId>>>,
    nbs: &Vec<&ChunkData>,
    i: usize,
    j: usize,
    k: usize,
    s: usize,
) -> (r: BlockId)
    requires
        1 <= n <= MAX_CHUNK_SIZE,
        i < n,
        j < n,
        k < n,
        s < DIRECTIONS,
        is_cube(own.deep_view(), n as nat),
        nbs@.len() == DIRECTIONS,
        forall|t: int| 0 <= t < DIRECTIONS ==> (#[trigger] nbs@[t]).wf(n as nat),
    ensures
        r == facing_block(n as int, own.deep_view(), neighbour_blocks(nbs@), i as int, j as int, k as int, s as int),
{
    let d = direction_offset(s);
    let size = n as i64;
    let x = i as i64 + d.0;
    let y = j as i64 + d.1;
    let z = k as i64 + d.2;
    if 0 <= x && x < size && 0 <= y && y < size && 0 <= z && z < size {
        assert(own.deep_view()[x as int].len() == n);
        assert(own.deep_view()[x as int][y as int].len() == n);
        own[x as usize][y as usize][z as usize]
    } else {
        let wx = if x < 0 { x + size } else if x >= size { x - size } else { x };
        let wy = if y < 0 { y + size } else if y >= size { y - size } else { y };
        let wz = if z < 0 { z + size } else if z >= size { z - size } else { z };
        let nb = nbs[s];
        assert(nb.wf(n as nat));
        assert(nb.blocks_view()[wx as int].len() == n);
        assert(nb.blocks_view()[wx as int][wy as int].len() == n);
        nb.blocks[wx as usize][wy as usize][wz as usize]
    }
}

/// Bit `t` of mask `m` is set.
pub open spec fn bit_set(m: u8, t: int) -> bool {
    (m >> (t as u8)) & 1u8 == 1u8
}

/// The step from `(i, j, k)` in direction `s` stays inside the chunk.
pub open spec fn steps_inside(n: int, i: int, j: int, k: int, s: int) -> bool {
    inside(n, i + offset(s).0) && inside(n, j + offset(s).1) && inside(n, k + offset(s).2)
}

proof fn lemma_flip_bit(m: u8, s: u8, t: u8)
    requires
        s < 8,
        t < 8,
    ensures
        (((m ^ (1u8 << s)) >> t) & 1u8 == 1u8) == (if s == t { (m >> t) & 1u8 != 1u8 } else { (m >> t) & 1u8 == 1u8 }),
{
    assert((((m ^ (1u8 << s)) >> t) & 1u8 == 1u8) == (if s == t { (m >> t) & 1u8 != 1u8 } else { (m >> t) & 1u8 == 1u8 })) by (bit_vector)
        requires
            s < 8,
            t < 8,
    ;
}

proof fn lemma_full_mask_bits(t: u8)
    requires
        t < 8,
    ensures
        (0xFFu8 >> t) & 1u8 == 1u8,
{
    assert((0xFFu8 >> t) & 1u8 == 1u8) by (bit_vector)
        requires
            t < 8,
    ;
}

/// After the toggles of directions `0 .. upto`, bit `t` of the mask differs
/// from its start exactly when `t < upto` and the block faced in direction
/// `t` is not opaque.
pub proof fn lemma_toggled_bits(
    m: u8,
    upto: nat,
    n: int,
    own: Volume<BlockId>,
    nbs: Seq<Volume<BlockId>>,
    reg: Seq<bool>,
    i: int,
    j: int,
    k: int,
    t: int,
)
    requires
        upto <= 6,
        0 <= t < 8,
    ensures
        bit_set(toggled_mask(m, upto, n, own, nbs, reg, i, j, k), t) == (bit_set(m, t) != (t < upto
            && !opaque_in(reg, facing_block(n, own, nbs, i, j, k, t)))),
    decreases upto,
{
    if upto > 0 {
        let u = (upto - 1) as nat;
        lemma_toggled_bits(m, u, n, own, nbs, reg, i, j, k, t);
        let prev = toggled_mask(m, u, n, own, nbs, reg, i, j, k);
        lemma_flip_bit(prev, u as u8, t as u8);
        let cur = toggled_mask(m, upto, n, own, nbs, reg, i, j, k);
        if !opaque_in(reg, facing_block(n, own, nbs, i, j, k, u as int)) {
            assert(cur == prev ^ (1u8 << (u as u8)));
        } else {
            assert(cur == prev);
        }
    }
}

/// A chunk made of one opaque block type, whose six neighbours are all made
/// of one non-opaque type, ends with each bit that faces out of the chunk
/// cleared and each bit that faces another voxel of the chunk still set.
pub proof fn lemma_toggle_semantics(
    n: nat,
    own: Volume<BlockId>,
    nbs: Seq<Volume<BlockId>>,
    reg: Seq<bool>,
    solid: BlockId,
    clear: BlockId,
)
    requires
        own == uniform(n, solid),
        nbs.len() == 6,
        forall|s: int| 0 <= s < 6 ==> #[trigger] nbs[s] == uniform(n, clear),
        opaque_in(reg, solid),
        !opaque_in(reg, clear),
    ensures
        forall|i: int, j: int, k: int, s: int|
            0 <= i < n && 0 <= j < n && 0 <= k < n && 0 <= s < 6 ==> #[trigger] bit_set(
                occluded(n, own, uniform(n, FULL_MASK), nbs, reg)[i][j][k],
                s,
            ) == steps_inside(n as int, i, j, k, s),
{
    assert forall|i: int, j: int, k: int, s: int|
        0 <= i < n && 0 <= j < n && 0 <= k < n && 0 <= s < 6 implies #[trigger] bit_set(
            occluded(n, own, uniform(n, FULL_MASK), nbs, reg)[i][j][k],
            s,
        ) == steps_inside(n as int, i, j, k, s) by {
        lemma_toggled_bits(FULL_MASK, 6, n as int, own, nbs, reg, i, j, k, s);
        lemma_full_mask_bits(s as u8);
        let x = i + offset(s).0;
        let y = j + offset(s).1;
        let z = k + offset(s).2;
        if !steps_inside(n as int, i, j, k, s) {
            assert(nbs[s] == uniform(n, clear));
            assert(0 <= wrap(n as int, x) < n);
            assert(0 <= wrap(n as int, y) < n);
            assert(0 <= wrap(n as int, z) < n);
        }
    }
}

/// The mask of voxel `(i, j, k)`, starting from `start`.
fn voxel_mask(
    n: usize,
    own: &Vec<Vec<Vec<BlockId>>>,
    nbs: &Vec<&ChunkData>,
    reg: &BlockRegistry,
    i: usize,
    j: usize,
    k: usize,
    start: u8,
) -> (r: u8)
    requires
        1 <= n <= MAX_CHUNK_SIZE,
        i < n,
        j < n,
        k < n,
        is_cube(own.deep_view(), n as nat),
        nbs@.len() == DIRECTIONS,
        forall|t: int| 0 <= t < DIRECTIONS ==> (#[trigger] nbs@[t]).wf(n as nat),
    ensures
        r == toggled_mask(start, 6, n as int, own.deep_view(), neighbour_blocks(nbs@), reg.opaque@, i as int, j as int, k as int),
{
    let mut m = start;
    let mut s: usize = 0;
    while s < DIRECTIONS
        invariant
            s <= DIRECTIONS,
            1 <= n <= MAX_CHUNK_SIZE,
            i < n,
            j < n,
            k < n,
            is_cube(own.deep_view(), n as nat),
            nbs@.len() == DIRECTIONS,
            forall|t: int| 0 <= t < DIRECTIONS ==> (#[trigger] nbs@[t]).wf(n as nat),
            m == toggled_mask(start, s as nat, n as int, own.deep_view(), neighbour_blocks(nbs@), reg.opaque@, i as int, j as int, k as int),
        decreases DIRECTIONS - s,
    {
        let b = facing(n, own, nbs, i, j, k, s);
        if !reg.is_opaque(b) {
            m = m ^ (1u8 << (s as u8));
        }
        s = s + 1;
    }
    m
}

/// Computes the visibility masks of a chunk from its blocks, its current
/// masks and its six neighbours' blocks.
pub fn occlude(
    n: usize,
    own: &Vec<Vec<Vec<BlockId>>>,
    sides: &Vec<Vec<Vec<u8>>>,
    nbs: &Vec<&ChunkData>,
    reg: &BlockRegistry,
) -> (r: Vec<Vec<Vec<u8>>>)
    requires
        1 <= n <= MAX_CHUNK_SIZE,
        is_cube(own.deep_view(), n as nat),
        is_cube(sides.deep_view(), n as nat),
        nbs@.len() == DIRECTIONS,
        forall|t: int| 0 <= t < DIRECTIONS ==> (#[trigger] nbs@[t]).wf(n as nat),
    ensures
        r.deep_view() == occluded(n as nat, own.deep_view(), sides.deep_view(), neighbour_blocks(nbs@), reg.opaque@),
        is_cube(r.deep_view(), n as nat),
{
    let ghost target = occluded(n as nat, own.deep_view(), sides.deep_view(), neighbour_blocks(nbs@), reg.opaque@);
    let mut cube: Vec<Vec<Vec<u8>>> = Vec::new();
    let mut i: usize = 0;
    while i < n
        invariant
            i <= n,
            1 <= n <= MAX_CHUNK_SIZE,
            is_cube(own.deep_view(), n as nat),
            is_cube(sides.deep_view(), n as nat),
            nbs@.len() == DIRECTIONS,
            forall|t: int| 0 <= t < DIRECTIONS ==> (#[trigger] nbs@[t]).wf(n as nat),
            target == occluded(n as nat, own.deep_view(), sides.deep_view(), neighbour_blocks(nbs@), reg.opaque@),
            cube@.len() == i,
            forall|p: int| 0 <= p < i ==> #[trigger] cube.deep_view()[p] == target[p],
        decreases n - i,
    {
        let mut plane: Vec<Vec<u8>> = Vec::new();
        let mut j: usize = 0;
        while j < n
            invariant
                i < n,
                j <= n,
                1 <= n <= MAX_CHUNK_SIZE,
                is_cube(own.deep_view(), n as nat),
                is_cube(sides.deep_view(), n as nat),
                nbs@.len() == DIRECTIONS,
                forall|t: int| 0 <= t < DIRECTIONS ==> (#[trigger] nbs@[t]).wf(n as nat),
                target == occluded(n as nat, own.deep_view(), sides.deep_view(), neighbour_blocks(nbs@), reg.opaque@),
                plane@.len() == j,
                forall|q: int| 0 <= q < j ==> #[trigger] plane.deep_view()[q] == target[i as int][q],
            decreases n - j,
        {
            let mut col: Vec<u8> = Vec::new();
            let mut k: usize = 0;
            assert(sides.deep_view()[i as int].len() == n);
            assert(sides.deep_view()[i as int][j as int].len() == n);
            assert(sides@[i as int]@.len() == n);
            assert(sides@[i as int]@[j as int]@.len() == n);
            while k < n
                invariant
                    i < n,
                    j < n,
                    k <= n,
                    1 <= n <= MAX_CHUNK_SIZE,
                    is_cube(own.deep_view(), n as nat),
                    is_cube(sides.deep_view(), n as nat),
                    sides@[i as int]@.len() == n,
                    sides@[i as int]@[j as int]@.len() == n,
                    nbs@.len() == DIRECTIONS,
                    forall|t: int| 0 <= t < DIRECTIONS ==> (#[trigger] nbs@[t]).wf(n as nat),
                    target == occluded(n as nat, own.deep_view(), sides.deep_view(), neighbour_blocks(nbs@), reg.opaque@),
                    col@.len() == k,
                    forall|r: int| 0 <= r < k ==> #[trigger] col@[r] == target[i as int][j as int][r],
                decreases n - k,
            {
                let m = voxel_mask(n, own, nbs, reg, i, j, k, sides[i][j][k]);
                col.push(m);
                k = k + 1;
            }
            assert(col.deep_view() =~~= target[i as int][j as int]);
            let ghost prev = plane;
            plane.push(col);
            assert forall|q: int| 0 <= q < j + 1 implies #[trigger] plane.deep_view()[q] == target[i as int][q] by {
                if q < j {
                    assert(plane@[q] == prev@[q]);
                    assert(prev.deep_view()[q] == target[i as int][q]);
                } else {
                    assert(plane@[q] == col);
                }
            }
            j = j + 1;
        }
        assert(plane.deep_view() =~~= target[i as int]);
        let ghost prev = cube;
        cube.push(plane);
        assert forall|p: int| 0 <= p < i + 1 implies #[trigger] cube.deep_view()[p] == target[p] by {
            if p < i {
                assert(cube@[p] == prev@[p]);
                assert(prev.deep_view()[p] == target[p]);
            } else {
                assert(cube@[p] == plane);
            }
        }
        i = i + 1;
    }
    assert(cube.deep_view() =~~= target);
    cube
}

} // verus!
