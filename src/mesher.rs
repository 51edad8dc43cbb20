//! The meshing worker's state and its decisions: message handling, the
//! readiness gate and the meshing pass.

use vstd::prelude::*;
use crate::chunk::{
    occlude, occluded, uniform, write_column, BlockId, BlockRegistry, ChunkData, ChunkPos,
    Volume, DIRECTIONS, FULL_MASK, MAX_CHUNK_SIZE, offset, direction_offset, is_cube,
    neighbour_blocks,
};

verus! {

/// State of one registered chunk.
pub enum ChunkState {
    /// Accumulating fragments; holds the number received so far.
    Received(usize, ChunkData),
    /// Meshed; kept so that neighbours can still read its blocks.
    Meshed(ChunkData),
}

/// What a chunk state stands for.
pub enum StateView {
    Received(nat, Volume<BlockId>, Volume<u8>),
    Meshed(Volume<BlockId>, Volume<u8>),
}

impl StateView {
    pub open spec fn blocks(self) -> Volume<BlockId> {
        match self {
            StateView::Received(_, b, _) => b,
            StateView::Meshed(b, _) => b,
        }
    }

    pub open spec fn sides(self) -> Volume<u8> {
        match self {
            StateView::Received(_, _, s) => s,
            StateView::Meshed(_, s) => s,
        }
    }
}

impl ChunkState {
    pub open spec fn data(&self) -> &ChunkData {
        match self {
            ChunkState::Received(_, d) => d,
            ChunkState::Meshed(d) => d,
        }
    }

    pub open spec fn view(&self) -> StateView {
        match self {
            ChunkState::Received(c, d) => StateView::Received(*c as nat, d.blocks_view(), d.sides_view()),
            ChunkState::Meshed(d) => StateView::Meshed(d.blocks_view(), d.sides_view()),
        }
    }
}

/// An inbound message.
pub enum ToMeshing {
    /// (Re)registers a chunk with fresh, empty contents.
    AllowChunk(ChunkPos),
    /// One column of a chunk: its `(x, y)` index and its blocks along `z`.
    NewChunkFragment(ChunkPos, (usize, usize), Vec<BlockId>),
    /// Forgets a chunk.
    RemoveChunk(ChunkPos),
}

/// A fragment's column index and payload fit a chunk of side `n`.
pub open spec fn message_fits(n: nat, msg: ToMeshing) -> bool {
    match msg {
        ToMeshing::NewChunkFragment(_, f, col) => f.0 < n && f.1 < n && col@.len() == n,
        _ => true,
    }
}

/// `msg` can be handled in map `m`: a fragment for a receiving chunk must fit
/// it; a fragment for any other chunk is never written, so its shape is free.
pub open spec fn acceptable(n: nat, m: Map<ChunkPos, StateView>, msg: ToMeshing) -> bool {
    match msg {
        ToMeshing::NewChunkFragment(p, _, _) => (m.contains_key(p) && m[p] is Received) ==> message_fits(n, msg),
        _ => true,
    }
}

/// The fragment counter after one more fragment (it stops at `usize::MAX`).
pub open spec fn bumped(c: nat) -> nat {
    if c < usize::MAX {
        c + 1
    } else {
        c
    }
}

/// The state of a freshly registered chunk of side `n`.
pub open spec fn fresh_state(n: nat) -> StateView {
    StateView::Received(0, uniform(n, 0u16), uniform(n, FULL_MASK))
}

/// Effect of one message on the chunk map and the drop-warning flag: the new
/// map, the new flag, and whether a warning is due.
pub open spec fn after_message(
    n: nat,
    m: Map<ChunkPos, StateView>,
    dropping: bool,
    msg: ToMeshing,
) -> (Map<ChunkPos, StateView>, bool, bool) {
    match msg {
        ToMeshing::AllowChunk(p) => (m.insert(p, fresh_state(n)), false, false),
        ToMeshing::NewChunkFragment(p, f, col) => {
            if m.contains_key(p) {
                match m[p] {
                    StateView::Received(c, b, s) => (
                        m.insert(p, StateView::Received(bumped(c), write_column(b, f.0 as int, f.1 as int, col@), s)),
                        false,
                        false,
                    ),
                    StateView::Meshed(_, _) => (m, false, false),
                }
            } else {
                (m, true, !dropping)
            }
        },
        ToMeshing::RemoveChunk(p) => (m.remove(p), false, false),
    }
}

/// Exactly `n * n` fragments have been counted in (the count says nothing of
/// which columns they were for; a count past `n * n` never completes).
pub open spec fn fully_received(n: nat, c: nat) -> bool {
    c == n * n
}

/// `s` can feed a neighbour's occlusion: meshed, or fully received.
pub open spec fn settled(n: nat, s: StateView) -> bool {
    match s {
        StateView::Received(c, _, _) => fully_received(n, c),
        StateView::Meshed(_, _) => true,
    }
}

/// The chunk next to `p` in direction `s`, if its coordinate is representable.
pub open spec fn neighbour_pos(p: ChunkPos, s: int) -> Option<ChunkPos> {
    let x = p.x + offset(s).0;
    let y = p.y + offset(s).1;
    let z = p.z + offset(s).2;
    if i64::MIN <= x <= i64::MAX && i64::MIN <= y <= i64::MAX && i64::MIN <= z <= i64::MAX {
        Some(ChunkPos { x: x as i64, y: y as i64, z: z as i64 })
    } else {
        None
    }
}

/// The readiness gate: `p` is fully received and so is every neighbour (or it
/// is meshed already).
pub open spec fn mesh_ready(n: nat, m: Map<ChunkPos, StateView>, p: ChunkPos) -> bool {
    &&& m.contains_key(p)
    &&& m[p] is Received
    &&& fully_received(n, m[p]->Received_0)
    &&& forall|s: int|
        0 <= s < 6 ==> {
            &&& (#[trigger] neighbour_pos(p, s)) is Some
            &&& m.contains_key(neighbour_pos(p, s)->Some_0)
            &&& settled(n, m[neighbour_pos(p, s)->Some_0])
        }
}

/// The blocks of `p`'s six neighbours, by direction.
pub open spec fn neighbour_volumes(m: Map<ChunkPos, StateView>, p: ChunkPos) -> Seq<Volume<BlockId>> {
    Seq::new(6, |s: int| m[neighbour_pos(p, s)->Some_0].blocks())
}

/// The state of `p` once meshed.
pub open spec fn meshed_state(n: nat, m: Map<ChunkPos, StateView>, p: ChunkPos, reg: Seq<bool>) -> StateView {
    StateView::Meshed(
        m[p].blocks(),
        occluded(n, m[p].blocks(), m[p].sides(), neighbour_volumes(m, p), reg),
    )
}

/// Effect of one meshing round: each chunk that `mesh_ready` admits becomes
/// meshed; every other chunk keeps its state.
pub open spec fn after_pass(n: nat, m: Map<ChunkPos, StateView>, reg: Seq<bool>) -> Map<ChunkPos, StateView> {
    Map::new(
        |p: ChunkPos| m.contains_key(p),
        |p: ChunkPos|
            if mesh_ready(n, m, p) {
                meshed_state(n, m, p, reg)
            } else {
                m[p]
            },
    )
}

pub open spec fn unique_keys(s: Seq<(ChunkPos, ChunkState)>) -> bool {
    forall|i: int, j: int| 0 <= i < s.len() && 0 <= j < s.len() && i != j ==> s[i].0 != s[j].0
}

pub open spec fn has_key(s: Seq<(ChunkPos, ChunkState)>, p: ChunkPos) -> bool {
    exists|i: int| 0 <= i < s.len() && s[i].0 == p
}

/// The chunk map that a list of entries with distinct keys stands for.
pub open spec fn map_of(s: Seq<(ChunkPos, ChunkState)>) -> Map<ChunkPos, StateView> {
    Map::new(
        |p: ChunkPos| has_key(s, p),
        |p: ChunkPos| s[choose|i: int| 0 <= i < s.len() && s[i].0 == p].1.view(),
    )
}

proof fn lemma_map_of_at(s: Seq<(ChunkPos, ChunkState)>, i: int)
    requires
        unique_keys(s),
        0 <= i < s.len(),
    ensures
        map_of(s).contains_key(s[i].0),
        map_of(s)[s[i].0] == s[i].1.view(),
{
    assert(has_key(s, s[i].0));
    let j = choose|j: int| 0 <= j < s.len() && s[j].0 == s[i].0;
    assert(j == i);
}

proof fn lemma_map_of_all(s: Seq<(ChunkPos, ChunkState)>)
    requires
        unique_keys(s),
    ensures
        forall|i: int| 0 <= i < s.len() ==> (#[trigger] map_of(s)[s[i].0]) == s[i].1.view() && map_of(s).contains_key(s[i].0),
{
    assert forall|i: int| 0 <= i < s.len() implies (#[trigger] map_of(s)[s[i].0]) == s[i].1.view() && map_of(s).contains_key(s[i].0) by {
        lemma_map_of_at(s, i);
    }
}

/// Two lists with the same keys in the same places, and values given by `f`
/// on the keys, stand for `f` over the first list's domain.
proof fn lemma_map_of_same_keys(
    a: Seq<(ChunkPos, ChunkState)>,
    b: Seq<(ChunkPos, ChunkState)>,
    r: Map<ChunkPos, StateView>,
)
    requires
        unique_keys(a),
        a.len() == b.len(),
        forall|i: int| 0 <= i < a.len() ==> (#[trigger] b[i]).0 == a[i].0,
        forall|p: ChunkPos| r.contains_key(p) <==> has_key(a, p),
        forall|i: int| 0 <= i < a.len() ==> (#[trigger] b[i]).1.view() == r[a[i].0],
    ensures
        unique_keys(b),
        map_of(b) == r,
{
    assert(unique_keys(b)) by {
        assert forall|i: int, j: int| 0 <= i < b.len() && 0 <= j < b.len() && i != j implies b[i].0 != b[j].0 by {
            assert(b[i].0 == a[i].0);
            assert(b[j].0 == a[j].0);
        }
    }
    assert forall|p: ChunkPos| #[trigger] map_of(b).contains_key(p) <==> r.contains_key(p) by {
        if has_key(a, p) {
            let i = choose|i: int| 0 <= i < a.len() && a[i].0 == p;
            assert(b[i].0 == p);
        }
        if has_key(b, p) {
            let i = choose|i: int| 0 <= i < b.len() && b[i].0 == p;
            assert(a[i].0 == p);
        }
    }
    assert forall|p: ChunkPos| #[trigger] r.contains_key(p) implies map_of(b)[p] == r[p] by {
        assert(has_key(a, p));
        let i = choose|i: int| 0 <= i < a.len() && a[i].0 == p;
        assert(b[i].0 == p);
        lemma_map_of_at(b, i);
    }
    assert(map_of(b) =~= r);
}

proof fn lemma_map_of_set(a: Seq<(ChunkPos, ChunkState)>, i: int, st: ChunkState)
    requires
        unique_keys(a),
        0 <= i < a.len(),
    ensures
        unique_keys(a.update(i, (a[i].0, st))),
        map_of(a.update(i, (a[i].0, st))) == map_of(a).insert(a[i].0, st.view()),
{
    let b = a.update(i, (a[i].0, st));
    let r = map_of(a).insert(a[i].0, st.view());
    lemma_map_of_all(a);
    assert forall|p: ChunkPos| r.contains_key(p) <==> has_key(a, p) by {
        if p == a[i].0 {
            assert(has_key(a, p));
        }
    }
    assert forall|q: int| 0 <= q < a.len() implies (#[trigger] b[q]).1.view() == r[a[q].0] by {
        if q != i {
            assert(map_of(a)[a[q].0] == a[q].1.view());
        }
    }
    lemma_map_of_same_keys(a, b, r);
}

proof fn lemma_map_of_push(a: Seq<(ChunkPos, ChunkState)>, p: ChunkPos, st: ChunkState)
    requires
        unique_keys(a),
        !has_key(a, p),
    ensures
        unique_keys(a.push((p, st))),
        map_of(a.push((p, st))) == map_of(a).insert(p, st.view()),
{
    let b = a.push((p, st));
    assert(unique_keys(b)) by {
        assert forall|i: int, j: int| 0 <= i < b.len() && 0 <= j < b.len() && i != j implies b[i].0 != b[j].0 by {
            if i < a.len() && j < a.len() {
                assert(a[i].0 != a[j].0);
            } else if i < a.len() {
                assert(a[i].0 != p);
            } else {
                assert(a[j].0 != p);
            }
        }
    }
    lemma_map_of_all(a);
    lemma_map_of_all(b);
    let r = map_of(a).insert(p, st.view());
    assert forall|x: ChunkPos| #[trigger] map_of(b).contains_key(x) <==> r.contains_key(x) by {
        if has_key(b, x) && x != p {
            let i = choose|i: int| 0 <= i < b.len() && b[i].0 == x;
            assert(a[i].0 == x);
        }
        if has_key(a, x) {
            let i = choose|i: int| 0 <= i < a.len() && a[i].0 == x;
            assert(b[i].0 == x);
        }
        if x == p {
            assert(b[a.len() as int].0 == p);
        }
    }
    assert forall|x: ChunkPos| #[trigger] r.contains_key(x) implies map_of(b)[x] == r[x] by {
        if x == p {
            assert(b[a.len() as int].0 == p);
        } else {
            assert(has_key(a, x));
            let i = choose|i: int| 0 <= i < a.len() && a[i].0 == x;
            assert(b[i] == a[i]);
        }
    }
    assert(map_of(b) =~= r);
}

proof fn lemma_map_of_remove(a: Seq<(ChunkPos, ChunkState)>, i: int)
    requires
        unique_keys(a),
        0 <= i < a.len(),
    ensures
        unique_keys(a.remove(i)),
        map_of(a.remove(i)) == map_of(a).remove(a[i].0),
{
    let b = a.remove(i);
    let p = a[i].0;
    assert(unique_keys(b)) by {
        assert forall|x: int, y: int| 0 <= x < b.len() && 0 <= y < b.len() && x != y implies b[x].0 != b[y].0 by {
            let x1 = if x < i { x } else { x + 1 };
            let y1 = if y < i { y } else { y + 1 };
            assert(b[x] == a[x1]);
            assert(b[y] == a[y1]);
        }
    }
    lemma_map_of_all(a);
    lemma_map_of_all(b);
    let r = map_of(a).remove(p);
    assert forall|x: ChunkPos| #[trigger] map_of(b).contains_key(x) <==> r.contains_key(x) by {
        if has_key(b, x) {
            let y = choose|y: int| 0 <= y < b.len() && b[y].0 == x;
            let y1 = if y < i { y } else { y + 1 };
            assert(b[y] == a[y1]);
            assert(y1 != i);
            assert(has_key(a, x));
        }
        if has_key(a, x) && x != p {
            let y = choose|y: int| 0 <= y < a.len() && a[y].0 == x;
            assert(y != i);
            let y0 = if y < i { y } else { y - 1 };
            assert(b[y0] == a[y]);
        }
    }
    assert forall|x: ChunkPos| #[trigger] r.contains_key(x) implies map_of(b)[x] == r[x] by {
        assert(has_key(a, x));
        let y = choose|y: int| 0 <= y < a.len() && a[y].0 == x;
        assert(y != i);
        let y0 = if y < i { y } else { y - 1 };
        assert(b[y0] == a[y]);
    }
    assert(map_of(b) =~= r);
}

fn data_ref(st: &ChunkState) -> (r: &ChunkData)
    ensures
        r == st.data(),
{
    match st {
        ChunkState::Received(_, d) => d,
        ChunkState::Meshed(d) => d,
    }
}

fn neighbour_of(p: ChunkPos, s: usize) -> (r: Option<ChunkPos>)
    requires
        s < DIRECTIONS,
    ensures
        r == neighbour_pos(p, s as int),
{
    let d = direction_offset(s);
    if (d.0 > 0 && p.x == i64::MAX) || (d.0 < 0 && p.x == i64::MIN) || (d.1 > 0 && p.y == i64::MAX) || (d.1
        < 0 && p.y == i64::MIN) || (d.2 > 0 && p.z == i64::MAX) || (d.2 < 0 && p.z == i64::MIN) {
        None
    } else {
        Some(ChunkPos { x: p.x + d.0, y: p.y + d.1, z: p.z + d.2 })
    }
}

fn neighbour_at(p: ChunkPos, s: usize) -> (r: ChunkPos)
    requires
        s < DIRECTIONS,
        neighbour_pos(p, s as int) is Some,
    ensures
        r == neighbour_pos(p, s as int)->Some_0,
{
    let d = direction_offset(s);
    ChunkPos { x: p.x + d.0, y: p.y + d.1, z: p.z + d.2 }
}

proof fn lemma_square_fits(n: usize)
    requires
        n <= MAX_CHUNK_SIZE,
    ensures
        n * n <= MAX_CHUNK_SIZE * MAX_CHUNK_SIZE,
{
    assert(n * n <= 256 * 256) by (nonlinear_arith)
        requires
            n <= 256,
    ;
}

/// Effect of a sequence of messages, fed in order: the chunk map and the flag.
pub open spec fn after_messages(
    n: nat,
    m: Map<ChunkPos, StateView>,
    dropping: bool,
    msgs: Seq<ToMeshing>,
) -> (Map<ChunkPos, StateView>, bool)
    decreases msgs.len(),
{
    if msgs.len() == 0 {
        (m, dropping)
    } else {
        let prev = after_messages(n, m, dropping, msgs.drop_last());
        let r = after_message(n, prev.0, prev.1, msgs.last());
        (r.0, r.1)
    }
}

/// Number of warnings raised while feeding `msgs` in order.
pub open spec fn warnings(n: nat, m: Map<ChunkPos, StateView>, dropping: bool, msgs: Seq<ToMeshing>) -> nat
    decreases msgs.len(),
{
    if msgs.len() == 0 {
        0
    } else {
        let prev = after_messages(n, m, dropping, msgs.drop_last());
        warnings(n, m, dropping, msgs.drop_last()) + if after_message(n, prev.0, prev.1, msgs.last()).2 {
            1nat
        } else {
            0nat
        }
    }
}

/// `msg` is a fragment for `p` that fits a chunk of side `n`.
pub open spec fn fragment_for(n: nat, p: ChunkPos, msg: ToMeshing) -> bool {
    &&& msg is NewChunkFragment
    &&& msg->NewChunkFragment_0 == p
    &&& message_fits(n, msg)
}

pub open spec fn column_index(msg: ToMeshing) -> (usize, usize) {
    msg->NewChunkFragment_1
}

/// No two fragments of `f` are for the same column.
pub open spec fn distinct_columns(f: Seq<ToMeshing>) -> bool {
    forall|i: int, j: int| 0 <= i < f.len() && 0 <= j < f.len() && i != j ==> column_index(f[i]) != column_index(f[j])
}

/// The blocks `v` once the columns of `f` are written in order.
pub open spec fn filled(v: Volume<BlockId>, f: Seq<ToMeshing>) -> Volume<BlockId>
    decreases f.len(),
{
    if f.len() == 0 {
        v
    } else {
        let msg = f.last();
        write_column(filled(v, f.drop_last()), column_index(msg).0 as int, column_index(msg).1 as int, msg->NewChunkFragment_2@)
    }
}

/// The counter `c` after `k` more fragments.
pub open spec fn bumped_by(c: nat, k: nat) -> nat
    decreases k,
{
    if k == 0 {
        c
    } else {
        bumped(bumped_by(c, (k - 1) as nat))
    }
}

/// Fragments for a receiving chunk write their columns in order and raise
/// its counter once each, whether or not a column repeats: a repeat counts
/// toward completion like a new column.
pub proof fn lemma_fragments_effect(
    n: nat,
    m: Map<ChunkPos, StateView>,
    dropping: bool,
    p: ChunkPos,
    f: Seq<ToMeshing>,
)
    requires
        m.contains_key(p),
        m[p] is Received,
        forall|i: int| 0 <= i < f.len() ==> fragment_for(n, p, #[trigger] f[i]),
    ensures
        after_messages(n, m, dropping, f).0 == m.insert(
            p,
            StateView::Received(
                bumped_by(m[p]->Received_0, f.len()),
                filled(m[p].blocks(), f),
                m[p].sides(),
            ),
        ),
    decreases f.len(),
{
    if f.len() == 0 {
        assert(m.insert(p, m[p]) =~= m);
    } else {
        let g = f.drop_last();
        assert forall|i: int| 0 <= i < g.len() implies fragment_for(n, p, #[trigger] g[i]) by {
            assert(g[i] == f[i]);
        }
        lemma_fragments_effect(n, m, dropping, p, g);
        assert(fragment_for(n, p, f[f.len() - 1]));
        let prev = after_messages(n, m, dropping, g);
        assert(prev.0.insert(p, StateView::Received(
                bumped_by(m[p]->Received_0, f.len()),
                filled(m[p].blocks(), f),
                m[p].sides(),
            )) =~= m.insert(
            p,
            StateView::Received(
                bumped_by(m[p]->Received_0, f.len()),
                filled(m[p].blocks(), f),
                m[p].sides(),
            ),
        ));
    }
}

/// Writing fragments for distinct columns keeps the volume a cube, puts each
/// fragment's payload at its column, and leaves every other column as it was.
pub proof fn lemma_filled_columns(n: nat, v: Volume<BlockId>, f: Seq<ToMeshing>, p: ChunkPos)
    requires
        is_cube(v, n),
        distinct_columns(f),
        forall|i: int| 0 <= i < f.len() ==> fragment_for(n, p, #[trigger] f[i]),
    ensures
        is_cube(filled(v, f), n),
        forall|i: int|
            0 <= i < f.len() ==> filled(v, f)[column_index(#[trigger] f[i]).0 as int][column_index(f[i]).1 as int]
                == f[i]->NewChunkFragment_2@,
        forall|a: int, b: int|
            0 <= a < n && 0 <= b < n && (forall|i: int| 0 <= i < f.len() ==> !(column_index(#[trigger] f[i]).0 == a && column_index(f[i]).1 == b))
                ==> #[trigger] filled(v, f)[a][b] == v[a][b],
    decreases f.len(),
{
    if f.len() > 0 {
        let g = f.drop_last();
        assert forall|i: int| 0 <= i < g.len() implies fragment_for(n, p, #[trigger] g[i]) by {
            assert(g[i] == f[i]);
        }
        assert(distinct_columns(g)) by {
            assert forall|i: int, j: int| 0 <= i < g.len() && 0 <= j < g.len() && i != j implies column_index(g[i]) != column_index(g[j]) by {
                assert(g[i] == f[i]);
                assert(g[j] == f[j]);
            }
        }
        lemma_filled_columns(n, v, g, p);
        let last = f.last();
        assert(fragment_for(n, p, f[f.len() - 1]));
        let w = filled(v, g);
        let r = filled(v, f);
        let (ca, cb) = column_index(last);
        assert(r == write_column(w, ca as int, cb as int, last->NewChunkFragment_2@));
        assert forall|a: int| 0 <= a < n implies #[trigger] r[a].len() == n by {
            assert(w[a].len() == n);
        }
        assert forall|a: int, b: int| 0 <= a < n && 0 <= b < n implies #[trigger] r[a][b].len() == n by {
            assert(w[a].len() == n);
            assert(w[a][b].len() == n);
        }
        assert forall|i: int| 0 <= i < f.len() implies r[column_index(#[trigger] f[i]).0 as int][column_index(f[i]).1 as int]
                == f[i]->NewChunkFragment_2@ by {
            if i < f.len() - 1 {
                assert(g[i] == f[i]);
                assert(column_index(f[i]) != column_index(f[f.len() - 1]));
                assert(w[column_index(g[i]).0 as int].len() == n);
            }
        }
        assert forall|a: int, b: int|
            0 <= a < n && 0 <= b < n && (forall|i: int| 0 <= i < f.len() ==> !(column_index(#[trigger] f[i]).0 == a && column_index(f[i]).1 == b))
                implies #[trigger] r[a][b] == v[a][b] by {
            assert(!(column_index(f[f.len() - 1]).0 == a && column_index(f[f.len() - 1]).1 == b));
            assert forall|i: int| 0 <= i < g.len() implies !(column_index(#[trigger] g[i]).0 == a && column_index(g[i]).1 == b) by {
                assert(g[i] == f[i]);
            }
            assert(w[a].len() == n);
        }
    }
}

/// Fragments for distinct columns of a receiving chunk give the same state
/// whatever order they come in: the count rises by one per fragment, each
/// fragment's payload stands at its column, the other columns and the masks
/// are kept.
pub proof fn lemma_assembly_order_free(
    n: nat,
    m: Map<ChunkPos, StateView>,
    dropping: bool,
    p: ChunkPos,
    f: Seq<ToMeshing>,
    g: Seq<ToMeshing>,
)
    requires
        m.contains_key(p),
        m[p] is Received,
        is_cube(m[p].blocks(), n),
        forall|i: int| 0 <= i < f.len() ==> fragment_for(n, p, #[trigger] f[i]),
        distinct_columns(f),
        distinct_columns(g),
        f.len() == g.len(),
        forall|x: ToMeshing| f.contains(x) <==> g.contains(x),
    ensures
        after_messages(n, m, dropping, f).0 == after_messages(n, m, dropping, g).0,
        after_messages(n, m, dropping, f).0 == m.insert(
            p,
            StateView::Received(bumped_by(m[p]->Received_0, f.len()), filled(m[p].blocks(), f), m[p].sides()),
        ),
        m[p]->Received_0 + f.len() <= usize::MAX ==> bumped_by(m[p]->Received_0, f.len()) == m[p]->Received_0 + f.len(),
        is_cube(filled(m[p].blocks(), f), n),
        forall|i: int|
            0 <= i < f.len() ==> filled(m[p].blocks(), f)[column_index(#[trigger] f[i]).0 as int][column_index(f[i]).1 as int]
                == f[i]->NewChunkFragment_2@,
        forall|a: int, b: int|
            0 <= a < n && 0 <= b < n && (forall|i: int| 0 <= i < f.len() ==> !(column_index(#[trigger] f[i]).0 == a && column_index(f[i]).1 == b))
                ==> #[trigger] filled(m[p].blocks(), f)[a][b] == m[p].blocks()[a][b],
{
    if m[p]->Received_0 + f.len() <= usize::MAX {
        lemma_bumped_by(m[p]->Received_0, f.len());
    }
    assert forall|j: int| 0 <= j < g.len() implies fragment_for(n, p, #[trigger] g[j]) by {
        assert(g.contains(g[j]));
        let i = choose|i: int| 0 <= i < f.len() && f[i] == g[j];
    }
    lemma_fragments_effect(n, m, dropping, p, f);
    lemma_fragments_effect(n, m, dropping, p, g);
    let v = m[p].blocks();
    lemma_filled_columns(n, v, f, p);
    lemma_filled_columns(n, v, g, p);
    let vf = filled(v, f);
    let vg = filled(v, g);
    assert forall|a: int, b: int| 0 <= a < n && 0 <= b < n implies #[trigger] vf[a][b] == vg[a][b] by {
        if exists|i: int| 0 <= i < f.len() && column_index(f[i]).0 == a && column_index(f[i]).1 == b {
            let i = choose|i: int| 0 <= i < f.len() && column_index(f[i]).0 == a && column_index(f[i]).1 == b;
            assert(f.contains(f[i]));
            assert(g.contains(f[i]));
            let j = choose|j: int| 0 <= j < g.len() && g[j] == f[i];
            assert(vf[column_index(f[i]).0 as int][column_index(f[i]).1 as int] == f[i]->NewChunkFragment_2@);
            assert(vg[column_index(g[j]).0 as int][column_index(g[j]).1 as int] == g[j]->NewChunkFragment_2@);
        } else {
            assert forall|j: int| 0 <= j < g.len() implies !(column_index(#[trigger] g[j]).0 == a && column_index(g[j]).1 == b) by {
                assert(g.contains(g[j]));
                let i = choose|i: int| 0 <= i < f.len() && f[i] == g[j];
            }
        }
    }
    assert forall|a: int| 0 <= a < n implies #[trigger] vf[a] =~= vg[a] by {
        assert(vf[a].len() == n);
        assert(vg[a].len() == n);
    }
    assert(vf =~= vg);
}

proof fn lemma_unregistered_fragments(
    n: nat,
    m: Map<ChunkPos, StateView>,
    dropping: bool,
    p: ChunkPos,
    f: Seq<ToMeshing>,
)
    requires
        !m.contains_key(p),
        forall|i: int| 0 <= i < f.len() ==> (#[trigger] f[i]) is NewChunkFragment && f[i]->NewChunkFragment_0 == p,
    ensures
        after_messages(n, m, dropping, f) == (m, dropping || f.len() > 0),
        warnings(n, m, dropping, f) == (if !dropping && f.len() > 0 { 1nat } else { 0nat }),
    decreases f.len(),
{
    if f.len() > 0 {
        let g = f.drop_last();
        assert forall|i: int| 0 <= i < g.len() implies (#[trigger] g[i]) is NewChunkFragment && g[i]->NewChunkFragment_0 == p by {
            assert(g[i] == f[i]);
        }
        lemma_unregistered_fragments(n, m, dropping, p, g);
        assert(f[f.len() - 1] is NewChunkFragment);
    }
}

/// After a chunk is removed, any number of fragments for it leave the chunk
/// map as the removal left it, and together raise exactly one warning.
pub proof fn lemma_removed_chunk_warns_once(
    n: nat,
    m: Map<ChunkPos, StateView>,
    dropping: bool,
    p: ChunkPos,
    f: Seq<ToMeshing>,
)
    requires
        f.len() > 0,
        forall|i: int| 0 <= i < f.len() ==> (#[trigger] f[i]) is NewChunkFragment && f[i]->NewChunkFragment_0 == p,
    ensures
        ({
            let (m1, d1, w) = after_message(n, m, dropping, ToMeshing::RemoveChunk(p));
            &&& !w
            &&& m1 == m.remove(p)
            &&& after_messages(n, m1, d1, f) == (m1, true)
            &&& warnings(n, m1, d1, f) == 1
        }),
{
    let (m1, d1, w) = after_message(n, m, dropping, ToMeshing::RemoveChunk(p));
    lemma_unregistered_fragments(n, m1, d1, p, f);
}

proof fn lemma_filled_untouched(n: nat, v: Volume<BlockId>, f: Seq<ToMeshing>, p: ChunkPos, a: int, b: int)
    requires
        is_cube(v, n),
        0 <= a < n,
        0 <= b < n,
        forall|i: int| 0 <= i < f.len() ==> fragment_for(n, p, #[trigger] f[i]),
        forall|i: int| 0 <= i < f.len() ==> !(column_index(#[trigger] f[i]).0 == a && column_index(f[i]).1 == b),
    ensures
        filled(v, f).len() == n,
        filled(v, f)[a].len() == n,
        filled(v, f)[a][b] == v[a][b],
    decreases f.len(),
{
    if f.len() > 0 {
        let g = f.drop_last();
        assert forall|i: int| 0 <= i < g.len() implies fragment_for(n, p, #[trigger] g[i]) by {
            assert(g[i] == f[i]);
        }
        assert forall|i: int| 0 <= i < g.len() implies !(column_index(#[trigger] g[i]).0 == a && column_index(g[i]).1 == b) by {
            assert(g[i] == f[i]);
        }
        lemma_filled_untouched(n, v, g, p, a, b);
        assert(fragment_for(n, p, f[f.len() - 1]));
        assert(!(column_index(f[f.len() - 1]).0 == a && column_index(f[f.len() - 1]).1 == b));
    }
}

/// Below `usize::MAX` the counter rises by one for each fragment.
pub proof fn lemma_bumped_by(c: nat, k: nat)
    requires
        c + k <= usize::MAX,
    ensures
        bumped_by(c, k) == c + k,
    decreases k,
{
    if k > 0 {
        lemma_bumped_by(c, (k - 1) as nat);
    }
}

/// A freshly registered chunk is counted fully received after `n * n`
/// fragments even when a column came twice and another never came; the
/// missing column keeps its empty blocks.
pub proof fn lemma_duplicate_completes_early(
    n: nat,
    m: Map<ChunkPos, StateView>,
    dropping: bool,
    p: ChunkPos,
    f: Seq<ToMeshing>,
    a: int,
    b: int,
)
    requires
        n <= MAX_CHUNK_SIZE,
        m.contains_key(p),
        m[p] == fresh_state(n),
        f.len() == n * n,
        forall|i: int| 0 <= i < f.len() ==> fragment_for(n, p, #[trigger] f[i]),
        0 <= a < n,
        0 <= b < n,
        forall|i: int| 0 <= i < f.len() ==> !(column_index(#[trigger] f[i]).0 == a && column_index(f[i]).1 == b),
    ensures
        ({
            let r = after_messages(n, m, dropping, f).0[p];
            &&& r is Received
            &&& fully_received(n, r->Received_0)
            &&& r.blocks()[a][b] == Seq::new(n, |k: int| 0u16)
        }),
{
    assert(n * n <= 256 * 256) by (nonlinear_arith)
        requires
            n <= 256,
    ;
    lemma_fragments_effect(n, m, dropping, p, f);
    lemma_bumped_by(0, f.len());
    let v = uniform(n, 0u16);
    assert(is_cube(v, n));
    lemma_filled_untouched(n, v, f, p, a, b);
}

/// The readiness gate: a pass meshes `p` exactly when `p` is fully received
/// and every neighbour is present and meshed or fully received; otherwise `p`
/// is left as it was.
pub proof fn lemma_gate(n: nat, m: Map<ChunkPos, StateView>, reg: Seq<bool>, p: ChunkPos)
    requires
        m.contains_key(p),
    ensures
        after_pass(n, m, reg).contains_key(p),
        (exists|s: int| 0 <= s < 6 && ({
            let q = #[trigger] neighbour_pos(p, s);
            q is None || !m.contains_key(q->Some_0) || !settled(n, m[q->Some_0])
        })) ==> after_pass(n, m, reg)[p] == m[p],
        mesh_ready(n, m, p) ==> after_pass(n, m, reg)[p] is Meshed,
{
}

/// The meshing worker's state: the chunk map, owned by the worker alone, and
/// the process-wide drop-warning flag.
pub struct Mesher {
    pub size: usize,
    pub chunks: Vec<(ChunkPos, ChunkState)>,
    pub dropping: bool,
    /// A single recycled buffer: it stands in a chunk's slot while the chunk
    /// is being meshed, and afterwards keeps the chunk's retired mask storage.
    pub spare: ChunkData,
}

impl Mesher {
    pub open spec fn wf(&self) -> bool {
        &&& 1 <= self.size <= MAX_CHUNK_SIZE
        &&& unique_keys(self.chunks@)
        &&& forall|i: int| 0 <= i < self.chunks@.len() ==> (#[trigger] self.chunks@[i]).1.data().wf(self.size as nat)
        &&& self.spare.wf(self.size as nat)
    }

    /// The chunk map.
    pub open spec fn view(&self) -> Map<ChunkPos, StateView> {
        map_of(self.chunks@)
    }

    /// A worker for chunks of side `size`, with no chunk registered.
    pub fn new(size: usize) -> (r: Self)
        requires
            1 <= size <= MAX_CHUNK_SIZE,
        ensures
            r.wf(),
            r.size == size,
            r.view() == Map::<ChunkPos, StateView>::empty(),
            !r.dropping,
    {
        let r = Mesher { size, chunks: Vec::new(), dropping: false, spare: ChunkData::fresh(size) };
        assert(r.view() =~= Map::<ChunkPos, StateView>::empty());
        r
    }

    /// Applies one inbound message; returns whether a drop warning is due.
    pub fn handle_message(&mut self, msg: ToMeshing) -> (warn: bool)
        requires
            old(self).wf(),
            acceptable(old(self).size as nat, old(self).view(), msg),
        ensures
            final(self).wf(),
            final(self).size == old(self).size,
            (final(self).view(), final(self).dropping, warn) == after_message(
                old(self).size as nat,
                old(self).view(),
                old(self).dropping,
                msg,
            ),
    {
        let ghost a = self.chunks@;
        let n = self.size;
        proof {
            lemma_map_of_all(a);
        }
        match msg {
            ToMeshing::AllowChunk(p) => {
                self.dropping = false;
                let fresh = ChunkData::fresh(n);
                let st = ChunkState::Received(0, fresh);
                match self.find(p) {
                    Some(i) => {
                        proof {
                            lemma_map_of_set(a, i as int, st);
                        }
                        self.chunks.set(i, (p, st));
                    },
                    None => {
                        proof {
                            lemma_map_of_push(a, p, st);
                        }
                        self.chunks.push((p, st));
                    },
                }
                assert(self.view() == after_message(n as nat, map_of(a), false, msg).0);
                false
            },
            ToMeshing::NewChunkFragment(p, f, col) => {
                match self.find(p) {
                    Some(i) => {
                        self.dropping = false;
                        let mut entry = (p, ChunkState::Meshed(ChunkData { blocks: Vec::new(), sides: Vec::new() }));
                        self.chunks.set_and_swap(i, &mut entry);
                        let (q, st) = entry;
                        let ghost old_st = st;
                        let st2 = match st {
                            ChunkState::Received(c, d) => {
                                let mut d = d;
                                d.set_column(n, f.0, f.1, col);
                                let c2 = if c < usize::MAX { c + 1 } else { c };
                                ChunkState::Received(c2, d)
                            },
                            ChunkState::Meshed(d) => ChunkState::Meshed(d),
                        };
                        self.chunks.set(i, (q, st2));
                        proof {
                            assert(self.chunks@ == a.update(i as int, (a[i as int].0, st2)));
                            lemma_map_of_set(a, i as int, st2);
                            if old_st is Meshed {
                                assert(map_of(a).insert(p, st2.view()) =~= map_of(a));
                            }
                        }
                        false
                    },
                    None => {
                        let warn = !self.dropping;
                        self.dropping = true;
                        warn
                    },
                }
            },
            ToMeshing::RemoveChunk(p) => {
                self.dropping = false;
                match self.find(p) {
                    Some(i) => {
                        proof {
                            lemma_map_of_remove(a, i as int);
                        }
                        self.chunks.remove(i);
                    },
                    None => {
                        assert(map_of(a).remove(p) =~= map_of(a));
                    },
                }
                false
            },
        }
    }

    /// Whether `handle_message` accepts `msg`: a fragment's column index
    /// and payload length must fit the chunk size.
    pub fn fits(&self, msg: &ToMeshing) -> (r: bool)
        ensures
            r == message_fits(self.size as nat, *msg),
    {
        match msg {
            ToMeshing::NewChunkFragment(_, f, col) => f.0 < self.size && f.1 < self.size && col.len() == self.size,
            _ => true,
        }
    }

    /// Whether `handle_message` accepts `msg` in the current state.
    pub fn accepts(&self, msg: &ToMeshing) -> (r: bool)
        requires
            self.wf(),
        ensures
            r == acceptable(self.size as nat, self.view(), *msg),
    {
        proof {
            lemma_map_of_all(self.chunks@);
        }
        match msg {
            ToMeshing::NewChunkFragment(p, _, _) => match self.find(*p) {
                Some(j) => match &self.chunks[j].1 {
                    ChunkState::Received(_, _) => self.fits(msg),
                    ChunkState::Meshed(_) => true,
                },
                None => true,
            },
            _ => true,
        }
    }

    /// The state of `p`, if it is registered.
    pub fn chunk_state(&self, p: ChunkPos) -> (r: Option<&ChunkState>)
        requires
            self.wf(),
        ensures
            match r {
                Some(st) => self.view().contains_key(p) && self.view()[p] == st.view(),
                None => !self.view().contains_key(p),
            },
    {
        proof {
            lemma_map_of_all(self.chunks@);
        }
        match self.find(p) {
            Some(j) => Some(&self.chunks[j].1),
            None => None,
        }
    }

    /// The blocks and masks of `p`, once it is meshed.
    pub fn meshed_data(&self, p: ChunkPos) -> (r: Option<&ChunkData>)
        requires
            self.wf(),
        ensures
            match r {
                Some(d) => self.view().contains_key(p) && self.view()[p] == StateView::Meshed(
                    d.blocks_view(),
                    d.sides_view(),
                ),
                None => !(self.view().contains_key(p) && self.view()[p] is Meshed),
            },
    {
        proof {
            lemma_map_of_all(self.chunks@);
        }
        match self.find(p) {
            Some(j) => match &self.chunks[j].1 {
                ChunkState::Meshed(d) => Some(d),
                ChunkState::Received(_, _) => None,
            },
            None => None,
        }
    }

    /// Replaces the receiving chunk at index `i` by its meshed form with masks
    /// `new_sides`. The spare buffer stands in the slot during the exchange
    /// and then keeps the chunk's retired mask storage.
    fn install_meshed(&mut self, i: usize, new_sides: Vec<Vec<Vec<u8>>>)
        requires
            1 <= old(self).size,
            old(self).spare.wf(old(self).size as nat),
            i < old(self).chunks@.len(),
            old(self).chunks@[i as int].1 is Received,
            old(self).chunks@[i as int].1.data().wf(old(self).size as nat),
        ensures
            final(self).size == old(self).size,
            final(self).dropping == old(self).dropping,
            final(self).spare.wf(old(self).size as nat),
            final(self).chunks@ == old(self).chunks@.update(
                i as int,
                (
                    old(self).chunks@[i as int].0,
                    ChunkState::Meshed(
                        (ChunkData { blocks: old(self).chunks@[i as int].1.data().blocks, sides: new_sides }),
                    ),
                ),
            ),
    {
        let ghost start = self.chunks@;
        let mut placeholder = ChunkData { blocks: Vec::new(), sides: Vec::new() };
        std::mem::swap(&mut placeholder, &mut self.spare);
        let p = self.chunks[i].0;
        let mut entry = (p, ChunkState::Meshed(placeholder));
        self.chunks.set_and_swap(i, &mut entry);
        let (p2, st) = entry;
        let (blocks, retired) = match st {
            ChunkState::Received(_, d) => (d.blocks, d.sides),
            ChunkState::Meshed(d) => (d.blocks, d.sides),
        };
        let mut done = (p2, ChunkState::Meshed(ChunkData { blocks, sides: new_sides }));
        self.chunks.set_and_swap(i, &mut done);
        let (_, back) = done;
        let ph = match back {
            ChunkState::Meshed(ph) => ph,
            ChunkState::Received(_, ph) => ph,
        };
        self.spare = ChunkData { blocks: ph.blocks, sides: retired };
        assert(self.chunks@ =~= start.update(
            i as int,
            (start[i as int].0, ChunkState::Meshed((ChunkData { blocks: start[i as int].1.data().blocks, sides: new_sides }))),
        ));
    }

    /// `p` is registered and meshed or fully received.
    fn settled_at(&self, p: ChunkPos) -> (r: bool)
        requires
            self.wf(),
        ensures
            r == (self.view().contains_key(p) && settled(self.size as nat, self.view()[p])),
    {
        proof {
            lemma_map_of_all(self.chunks@);
            lemma_square_fits(self.size);
        }
        match self.find(p) {
            Some(j) => match &self.chunks[j].1 {
                ChunkState::Received(c, _) => *c == self.size * self.size,
                ChunkState::Meshed(_) => true,
            },
            None => false,
        }
    }

    /// The readiness gate for the chunk at index `i`.
    fn is_ready(&self, i: usize) -> (r: bool)
        requires
            self.wf(),
            i < self.chunks@.len(),
        ensures
            r == mesh_ready(self.size as nat, self.view(), self.chunks@[i as int].0),
    {
        let ghost m = self.view();
        let n = self.size;
        let p = self.chunks[i].0;
        proof {
            lemma_map_of_all(self.chunks@);
            lemma_square_fits(n);
        }
        let complete = match &self.chunks[i].1 {
            ChunkState::Received(c, _) => *c == n * n,
            ChunkState::Meshed(_) => false,
        };
        if !complete {
            return false;
        }
        let mut s: usize = 0;
        while s < DIRECTIONS
            invariant
                self.wf(),
                m == self.view(),
                n == self.size,
                s <= DIRECTIONS,
                i < self.chunks@.len(),
                p == self.chunks@[i as int].0,
                m.contains_key(p),
                m[p] is Received,
                fully_received(n as nat, m[p]->Received_0),
                forall|t: int|
                    0 <= t < s ==> {
                        &&& (#[trigger] neighbour_pos(p, t)) is Some
                        &&& m.contains_key(neighbour_pos(p, t)->Some_0)
                        &&& settled(n as nat, m[neighbour_pos(p, t)->Some_0])
                    },
            decreases DIRECTIONS - s,
        {
            match neighbour_of(p, s) {
                Some(q) => {
                    if !self.settled_at(q) {
                        proof {
                            let t = s as int;
                            assert(neighbour_pos(p, t)->Some_0 == q);
                            assert(!({
                                &&& neighbour_pos(p, t) is Some
                                &&& m.contains_key(neighbour_pos(p, t)->Some_0)
                                &&& settled(n as nat, m[neighbour_pos(p, t)->Some_0])
                            }));
                        }
                        return false;
                    }
                },
                None => {
                    proof {
                        let t = s as int;
                        assert(neighbour_pos(p, t) is None);
                    }
                    return false;
                },
            }
            s = s + 1;
        }
        true
    }

    /// One meshing pass: meshes every chunk that passes the readiness gate
    /// and returns their positions. A meshed chunk keeps its blocks and gets
    /// its visibility masks; a mesh builder reads both through `meshed_data`.
    pub fn mesh_pass(&mut self, reg: &BlockRegistry) -> (meshed: Vec<ChunkPos>)
        requires
            old(self).wf(),
        ensures
            final(self).wf(),
            final(self).size == old(self).size,
            final(self).dropping == old(self).dropping,
            final(self).view() == after_pass(old(self).size as nat, old(self).view(), reg.opaque@),
            forall|p: ChunkPos| #[trigger] meshed@.contains(p) <==> mesh_ready(old(self).size as nat, old(self).view(), p),
            meshed@.no_duplicates(),
    {
        let ghost a = self.chunks@;
        let ghost m0 = self.view();
        let n = self.size;
        let ghost target = after_pass(n as nat, m0, reg.opaque@);
        proof {
            lemma_map_of_all(a);
        }
        let mut ready: Vec<bool> = Vec::new();
        let mut i: usize = 0;
        while i < self.chunks.len()
            invariant
                self.wf(),
                self.chunks@ == a,
                m0 == map_of(a),
                n == self.size,
                i <= a.len(),
                ready@.len() == i,
                forall|q: int| 0 <= q < i ==> #[trigger] ready@[q] == mesh_ready(n as nat, m0, a[q].0),
            decreases a.len() - i,
        {
            let r = self.is_ready(i);
            let ghost prev = ready@;
            ready.push(r);
            assert forall|q: int| 0 <= q < i + 1 implies #[trigger] ready@[q] == mesh_ready(n as nat, m0, a[q].0) by {
                if q < i {
                    assert(ready@[q] == prev[q]);
                }
            }
            i = i + 1;
        }
        let mut meshed: Vec<ChunkPos> = Vec::new();
        let mut i: usize = 0;
        while i < self.chunks.len()
            invariant
                1 <= n <= MAX_CHUNK_SIZE,
                n == self.size,
                self.dropping == old(self).dropping,
                self.spare.wf(n as nat),
                unique_keys(a),
                m0 == map_of(a),
                target == after_pass(n as nat, m0, reg.opaque@),
                forall|q: int| 0 <= q < a.len() ==> (#[trigger] map_of(a)[a[q].0]) == a[q].1.view() && map_of(a).contains_key(a[q].0),
                forall|q: int| 0 <= q < a.len() ==> (#[trigger] a[q]).1.data().wf(n as nat),
                ready@.len() == a.len(),
                forall|q: int| 0 <= q < a.len() ==> #[trigger] ready@[q] == mesh_ready(n as nat, m0, a[q].0),
                self.chunks@.len() == a.len(),
                i <= a.len(),
                forall|q: int| 0 <= q < a.len() ==> (#[trigger] self.chunks@[q]).0 == a[q].0,
                forall|q: int| 0 <= q < a.len() ==> (#[trigger] self.chunks@[q]).1.data().wf(n as nat),
                forall|q: int| 0 <= q < a.len() ==> (#[trigger] self.chunks@[q]).1.data().blocks_view() == a[q].1.data().blocks_view(),
                forall|q: int| 0 <= q < i ==> (#[trigger] self.chunks@[q]).1.view() == target[a[q].0],
                forall|q: int| i <= q < a.len() ==> #[trigger] self.chunks@[q] == a[q],
                meshed@.no_duplicates(),
                forall|x: ChunkPos| #[trigger] meshed@.contains(x) <==> exists|q: int| 0 <= q < i && ready@[q] && a[q].0 == x,
            decreases a.len() - i,
        {
            if ready[i] {
                let p = self.chunks[i].0;
                let ghost nbv = neighbour_volumes(m0, p);
                let mut nbs: Vec<&ChunkData> = Vec::new();
                let mut s: usize = 0;
                while s < DIRECTIONS
                    invariant
                        s <= DIRECTIONS,
                        1 <= n <= MAX_CHUNK_SIZE,
                        i < a.len(),
                        p == a[i as int].0,
                        mesh_ready(n as nat, m0, p),
                        nbv == neighbour_volumes(m0, p),
                        unique_keys(a),
                        m0 == map_of(a),
                        forall|q: int| 0 <= q < a.len() ==> (#[trigger] map_of(a)[a[q].0]) == a[q].1.view() && map_of(a).contains_key(a[q].0),
                        self.chunks@.len() == a.len(),
                        forall|q: int| 0 <= q < a.len() ==> (#[trigger] self.chunks@[q]).0 == a[q].0,
                        forall|q: int| 0 <= q < a.len() ==> (#[trigger] self.chunks@[q]).1.data().wf(n as nat),
                        forall|q: int| 0 <= q < a.len() ==> (#[trigger] self.chunks@[q]).1.data().blocks_view() == a[q].1.data().blocks_view(),
                        nbs@.len() == s,
                        forall|t: int| 0 <= t < s ==> (#[trigger] nbs@[t]).wf(n as nat),
                        forall|t: int| 0 <= t < s ==> (#[trigger] nbs@[t]).blocks_view() == nbv[t],
                    decreases DIRECTIONS - s,
                {
                    assert(neighbour_pos(p, s as int) is Some);
                    let q = neighbour_at(p, s);
                    assert(m0.contains_key(q));
                    assert(has_key(self.chunks@, q)) by {
                        let w = choose|w: int| 0 <= w < a.len() && a[w].0 == q;
                        assert(self.chunks@[w].0 == q);
                    }
                    let j = match self.find(q) {
                        Some(j) => j,
                        None => {
                            proof {
                                assert(false);
                            }
                            0
                        },
                    };
                    let d = data_ref(&self.chunks[j].1);
                    assert(m0[q] == a[j as int].1.view());
                    nbs.push(d);
                    s = s + 1;
                }
                assert(neighbour_blocks(nbs@) =~= nbv);
                let own = data_ref(&self.chunks[i].1);
                let new_sides = occlude(n, &own.blocks, &own.sides, &nbs, reg);
                let ghost before = self.chunks@;
                self.install_meshed(i, new_sides);
                proof {
                    assert(target[p] == meshed_state(n as nat, m0, p, reg.opaque@));
                    assert forall|q: int| 0 <= q < a.len() && q != i implies #[trigger] self.chunks@[q] == before[q] by {}
                }
                let ghost prev = meshed@;
                meshed.push(p);
                proof {
                    assert forall|x: ChunkPos| #[trigger] meshed@.contains(x) <==> exists|q: int| 0 <= q < i + 1 && ready@[q] && a[q].0 == x by {
                        if meshed@.contains(x) && x != p {
                            let w = choose|w: int| 0 <= w < meshed@.len() && meshed@[w] == x;
                            assert(prev[w] == x);
                            assert(prev.contains(x));
                        }
                        if exists|q: int| 0 <= q < i + 1 && ready@[q] && a[q].0 == x {
                            let q = choose|q: int| 0 <= q < i + 1 && ready@[q] && a[q].0 == x;
                            if q < i {
                                assert(prev.contains(x));
                                let w = choose|w: int| 0 <= w < prev.len() && prev[w] == x;
                                assert(meshed@[w] == x);
                            } else {
                                assert(meshed@[prev.len() as int] == x);
                            }
                        }
                    }
                    assert(!prev.contains(p)) by {
                        if prev.contains(p) {
                            let q = choose|q: int| 0 <= q < i && ready@[q] && a[q].0 == p;
                            assert(a[q].0 == a[i as int].0);
                        }
                    }
                    assert forall|x: int, y: int| 0 <= x < meshed@.len() && 0 <= y < meshed@.len() && x != y implies meshed@[x] != meshed@[y] by {
                        if x < prev.len() && y < prev.len() {
                        } else if x < prev.len() {
                            assert(prev.contains(prev[x]));
                        } else {
                            assert(prev.contains(prev[y]));
                        }
                    }
                }
            } else {
                proof {
                    assert(!mesh_ready(n as nat, m0, a[i as int].0));
                    assert(target[a[i as int].0] == m0[a[i as int].0]);
                    assert forall|x: ChunkPos| #[trigger] meshed@.contains(x) <==> exists|q: int| 0 <= q < i + 1 && ready@[q] && a[q].0 == x by {
                        if exists|q: int| 0 <= q < i + 1 && ready@[q] && a[q].0 == x {
                            let q = choose|q: int| 0 <= q < i + 1 && ready@[q] && a[q].0 == x;
                            assert(q < i);
                        }
                    }
                }
            }
            i = i + 1;
        }
        proof {
            assert forall|x: ChunkPos| target.contains_key(x) <==> has_key(a, x) by {}
            lemma_map_of_same_keys(a, self.chunks@, target);
            assert forall|x: ChunkPos| #[trigger] meshed@.contains(x) <==> mesh_ready(n as nat, m0, x) by {
                if mesh_ready(n as nat, m0, x) {
                    assert(has_key(a, x));
                    let q = choose|q: int| 0 <= q < a.len() && a[q].0 == x;
                    assert(ready@[q]);
                }
            }
        }
        meshed
    }

    fn find(&self, p: ChunkPos) -> (r: Option<usize>)
        ensures
            match r {
                Some(i) => i < self.chunks@.len() && self.chunks@[i as int].0 == p,
                None => !has_key(self.chunks@, p),
            },
    {
        let mut i: usize = 0;
        while i < self.chunks.len()
            invariant
                i <= self.chunks@.len(),
                forall|q: int| 0 <= q < i ==> (#[trigger] self.chunks@[q]).0 != p,
            decreases self.chunks@.len() - i,
        {
            if self.chunks[i].0 == p {
                return Some(i);
            }
            i = i + 1;
        }
        None
    }
}

} // verus!
