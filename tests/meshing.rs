use chunk_mesher::chunk::{BlockRegistry, ChunkData, ChunkPos, FULL_MASK};
use chunk_mesher::mesher::{ChunkState, Mesher, ToMeshing};

fn pos(x: i64, y: i64, z: i64) -> ChunkPos {
    ChunkPos { x, y, z }
}

fn neighbours(p: ChunkPos) -> Vec<ChunkPos> {
    vec![
        pos(p.x, p.y, p.z - 1),
        pos(p.x, p.y, p.z + 1),
        pos(p.x + 1, p.y, p.z),
        pos(p.x - 1, p.y, p.z),
        pos(p.x, p.y + 1, p.z),
        pos(p.x, p.y - 1, p.z),
    ]
}

fn fragment(p: ChunkPos, a: usize, b: usize, col: Vec<u16>) -> ToMeshing {
    ToMeshing::NewChunkFragment(p, (a, b), col)
}

/// Registers `p` and sends every column of it filled with `id`.
fn fill(m: &mut Mesher, p: ChunkPos, id: u16) {
    let n = m.size;
    assert!(!m.handle_message(ToMeshing::AllowChunk(p)));
    for a in 0..n {
        for b in 0..n {
            assert!(!m.handle_message(fragment(p, a, b, vec![id; n])));
        }
    }
}

fn count_of(m: &Mesher, p: ChunkPos) -> Option<usize> {
    match m.chunk_state(p) {
        Some(ChunkState::Received(c, _)) => Some(*c),
        _ => None,
    }
}

fn received_data(m: &Mesher, p: ChunkPos) -> &ChunkData {
    match m.chunk_state(p) {
        Some(ChunkState::Received(_, d)) => d,
        _ => panic!("chunk is not receiving"),
    }
}

#[test]
fn end_to_end_two_cube() {
    let reg = BlockRegistry::new(vec![false, true]);
    let mut m = Mesher::new(2);
    let origin = pos(0, 0, 0);
    let mut msgs = vec![ToMeshing::AllowChunk(origin)];
    for q in neighbours(origin) {
        msgs.push(ToMeshing::AllowChunk(q));
    }
    for (a, b) in [(0, 0), (0, 1), (1, 0), (1, 1)] {
        msgs.push(fragment(origin, a, b, vec![1, 1]));
    }
    for q in neighbours(origin) {
        for (a, b) in [(0, 0), (0, 1), (1, 0), (1, 1)] {
            msgs.push(fragment(q, a, b, vec![0, 0]));
        }
    }
    let mut buffers = Vec::new();
    for msg in msgs {
        assert!(!m.handle_message(msg));
        buffers.extend(m.mesh_pass(&reg));
    }
    buffers.extend(m.mesh_pass(&reg));
    assert_eq!(buffers, vec![origin]);
    let d = m.meshed_data(origin).expect("origin is meshed");
    for i in 0..2usize {
        for j in 0..2usize {
            for k in 0..2usize {
                let mut expected = FULL_MASK;
                // outward faces: -z, +z, +x, -x, +y, -y are bits 0..5
                if k == 0 { expected ^= 1 << 0; }
                if k == 1 { expected ^= 1 << 1; }
                if i == 1 { expected ^= 1 << 2; }
                if i == 0 { expected ^= 1 << 3; }
                if j == 1 { expected ^= 1 << 4; }
                if j == 0 { expected ^= 1 << 5; }
                assert_eq!(d.sides[i][j][k], expected);
                assert_eq!(d.blocks[i][j][k], 1);
            }
        }
    }
    assert_eq!(d.sides[0][0][0], 0xD6);
}

#[test]
fn duplicate_fragment_counts_as_complete() {
    let reg = BlockRegistry::new(vec![false, true]);
    let mut m = Mesher::new(2);
    let p = pos(0, 0, 0);
    m.handle_message(ToMeshing::AllowChunk(p));
    m.handle_message(fragment(p, 0, 0, vec![1, 1]));
    m.handle_message(fragment(p, 0, 0, vec![1, 1]));
    m.handle_message(fragment(p, 0, 1, vec![1, 1]));
    m.handle_message(fragment(p, 1, 0, vec![1, 1]));
    assert_eq!(count_of(&m, p), Some(4));
    let d = received_data(&m, p);
    assert_eq!(d.blocks[1][1], vec![0, 0]);
    assert_eq!(d.blocks[0][0], vec![1, 1]);
    for q in neighbours(p) {
        fill(&mut m, q, 0);
    }
    assert_eq!(m.mesh_pass(&reg), vec![p]);
    assert_eq!(m.meshed_data(p).unwrap().blocks[1][1], vec![0, 0]);
}

#[test]
fn full_coverage_with_one_repeat_never_completes_early() {
    let reg = BlockRegistry::new(vec![false, true]);
    let mut m = Mesher::new(2);
    let p = pos(3, -4, 5);
    m.handle_message(ToMeshing::AllowChunk(p));
    for (a, b) in [(0, 0), (0, 1), (1, 0), (1, 1)] {
        m.handle_message(fragment(p, a, b, vec![1, 1]));
    }
    m.handle_message(fragment(p, 0, 1, vec![1, 1]));
    assert_eq!(count_of(&m, p), Some(5));
    for q in neighbours(p) {
        fill(&mut m, q, 0);
    }
    for _ in 0..3 {
        assert!(!m.mesh_pass(&reg).contains(&p));
    }
    assert_eq!(count_of(&m, p), Some(5));
    assert!(m.meshed_data(p).is_none());
}

#[test]
fn overcounted_neighbour_blocks_meshing() {
    let reg = BlockRegistry::new(vec![false, true]);
    let mut m = Mesher::new(2);
    let p = pos(0, 0, 0);
    fill(&mut m, p, 1);
    let ns = neighbours(p);
    for q in &ns {
        fill(&mut m, *q, 0);
    }
    m.handle_message(fragment(ns[2], 0, 0, vec![0, 0]));
    assert_eq!(count_of(&m, ns[2]), Some(5));
    assert!(m.mesh_pass(&reg).is_empty());
}

#[test]
fn misfit_fragment_for_unknown_chunk_is_dropped() {
    let mut m = Mesher::new(2);
    let p = pos(0, 0, 0);
    let msg = fragment(p, 5, 0, vec![1]);
    assert!(!m.fits(&msg));
    assert!(m.accepts(&msg));
    assert!(m.handle_message(msg));
    m.handle_message(ToMeshing::AllowChunk(p));
    assert!(!m.accepts(&fragment(p, 5, 0, vec![1])));
}

#[test]
fn gate_waits_for_last_neighbour() {
    let reg = BlockRegistry::new(vec![false, true]);
    let mut m = Mesher::new(2);
    let p = pos(0, 0, 0);
    fill(&mut m, p, 1);
    let ns = neighbours(p);
    for q in &ns[..5] {
        fill(&mut m, *q, 0);
    }
    assert!(m.mesh_pass(&reg).is_empty());
    let last = ns[5];
    m.handle_message(ToMeshing::AllowChunk(last));
    m.handle_message(fragment(last, 0, 0, vec![0, 0]));
    m.handle_message(fragment(last, 0, 1, vec![0, 0]));
    m.handle_message(fragment(last, 1, 0, vec![0, 0]));
    assert!(m.mesh_pass(&reg).is_empty());
    assert_eq!(count_of(&m, p), Some(4));
    m.handle_message(fragment(last, 1, 1, vec![0, 0]));
    assert_eq!(m.mesh_pass(&reg), vec![p]);
    assert!(m.mesh_pass(&reg).is_empty());
}

#[test]
fn gate_needs_all_six_present() {
    let reg = BlockRegistry::new(vec![true]);
    let mut m = Mesher::new(1);
    let p = pos(0, 0, 0);
    fill(&mut m, p, 0);
    for q in &neighbours(p)[1..] {
        fill(&mut m, *q, 0);
    }
    assert!(m.mesh_pass(&reg).is_empty());
    assert!(m.meshed_data(p).is_none());
}

#[test]
fn toggles_only_outward_faces() {
    let reg = BlockRegistry::new(vec![false, true]);
    let mut m = Mesher::new(3);
    let p = pos(10, 10, 10);
    fill(&mut m, p, 1);
    for q in neighbours(p) {
        fill(&mut m, q, 0);
    }
    assert_eq!(m.mesh_pass(&reg), vec![p]);
    let d = m.meshed_data(p).unwrap();
    assert_eq!(d.sides[1][1][1], FULL_MASK);
    // a face centre on -z: only bit 0 cleared
    assert_eq!(d.sides[1][1][0], FULL_MASK ^ 1);
    // corner (2, 2, 2): +z, +x, +y cleared
    assert_eq!(d.sides[2][2][2], FULL_MASK ^ (2 | 4 | 16));
}

#[test]
fn interior_air_toggles_inner_faces() {
    let reg = BlockRegistry::new(vec![false, true]);
    let mut m = Mesher::new(2);
    let p = pos(0, 0, 0);
    m.handle_message(ToMeshing::AllowChunk(p));
    m.handle_message(fragment(p, 0, 0, vec![1, 0]));
    m.handle_message(fragment(p, 0, 1, vec![1, 1]));
    m.handle_message(fragment(p, 1, 0, vec![1, 1]));
    m.handle_message(fragment(p, 1, 1, vec![1, 1]));
    for q in neighbours(p) {
        fill(&mut m, q, 1);
    }
    assert_eq!(m.mesh_pass(&reg), vec![p]);
    let d = m.meshed_data(p).unwrap();
    // (0, 0, 0) faces the air block (0, 0, 1) in direction +z
    assert_eq!(d.sides[0][0][0], FULL_MASK ^ 2);
    // (0, 0, 1) is air itself, but its neighbours are solid
    assert_eq!(d.sides[0][0][1], FULL_MASK);
    assert_eq!(d.sides[1][1][1], FULL_MASK);
}

#[test]
fn assembly_is_order_free() {
    let cols = [(0usize, 0usize, vec![1u16, 2]), (0, 1, vec![3, 4]), (1, 0, vec![5, 6]), (1, 1, vec![7, 8])];
    let p = pos(1, 2, 3);
    let mut forward = Mesher::new(2);
    forward.handle_message(ToMeshing::AllowChunk(p));
    for (a, b, c) in cols.iter() {
        forward.handle_message(fragment(p, *a, *b, c.clone()));
    }
    let mut backward = Mesher::new(2);
    backward.handle_message(ToMeshing::AllowChunk(p));
    for (a, b, c) in cols.iter().rev() {
        backward.handle_message(fragment(p, *a, *b, c.clone()));
    }
    let f = received_data(&forward, p);
    let g = received_data(&backward, p);
    assert_eq!(f.blocks, g.blocks);
    assert_eq!(f.blocks[1][0], vec![5, 6]);
    assert_eq!(count_of(&forward, p), Some(4));
    assert_eq!(count_of(&backward, p), Some(4));
}

#[test]
fn removed_chunk_warns_once() {
    let mut m = Mesher::new(2);
    let p = pos(0, 0, 0);
    assert!(!m.handle_message(ToMeshing::AllowChunk(p)));
    assert!(!m.handle_message(ToMeshing::RemoveChunk(p)));
    assert!(m.handle_message(fragment(p, 0, 0, vec![1, 1])));
    assert!(!m.handle_message(fragment(p, 0, 1, vec![1, 1])));
    assert!(!m.handle_message(fragment(p, 1, 1, vec![1, 1])));
    assert!(m.chunk_state(p).is_none());
}

#[test]
fn warning_flag_is_global() {
    let mut m = Mesher::new(2);
    let a = pos(0, 0, 0);
    let b = pos(5, 5, 5);
    assert!(m.handle_message(fragment(a, 0, 0, vec![1, 1])));
    assert!(!m.handle_message(fragment(b, 0, 0, vec![1, 1])));
    assert!(!m.handle_message(ToMeshing::RemoveChunk(b)));
    assert!(m.handle_message(fragment(a, 0, 0, vec![1, 1])));
    m.handle_message(ToMeshing::AllowChunk(b));
    assert!(!m.handle_message(fragment(b, 0, 0, vec![1, 1])));
    assert!(m.handle_message(fragment(a, 0, 0, vec![1, 1])));
}

#[test]
fn meshed_chunk_ignores_fragments_and_allow_resets() {
    let reg = BlockRegistry::new(vec![true]);
    let mut m = Mesher::new(1);
    let p = pos(0, 0, 0);
    fill(&mut m, p, 0);
    for q in neighbours(p) {
        fill(&mut m, q, 0);
    }
    assert_eq!(m.mesh_pass(&reg), vec![p]);
    assert!(!m.handle_message(fragment(p, 0, 0, vec![3])));
    assert_eq!(m.meshed_data(p).unwrap().blocks[0][0], vec![0]);
    assert!(m.mesh_pass(&reg).is_empty());
    m.handle_message(ToMeshing::AllowChunk(p));
    assert_eq!(count_of(&m, p), Some(0));
    assert!(m.meshed_data(p).is_none());
    let d = received_data(&m, p);
    assert_eq!(d.sides[0][0][0], FULL_MASK);
}

#[test]
fn unknown_ids_are_not_opaque() {
    let reg = BlockRegistry::new(vec![true, false]);
    assert!(reg.is_opaque(0));
    assert!(!reg.is_opaque(1));
    assert!(!reg.is_opaque(7));
}

#[test]
fn fits_checks_fragment_shape() {
    let m = Mesher::new(2);
    let p = pos(0, 0, 0);
    assert!(m.fits(&fragment(p, 1, 1, vec![0, 0])));
    assert!(!m.fits(&fragment(p, 2, 0, vec![0, 0])));
    assert!(!m.fits(&fragment(p, 0, 0, vec![0])));
    assert!(m.fits(&ToMeshing::AllowChunk(p)));
}

#[test]
fn edge_of_coordinate_range_has_no_neighbour() {
    let reg = BlockRegistry::new(vec![true]);
    let mut m = Mesher::new(1);
    let p = pos(i64::MAX, 0, 0);
    fill(&mut m, p, 0);
    fill(&mut m, pos(i64::MAX - 1, 0, 0), 0);
    fill(&mut m, pos(i64::MAX, 1, 0), 0);
    fill(&mut m, pos(i64::MAX, -1, 0), 0);
    fill(&mut m, pos(i64::MAX, 0, 1), 0);
    fill(&mut m, pos(i64::MAX, 0, -1), 0);
    assert!(m.mesh_pass(&reg).is_empty());
}
