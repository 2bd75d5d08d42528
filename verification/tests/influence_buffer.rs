use glam::Vec2;
use sim_core::influence_buffer::InfluenceBuffer;
use sim_core::types::NodeId;

#[test]
fn with_len_initializes_zeroed_state() {
    let len = 5;
    let buf = InfluenceBuffer::with_len(len);

    assert_eq!(buf.dir.len(), len);
    assert_eq!(buf.count.len(), len);

    for v in &buf.dir {
        assert_eq!(*v, Vec2::ZERO);
    }
    for c in &buf.count {
        assert_eq!(*c, 0);
    }
}

#[test]
fn ensure_len_keeps_length_and_clears_when_same() {
    let mut buf = InfluenceBuffer::with_len(3);
    let id: NodeId = 1;
    buf.add(id, Vec2::new(1.0, 2.0));

    assert!(buf.is_influenced(id));

    buf.ensure_len(3);

    assert_eq!(buf.dir.len(), 3);
    assert_eq!(buf.count.len(), 3);
    assert!(!buf.is_influenced(id));
    for v in &buf.dir {
        assert_eq!(*v, Vec2::ZERO);
    }
    for c in &buf.count {
        assert_eq!(*c, 0);
    }
}

#[test]
fn ensure_len_resizes_and_clears_when_different() {
    let mut buf = InfluenceBuffer::with_len(2);
    buf.add(0, Vec2::new(1.0, 0.0));

    buf.ensure_len(4);
    assert_eq!(buf.dir.len(), 4);
    assert_eq!(buf.count.len(), 4);

    for v in &buf.dir {
        assert_eq!(*v, Vec2::ZERO);
    }
    for c in &buf.count {
        assert_eq!(*c, 0);
    }

    buf.ensure_len(1);
    assert_eq!(buf.dir.len(), 1);
    assert_eq!(buf.count.len(), 1);
    assert_eq!(buf.dir[0], Vec2::ZERO);
    assert_eq!(buf.count[0], 0);
}

#[test]
fn clear_resets_all_entries() {
    let mut buf = InfluenceBuffer::with_len(3);
    buf.add(0, Vec2::new(1.0, 0.0));
    buf.add(1, Vec2::new(0.0, 1.0));

    buf.clear();

    for v in &buf.dir {
        assert_eq!(*v, Vec2::ZERO);
    }
    for c in &buf.count {
        assert_eq!(*c, 0);
    }
}

#[test]
fn add_and_avg_dir_work_as_expected() {
    let mut buf = InfluenceBuffer::with_len(2);
    let id: NodeId = 1;

    assert_eq!(buf.avg_dir(id), Vec2::ZERO);
    assert!(!buf.is_influenced(id));

    buf.add(id, Vec2::new(1.0, 0.0));
    buf.add(id, Vec2::new(3.0, 0.0));

    assert!(buf.is_influenced(id));
    assert_eq!(buf.count[id], 2);
    assert_eq!(buf.avg_dir(id), Vec2::new(2.0, 0.0));
}

#[test]
fn influenced_indices_returns_only_nodes_with_nonzero_count() {
    let mut buf = InfluenceBuffer::with_len(4);
    buf.add(0, Vec2::new(1.0, 0.0));
    buf.add(2, Vec2::new(0.0, 1.0));

    let ids: Vec<NodeId> = buf.influenced_indices();
    assert_eq!(ids, vec![0, 2]);

    // After clearing, there should be no influenced nodes.
    buf.clear();
    let ids_after_clear: Vec<NodeId> = buf.influenced_indices();
    assert!(ids_after_clear.is_empty());
}

#[test]
fn merge_from_adds_contributions_of_both_buffers() {
    let mut a = InfluenceBuffer::with_len(3);
    let mut b = InfluenceBuffer::with_len(3);

    a.add(0, Vec2::new(1.0, 0.0));
    a.add(1, Vec2::new(0.0, 1.0));

    b.add(0, Vec2::new(2.0, 0.0));
    b.add(2, Vec2::new(0.0, 3.0));

    a.merge_from(&b);

    assert_eq!(a.dir[0], Vec2::new(3.0, 0.0));
    assert_eq!(a.count[0], 2);

    assert_eq!(a.dir[1], Vec2::new(0.0, 1.0));
    assert_eq!(a.count[1], 1);

    assert_eq!(a.dir[2], Vec2::new(0.0, 3.0));
    assert_eq!(a.count[2], 1);
}

fn lanes(v: Vec2) -> (u32, u32) {
    (v.x.to_bits(), v.y.to_bits())
}

#[test]
fn avg_dir_without_pull_is_exactly_zero() {
    let buf = InfluenceBuffer::with_len(3);
    for id in 0..3 {
        assert_eq!(lanes(buf.avg_dir(id)), (0, 0));
    }
}

#[test]
fn avg_dir_is_the_sum_divided_by_the_count() {
    let vs = [Vec2::new(0.1, 7.0), Vec2::new(-2.5, 0.3), Vec2::new(1e-3, 4.0)];
    let mut buf = InfluenceBuffer::with_len(2);
    for v in vs {
        buf.add(1, v);
    }
    let total = ((Vec2::ZERO + vs[0]) + vs[1]) + vs[2];
    assert_eq!(lanes(buf.dir[1]), lanes(total));
    assert_eq!(lanes(buf.avg_dir(1)), lanes(total / 3.0));
    assert_eq!(buf.count[1], 3);
    assert_eq!(lanes(buf.avg_dir(0)), (0, 0));
}

#[test]
fn avg_dir_divides_by_large_counts_as_a_scalar_division_does() {
    let mut buf = InfluenceBuffer::with_len(1);
    buf.dir[0] = Vec2::new(1.0e9, -3.0);
    for c in [1u32, 2, 3, 7, 1000, 16_777_217, u32::MAX] {
        buf.count[0] = c;
        let expected = Vec2::new(1.0e9, -3.0) / (c as f32);
        assert_eq!(lanes(buf.avg_dir(0)), lanes(expected));
    }
}

#[test]
fn ensure_len_twice_gives_an_empty_buffer_of_the_last_length() {
    let mut buf = InfluenceBuffer::with_len(2);
    buf.add(1, Vec2::new(1.0, 1.0));
    buf.ensure_len(5);
    buf.add(4, Vec2::new(1.0, 1.0));
    buf.ensure_len(5);
    assert_eq!(buf.count, vec![0; 5]);
    assert!(buf.dir.iter().all(|v| lanes(*v) == (0, 0)));
    buf.add(0, Vec2::new(1.0, 1.0));
    buf.ensure_len(0);
    assert!(buf.count.is_empty());
    assert!(buf.dir.is_empty());
}

#[test]
fn ensure_len_mends_parts_of_unequal_length() {
    let mut buf = InfluenceBuffer::with_len(3);
    buf.count.push(9);
    buf.ensure_len(3);
    assert_eq!(buf.count, vec![0; 3]);
    assert_eq!(buf.dir.len(), 3);
}

#[test]
fn merge_from_counts_do_not_depend_on_the_order() {
    let mut a = InfluenceBuffer::with_len(2);
    a.add(0, Vec2::new(1.0, 0.0));
    a.add(0, Vec2::new(1.0, 0.0));
    let mut b = InfluenceBuffer::with_len(2);
    b.add(1, Vec2::new(0.0, 2.0));
    b.add(0, Vec2::new(0.5, 0.5));

    let mut ab = InfluenceBuffer::with_len(2);
    ab.merge_from(&a);
    ab.merge_from(&b);
    let mut ba = InfluenceBuffer::with_len(2);
    ba.merge_from(&b);
    ba.merge_from(&a);

    assert_eq!(ab.count, vec![3, 1]);
    assert_eq!(ab.count, ba.count);
    assert_eq!(ab.dir, ba.dir);
    assert_eq!(ab.dir[0], Vec2::new(2.5, 0.5));
}

#[test]
fn merge_from_gives_the_same_buffer_whichever_is_merged_into_the_other() {
    let fill = |pulls: &[(usize, Vec2)]| {
        let mut buf = InfluenceBuffer::with_len(3);
        for &(id, v) in pulls {
            buf.add(id, v);
        }
        buf
    };
    let a0 = [(0, Vec2::new(0.1, 1.0e8)), (0, Vec2::new(0.7, 1.0)), (2, Vec2::new(-3.3, 1.0e-7))];
    let b0 = [(0, Vec2::new(0.2, -1.0e8)), (1, Vec2::new(1.0e-3, 2.0)), (2, Vec2::new(0.3, 5.5))];

    let mut x = fill(&a0);
    x.merge_from(&fill(&b0));
    let mut y = fill(&b0);
    y.merge_from(&fill(&a0));

    assert_eq!(x.count, vec![3, 1, 2]);
    assert_eq!(x.count, y.count);
    for id in 0..3 {
        assert_eq!(lanes(x.dir[id]), lanes(y.dir[id]));
        assert_eq!(lanes(x.avg_dir(id)), lanes(y.avg_dir(id)));
    }
}

#[test]
fn merge_from_counts_add_up_however_the_buffers_are_grouped() {
    let one = |id: usize, times: usize| {
        let mut buf = InfluenceBuffer::with_len(2);
        for _ in 0..times {
            buf.add(id, Vec2::new(1.0, 0.5));
        }
        buf
    };
    let (a, b, c) = (one(0, 3), one(0, 4), one(1, 5));

    let mut x = one(0, 3);
    x.merge_from(&b);
    x.merge_from(&c);
    let mut bc = one(0, 4);
    bc.merge_from(&c);
    let mut y = one(0, 3);
    y.merge_from(&bc);

    assert_eq!(x.count, vec![7, 5]);
    assert_eq!(y.count, x.count);
    assert_eq!(x.count[0], a.count[0] + b.count[0] + c.count[0]);
    // These sums have no rounding, so the directions agree as well.
    assert_eq!(x.dir, y.dir);
    assert_eq!(x.dir[0], Vec2::new(7.0, 3.5));
}

#[test]
fn merge_from_directions_can_differ_with_the_grouping() {
    let one = |v: Vec2| {
        let mut buf = InfluenceBuffer::with_len(1);
        buf.add(0, v);
        buf
    };
    let (a, b, c) = (Vec2::new(1.0e8, 0.0), Vec2::new(1.0, 0.0), Vec2::new(-1.0e8, 0.0));

    let mut x = one(a);
    x.merge_from(&one(b));
    x.merge_from(&one(c));
    let mut y = one(a);
    y.merge_from(&one(c));
    y.merge_from(&one(b));

    assert_eq!(x.count, y.count);
    assert_eq!(x.dir[0], Vec2::new(0.0, 0.0));
    assert_eq!(y.dir[0], Vec2::new(1.0, 0.0));
}
