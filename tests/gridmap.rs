use gridmap::cell::{Cell, Opt};
use gridmap::gridmap::bounding_box::BoundingBox;
use gridmap::gridmap::GridMap;
use gridmap::transform::mirror::Mirror;
use gridmap::transform::translate::Translate;
use gridmap::transform::Transform;

fn sorted(mut v: Vec<([isize; 2], i32)>) -> Vec<([isize; 2], i32)> {
    v.sort();
    v
}

#[test]
fn never_written_cells_are_null() {
    let mut g = GridMap::<i32, 2>::new([4, 4]);
    assert_eq!(g.get(&[0, 0]), 0);
    assert_eq!(g.get(&[-100, 57]), 0);
    g.set(&[1, 1], 5);
    assert_eq!(g.get(&[1, 2]), 0);
    assert_eq!(g.get(&[-1, -1]), 0);
    assert!(g.get_chunk(&[5, 5]).is_none());
}

#[test]
fn set_then_get_returns_value() {
    let mut g = GridMap::<i32, 2>::new([4, 4]);
    g.set(&[-7, 13], 42);
    assert_eq!(g.get(&[-7, 13]), 42);
    g.set(&[-7, 13], -3);
    assert_eq!(g.get(&[-7, 13]), -3);
}

#[test]
fn set_null_evicts_lone_chunk() {
    let mut g = GridMap::<i32, 2>::new([4, 4]);
    g.set(&[5, 6], 9);
    assert!(g.get_chunk(&[1, 1]).is_some());
    g.set(&[5, 6], 0);
    assert_eq!(g.get(&[5, 6]), 0);
    assert!(g.get_chunk(&[1, 1]).is_none());
}

#[test]
fn set_null_keeps_chunk_with_other_cells() {
    let mut g = GridMap::<i32, 2>::new([4, 4]);
    g.set(&[5, 6], 9);
    g.set(&[4, 4], 2);
    g.set(&[5, 6], 0);
    assert_eq!(g.get(&[5, 6]), 0);
    assert_eq!(g.get(&[4, 4]), 2);
    assert!(g.get_chunk(&[1, 1]).is_some());
}

#[test]
fn set_null_where_nothing_is_resident_is_noop() {
    let mut g = GridMap::<i32, 2>::new([4, 4]);
    g.set(&[100, 100], 0);
    assert!(g.get_chunk(&[25, 25]).is_none());
    assert!(g.indexed_iter().is_empty());
}

#[test]
fn prune_twice_changes_nothing_more() {
    let mut g = GridMap::<i32, 2>::new([4, 4]);
    g.set(&[0, 0], 1);
    g.set(&[9, 9], 1);
    assert!(!g.try_free_chunk(&[0, 0]));
    g.prune();
    assert!(g.get_chunk(&[0, 0]).is_some());
    assert!(g.get_chunk(&[2, 2]).is_some());
    g.prune();
    assert!(g.get_chunk(&[0, 0]).is_some());
    assert!(g.get_chunk(&[2, 2]).is_some());
    assert_eq!(g.get(&[9, 9]), 1);
    assert_eq!(g.indexed_iter().len(), 2);
}

#[test]
fn try_free_chunk_on_absent_chunk() {
    let mut g = GridMap::<i32, 2>::new([4, 4]);
    assert!(!g.try_free_chunk(&[3, 3]));
}

#[test]
fn split_index_negative_coordinates() {
    let g = GridMap::<i32, 1>::new([12]);
    assert_eq!(g.split_index(&[-1]), ([-1], [11]));
    assert_eq!(g.split_index(&[-12]), ([-1], [0]));
    assert_eq!(g.split_index(&[-13]), ([-2], [11]));
    assert_eq!(g.split_index(&[11]), ([0], [11]));
    assert_eq!(g.split_index(&[12]), ([1], [0]));
}

#[test]
fn split_index_round_trip() {
    let g = GridMap::<i32, 2>::new([5, 3]);
    for x in -20isize..20 {
        for y in -20isize..20 {
            let (chunk, local) = g.split_index(&[x, y]);
            assert_eq!(chunk[0] * 5 + local[0] as isize, x);
            assert_eq!(chunk[1] * 3 + local[1] as isize, y);
            assert!(local[0] < 5 && local[1] < 3);
        }
    }
}

#[test]
fn split_index_extreme_coordinates() {
    let g = GridMap::<i32, 1>::new([3]);
    let (chunk, local) = g.split_index(&[isize::MIN]);
    assert_eq!(chunk[0] as i128 * 3 + local[0] as i128, isize::MIN as i128);
    let (chunk, local) = g.split_index(&[isize::MAX]);
    assert_eq!(chunk[0] as i128 * 3 + local[0] as i128, isize::MAX as i128);
}

#[test]
fn four_cells_scenario() {
    let mut g = GridMap::<i32, 2>::new([4, 4]);
    g.set(&[0, 0], 1);
    g.set(&[3, 3], 1);
    g.set(&[4, 4], 1);
    g.set(&[-1, -1], 1);
    assert!(g.get_chunk(&[0, 0]).is_some());
    assert!(g.get_chunk(&[1, 1]).is_some());
    assert!(g.get_chunk(&[-1, -1]).is_some());
    assert!(g.get_chunk(&[0, 1]).is_none());
    assert_eq!(g.get(&[3, 3]), 1);
    assert_eq!(g.get(&[2, 2]), 0);
    let b = g.boundaries();
    assert_eq!(b.start, [-1, -1]);
    assert_eq!(b.end, [4, 4]);
}

#[test]
fn boundaries_of_empty_grid() {
    let g = GridMap::<i32, 2>::new([4, 4]);
    let b = g.boundaries();
    assert_eq!(b.start, [isize::MAX, isize::MAX]);
    assert_eq!(b.end, [isize::MIN, isize::MIN]);
}

#[test]
fn boundaries_single_cell_3d() {
    let mut g = GridMap::<u8, 3>::new([2, 3, 4]);
    g.set(&[-5, 7, 100], 3);
    let b = g.boundaries();
    assert_eq!(b.start, [-5, 7, 100]);
    assert_eq!(b.end, [-5, 7, 100]);
}

#[test]
fn boundaries_uses_tightest_cells() {
    let mut g = GridMap::<i32, 2>::new([10, 10]);
    g.set(&[3, 8], 1);
    g.set(&[7, 2], 1);
    g.set(&[25, -4], 1);
    let b = g.boundaries();
    assert_eq!(b.start, [3, -4]);
    assert_eq!(b.end, [25, 8]);
}

#[test]
fn chunk_cells_are_row_major() {
    let mut g = GridMap::<i32, 2>::new([2, 3]);
    g.set(&[1, 2], 7);
    g.set(&[0, 1], 5);
    let chunk = g.get_chunk(&[0, 0]).unwrap();
    assert_eq!(chunk.coord(), [0, 0]);
    assert_eq!(chunk.cells(), &[0, 5, 0, 0, 0, 7]);
    assert_eq!(*chunk.get(&[1, 2]), 7);
    assert!(!chunk.is_chunk_empty());
    assert_eq!(*g.index_chunk_cell(&[0, 0], &[0, 1]), 5);
    assert_eq!(*g.index_chunk_cell(&[4, 4], &[0, 1]), 0);
}

#[test]
fn indexed_iter_lists_every_occupied_cell() {
    let mut g = GridMap::<i32, 2>::new([4, 4]);
    g.set(&[0, 0], 1);
    g.set(&[3, 3], 2);
    g.set(&[4, 4], 3);
    g.set(&[-1, -1], 4);
    let cells: Vec<([isize; 2], i32)> = g.indexed_iter().into_iter().map(|(c, v)| (c, *v)).collect();
    assert_eq!(
        sorted(cells),
        vec![([-1, -1], 4), ([0, 0], 1), ([3, 3], 2), ([4, 4], 3)]
    );
    let mut values: Vec<i32> = g.iter().into_iter().copied().collect();
    values.sort();
    assert_eq!(values, vec![1, 2, 3, 4]);
}

#[test]
fn bounded_iter_equals_filtered_indexed_iter() {
    let mut g = GridMap::<i32, 2>::new([4, 4]);
    let mut v = 1;
    for x in -9isize..9 {
        for y in -9isize..9 {
            if (x * 7 + y * 3).rem_euclid(5) == 0 {
                g.set(&[x, y], v);
                v += 1;
            }
        }
    }
    let boxes = [
        BoundingBox { start: [-3, -2], end: [5, 1] },
        BoundingBox { start: [0, 0], end: [1, 1] },
        BoundingBox { start: [4, 4], end: [4, 4] },
        BoundingBox { start: [-100, -100], end: [100, 100] },
        BoundingBox::default(),
    ];
    for b in boxes.iter() {
        let bounded: Vec<([isize; 2], i32)> =
            g.bounded_iter(*b).into_iter().map(|(c, v)| (c, *v)).collect();
        let filtered: Vec<([isize; 2], i32)> = g
            .indexed_iter()
            .into_iter()
            .filter(|(c, _)| b.contains(c))
            .map(|(c, v)| (c, *v))
            .collect();
        assert_eq!(sorted(bounded), sorted(filtered));
    }
}

#[test]
fn bounded_iter_culls_outside_cells() {
    let mut g = GridMap::<i32, 2>::new([4, 4]);
    g.set(&[1, 1], 1);
    g.set(&[2, 2], 2);
    g.set(&[50, 50], 3);
    let cells: Vec<([isize; 2], i32)> = g
        .bounded_iter(BoundingBox { start: [0, 0], end: [2, 2] })
        .into_iter()
        .map(|(c, v)| (c, *v))
        .collect();
    assert_eq!(cells, vec![([1, 1], 1)]);
}

#[test]
fn copy_to_translates_single_cell() {
    let mut src = GridMap::<i32, 2>::new([4, 4]);
    src.set(&[0, 0], 8);
    let mut dst = GridMap::<i32, 2>::new([4, 4]);
    let t = Translate([5, 0]);
    let ts: [&dyn Transform<[isize; 2]>; 1] = [&t];
    src.copy_to(&mut dst, &ts);
    let cells: Vec<([isize; 2], i32)> = dst.indexed_iter().into_iter().map(|(c, v)| (c, *v)).collect();
    assert_eq!(cells, vec![([5, 0], 8)]);
    let cells: Vec<([isize; 2], i32)> = src.indexed_iter().into_iter().map(|(c, v)| (c, *v)).collect();
    assert_eq!(cells, vec![([0, 0], 8)]);
}

#[test]
fn copy_to_keeps_untouched_target_cells() {
    let mut src = GridMap::<i32, 2>::new([4, 4]);
    src.set(&[1, 2], 3);
    src.set(&[-6, 0], 4);
    let mut dst = GridMap::<i32, 2>::new([4, 4]);
    dst.set(&[100, 100], 9);
    let m = Mirror([true, false]);
    let t = Translate([1, 1]);
    let ts: [&dyn Transform<[isize; 2]>; 2] = [&m, &t];
    src.copy_to(&mut dst, &ts);
    assert_eq!(dst.get(&[0, 3]), 3);
    assert_eq!(dst.get(&[7, 1]), 4);
    assert_eq!(dst.get(&[100, 100]), 9);
    assert_eq!(dst.indexed_iter().len(), 3);
}

#[test]
fn copy_to_within_copies_only_inside_box() {
    let mut src = GridMap::<i32, 2>::new([4, 4]);
    src.set(&[0, 0], 1);
    src.set(&[10, 10], 2);
    let mut dst = GridMap::<i32, 2>::new([4, 4]);
    let t = Translate([0, -1]);
    let ts: [&dyn Transform<[isize; 2]>; 1] = [&t];
    src.copy_to_within(&mut dst, &ts, &BoundingBox { start: [-1, -1], end: [5, 5] });
    assert_eq!(dst.get(&[0, -1]), 1);
    assert_eq!(dst.get(&[10, 9]), 0);
    assert_eq!(dst.indexed_iter().len(), 1);
}

#[test]
fn with_capacity_starts_empty() {
    let mut g = GridMap::<u64, 3>::with_capacity([8, 8, 8], 16);
    assert!(g.indexed_iter().is_empty());
    assert_eq!(g.chunk_dim(), [8, 8, 8]);
    g.set(&[-1, -1, -1], 77);
    let chunk = g.get_chunk(&[-1, -1, -1]).unwrap();
    assert_eq!(chunk.cells().len(), 512);
    assert_eq!(chunk.cells()[511], 77);
}

#[test]
fn option_cells() {
    let mut g = GridMap::<Opt<u8>, 2>::new([3, 3]);
    assert!(g.get(&[1, 1]).0.is_none());
    g.set(&[1, 1], Opt(Some(0)));
    assert_eq!(g.get(&[1, 1]).0, Some(0));
    g.set(&[1, 1], Opt(None));
    assert!(g.get_chunk(&[0, 0]).is_none());
    assert!(Opt::<u8>::null().is_null());
    assert!(!Opt(Some(3u8)).is_null());
}

#[test]
fn numeric_null_is_zero() {
    assert_eq!(<i64 as Cell>::null(), 0);
    assert!(0u16.is_null());
    assert!(!(-1i8).is_null());
    assert!(!7usize.is_null());
}

#[test]
fn chunk_mut_access_writes_cells() {
    let mut g = GridMap::<i32, 2>::new([4, 4]);
    g.set(&[1, 1], 1);
    {
        let chunk = g.get_chunk_mut(&[0, 0]).unwrap();
        *chunk.get_mut(&[2, 3]) = 6;
        assert_eq!(chunk.dim(), [4, 4]);
    }
    assert_eq!(g.get(&[2, 3]), 6);
    *g.get_chunk_mut(&[0, 0]).unwrap().get_mut(&[1, 1]) = 0;
    *g.get_chunk_mut(&[0, 0]).unwrap().get_mut(&[2, 3]) = 0;
    assert!(g.get_chunk(&[0, 0]).is_some());
    assert!(g.try_free_chunk(&[0, 0]));
    assert!(g.get_chunk(&[0, 0]).is_none());
    assert!(g.get_chunk_mut(&[0, 0]).is_none());
}

#[test]
fn index_chunk_cell_mut_allocates() {
    let mut g = GridMap::<i32, 2>::new([4, 4]);
    *g.index_chunk_cell_mut([-2, 3], &[3, 0]) = 4;
    assert_eq!(g.get(&[-5, 12]), 4);
    *g.index_chunk_cell_mut([-2, 3], &[3, 0]) = 0;
    assert!(g.get_chunk(&[-2, 3]).is_some());
    g.prune();
    assert!(g.get_chunk(&[-2, 3]).is_none());
}

#[test]
fn default_grid_has_chunks_of_twelve() {
    let mut g = GridMap::<i32, 2>::default();
    assert_eq!(g.chunk_dim(), [12, 12]);
    assert_eq!(g.split_index(&[-1, 12]), ([-1, 1], [11, 0]));
    g.set(&[-1, 12], 3);
    assert_eq!(g.get(&[-1, 12]), 3);
    assert!(g.get_chunk(&[-1, 1]).is_some());
}
