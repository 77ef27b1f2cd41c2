use vorothree::grid::{axis_gap, bin_coords, bin_index, neighbor_bin, search_offsets, GridBins};

#[test]
fn set_generators_lists_each_bin_in_order() {
    let mut g = GridBins::new(8);
    g.set_generators(&vec![3, 3, 0, 7]);
    assert_eq!(g.generator_bin, vec![3, 3, 0, 7]);
    assert_eq!(g.bins[3], vec![0, 1]);
    assert_eq!(g.bins[0], vec![2]);
    assert_eq!(g.bins[7], vec![3]);
    assert!(g.bins[1].is_empty());
    assert_eq!(g.count_generators(), 4);
    assert_eq!(g.num_bins(), 8);
}

#[test]
fn set_generators_replaces_the_previous_contents() {
    let mut g = GridBins::new(4);
    g.set_generators(&vec![1, 2, 3]);
    g.set_generators(&vec![0]);
    assert_eq!(g.bins, vec![vec![0], vec![], vec![], vec![]]);
}

#[test]
fn moving_a_generator_swaps_it_out_of_its_old_bin() {
    let mut g = GridBins::new(8);
    g.set_generators(&vec![3, 3, 3, 0]);
    g.update_generator(0, 5);
    assert_eq!(g.bins[3], vec![2, 1]);
    assert_eq!(g.bins[5], vec![0]);
    assert_eq!(g.generator_bin, vec![5, 3, 3, 0]);
}

#[test]
fn moving_within_the_same_bin_changes_nothing() {
    let mut g = GridBins::new(8);
    g.set_generators(&vec![3, 3]);
    g.update_generator(1, 3);
    assert_eq!(g.bins[3], vec![0, 1]);
    assert_eq!(g.generator_bin, vec![3, 3]);
}

#[test]
fn candidates_leave_out_the_query_generator() {
    let mut g = GridBins::new(2);
    g.set_generators(&vec![1, 1, 0, 1]);
    assert_eq!(g.candidates(1, 1), vec![0, 3]);
    assert_eq!(g.candidates(0, 1), vec![2]);
    assert_eq!(g.candidates(0, 2), Vec::<usize>::new());
}

#[test]
fn bin_index_runs_x_fastest() {
    assert_eq!(bin_index(0, 0, 0, 10, 10, 10), 0);
    assert_eq!(bin_index(1, 0, 0, 10, 10, 10), 1);
    assert_eq!(bin_index(0, 1, 0, 10, 10, 10), 10);
    assert_eq!(bin_index(1, 2, 3, 4, 5, 6), 69);
    assert_eq!(bin_coords(69, 4, 5, 6), (1, 2, 3));
    assert_eq!(bin_coords(119, 4, 5, 6), (3, 4, 5));
}

#[test]
fn neighbor_bins_outside_the_grid_are_skipped() {
    assert_eq!(neighbor_bin(0, 0, 0, -1, 0, 0, 2, 2, 2), None);
    assert_eq!(neighbor_bin(0, 0, 0, 1, 1, 1, 2, 2, 2), Some(7));
    assert_eq!(neighbor_bin(1, 1, 1, 1, 0, 0, 2, 2, 2), None);
    assert_eq!(neighbor_bin(1, 1, 1, -1, -1, -1, 2, 2, 2), Some(0));
    assert_eq!(neighbor_bin(0, 0, 0, isize::MIN, 0, 0, 2, 2, 2), None);
}

#[test]
fn axis_gap_counts_bins_strictly_between() {
    assert_eq!(axis_gap(0), 0);
    assert_eq!(axis_gap(1), 0);
    assert_eq!(axis_gap(-1), 0);
    assert_eq!(axis_gap(3), 2);
    assert_eq!(axis_gap(-3), 2);
}

#[test]
fn search_offsets_cover_the_block_x_fastest() {
    assert_eq!(search_offsets(1, 0, 0), vec![(-1, 0, 0), (0, 0, 0), (1, 0, 0)]);
    let all = search_offsets(1, 1, 1);
    assert_eq!(all.len(), 27);
    assert_eq!(all[0], (-1, -1, -1));
    assert_eq!(all[1], (0, -1, -1));
    assert_eq!(all[3], (-1, 0, -1));
    assert_eq!(all[26], (1, 1, 1));
    for x in -1..=1 {
        for y in -1..=1 {
            for z in -1..=1 {
                assert!(all.contains(&(x, y, z)));
            }
        }
    }
    assert_eq!(search_offsets(2, 1, 0).len(), 15);
}

#[test]
fn a_lone_generator_has_no_candidates() {
    let mut g = GridBins::new(27);
    g.set_generators(&vec![13]);
    for b in 0..27 {
        assert!(g.candidates(b, 0).is_empty());
    }
}

#[test]
fn every_generator_is_listed_once_after_moves() {
    let mut g = GridBins::new(5);
    g.set_generators(&vec![0, 1, 2, 3, 4, 0, 1, 2]);
    g.update_generator(3, 0);
    g.update_generator(5, 4);
    g.update_generator(0, 2);
    for j in 0..8 {
        let mut seen = 0;
        for b in 0..5 {
            for &x in &g.bins[b] {
                if x == j {
                    seen += 1;
                    assert_eq!(b, g.generator_bin[j]);
                }
            }
        }
        assert_eq!(seen, 1);
    }
}
