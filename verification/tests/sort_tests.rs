use algos::sort::{
    bubble, cocktail, combine, heap, heapify, insection, merge, partition, partition_at, quick,
    selection,
};

fn by_key(a: &(i32, char), b: &(i32, char)) -> bool {
    a.0 < b.0
}

fn is_sorted_by_key(v: &[(i32, char)]) -> bool {
    v.windows(2).all(|w| !by_key(&w[1], &w[0]))
}

fn next_permutation(v: &mut [i32]) -> bool {
    if v.len() < 2 {
        return false;
    }
    let mut i = v.len() - 1;
    while i > 0 && v[i - 1] >= v[i] {
        i -= 1;
    }
    if i == 0 {
        return false;
    }
    let mut j = v.len() - 1;
    while v[j] <= v[i - 1] {
        j -= 1;
    }
    v.swap(i - 1, j);
    v[i..].reverse();
    true
}

fn check_all_arrangements(len: usize, sort: fn(&mut [i32])) {
    // every arrangement of 0..len, and of a sequence with repeated values
    let mut distinct: Vec<i32> = (0..len as i32).collect();
    loop {
        let mut v = distinct.clone();
        sort(&mut v);
        let expected: Vec<i32> = (0..len as i32).collect();
        assert_eq!(v, expected, "input {:?}", distinct);
        if !next_permutation(&mut distinct) {
            break;
        }
    }
    let mut repeated: Vec<i32> = (0..len as i32).map(|x| x / 2).collect();
    let expected = repeated.clone();
    loop {
        let mut v = repeated.clone();
        sort(&mut v);
        assert_eq!(v, expected, "input {:?}", repeated);
        if !next_permutation(&mut repeated) {
            break;
        }
    }
}

#[test]
fn selection_test() {
    let p = [3, 5, 7, 7, 8, 9, 12, 15, 23, 30, 99];
    let mut v = [9, 3, 5, 7, 8, 7, 99, 30, 23, 15, 12];

    selection(&mut v, &|a, b| a < b);
    assert_eq!(v, p);
}

#[test]
fn bubble_test() {
    let p = [3, 5, 7, 7, 8, 9, 12, 15, 23, 30, 99];
    let mut v = [9, 3, 5, 7, 8, 7, 99, 30, 23, 15, 12];

    bubble(&mut v, &|a, b| a < b);
    assert_eq!(v, p);
}

#[test]
fn cocktail_test() {
    let p = [3, 5, 7, 7, 8, 9, 12, 15, 23, 30, 99];
    let mut v = [9, 3, 5, 7, 8, 7, 99, 30, 23, 15, 12];

    cocktail(&mut v, &|a, b| a < b);
    assert_eq!(v, p);
}

#[test]
fn insection_test() {
    let p = [3, 5, 7, 7, 8, 9, 12, 15, 23, 30, 99];
    let mut v = [9, 3, 5, 7, 8, 7, 99, 30, 23, 15, 12];

    insection(&mut v, &|a, b| a < b);
    assert_eq!(v, p);
}

#[test]
fn merge_test() {
    let p = [3, 5, 7, 7, 8, 9, 12, 15, 23, 30, 99];
    let mut v = [9, 3, 5, 7, 8, 7, 99, 30, 23, 15, 12];

    merge(&mut v, &|a, b| a < b);
    assert_eq!(v, p);
}

#[test]
fn quick_test() {
    let p = [3, 5, 7, 7, 8, 9, 12, 15, 23, 30, 99];
    let mut v = [9, 3, 5, 7, 8, 7, 99, 30, 23, 15, 12];

    quick(&mut v, &|a, b| a < b);
    assert_eq!(v, p);
}

#[test]
fn heap_test() {
    let p = [3, 5, 7, 7, 8, 9, 12, 15, 23, 30, 99];
    let mut v = [9, 3, 5, 7, 8, 7, 99, 30, 23, 15, 12];

    heap(&mut v, &|a, b| a < b);
    assert_eq!(v, p);
}

#[test]
fn every_sort_accepts_the_empty_slice() {
    let mut v: [i32; 0] = [];
    selection(&mut v, &|a, b| a < b);
    bubble(&mut v, &|a, b| a < b);
    cocktail(&mut v, &|a, b| a < b);
    insection(&mut v, &|a, b| a < b);
    merge(&mut v, &|a, b| a < b);
    quick(&mut v, &|a, b| a < b);
    heap(&mut v, &|a, b| a < b);
    assert_eq!(v, []);
}

#[test]
fn every_sort_leaves_a_single_element() {
    let sorts: [fn(&mut [i32]); 7] = [
        |v| selection(v, &|a, b| a < b),
        |v| bubble(v, &|a, b| a < b),
        |v| cocktail(v, &|a, b| a < b),
        |v| insection(v, &|a, b| a < b),
        |v| merge(v, &|a, b| a < b),
        |v| quick(v, &|a, b| a < b),
        |v| heap(v, &|a, b| a < b),
    ];
    for sort in sorts {
        let mut v = [5];
        sort(&mut v);
        assert_eq!(v, [5]);
    }
}

#[test]
fn every_sort_leaves_equal_elements() {
    let sorts: [fn(&mut [i32]); 7] = [
        |v| selection(v, &|a, b| a < b),
        |v| bubble(v, &|a, b| a < b),
        |v| cocktail(v, &|a, b| a < b),
        |v| insection(v, &|a, b| a < b),
        |v| merge(v, &|a, b| a < b),
        |v| quick(v, &|a, b| a < b),
        |v| heap(v, &|a, b| a < b),
    ];
    for sort in sorts {
        let mut v = [4, 4, 4, 4];
        sort(&mut v);
        assert_eq!(v, [4, 4, 4, 4]);
    }
}

#[test]
fn selection_sorts_every_short_arrangement() {
    for len in 0..7 {
        check_all_arrangements(len, |v| selection(v, &|a, b| a < b));
    }
}

#[test]
fn bubble_sorts_every_short_arrangement() {
    for len in 0..7 {
        check_all_arrangements(len, |v| bubble(v, &|a, b| a < b));
    }
}

#[test]
fn cocktail_sorts_every_short_arrangement() {
    for len in 0..7 {
        check_all_arrangements(len, |v| cocktail(v, &|a, b| a < b));
    }
}

#[test]
fn cocktail_sorts_two_and_three_elements() {
    let mut v = [2, 1];
    cocktail(&mut v, &|a, b| a < b);
    assert_eq!(v, [1, 2]);
    let mut v = [2, 3, 1];
    cocktail(&mut v, &|a, b| a < b);
    assert_eq!(v, [1, 2, 3]);
    let mut v = [3, 2, 1];
    cocktail(&mut v, &|a, b| a < b);
    assert_eq!(v, [1, 2, 3]);
    let mut v = [3, 1, 2];
    cocktail(&mut v, &|a, b| a < b);
    assert_eq!(v, [1, 2, 3]);
}

#[test]
fn insection_sorts_every_short_arrangement() {
    for len in 0..7 {
        check_all_arrangements(len, |v| insection(v, &|a, b| a < b));
    }
}

#[test]
fn merge_sorts_every_short_arrangement() {
    for len in 0..7 {
        check_all_arrangements(len, |v| merge(v, &|a, b| a < b));
    }
}

#[test]
fn quick_sorts_every_short_arrangement() {
    for len in 0..7 {
        check_all_arrangements(len, |v| quick(v, &|a, b| a < b));
    }
}

#[test]
fn heap_sorts_every_short_arrangement() {
    for len in 0..8 {
        check_all_arrangements(len, |v| heap(v, &|a, b| a < b));
    }
}

#[test]
fn heap_sorts_three_ascending_elements() {
    let mut v = [1, 2, 3];
    heap(&mut v, &|a, b| a < b);
    assert_eq!(v, [1, 2, 3]);
}

#[test]
fn sorts_follow_the_given_ordering() {
    let mut v = [9, 3, 5, 7, 8, 7];
    bubble(&mut v, &|a, b| a > b);
    assert_eq!(v, [9, 8, 7, 7, 5, 3]);
    let mut v = [9, 3, 5, 7, 8, 7];
    heap(&mut v, &|a, b| a > b);
    assert_eq!(v, [9, 8, 7, 7, 5, 3]);
    let mut v = [9, 3, 5, 7, 8, 7];
    merge(&mut v, &|a, b| a > b);
    assert_eq!(v, [9, 8, 7, 7, 5, 3]);
}

#[test]
fn stable_sorts_keep_tagged_duplicates_in_order() {
    let input = [(4, 'a'), (2, 'b'), (4, 'c'), (1, 'd'), (2, 'e'), (4, 'f'), (1, 'g')];
    let expected = [(1, 'd'), (1, 'g'), (2, 'b'), (2, 'e'), (4, 'a'), (4, 'c'), (4, 'f')];
    let mut v = input;
    bubble(&mut v, &by_key);
    assert_eq!(v, expected);
    let mut v = input;
    insection(&mut v, &by_key);
    assert_eq!(v, expected);
    let mut v = input;
    merge(&mut v, &by_key);
    assert_eq!(v, expected);
    let mut v = input;
    cocktail(&mut v, &by_key);
    assert_eq!(v, expected);
}

#[test]
fn merge_keeps_a_tied_pair_in_order() {
    let mut v = [(4, 'a'), (4, 'b')];
    merge(&mut v, &by_key);
    assert_eq!(v, [(4, 'a'), (4, 'b')]);
}

#[test]
fn sorts_rearrange_tagged_elements() {
    let input = [(4, 'a'), (2, 'b'), (4, 'c'), (1, 'd'), (2, 'e'), (4, 'f'), (1, 'g')];
    let sorts: [fn(&mut [(i32, char)]); 3] =
        [|v| selection(v, &by_key), |v| quick(v, &by_key), |v| heap(v, &by_key)];
    for sort in sorts {
        let mut v = input;
        sort(&mut v);
        assert!(is_sorted_by_key(&v));
        let mut got = v.to_vec();
        got.sort();
        let mut want = input.to_vec();
        want.sort();
        assert_eq!(got, want);
    }
}

#[test]
fn sorted_input_is_left_alone() {
    let input = [(1, 'd'), (1, 'g'), (2, 'b'), (2, 'e'), (4, 'a'), (4, 'c'), (4, 'f')];
    let sorts: [fn(&mut [(i32, char)]); 5] = [
        |v| selection(v, &by_key),
        |v| bubble(v, &by_key),
        |v| cocktail(v, &by_key),
        |v| insection(v, &by_key),
        |v| merge(v, &by_key),
    ];
    for sort in sorts {
        let mut v = input;
        sort(&mut v);
        assert_eq!(v, input);
    }
    let distinct = [1, 2, 3, 5, 8, 13, 21];
    let mut v = distinct;
    quick(&mut v, &|a, b| a < b);
    assert_eq!(v, distinct);
    let mut v = distinct;
    heap(&mut v, &|a, b| a < b);
    assert_eq!(v, distinct);
}

#[test]
fn sorting_twice_gives_the_same_result() {
    let input = [9, 3, 5, 7, 8, 7, 99, 30, 23, 15, 12];
    let sorts: [fn(&mut [i32]); 6] = [
        |v| selection(v, &|a, b| a < b),
        |v| bubble(v, &|a, b| a < b),
        |v| cocktail(v, &|a, b| a < b),
        |v| insection(v, &|a, b| a < b),
        |v| merge(v, &|a, b| a < b),
        |v| heap(v, &|a, b| a < b),
    ];
    for sort in sorts {
        let mut first = input;
        sort(&mut first);
        let mut second = input;
        sort(&mut second);
        assert_eq!(first, second);
    }
}

#[test]
fn combine_merges_two_runs() {
    let l = [1, 4, 6, 9];
    let r = [2, 3, 7];
    let mut o = [0; 7];
    combine(&l, &r, &mut o, &|a, b| a < b);
    assert_eq!(o, [1, 2, 3, 4, 6, 7, 9]);
}

#[test]
fn combine_takes_ties_from_the_left_run_first() {
    let l = [(1, 'a'), (3, 'b'), (3, 'c')];
    let r = [(1, 'x'), (2, 'y'), (3, 'z')];
    let mut o = [(0, ' '); 6];
    combine(&l, &r, &mut o, &by_key);
    assert_eq!(o, [(1, 'a'), (1, 'x'), (2, 'y'), (3, 'b'), (3, 'c'), (3, 'z')]);
}

#[test]
fn combine_accepts_an_empty_run() {
    let l: [i32; 0] = [];
    let r = [2, 3, 7];
    let mut o = [0; 3];
    combine(&l, &r, &mut o, &|a, b| a < b);
    assert_eq!(o, [2, 3, 7]);
    let mut o = [0; 3];
    combine(&r, &l, &mut o, &|a, b| a < b);
    assert_eq!(o, [2, 3, 7]);
}

#[test]
fn partition_at_splits_around_the_chosen_element() {
    let mut v = [9, 3, 5, 7, 8, 7, 99, 30];
    let split = partition_at(&mut v, &|a, b| a < b, 4);
    assert_eq!(split, 4);
    assert_eq!(v, [3, 5, 7, 7, 8, 9, 99, 30]);
}

#[test]
fn partition_at_handles_the_ends() {
    let mut v = [5];
    assert_eq!(partition_at(&mut v, &|a, b| a < b, 0), 0);
    assert_eq!(v, [5]);
    let mut v = [1, 2, 3];
    assert_eq!(partition_at(&mut v, &|a, b| a < b, 2), 2);
    assert_eq!(v, [1, 2, 3]);
    let mut v = [1, 2, 3];
    assert_eq!(partition_at(&mut v, &|a, b| a < b, 0), 0);
    assert_eq!(v, [1, 2, 3]);
}

#[test]
fn partition_of_nothing_is_zero() {
    let mut v: [i32; 0] = [];
    assert_eq!(partition(&mut v, &|a, b| a < b), 0);
}

#[test]
fn partition_splits_around_some_element() {
    for _ in 0..50 {
        let mut v = [9, 3, 5, 7, 8, 7, 99, 30, 23, 15, 12];
        let split = partition(&mut v, &|a, b| a < b);
        assert!(split < v.len());
        assert!(v[..split].iter().all(|x| *x < v[split]));
        assert!(v[split + 1..].iter().all(|x| *x >= v[split]));
        let mut got = v.to_vec();
        got.sort();
        assert_eq!(got, [3, 5, 7, 7, 8, 9, 12, 15, 23, 30, 99]);
    }
}

#[test]
fn partition_picks_more_than_one_pivot() {
    let mut seen = [false; 10];
    for _ in 0..400 {
        let mut v = [0, 1, 2, 3, 4, 5, 6, 7, 8, 9];
        let split = partition(&mut v, &|a, b| a < b);
        seen[split] = true;
    }
    assert!(seen.iter().filter(|s| **s).count() > 1);
}

#[test]
fn heapify_sifts_the_root_down() {
    // node k has its children at 2k and 2k + 1
    let mut v = [1, 9, 8, 7, 6, 5, 4];
    heapify(&mut v, &|a, b| a < b, 0);
    assert_eq!(v, [9, 8, 6, 7, 1, 5, 4]);
}

#[test]
fn heapify_leaves_a_heap_and_leaves_alone() {
    let mut v = [9, 8, 6, 7, 1, 5, 4];
    heapify(&mut v, &|a, b| a < b, 0);
    assert_eq!(v, [9, 8, 6, 7, 1, 5, 4]);
    let mut v = [1, 2, 3, 4];
    heapify(&mut v, &|a, b| a < b, 3);
    assert_eq!(v, [1, 2, 3, 4]);
    heapify(&mut v, &|a, b| a < b, 9);
    assert_eq!(v, [1, 2, 3, 4]);
    let mut e: [i32; 0] = [];
    heapify(&mut e, &|a, b| a < b, 0);
    assert_eq!(e, []);
}

#[test]
fn heap_may_reorder_equivalent_elements() {
    let mut v = [(4, 'a'), (4, 'b')];
    heap(&mut v, &by_key);
    assert_eq!(v, [(4, 'b'), (4, 'a')]);
}

#[test]
fn selection_exchanges_the_first_least_element_into_place() {
    let mut v = [(2, 'a'), (2, 'b'), (1, 'c')];
    selection(&mut v, &by_key);
    assert_eq!(v, [(1, 'c'), (2, 'b'), (2, 'a')]);
    let mut v = [(3, 'a'), (1, 'b'), (1, 'c'), (2, 'd')];
    selection(&mut v, &by_key);
    assert_eq!(v, [(1, 'b'), (1, 'c'), (2, 'd'), (3, 'a')]);
}

#[test]
fn partition_at_gathers_in_scan_order() {
    let mut v = [(5, 'p'), (1, 'a'), (9, 'b'), (1, 'c'), (5, 'd'), (0, 'e')];
    let split = partition_at(&mut v, &by_key, 0);
    assert_eq!(split, 3);
    assert_eq!(v, [(0, 'e'), (1, 'a'), (1, 'c'), (5, 'p'), (5, 'd'), (9, 'b')]);
}

#[test]
fn quick_sorts_a_longer_sequence_on_every_run() {
    for _ in 0..100 {
        let mut v: Vec<i32> = (0..200).map(|x| (x * 7919) % 199).collect();
        let mut expected = v.clone();
        expected.sort();
        quick(&mut v, &|a, b| a < b);
        assert_eq!(v, expected);
    }
}

#[test]
fn sorts_agree_on_a_longer_sequence() {
    let input: Vec<(i32, char)> =
        (0..150).map(|x| ((x * 31) % 17, (b'a' + (x % 26) as u8) as char)).collect();
    let mut expected = input.clone();
    expected.sort_by_key(|x| x.0);
    let stable_sorts: [fn(&mut [(i32, char)]); 4] = [
        |v| bubble(v, &by_key),
        |v| cocktail(v, &by_key),
        |v| insection(v, &by_key),
        |v| merge(v, &by_key),
    ];
    for sort in stable_sorts {
        let mut v = input.clone();
        sort(&mut v);
        assert_eq!(v, expected);
    }
    let other_sorts: [fn(&mut [(i32, char)]); 3] =
        [|v| selection(v, &by_key), |v| quick(v, &by_key), |v| heap(v, &by_key)];
    for sort in other_sorts {
        let mut v = input.clone();
        sort(&mut v);
        assert!(is_sorted_by_key(&v));
        let mut got = v.clone();
        got.sort();
        let mut want = input.clone();
        want.sort();
        assert_eq!(got, want);
    }
}
