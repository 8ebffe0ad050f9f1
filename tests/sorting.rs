use cycle_sort::{cycle_sort, cycle_sort_by, cycle_sort_by_key};

use rand::distributions::Alphanumeric;
use rand::seq::SliceRandom;
use rand::{thread_rng, Rng};

fn is_sorted<T: PartialOrd>(s: &[T]) -> bool {
    s.windows(2).all(|w| w[0] <= w[1])
}

#[test]
fn zero_sized_elements() {
    const SIZE: usize = 1100;

    let mut array = [(); SIZE];

    for length in (0..10).chain(1000..SIZE + 1) {
        let mut slice = &mut array[..length];
        let writes = cycle_sort(&mut slice);

        assert_eq!(writes, 0);
    }
}

#[test]
fn basic_sort() {
    const SIZE: usize = 110;

    let mut array = [0_i32; SIZE];
    let mut rng = thread_rng();

    for length in (0..20).chain(100..SIZE + 1) {
        let mut slice = &mut array[..length];

        for _ in 0..10 {
            rng.fill(&mut *slice);
            cycle_sort(&mut slice);

            assert!(is_sorted(slice));
        }
    }
}

#[test]
fn sort_strings() {
    const SIZE: usize = 128;
    const LENGTH: usize = 128;

    let mut rng = thread_rng();
    let mut vec: Vec<String> = Vec::with_capacity(SIZE);

    for _ in 0..10 {
        vec.clear();

        // `SIZE` strings of `LENGTH` random alphanumeric characters
        for _ in 0..SIZE {
            let s: String = (&mut rng)
                .sample_iter(&Alphanumeric)
                .take(LENGTH)
                .map(char::from)
                .collect();
            vec.push(s);
        }

        vec.as_mut_slice().shuffle(&mut rng);
        cycle_sort(vec.as_mut_slice());

        assert!(is_sorted(vec.as_slice()));
    }
}

#[test]
fn many_duplicates() {
    const SIZE: usize = 100;

    let mut array = [0_u8; SIZE];
    let mut rng = thread_rng();

    for length in 80..SIZE {
        let mut slice = &mut array[..length];

        for divisor in &[11, 13, 17, 19] {
            for _ in 0..10 {
                rng.fill(&mut *slice);
                for x in slice.iter_mut() {
                    *x %= divisor;
                }

                cycle_sort(&mut slice);

                assert!(is_sorted(slice));
            }
        }
    }
}

#[test]
fn correct_writes() {
    const SIZE: usize = 25;

    let mut array = [0; SIZE];

    for i in 0..SIZE {
        array[i] = i;
    }

    let mut rng = thread_rng();

    for length in 1..SIZE + 1 {
        let mut slice = &mut array[..length];

        for _ in 0..10 {
            slice.shuffle(&mut rng);

            let expect = slice.iter().enumerate().filter(|&(i, v)| i != *v).count();
            let writes = cycle_sort(&mut slice);

            assert!(is_sorted(slice));
            assert_eq!(writes, expect);
        }
    }
}

#[test]
fn natural_order_example() {
    let mut a = [1, 4, 1, 5, 9, 2];
    let w = cycle_sort(&mut a);

    assert_eq!(a, [1, 1, 2, 4, 5, 9]);
    assert_eq!(w, 5);
}

#[test]
fn comparator_descending_example() {
    let mut a = ["davidii", "demissa", "deltoidea", "decapetala", "dahurica"];
    let w = cycle_sort_by(&mut a, &|a: &&str, b: &&str| b.cmp(a));

    assert_eq!(a, ["demissa", "deltoidea", "decapetala", "davidii", "dahurica"]);
    assert_eq!(w, 4);
}

#[test]
fn key_length_example() {
    let mut a = ["zwölf", "zzxjoanw", "zymbel"];
    let w = cycle_sort_by_key(&mut a, &|s: &&str| s.len());

    assert_eq!(a, ["zwölf", "zymbel", "zzxjoanw"]);
    assert_eq!(w, 2);
}

#[test]
fn empty_and_single_slices_need_no_writes() {
    let mut empty: [u32; 0] = [];
    assert_eq!(cycle_sort(&mut empty), 0);

    let mut one = [7_u32];
    assert_eq!(cycle_sort(&mut one), 0);
    assert_eq!(one, [7]);
}

#[test]
fn sorted_input_is_left_alone() {
    let mut a = [1, 2, 2, 3, 8, 13];
    assert_eq!(cycle_sort(&mut a), 0);
    assert_eq!(a, [1, 2, 2, 3, 8, 13]);

    // equal keys that are different values keep their slots
    let mut b = ["bb", "aa", "ccc", "ddd"];
    assert_eq!(cycle_sort_by_key(&mut b, &|s: &&str| s.len()), 0);
    assert_eq!(b, ["bb", "aa", "ccc", "ddd"]);
}

#[test]
fn all_equal_values_need_no_writes() {
    let mut a = [5_u64; 40];
    assert_eq!(cycle_sort(&mut a), 0);
    assert_eq!(a, [5_u64; 40]);
}

#[test]
fn reversed_input_writes_every_moved_slot() {
    let mut a = [5, 4, 3, 2, 1];
    // the middle element stays where it is
    assert_eq!(cycle_sort(&mut a), 4);
    assert_eq!(a, [1, 2, 3, 4, 5]);
}

#[test]
fn duplicates_are_placed_after_equal_elements() {
    let mut a = [3, 1, 3, 2, 3, 1, 2];
    let before = a;
    let w = cycle_sort(&mut a);

    assert_eq!(a, [1, 1, 2, 2, 3, 3, 3]);
    let moved = a.iter().zip(before.iter()).filter(|(x, y)| x != y).count();
    assert_eq!(w, moved);
}

#[test]
fn comparator_sees_the_relation_not_equality() {
    // pairs compared by their first component only
    let mut a = [(2, 'a'), (1, 'b'), (2, 'c'), (0, 'd')];
    let w = cycle_sort_by(&mut a, &|x: &(i32, char), y: &(i32, char)| x.0.cmp(&y.0));

    // (2, 'a') skips past (2, 'c'), which already sits among the 2s
    assert_eq!(a, [(0, 'd'), (1, 'b'), (2, 'c'), (2, 'a')]);
    assert_eq!(w, 2);
}

#[test]
fn inconsistent_orderings_still_permute() {
    let input = [4_u32, 9, 1, 7, 7, 3, 0, 12, 5, 5, 8];

    // claims every element is less than every other
    let mut a = input;
    cycle_sort_by(&mut a, &|_: &u32, _: &u32| std::cmp::Ordering::Less);
    let mut x = a.to_vec();
    x.sort();
    let mut expect = input.to_vec();
    expect.sort();
    assert_eq!(x, expect);

    // not transitive: a rock-paper-scissors order on residues mod 3
    let mut b = input;
    cycle_sort_by(&mut b, &|p: &u32, q: &u32| {
        if (p + 1) % 3 == q % 3 {
            std::cmp::Ordering::Less
        } else if (q + 1) % 3 == p % 3 {
            std::cmp::Ordering::Greater
        } else {
            std::cmp::Ordering::Equal
        }
    });
    let mut y = b.to_vec();
    y.sort();
    assert_eq!(y, expect);
}

#[test]
fn entry_points_agree_on_the_same_order() {
    let input = ["pear", "fig", "apple", "kiwi", "plum", "date", "banana"];

    let mut by_key = input;
    let w_key = cycle_sort_by_key(&mut by_key, &|s: &&str| s.len());
    let mut by_cmp = input;
    let w_cmp = cycle_sort_by(&mut by_cmp, &|a: &&str, b: &&str| a.len().cmp(&b.len()));
    assert_eq!(by_key, by_cmp);
    assert_eq!(w_key, w_cmp);

    let nums = [5, 3, 8, 3, 1, 9, 5];
    let mut natural = nums;
    let w_nat = cycle_sort(&mut natural);
    let mut by_cmp = nums;
    let w_by = cycle_sort_by(&mut by_cmp, &|a: &i32, b: &i32| a.cmp(b));
    assert_eq!(natural, by_cmp);
    assert_eq!(w_nat, w_by);
}

#[test]
fn equal_keys_in_place_are_not_moved() {
    // "fig" and "ant" already sit in the length-3 slots and stay there
    let mut a = ["kiwi", "fig", "ant", "a"];
    let w = cycle_sort_by_key(&mut a, &|s: &&str| s.len());
    assert_eq!(a, ["a", "fig", "ant", "kiwi"]);
    assert_eq!(w, 2);
}
