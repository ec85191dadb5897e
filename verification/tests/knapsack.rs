use knapsack::{bound, crawl, goes_first, solve, sort, Item, Node, UpperBound};

#[test]
fn solve_with_a_simple_test() {
    let target = 200;
    let items: Vec<(usize, usize)> = vec![
        (92, 92),
        (86, 86),
        (16, 16),
        (20, 20),
        (48, 48),
        (85, 85),
        (49, 49),
        (73, 73),
        (94, 94),
        (10, 10),
    ];
    let (v, w, res) = solve(&items, target);
    assert_eq!(v, 200);
    assert_eq!(w, 200);
    assert_eq!(
        res,
        vec![false, true, false, true, false, false, false, false, true, false]
    );
}

#[test]
fn test_crawl_with_empty_items() {
    let items = vec![];
    let (i, v, _) = crawl(&items, 0);
    assert_eq!(i, vec![]);
    assert_eq!(v, 0);
}

#[test]
fn test_crawl_with_too_heavy_items() {
    let items = vec![(1, 1, 2), (2, 1, 2), (3, 1, 2)];
    let slack = 1;
    let (i, v, _) = crawl(&items, slack);
    assert_eq!(i, vec![]);
    assert_eq!(v, 0);
}

#[test]
fn test_crawl_with_worthless_items() {
    let items = vec![(1, 0, 2), (2, 0, 2), (3, 0, 2)];
    let slack = 10;
    let (i, v, _) = crawl(&items, slack);
    assert_eq!(i, vec![]);
    assert_eq!(v, 0);
}

#[test]
fn test_crawl_with_better_branch() {
    // weight is irrelevant for this check
    let items = vec![(1, 5, 0), (2, 6, 0)];
    let slack = 1;
    let (i, v, _) = crawl(&items, slack);
    assert_eq!(i, vec![1, 2]);
    assert_eq!(v, 11);
}

#[test]
fn test_compute_upper_bound_when_slack_is_0() {
    let res = bound(&vec![], 0, 0);
    assert_eq!(res.whole, 0);
    assert_eq!(res.part, 0);
}

#[test]
fn test_compute_upper_bound_when_vec_is_empty() {
    let res = bound(&vec![], 1, 1);
    assert_eq!(res.whole, 1);
    assert_eq!(res.part, 0);
}

#[test]
fn test_compute_upper_bound() {
    // Items must be sorted by price per weight
    // Here usizes are not important
    let items = vec![(1, 1), (1, 1), (1, 1)];
    // Only 1 weight unit remaining, value is 1
    let res = bound(&items, 1, 1);
    // expected upper bound is 2
    assert_eq!(res.whole, 2);
    assert_eq!(res.part, 0);
}

#[test]
fn bound_counts_whole_items_then_a_slice() {
    // 10 fits whole (room 5 -> 1), then a third of 7: two and a third.
    let items = vec![(10, 4), (7, 3), (3, 2)];
    assert_eq!(bound(&items, 5, 0), UpperBound { whole: 12, part: 1, per: 3 });
    assert_eq!(bound(&items, 5, 100), UpperBound { whole: 112, part: 1, per: 3 });
    // All three fit.
    assert_eq!(bound(&items, 9, 0), UpperBound { whole: 20, part: 0, per: 1 });
    assert_eq!(bound(&items, 50, 1), UpperBound { whole: 21, part: 0, per: 1 });
}

#[test]
fn bound_slice_keeps_the_exact_ratio() {
    // Half of an item worth 3 is one and a half.
    assert_eq!(bound(&vec![(3, 2)], 1, 0), UpperBound { whole: 1, part: 1, per: 2 });
    // Two thirds of 5 is 10/3, not (5 / 3) * 2 = 2.
    let items = vec![(5, 3), (3, 2)];
    assert_eq!(bound(&items, 2, 0), UpperBound { whole: 3, part: 1, per: 3 });
    // One seventh of 20 is 20/7, on top of 4.
    assert_eq!(bound(&vec![(20, 7)], 1, 4), UpperBound { whole: 6, part: 6, per: 7 });
    // A slice that comes out even leaves no fraction.
    assert_eq!(bound(&vec![(9, 3)], 2, 0), UpperBound { whole: 6, part: 0, per: 3 });
}

#[test]
fn bound_without_room_is_its_base() {
    let none = UpperBound { whole: 7, part: 0, per: 1 };
    assert_eq!(bound(&vec![(9, 3), (4, 2)], 0, 7), none);
    assert_eq!(bound(&vec![(5, 0)], 0, 7), none);
    assert_eq!(bound(&vec![(5, 0), (6, 0), (9, 3)], 0, 7), none);
    assert_eq!(bound(&vec![(0, 0), (1, 1)], 0, 7), none);
}

#[test]
fn bound_with_room_counts_weightless_items() {
    let items = vec![(5, 0), (6, 0), (9, 3)];
    assert_eq!(bound(&items, 1, 1), UpperBound { whole: 15, part: 0, per: 3 });
    // Also after the room is used up on the way.
    let items = vec![(4, 2), (5, 0), (9, 3)];
    assert_eq!(bound(&items, 2, 0), UpperBound { whole: 9, part: 0, per: 3 });
}

#[test]
fn bound_may_exceed_what_the_machine_counts_as_worth() {
    let items = vec![(usize::MAX, 2), (usize::MAX, 2)];
    let most = usize::MAX as u128;
    assert_eq!(
        bound(&items, 3, 0),
        UpperBound { whole: most + most / 2, part: 1, per: 2 }
    );
    assert_eq!(bound(&items, 4, 7), UpperBound { whole: 2 * most + 7, part: 0, per: 1 });
}

#[test]
fn bound_is_never_below_its_base() {
    let items = vec![(8, 2), (9, 3), (4, 2), (0, 5)];
    for slack in 0..15 {
        for base in 0..5 {
            assert!(bound(&items, slack, base).whole >= base as u128);
        }
    }
}

fn at_most(a: UpperBound, b: UpperBound) -> bool {
    let left = (a.whole * a.per as u128 + a.part as u128) * b.per as u128;
    let right = (b.whole * b.per as u128 + b.part as u128) * a.per as u128;
    left <= right
}

#[test]
fn bound_falls_as_the_front_is_dropped() {
    // Densities 4, 3, 2, 1.5, 0.
    let items = vec![(8, 2), (9, 3), (4, 2), (3, 2), (0, 5)];
    for slack in 0..16 {
        for from in 0..items.len() {
            let whole = bound(&items[from..], slack, 3);
            let shorter = bound(&items[from + 1..], slack, 3);
            assert!(at_most(shorter, whole));
        }
    }
}

#[test]
fn bound_exceeds_what_is_below_it() {
    let half = UpperBound { whole: 4, part: 1, per: 2 };
    assert!(half.exceeds(3));
    assert!(half.exceeds(4));
    assert!(!half.exceeds(5));
    let even = UpperBound { whole: 4, part: 0, per: 3 };
    assert!(even.exceeds(3));
    assert!(!even.exceeds(4));
    let large = UpperBound { whole: usize::MAX as u128 + 1, part: 0, per: 1 };
    assert!(large.exceeds(usize::MAX));
}

#[test]
fn node_to_tuple_hands_out_its_fields() {
    let node = Node { items: vec![4, 2], profit: 17, slack: 3, level: 5 };
    assert_eq!(node.to_tuple(), (vec![4, 2], 17, 3));
}

#[test]
fn pair_is_an_item() {
    let item: (usize, usize) = (7, 2);
    assert_eq!(item.value(), 7);
    assert_eq!(item.weight(), 2);
    assert_eq!(item.price_per_weight(), 3);
}

#[test]
fn goes_first_compares_exact_density_then_worth() {
    // 3/2 against 5/4: both round down to 1, the first is denser.
    assert!(goes_first((3, 2), (5, 4)));
    assert!(!goes_first((5, 4), (3, 2)));
    // Same density: the greater worth goes first.
    assert!(goes_first((4, 2), (2, 1)));
    assert!(!goes_first((2, 1), (4, 2)));
    // Same density and worth: neither goes first.
    assert!(!goes_first((2, 1), (2, 1)));
    // A weightless item of some worth beats any item with weight.
    assert!(goes_first((1, 0), (1000, 1)));
    assert!(!goes_first((1000, 1), (1, 0)));
    // Large numbers do not overflow.
    assert!(goes_first((usize::MAX, usize::MAX - 1), (usize::MAX - 1, usize::MAX)));
}

#[test]
fn sort_orders_by_density_then_worth_then_position() {
    let items: Vec<(usize, usize)> = vec![(5, 4), (3, 2), (2, 1), (4, 2), (3, 2), (0, 3), (6, 0)];
    let sorted = sort(&items);
    assert_eq!(
        sorted,
        vec![(6, 6, 0), (3, 4, 2), (2, 2, 1), (1, 3, 2), (4, 3, 2), (0, 5, 4), (5, 0, 3)]
    );
}

#[test]
fn sort_of_nothing_is_nothing() {
    let items: Vec<(usize, usize)> = vec![];
    assert_eq!(sort(&items), vec![]);
}

#[test]
fn sort_keeps_equal_items_in_place() {
    let items: Vec<(usize, usize)> = vec![(2, 2), (1, 1), (2, 2), (1, 1)];
    assert_eq!(sort(&items), vec![(0, 2, 2), (2, 2, 2), (1, 1, 1), (3, 1, 1)]);
}

#[test]
fn sort_twice_gives_the_same_order() {
    let items: Vec<(usize, usize)> = vec![(7, 3), (7, 3), (1, 9), (8, 1), (0, 0), (3, 3)];
    assert_eq!(sort(&items), sort(&items));
}

#[test]
fn crawl_reports_the_room_left() {
    let items = vec![(0, 10, 4), (1, 7, 3), (2, 3, 2)];
    let (taken, worth, room) = crawl(&items, 6);
    assert_eq!(taken, vec![0, 2]);
    assert_eq!(worth, 13);
    assert_eq!(room, 0);
    let (taken, worth, room) = crawl(&items, 8);
    assert_eq!(taken, vec![0, 1]);
    assert_eq!(worth, 17);
    assert_eq!(room, 1);
}

#[test]
fn solve_with_nothing_to_pack() {
    let items: Vec<(usize, usize)> = vec![];
    for capacity in [0, 1, 50] {
        let (v, w, res) = solve(&items, capacity);
        assert_eq!(v, 0);
        assert_eq!(w, 0);
        assert_eq!(res, Vec::<bool>::new());
    }
}

#[test]
fn solve_when_every_item_is_too_heavy() {
    let items: Vec<(usize, usize)> = vec![(1, 2), (1, 2), (1, 2)];
    let (v, w, res) = solve(&items, 1);
    assert_eq!(v, 0);
    assert_eq!(w, 0);
    assert_eq!(res, vec![false, false, false]);
}

#[test]
fn solve_when_every_item_is_worthless() {
    let items: Vec<(usize, usize)> = vec![(0, 2), (0, 2), (0, 2)];
    let (v, w, _) = solve(&items, 10);
    assert_eq!(v, 0);
    assert!(w <= 10);
}

#[test]
fn solve_takes_weightless_items_without_room() {
    let items: Vec<(usize, usize)> = vec![(3, 1), (5, 0), (6, 0)];
    let (v, w, res) = solve(&items, 0);
    assert_eq!(v, 11);
    assert_eq!(w, 0);
    assert_eq!(res, vec![false, true, true]);
}

#[test]
fn solve_where_truncated_density_would_mislead() {
    // 5/4 and 3/2 both round down to 1, but only the exact order lets the
    // bound see that the lighter item is the better use of the room.
    let items: Vec<(usize, usize)> = vec![(6, 5), (5, 4), (3, 2), (3, 2)];
    let (v, w, res) = solve(&items, 4);
    assert_eq!(v, 6);
    assert_eq!(w, 4);
    assert_eq!(res, vec![false, false, true, true]);
}

fn value_of(items: &Vec<(usize, usize)>, taken: &Vec<bool>) -> usize {
    let mut sum = 0;
    for i in 0..items.len() {
        if taken[i] {
            sum += items[i].0;
        }
    }
    sum
}

fn weight_of(items: &Vec<(usize, usize)>, taken: &Vec<bool>) -> usize {
    let mut sum = 0;
    for i in 0..items.len() {
        if taken[i] {
            sum += items[i].1;
        }
    }
    sum
}

fn best_by_enumeration(items: &Vec<(usize, usize)>, capacity: usize) -> usize {
    let mut best = 0;
    for mask in 0..(1usize << items.len()) {
        let taken: Vec<bool> = (0..items.len()).map(|i| mask >> i & 1 == 1).collect();
        if weight_of(items, &taken) <= capacity {
            best = best.max(value_of(items, &taken));
        }
    }
    best
}

fn next(state: &mut u64) -> usize {
    *state = state.wrapping_mul(6364136223846793005).wrapping_add(1442695040888963407);
    (*state >> 33) as usize
}

#[test]
fn solve_agrees_with_enumeration_on_small_instances() {
    let mut state: u64 = 20240229;
    for round in 0..400 {
        let n = round % 13;
        let mut items: Vec<(usize, usize)> = Vec::new();
        for _ in 0..n {
            items.push((next(&mut state) % 30, next(&mut state) % 12));
        }
        let capacity = next(&mut state) % 40;
        let (v, w, taken) = solve(&items, capacity);
        assert_eq!(taken.len(), items.len());
        assert!(w <= capacity);
        assert_eq!(v, value_of(&items, &taken));
        assert_eq!(w, weight_of(&items, &taken));
        assert_eq!(v, best_by_enumeration(&items, capacity));
    }
}

#[test]
fn solve_result_fits_and_adds_up() {
    let items: Vec<(usize, usize)> =
        vec![(60, 10), (100, 20), (120, 30), (7, 1), (33, 9), (15, 15), (0, 0), (41, 0)];
    for capacity in 0..90 {
        let (v, w, taken) = solve(&items, capacity);
        assert!(w <= capacity);
        assert_eq!(v, value_of(&items, &taken));
        assert_eq!(w, weight_of(&items, &taken));
        assert_eq!(v, best_by_enumeration(&items, capacity));
    }
}

#[test]
fn solve_classic_instance() {
    let items: Vec<(usize, usize)> = vec![(60, 10), (100, 20), (120, 30)];
    let (v, w, taken) = solve(&items, 50);
    assert_eq!(v, 220);
    assert_eq!(w, 50);
    assert_eq!(taken, vec![false, true, true]);
}

#[test]
fn solve_returns_the_best_selection_met_first() {
    // Both items alone fill the knapsack: the one searched first is taken.
    let items: Vec<(usize, usize)> = vec![(2, 2), (2, 2)];
    assert_eq!(solve(&items, 2), (2, 2, vec![true, false]));
    // The denser item is searched first, wherever it stands.
    let items: Vec<(usize, usize)> = vec![(4, 4), (6, 3), (2, 1)];
    assert_eq!(solve(&items, 4), (8, 4, vec![false, true, true]));
    // 5 + 5 and 10 are worth the same; 10 is searched first.
    let items: Vec<(usize, usize)> = vec![(5, 5), (5, 5), (10, 10)];
    assert_eq!(solve(&items, 10), (10, 10, vec![false, false, true]));
}

#[test]
fn solve_leaves_what_adds_nothing() {
    let items: Vec<(usize, usize)> = vec![(3, 1), (0, 0), (0, 1)];
    assert_eq!(solve(&items, 5), (3, 1, vec![true, false, false]));
}

#[test]
fn crawl_result_fits_whatever_the_order() {
    // Not in order of density: the result still fits and adds up.
    let items = vec![(0, 1, 5), (1, 100, 1), (2, 3, 3), (3, 50, 2)];
    for slack in 0..12 {
        let (taken, worth, room) = crawl(&items, slack);
        let mut weight = 0;
        let mut sum = 0;
        for label in taken.iter() {
            weight += items[*label].2;
            sum += items[*label].1;
        }
        assert_eq!(sum, worth);
        assert_eq!(weight + room, slack);
    }
}

#[test]
fn sort_puts_weightless_items_of_worth_first() {
    let items: Vec<(usize, usize)> = vec![(9, 1), (0, 0), (2, 0), (7, 0), (0, 4)];
    assert_eq!(
        sort(&items),
        vec![(3, 7, 0), (2, 2, 0), (0, 9, 1), (1, 0, 0), (4, 0, 4)]
    );
}

#[test]
fn node_clone_copies_every_field() {
    let node = Node { items: vec![3, 1, 4], profit: 15, slack: 9, level: 6 };
    let copy = node.clone();
    assert_eq!(copy.items, vec![3, 1, 4]);
    assert_eq!(copy.profit, 15);
    assert_eq!(copy.slack, 9);
    assert_eq!(copy.level, 6);
    assert_eq!(node.to_tuple(), copy.to_tuple());
}

#[test]
fn solve_counts_only_what_fits() {
    // Together the items are worth more than the machine counts, but only
    // one of them fits.
    let items: Vec<(usize, usize)> = vec![(usize::MAX, 1), (usize::MAX, 1)];
    assert_eq!(solve(&items, 1), (usize::MAX, 1, vec![true, false]));
    let items: Vec<(usize, usize)> = vec![(usize::MAX, 2), (usize::MAX - 1, 2), (1, 1)];
    assert_eq!(solve(&items, 3), (usize::MAX, 2, vec![true, false, false]));
}

#[test]
fn crawl_without_room_stops_at_once() {
    // With no room the bound is the worth so far, so nothing is searched.
    let items = vec![(1, 5, 0), (2, 6, 0)];
    let (taken, worth, room) = crawl(&items, 0);
    assert_eq!(taken, vec![]);
    assert_eq!(worth, 0);
    assert_eq!(room, 0);
}

#[test]
fn solve_without_room_takes_what_weighs_nothing() {
    let items: Vec<(usize, usize)> = vec![(0, 0), (4, 0), (9, 1), (0, 3), (2, 0)];
    assert_eq!(solve(&items, 0), (6, 0, vec![false, true, false, false, true]));
    let items: Vec<(usize, usize)> = vec![(9, 1), (0, 0)];
    assert_eq!(solve(&items, 0), (0, 0, vec![false, false]));
}
