use puzzles::towers::TowersRegistry;
use puzzles::towers::Troops;

#[test]
fn registry_hands_out_sequential_identifiers() {
    let mut towers = TowersRegistry::new();
    let a = towers.add('x');
    let b = towers.add('y');
    assert_eq!(a, 'A');
    assert_eq!(b, 'B');
    assert_eq!(towers.get(&a), 'x');
    assert_eq!(towers.get(&b), 'y');
}

#[test]
fn troops_take_free_cells() {
    let mut troops = Troops::new();
    assert!(troops.is_empty());
    troops.push(2, 3, 'A');
    assert_eq!(troops.entries, vec![(2, 3, 'A')]);
    assert!(!troops.is_empty());
}

#[test]
fn same_tower_arriving_twice_keeps_the_cell() {
    let mut troops = Troops::new();
    troops.push(2, 3, 'A');
    troops.push(2, 3, 'A');
    assert_eq!(troops.entries, vec![(2, 3, 'A')]);
}

#[test]
fn contested_cells_are_marked() {
    let mut troops = Troops::new();
    troops.push(2, 3, 'A');
    troops.push(2, 3, 'B');
    assert_eq!(troops.entries, vec![(2, 3, '+')]);
    troops.push(2, 3, 'C');
    assert_eq!(troops.entries, vec![(2, 3, '+')]);
    troops.push(0, 0, 'C');
    assert_eq!(troops.entries, vec![(2, 3, '+'), (0, 0, 'C')]);
}
