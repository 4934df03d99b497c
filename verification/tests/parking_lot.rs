use lot_simulator::parking_lot::{
    remove_marked, ArrayParkingLot, ParkingLot, VecParkingLot, MAX_CAPACITY,
};

fn sorted(spots: &[u32]) -> Vec<u32> {
    let mut v = spots.to_vec();
    v.sort();
    v
}

#[test]
fn vec_lot_parks_up_to_capacity() {
    let mut lot = VecParkingLot::new(2);
    assert!(lot.can_park());
    assert!(lot.try_park(10));
    assert!(lot.try_park(20));
    assert!(!lot.can_park());
    assert!(!lot.try_park(30));
    assert_eq!(lot.get_occupancy(), 2);
    assert_eq!(lot.iter().to_vec(), vec![10, 20]);
}

#[test]
fn array_lot_parks_up_to_capacity() {
    let mut lot = ArrayParkingLot::new(2);
    assert!(lot.can_park());
    assert!(lot.try_park(10));
    assert!(lot.try_park(20));
    assert!(!lot.can_park());
    assert!(!lot.try_park(30));
    assert_eq!(lot.get_occupancy(), 2);
    assert_eq!(lot.iter().to_vec(), vec![10, 20]);
}

#[test]
fn lot_of_capacity_zero_never_parks() {
    let mut vec_lot = VecParkingLot::new(0);
    assert!(!vec_lot.can_park());
    assert!(!vec_lot.try_park(1));
    assert_eq!(vec_lot.get_occupancy(), 0);
    let mut array_lot = ArrayParkingLot::new(0);
    assert!(!array_lot.can_park());
    assert!(!array_lot.try_park(1));
    assert_eq!(array_lot.get_occupancy(), 0);
}

#[test]
fn vec_lot_remove_moves_last_into_slot() {
    let mut lot = VecParkingLot::new(4);
    for t in [10, 20, 30, 40] {
        assert!(lot.try_park(t));
    }
    assert_eq!(lot.remove_index(1), 20);
    assert_eq!(lot.get_occupancy(), 3);
    assert_eq!(lot.iter().to_vec(), vec![10, 40, 30]);
    assert_eq!(lot.remove_index(2), 30);
    assert_eq!(lot.iter().to_vec(), vec![10, 40]);
}

#[test]
fn array_lot_remove_moves_last_into_slot() {
    let mut lot = ArrayParkingLot::new(4);
    for t in [10, 20, 30, 40] {
        assert!(lot.try_park(t));
    }
    assert_eq!(lot.remove_index(1), 20);
    assert_eq!(lot.get_occupancy(), 3);
    assert_eq!(lot.iter().to_vec(), vec![10, 40, 30]);
    assert_eq!(lot.remove_index(2), 30);
    assert_eq!(lot.iter().to_vec(), vec![10, 40]);
}

#[test]
fn remove_takes_one_occurrence_of_a_duplicate() {
    let mut lot = VecParkingLot::new(3);
    for t in [7, 7, 9] {
        assert!(lot.try_park(t));
    }
    assert_eq!(lot.remove_index(0), 7);
    assert_eq!(lot.get_occupancy(), 2);
    assert_eq!(sorted(lot.iter()), vec![7, 9]);
}

#[test]
fn backends_behave_alike() {
    let mut vec_lot = VecParkingLot::new(5);
    let mut array_lot = ArrayParkingLot::new(5);
    let script: [(bool, u32); 9] = [
        (true, 3),
        (true, 1),
        (true, 4),
        (false, 0),
        (true, 1),
        (true, 5),
        (true, 9),
        (true, 2),
        (false, 2),
    ];
    for (park, value) in script {
        if park {
            assert_eq!(vec_lot.try_park(value), array_lot.try_park(value));
        } else {
            assert_eq!(
                vec_lot.remove_index(value as usize),
                array_lot.remove_index(value as usize)
            );
        }
        assert_eq!(vec_lot.get_occupancy(), array_lot.get_occupancy());
        assert_eq!(vec_lot.can_park(), array_lot.can_park());
        assert_eq!(vec_lot.iter().to_vec(), array_lot.iter().to_vec());
        assert!(vec_lot.get_occupancy() <= 5);
    }
}

#[test]
fn array_lot_fills_the_whole_buffer() {
    let mut lot = ArrayParkingLot::new(MAX_CAPACITY);
    for t in 0..MAX_CAPACITY {
        assert!(lot.try_park(t as u32));
    }
    assert!(!lot.try_park(0));
    assert_eq!(lot.get_occupancy(), MAX_CAPACITY);
    assert_eq!(MAX_CAPACITY, 512);
}

#[test]
fn remove_marked_keeps_the_unmarked() {
    let mut lot = VecParkingLot::new(6);
    for t in [10, 11, 12, 13, 14, 15] {
        assert!(lot.try_park(t));
    }
    remove_marked(&mut lot, &vec![0, 2, 5]);
    assert_eq!(lot.get_occupancy(), 3);
    assert_eq!(sorted(lot.iter()), vec![11, 13, 14]);
    remove_marked(&mut lot, &vec![]);
    assert_eq!(lot.get_occupancy(), 3);
    remove_marked(&mut lot, &vec![0, 1, 2]);
    assert_eq!(lot.get_occupancy(), 0);
}
