use bili_add_on::growable::GrowableVec;

#[test]
fn test_growable_vec_new_and_len() {
    let gv = GrowableVec::<i32>::new(0);
    assert_eq!(gv.len(), 0);
}

#[test]
fn test_growable_vec_index_mut_auto_grows() {
    let mut gv = GrowableVec::new(-1);
    gv[3] = 42;
    assert_eq!(gv.len(), 4);
    assert_eq!(gv[0], -1);
    assert_eq!(gv[1], -1);
    assert_eq!(gv[2], -1);
    assert_eq!(gv[3], 42);
}

#[test]
fn test_growable_vec_iter() {
    let mut gv = GrowableVec::new(0);
    gv[0] = 10;
    gv[1] = 20;
    let collected: Vec<_> = gv.iter().copied().collect();
    assert_eq!(collected, vec![10, 20]);
}

#[test]
fn test_growable_vec_first_empty_all_none() {
    let mut gv = GrowableVec::<Option<i32>>::new(None);
    gv[2] = None;
    let slot = gv.first_empty();
    assert!(slot.is_none());
}

#[test]
fn test_growable_vec_set_first_empty() {
    let mut gv = GrowableVec::<Option<i32>>::new(None);
    gv[0] = Some(10);
    let slot = gv.set_first_empty(99);
    assert_eq!(*slot, Some(99));
    assert_eq!(gv[0], Some(10));
    assert_eq!(gv[1], Some(99));
}

#[test]
fn test_growable_vec_set_first_empty_reuses_slot() {
    let mut gv = GrowableVec::<Option<i32>>::new(None);
    gv[0] = Some(1);
    gv[1] = Some(2);
    gv[1] = None; // clear slot 1
    let slot = gv.set_first_empty(3);
    assert_eq!(*slot, Some(3));
    assert_eq!(gv[0], Some(1));
    assert_eq!(gv[1], Some(3));
}

#[test]
fn test_growable_vec_from_iter() {
    let gv: GrowableVec<i32> = GrowableVec::from_iter(vec![1, 2, 3].into_iter());
    assert_eq!(gv.len(), 3);
    assert_eq!(gv[0], 1);
    assert_eq!(gv[2], 3);
}

#[test]
fn test_growable_vec_into_iter() {
    let mut gv = GrowableVec::new(0);
    gv[0] = 5;
    gv[1] = 6;
    let values: Vec<_> = gv.into_iter().collect();
    assert_eq!(values, vec![5, 6]);
}

#[test]
fn test_growable_vec_from_vec() {
    let v = vec![10, 20, 30];
    let gv = GrowableVec::from(v);
    assert_eq!(gv.len(), 3);
    assert_eq!(gv[0], 10);
}

#[test]
fn growth_fills_with_the_default_value() {
    let mut gv = GrowableVec::new(7);
    assert!(gv.is_empty());
    gv[2] = 8;
    gv.replace(2, 9);
    assert_eq!(gv.into_vec(), vec![7, 7, 9]);
}

#[test]
fn slots_can_be_changed_in_place() {
    let mut gv = GrowableVec::from(vec![1, 2, 3]);
    for slot in gv.iter_mut() {
        *slot *= 10;
    }
    assert_eq!(gv.into_vec(), vec![10, 20, 30]);
}

#[test]
fn first_empty_appends_when_nothing_is_vacant() {
    let mut gv = GrowableVec::<Option<i32>>::new(None);
    gv[0] = Some(1);
    assert!(gv.first_empty().is_none());
    assert_eq!(gv.len(), 2);
}

#[test]
fn items_come_back_in_order() {
    let v = vec![4, 1, 3];
    let gv = GrowableVec::from(v.clone());
    assert_eq!(gv.len(), 3);
    assert_eq!(gv.into_iter().collect::<Vec<_>>(), v);
    let gv = GrowableVec::from_iter(v.clone().into_iter());
    assert_eq!((gv[0], gv[1], gv[2]), (4, 1, 3));
    assert_eq!(gv.into_iter().collect::<Vec<_>>(), v);
    let mut gv: GrowableVec<i32> = GrowableVec::from_iter(v.into_iter());
    gv[4] = 9;
    assert_eq!(gv.into_vec(), vec![4, 1, 3, 0, 9]);
}
