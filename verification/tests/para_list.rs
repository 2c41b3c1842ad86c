use para_router::para_list;
use para_router::primitives::ParaId;

fn ids(numbers: &[u32]) -> Vec<ParaId> {
    numbers.iter().map(|n| ParaId::from(*n)).collect()
}

#[test]
fn search_finds_the_index_or_the_place() {
    let list = ids(&[2, 4, 6, 8]);
    assert_eq!(para_list::search(&list, ParaId::from(2)), Ok(0));
    assert_eq!(para_list::search(&list, ParaId::from(6)), Ok(2));
    assert_eq!(para_list::search(&list, ParaId::from(8)), Ok(3));
    assert_eq!(para_list::search(&list, ParaId::from(1)), Err(0));
    assert_eq!(para_list::search(&list, ParaId::from(5)), Err(2));
    assert_eq!(para_list::search(&list, ParaId::from(9)), Err(4));
    assert_eq!(para_list::search(&Vec::new(), ParaId::from(9)), Err(0));
}

#[test]
fn insert_keeps_order_and_uniqueness() {
    let mut list = Vec::new();
    for n in [5u32, 1, 9, 5, 3, 1, 7] {
        para_list::insert(&mut list, ParaId::from(n));
    }
    assert_eq!(list, ids(&[1, 3, 5, 7, 9]));
}

#[test]
fn remove_takes_out_what_is_there() {
    let mut list = ids(&[1, 3, 5]);
    para_list::remove(&mut list, ParaId::from(4));
    assert_eq!(list, ids(&[1, 3, 5]));
    para_list::remove(&mut list, ParaId::from(3));
    assert_eq!(list, ids(&[1, 5]));
    para_list::remove(&mut list, ParaId::from(1));
    para_list::remove(&mut list, ParaId::from(5));
    assert!(list.is_empty());
    para_list::remove(&mut list, ParaId::from(5));
    assert!(list.is_empty());
}

#[test]
fn para_ids_are_ordered_by_number() {
    assert!(ParaId::from(1) < ParaId::from(2));
    assert_eq!(ParaId::from(7), ParaId(7));
}
