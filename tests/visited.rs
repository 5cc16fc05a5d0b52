use platformer_ai::visited::VisitedIndex;

#[test]
fn handles_are_dense_and_stable() {
    let mut v: VisitedIndex<u32> = VisitedIndex::new();
    assert_eq!(v.len(), 0);
    assert_eq!(v.get_or_register(10, None, 0), 0);
    assert_eq!(v.get_or_register(20, Some(0), 4), 1);
    assert_eq!(v.get_or_register(10, Some(1), 7), 0);
    assert_eq!(v.len(), 2);
    assert_eq!(v.handle_of(&20), Some(1));
    assert_eq!(v.handle_of(&30), None);
    let r = v.record_at(0);
    assert_eq!((r.node, r.parent, r.g_cost), (10, None, 0));
}

#[test]
fn try_improve_only_lowers() {
    let mut v: VisitedIndex<u32> = VisitedIndex::new();
    v.get_or_register(1, None, 0);
    v.get_or_register(2, None, 1);
    assert_eq!(v.try_improve(3, 0, 8), (true, 2));
    assert_eq!(v.try_improve(3, 1, 8), (false, 2));
    assert_eq!(v.record_at(2).parent, Some(0));
    assert_eq!(v.try_improve(3, 1, 9), (false, 2));
    assert_eq!(v.record_at(2).g_cost, 8);
    assert_eq!(v.try_improve(3, 1, 5), (true, 2));
    let r = v.record_at(2);
    assert_eq!((r.node, r.parent, r.g_cost), (3, Some(1), 5));
    assert_eq!(v.len(), 3);
}

#[test]
fn path_follows_current_parents() {
    let mut v: VisitedIndex<char> = VisitedIndex::new();
    v.get_or_register('S', None, 0);
    v.try_improve('A', 0, 4);
    v.try_improve('B', 0, 1);
    v.try_improve('G', 1, 5);
    assert_eq!(v.path_to(3), vec!['S', 'A', 'G']);
    v.try_improve('A', 2, 2);
    assert_eq!(v.path_to(3), vec!['S', 'B', 'A', 'G']);
    assert_eq!(v.path_to(0), vec!['S']);
}
