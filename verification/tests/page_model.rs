use bwtree::data::Value;
use bwtree::page::{
    BaseData, BaseIndex, DeltaData, DeltaIndex, PageBuf, PageContent, PageHeader, PageIndex,
};

fn k(s: &str) -> Vec<u8> {
    s.as_bytes().to_vec()
}

#[test]
fn base_data_apply_and_get() {
    let mut base = BaseData::new();
    let mut delta = DeltaData::new();
    delta.add(k("a"), Value::Put(k("x")));
    delta.add(k("b"), Value::Put(k("y")));
    base.apply(delta);
    assert_eq!(base.get(&k("a")), Some(&k("x")));
    assert_eq!(base.get(&k("b")), Some(&k("y")));
    assert_eq!(base.get(&k("c")), None);

    let mut delta2 = DeltaData::new();
    delta2.add(k("a"), Value::Delete);
    delta2.add(k("c"), Value::Put(k("z")));
    base.apply(delta2);
    assert_eq!(base.get(&k("a")), None);
    assert_eq!(base.get(&k("b")), Some(&k("y")));
    assert_eq!(base.get(&k("c")), Some(&k("z")));
}

#[test]
fn base_data_split_partitions() {
    let mut base = BaseData::new();
    let mut delta = DeltaData::new();
    for name in ["a", "b", "c", "d"] {
        delta.add(k(name), Value::Put(k("v")));
    }
    base.apply(delta);
    let right = base.split().unwrap();
    assert_eq!(base.get(&k("a")), Some(&k("v")));
    assert_eq!(base.get(&k("b")), Some(&k("v")));
    assert_eq!(base.get(&k("c")), None);
    assert_eq!(right.get(&k("c")), Some(&k("v")));
    assert_eq!(right.get(&k("d")), Some(&k("v")));
    assert_eq!(right.lowest(), &k("c"));
    assert_eq!(base.highest(), &k("c"));
}

#[test]
fn delta_merge_prefers_newer() {
    let mut newer = DeltaData::new();
    newer.add(k("a"), Value::Put(k("new")));
    let mut older = DeltaData::new();
    older.add(k("a"), Value::Put(k("old")));
    older.add(k("b"), Value::Delete);
    newer.merge(older);
    assert!(matches!(newer.get(&k("a")), Some(Value::Put(v)) if v == &k("new")));
    assert!(matches!(newer.get(&k("b")), Some(Value::Delete)));
}

#[test]
fn base_index_routes_by_separator() {
    let mut index = BaseIndex::new();
    index.add(k(""), PageIndex { id: 1, epoch: 0 });
    index.add(k("m"), PageIndex { id: 2, epoch: 0 });
    assert_eq!(index.get(&k("a")).unwrap().id, 1);
    assert_eq!(index.get(&k("m")).unwrap().id, 2);
    assert_eq!(index.get(&k("z")).unwrap().id, 2);
    let right = index.split().unwrap();
    assert_eq!(right.lowest(), &k("m"));
}

#[test]
fn delta_index_covers_range() {
    let d = DeltaIndex { lowest: k("b"), highest: k("d"), new_child: PageIndex { id: 9, epoch: 1 } };
    assert!(d.covers(&k("a")).is_none());
    assert_eq!(d.covers(&k("b")).unwrap().id, 9);
    assert_eq!(d.covers(&k("c")).unwrap().id, 9);
    assert!(d.covers(&k("d")).is_none());
    let open = DeltaIndex { lowest: k("b"), highest: k(""), new_child: PageIndex { id: 9, epoch: 1 } };
    assert_eq!(open.covers(&k("zzz")).unwrap().id, 9);
}

#[test]
fn chain_length_counts_links() {
    let base = PageBuf::with_content(PageContent::RemoveData);
    let one = PageBuf::with_next(base, PageContent::RemoveData);
    let two = PageBuf::with_next(one, PageContent::RemoveData);
    let head = two.as_ref();
    assert_eq!(head.len(), 3);
    let second = head.next().unwrap();
    assert_eq!(second.len(), 2);
    let third = second.next().unwrap();
    assert_eq!(third.len(), 1);
    assert!(third.next().is_none());
    assert!(head.is_data());
    assert!(head.content().is_removed());
    assert_eq!(head.epoch(), 0);
    let h = PageHeader::new().into_next_epoch();
    let fresh = PageBuf::new(h, PageContent::RemoveIndex);
    assert_eq!(fresh.as_ref().epoch(), 1);
}

#[test]
fn epoch_registry_defers_until_unpinned() {
    let mut reg = bwtree::epoch::EpochRegistry::new();
    let guard = reg.pin();
    reg.defer_chain(42);
    assert!(reg.collect().is_empty());
    reg.unpin(guard);
    let freed = reg.collect();
    assert_eq!(freed, vec![42]);
    assert!(reg.collect().is_empty());
}

#[test]
fn value_tombstone_flag() {
    assert!(Value::Delete.is_tombstone());
    assert!(!Value::Put(k("x")).is_tombstone());
}

#[test]
fn base_index_apply_split_deltas() {
    // The parent before the split: one child covering everything.
    let mut index = BaseIndex::new();
    index.add(k(""), PageIndex { id: 1, epoch: 0 });
    index.add(k("t"), PageIndex { id: 3, epoch: 0 });
    // A split of child 1 at "m": refresh the covering entry's epoch and
    // route the upper range to the new sibling.
    let deltas = vec![
        DeltaIndex { lowest: k(""), highest: k(""), new_child: PageIndex { id: 1, epoch: 1 } },
        DeltaIndex { lowest: k("m"), highest: k("t"), new_child: PageIndex { id: 2, epoch: 0 } },
    ];
    let _ = index.apply(deltas);
    // The parent holds both children with increasing separators.
    let low = index.get(&k("a")).unwrap();
    assert_eq!(low.id, 1);
    assert_eq!(low.epoch, 1);
    let midc = index.get(&k("p")).unwrap();
    assert_eq!(midc.id, 2);
    let high = index.get(&k("z")).unwrap();
    assert_eq!(high.id, 3);
}
