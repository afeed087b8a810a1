use apefish_engine::basetypes::{EnumKey, EnumMap, IndexedPieceKind, SlidingPieceKind};

#[test]
fn enum_map_new_holds_the_default_for_every_key() {
    let m: EnumMap<IndexedPieceKind, u64> = EnumMap::new(7);
    let pairs = m.iter();
    assert_eq!(pairs.len(), 4);
    assert!(pairs.iter().all(|(_, v)| *v == 7));
    assert_eq!(*m.get(IndexedPieceKind::Rook), 7);
}

#[test]
fn enum_map_from_fn_and_set_go_by_key() {
    let mut m: EnumMap<IndexedPieceKind, usize> = EnumMap::from_fn(|k: IndexedPieceKind| EnumKey::index(k) * 10);
    assert_eq!(*m.get(IndexedPieceKind::Knight), 0);
    assert_eq!(*m.get(IndexedPieceKind::King), 30);
    m.set(IndexedPieceKind::Bishop, 99);
    let pairs = m.iter();
    assert_eq!(pairs[1], (IndexedPieceKind::Bishop, 99));
    assert_eq!(pairs[2], (IndexedPieceKind::Rook, 20));
}

#[test]
fn enum_map_from_array_keeps_key_order() {
    let m: EnumMap<SlidingPieceKind, &str> = EnumMap::from_array(vec!["bishop", "rook"]);
    assert_eq!(*m.get(SlidingPieceKind::Bishop), "bishop");
    assert_eq!(*m.get(SlidingPieceKind::Rook), "rook");
    assert_eq!(<SlidingPieceKind as EnumKey>::count(), 2);
    assert_eq!(<IndexedPieceKind as EnumKey>::from_index(3), IndexedPieceKind::King);
}
