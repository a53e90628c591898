use cs220::functions::{funny_map, Either2};

#[test]
fn either_maps_its_case() {
    let a: Either2<i32, String> = Either2::Case1 { inner: 3 };
    assert_eq!(a.map(|x| x * 2, |s: String| s.len()), Either2::Case1 { inner: 6 });
    let b: Either2<i32, String> = Either2::Case2 { inner: "abc".to_string() };
    assert_eq!(b.map(|x| x * 2, |s: String| s.len()), Either2::Case2 { inner: 3 });
}

#[test]
fn funny_map_applies_index_times() {
    assert_eq!(funny_map(|x| x + 1, vec![0, 0, 0, 0]), vec![0, 1, 2, 3]);
    assert_eq!(funny_map(|x| x * 2, vec![1, 1, 1, 1]), vec![1, 2, 4, 8]);
    assert_eq!(funny_map(|x: i32| x, vec![]), vec![]);
}
