use cs220::cycle::detect_cycle;
use cs220::du::{du_sort, File};
use cs220::labyrinth::Husband;
use cs220::lists::{inversion, natural_join, remove_duplicate, remove_even};
use cs220::sequences::{divisors, find, interleave3, interleave_n, range, Endpoint};
use cs220::stats::{find_count_n, median, mode, position_median};
use cs220::storage::{FileUploader, MockStorage, Storage};
use cs220::transform::{Identity, Repeat, Transform};
use cs220::tree::{traverse_preorder, Node as TreeNode};
use cs220::weekday::{next_weekday, DayOfWeek};

#[test]
fn median_examples() {
    assert_eq!(median(vec![1, 3, 3, 6, 7, 8, 9]), Some(6));
    assert_eq!(median(vec![1, 2, 3, 4, 5, 6, 8, 9]), Some(5));
    assert_eq!(median(vec![9, 1, 8, 2]), Some(8));
    assert_eq!(median(vec![]), None);
}

#[test]
fn mode_examples() {
    assert_eq!(mode(vec![3, 1, 3, 1, 2]), Some(1));
    assert_eq!(mode(vec![5, 4, 5]), Some(5));
    assert_eq!(mode(vec![-2]), Some(-2));
    assert_eq!(mode(vec![]), None);
}

#[test]
fn position_median_examples() {
    assert_eq!(position_median(vec![1, 3, 3, 6, 7, 8, 9]), Some(3));
    assert_eq!(position_median(vec![1, 3, 3, 3]), Some(1));
    assert_eq!(position_median(vec![5, 1, 9]), Some(0));
    assert_eq!(position_median(vec![]), None);
}

#[test]
fn find_count_n_examples() {
    assert_eq!(find_count_n(vec![1, 2], 1), vec![1, 2]);
    assert_eq!(find_count_n(vec![1, 3, 3], 1), vec![1]);
    assert_eq!(find_count_n(vec![1, 3, 3], 2), vec![3]);
    assert_eq!(find_count_n(vec![1, 2, 3, 4, 4], 1), vec![1, 2, 3]);
    assert_eq!(find_count_n(vec![4, 2, 4, 2, 9], 2), vec![2, 4]);
    assert_eq!(find_count_n(vec![1, 2], 0), vec![]);
}

#[test]
fn range_examples() {
    assert_eq!(range(Endpoint::Inclusive(0), Endpoint::Exclusive(5), 2), vec![0, 2, 4]);
    assert_eq!(range(Endpoint::Inclusive(0), Endpoint::Inclusive(4), 2), vec![0, 2, 4]);
    assert_eq!(range(Endpoint::Exclusive(0), Endpoint::Inclusive(3), 1), vec![1, 2, 3]);
    assert_eq!(range(Endpoint::Inclusive(3), Endpoint::Exclusive(0), -1), vec![3, 2, 1]);
    assert_eq!(range(Endpoint::Exclusive(3), Endpoint::Inclusive(0), -2), vec![2, 0]);
    assert_eq!(range(Endpoint::Inclusive(5), Endpoint::Exclusive(5), 1), vec![]);
    assert_eq!(
        range(Endpoint::Inclusive(isize::MAX - 1), Endpoint::Inclusive(isize::MAX), 1),
        vec![isize::MAX - 1, isize::MAX]
    );
}

#[test]
fn divisors_examples() {
    assert_eq!(divisors(1), vec![1]);
    assert_eq!(divisors(12), vec![1, 2, 3, 4, 6, 12]);
    assert_eq!(divisors(13), vec![1, 13]);
    assert_eq!(divisors(36), vec![1, 2, 3, 4, 6, 9, 12, 18, 36]);
    assert_eq!(divisors(600851475143), vec![
        1, 71, 839, 1471, 6857, 59569, 104441, 486847, 1234169, 5753023, 10086647, 87625999,
        408464633, 716151937, 8462696833, 600851475143,
    ]);
}

#[test]
fn find_examples() {
    assert_eq!(find(b"ab", b"abcabab"), vec![0, 3, 5]);
    assert_eq!(find(b"aa", b"aaa"), vec![0, 1]);
    assert_eq!(find(b"", b"ab"), vec![0, 1, 2]);
    assert_eq!(find(b"abc", b"ab"), vec![]);
}

#[test]
fn interleave_examples() {
    assert_eq!(interleave3(vec![1, 2], vec![3, 4], vec![5, 6]), vec![1, 3, 5, 2, 4, 6]);
    assert_eq!(interleave3(Vec::<u8>::new(), vec![], vec![]), vec![]);
    assert_eq!(
        interleave_n(vec![vec![1, 2], vec![3, 4], vec![5, 6]]),
        vec![1, 3, 5, 2, 4, 6]
    );
    assert_eq!(interleave_n(vec![vec!['a'], vec!['b']]), vec!['a', 'b']);
    assert_eq!(interleave_n(Vec::<Vec<u8>>::new()), vec![]);
}

#[test]
fn weekdays() {
    assert_eq!(next_weekday(DayOfWeek::Thu), DayOfWeek::Fri);
    assert_eq!(next_weekday(DayOfWeek::Fri), DayOfWeek::Mon);
    assert_eq!(next_weekday(DayOfWeek::Sat), DayOfWeek::Mon);
    assert_eq!(next_weekday(DayOfWeek::Sun), DayOfWeek::Mon);
    assert_eq!(next_weekday(DayOfWeek::Mon), DayOfWeek::Tue);
}

#[test]
fn storage_uploads_within_capacity() {
    let mut s = MockStorage::new(100);
    assert_eq!(s.upload("a", 60), Ok(()));
    assert_eq!(s.used(), 60);
    assert_eq!(s.upload("b", 50), Err(10));
    assert_eq!(s.used(), 60);
    assert_eq!(s.upload("a", 30), Ok(()));
    assert_eq!(s.upload("b", 70), Ok(()));
    assert_eq!(s.used(), 100);
    assert_eq!(s.capacity(), 100);
}

#[derive(Clone, Copy)]
struct AddOne;

impl Transform<u32> for AddOne {
    fn transform(&self, value: u32) -> u32 {
        value + 1
    }
}

#[test]
fn repeated_transformations() {
    assert_eq!(Repeat::new(AddOne, 5).transform(1), 6);
    assert_eq!(Repeat::new(AddOne, 0).transform(1), 1);
    assert_eq!(Identity.transform(9u32), 9);
}

#[test]
fn inversions_in_order() {
    assert_eq!(
        inversion(vec![3, 5, 1, 2, 4]),
        vec![(0, 2), (0, 3), (1, 2), (1, 3), (1, 4)]
    );
    assert_eq!(inversion(vec![1, 2, 3]), vec![]);
    assert_eq!(inversion(vec![2, 2]), vec![]);
}

#[test]
fn remove_even_keeps_odd() {
    let mut v = vec![1, 2, 3, 4, 5, -3, -4];
    remove_even(&mut v);
    assert_eq!(v, vec![1, 3, 5, -3]);
}

#[test]
fn remove_duplicate_collapses_runs() {
    let mut v = vec![1, 1, 2, 2, 2, 3, 1];
    remove_duplicate(&mut v);
    assert_eq!(v, vec![1, 2, 3, 1]);
    let mut e: Vec<i64> = vec![];
    remove_duplicate(&mut e);
    assert_eq!(e, vec![]);
}

fn rows(t: &[[&str; 2]]) -> Vec<Vec<String>> {
    t.iter().map(|r| r.iter().map(|c| c.to_string()).collect()).collect()
}

#[test]
fn natural_join_on_first_column() {
    let t1 = rows(&[["20230001", "Jack"], ["20231234", "Mike"]]);
    let t2 = rows(&[["20230001", "CS"], ["20230001", "EE"], ["20231234", "ME"], ["1", "X"]]);
    let expected: Vec<Vec<String>> = vec![
        vec!["20230001".to_string(), "Jack".to_string(), "CS".to_string()],
        vec!["20230001".to_string(), "Jack".to_string(), "EE".to_string()],
        vec!["20231234".to_string(), "Mike".to_string(), "ME".to_string()],
    ];
    assert_eq!(natural_join(t1, t2), expected);
}

#[test]
fn preorder_traversal() {
    let tree = TreeNode::NonLeaf((
        1,
        vec![
            TreeNode::NonLeaf((2, vec![TreeNode::Leaf(5), TreeNode::Leaf(6)])),
            TreeNode::Leaf(3),
            TreeNode::NonLeaf((4, vec![TreeNode::Leaf(7), TreeNode::Leaf(8), TreeNode::Leaf(9)])),
        ],
    ));
    assert_eq!(traverse_preorder(tree), vec![1, 2, 5, 6, 3, 4, 7, 8, 9]);
    assert_eq!(traverse_preorder(TreeNode::Leaf('a')), vec!['a']);
    assert_eq!(traverse_preorder(TreeNode::NonLeaf(('r', vec![]))), vec!['r']);
}

fn search(rooms: &[usize], wife: usize) -> Option<usize> {
    let mut husband = Husband::seeking(wife);
    let mut strategy = husband.has_devised_a_strategy();
    let mut visits = 0;
    while let Some(room) = strategy.next_room(&husband) {
        visits += 1;
        let inside = rooms[room];
        husband.carefully_checks_whos_inside(room, inside);
        if inside == wife {
            return Some(visits);
        }
    }
    None
}

#[test]
fn labyrinth_follows_the_chain() {
    let swapped: Vec<usize> = (0..100).map(|i| if i % 2 == 0 { i + 1 } else { i - 1 }).collect();
    assert_eq!(search(&swapped, 4), Some(2));
    let identity: Vec<usize> = (0..100).collect();
    assert_eq!(search(&identity, 42), Some(1));
    let long_cycle: Vec<usize> = (0..100).map(|i| (i + 1) % 100).collect();
    assert_eq!(search(&long_cycle, 5), None);
}

#[test]
fn disk_usage_sorted_by_size_then_name() {
    let root = File::Directory(
        "root".to_string(),
        vec![
            File::Directory(
                "a".to_string(),
                vec![File::Data("a1".to_string(), 1), File::Data("a2".to_string(), 3)],
            ),
            File::Directory(
                "b".to_string(),
                vec![File::Data("b1".to_string(), 3), File::Data("b2".to_string(), 15)],
            ),
            File::Data("c".to_string(), 8),
        ],
    );
    assert_eq!(
        du_sort(&root),
        vec![
            ("a1", 1),
            ("a2", 3),
            ("b1", 3),
            ("a", 4),
            ("c", 8),
            ("b2", 15),
            ("b", 18),
            ("root", 30)
        ]
    );
    assert_eq!(du_sort(&File::Directory("empty".to_string(), vec![])), vec![("empty", 0)]);
}

#[test]
fn pairs_transform_componentwise() {
    let pair = (Repeat::new(AddOne, 2), Identity);
    assert_eq!(pair.transform((1u32, 7u32)), (3, 7));
}

#[test]
fn uploader_forwards_to_storage() {
    let mut storage = MockStorage::new(10);
    {
        let mut uploader = FileUploader::new(&mut storage);
        assert_eq!(uploader.upload("a", 4), Ok(()));
        assert_eq!(uploader.upload("b", 7), Err(1));
    }
    assert_eq!(storage.used(), 4);
}

#[test]
fn cycles_in_adjacency_lists() {
    assert!(!detect_cycle(&vec![]));
    assert!(!detect_cycle(&vec![vec![1], vec![2], vec![]]));
    assert!(detect_cycle(&vec![vec![1], vec![2], vec![0]]));
    assert!(detect_cycle(&vec![vec![0]]));
    assert!(!detect_cycle(&vec![vec![1, 2], vec![2], vec![]]));
    assert!(detect_cycle(&vec![vec![], vec![2], vec![3], vec![1]]));
}
