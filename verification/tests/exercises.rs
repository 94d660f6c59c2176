use roadgraph::dynamic_array::DynamicArray;
use roadgraph::edit_distance::compute_ed_recursively;
use roadgraph::edit_distance::compute_ed_via_table;
use roadgraph::hash_func::HashFunction;
use roadgraph::heap_sort::heap_sort;
use roadgraph::ins_sort::insertion_sort;
use roadgraph::priority_queue::PriorityQueue;

#[test]
fn ins_sort_test_normal_sort() {
    let data: Vec<u64> = vec![5, 10, 3, 1, 2, 564, 874, 21, 454, 12, 5];
    assert_eq!(
        vec![1, 2, 3, 5, 5, 10, 12, 21, 454, 564, 874],
        insertion_sort(data)
    );
}

#[test]
fn ins_sort_test_empty() {
    assert_eq!(vec![] as Vec<u64>, insertion_sort(vec![] as Vec<u64>));
}

#[test]
fn heap_sort_test_normal_sort() {
    let mut data: Vec<u64> = vec![5, 10, 3, 1, 2, 564, 874, 21, 454, 12, 5];
    heap_sort(&mut data);
    assert_eq!(vec![1, 2, 3, 5, 5, 10, 12, 21, 454, 564, 874], data);
}

#[test]
fn heap_sort_test_empty() {
    let mut data: Vec<u64> = vec![];
    heap_sort(&mut data);
    assert_eq!(vec![] as Vec<u64>, data);
}

#[test]
fn heap_sort_two_elements() {
    let mut data: Vec<u64> = vec![2, 1];
    heap_sort(&mut data);
    assert_eq!(vec![1, 2], data);
}

#[test]
fn test_fresh_list() {
    let array = DynamicArray::<String>::new();
    assert_eq!(0, array.len());
    assert_eq!(2, array.capacity());
}

#[test]
fn test_append() {
    let mut array = DynamicArray::<String>::new();

    array.append("1".to_owned());

    let expected = vec!["1"];
    assert_eq!(expected.len(), array.len());
    assert_eq!(2, array.capacity());
    assert_eq!(
        expected,
        (0..expected.len())
            .map(|val| array.get(val).clone())
            .collect::<Vec<String>>()
    );

    array.append("2".to_owned());
    array.append("3".to_owned());

    let expected = vec!["1", "2", "3"];
    assert_eq!(expected.len(), array.len());
    assert_eq!(4, array.capacity());
    assert_eq!(
        expected,
        (0..expected.len())
            .map(|val| array.get(val).clone())
            .collect::<Vec<String>>()
    );

    array.append("4".to_owned());
    array.append("5".to_owned());

    let expected = vec!["1", "2", "3", "4", "5"];
    assert_eq!(expected.len(), array.len());
    assert_eq!(8, array.capacity());
    assert_eq!(
        expected,
        (0..expected.len())
            .map(|val| array.get(val).clone())
            .collect::<Vec<String>>()
    );
}

#[test]
fn dynamic_array_test_remove() {
    let mut array = DynamicArray::<String>::new();

    let data = (1..10).map(|i| format!("{}", i)).collect::<Vec<String>>();
    for s in data {
        array.append(s);
    }

    let expected = vec!["1", "2", "3", "4", "5", "6", "7", "8", "9"];
    assert_eq!(expected.len(), array.len());
    assert_eq!(16, array.capacity());
    assert_eq!(
        expected,
        (0..expected.len())
            .map(|val| array.get(val).clone())
            .collect::<Vec<String>>()
    );

    array.remove();
    array.remove();
    array.remove();
    array.remove();

    let expected = vec!["1", "2", "3", "4", "5"];
    assert_eq!(expected.len(), array.len());
    assert_eq!(8, array.capacity());
    assert_eq!(
        expected,
        (0..expected.len())
            .map(|val| array.get(val).clone())
            .collect::<Vec<String>>()
    );

    array.remove();
    array.remove();
    array.remove();

    let expected = vec!["1", "2"];
    assert_eq!(expected.len(), array.len());
    assert_eq!(4, array.capacity());
    assert_eq!(
        expected,
        (0..expected.len())
            .map(|val| array.get(val).clone())
            .collect::<Vec<String>>()
    );
}

#[test]
fn test_append_remove() {
    let mut array = DynamicArray::<String>::new();

    assert_eq!(0, array.len());
    assert_eq!(2, array.capacity());

    array.append("1".to_owned());

    assert_eq!(1, array.len());
    assert_eq!(2, array.capacity());

    array.append("2".to_owned());

    assert_eq!(2, array.len());
    assert_eq!(2, array.capacity());

    array.remove();

    assert_eq!(1, array.len());
    assert_eq!(2, array.capacity());

    array.append("2".to_owned());

    assert_eq!(2, array.len());
    assert_eq!(2, array.capacity());

    array.append("3".to_owned());

    assert_eq!(3, array.len());
    assert_eq!(4, array.capacity());

    array.append("4".to_owned());
    array.append("5".to_owned());

    assert_eq!(5, array.len());
    assert_eq!(8, array.capacity());

    array.remove();

    assert_eq!(4, array.len());
    assert_eq!(8, array.capacity());

    array.remove();

    assert_eq!(3, array.len());
    assert_eq!(8, array.capacity());

    array.remove();

    assert_eq!(2, array.len());
    assert_eq!(4, array.capacity());
}

#[test]
fn test_distance() {
    assert_eq!(2, compute_ed_recursively("donald", "ronaldo"));
    assert_eq!(2, compute_ed_via_table("donald", "ronaldo"));

    assert_eq!(2, compute_ed_recursively("grau", "raum"));
    assert_eq!(2, compute_ed_via_table("grau", "raum"));

    assert_eq!(4, compute_ed_recursively("Hello", "Hi"));
    assert_eq!(4, compute_ed_via_table("Hello", "Hi"));
}

#[test]
fn test_border_cases() {
    assert_eq!(0, compute_ed_recursively("", ""));
    assert_eq!(0, compute_ed_via_table("", ""));

    assert_eq!(11, compute_ed_recursively("Hello World", ""));
    assert_eq!(11, compute_ed_via_table("Hello World", ""));

    assert_eq!(11, compute_ed_recursively("", "Hello World"));
    assert_eq!(11, compute_ed_via_table("", "Hello World"));
}

#[test]
fn test_unicode() {
    assert_eq!(1, compute_ed_recursively("今日は", "今は"));
    assert_eq!(1, compute_ed_via_table("今日は", "今は"));
}

#[test]
fn test_general() {
    let mut q: PriorityQueue<&str> = PriorityQueue::new();
    q.insert(103, "503");
    q.insert(100, "500");
    q.insert(102, "502");
    q.insert(101, "501");

    let expected = vec![(100u64, "500"), (101, "501"), (102, "502"), (103, "503")];

    for val in expected {
        match q.pop() {
            None => {
                assert!(false);
            }
            Some(q_val) => {
                assert_eq!(val, q_val);
            }
        }
    }
}

#[test]
fn priority_queue_get_min_and_size() {
    let mut q: PriorityQueue<u64> = PriorityQueue::new();
    assert_eq!(0, q.size());
    assert!(q.get_min().is_none());
    q.insert(7, 70);
    q.insert(3, 30);
    q.insert(9, 90);
    assert_eq!(3, q.size());
    let min = q.get_min().unwrap();
    assert_eq!(3, min.0);
    assert_eq!(30, *min.1);
    q.delete_min();
    let min = q.get_min().unwrap();
    assert_eq!(7, min.0);
}

#[test]
fn hash_function_stays_in_range() {
    let mut h = HashFunction::new(101, 10);
    assert_eq!(10, h.num_buckets());
    for round in 0..5 {
        h.set_random_parameters();
        for v in 0..50usize {
            let bucket = h.apply(&(v + round));
            assert!(bucket < 10);
        }
    }
}

#[test]
fn quick_sort_normal() {
    let mut data: Vec<u64> = vec![5, 10, 3, 1, 2, 564, 874, 21, 454, 12, 5];
    roadgraph::quick_sort::quick_sort(&mut data);
    assert_eq!(vec![1, 2, 3, 5, 5, 10, 12, 21, 454, 564, 874], data);
}

#[test]
fn quick_sort_empty_and_two() {
    let mut data: Vec<u64> = vec![];
    roadgraph::quick_sort::quick_sort(&mut data);
    assert_eq!(vec![] as Vec<u64>, data);
    let mut data: Vec<u64> = vec![2, 1];
    roadgraph::quick_sort::quick_sort(&mut data);
    assert_eq!(vec![1, 2], data);
}

#[test]
fn hash_map_put_accepts_updates() {
    let mut h: roadgraph::hash_map::HashMap<u32> = roadgraph::hash_map::HashMap::new(101, 10);
    for i in 0..50usize {
        h.put(i, i as u32);
    }
    // overwriting an existing key and colliding keys both stay well-formed
    h.put(7, 700);
    h.put(7 + 101, 1);
    h.put(7, 701);
}
