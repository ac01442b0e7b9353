use dsa_rs::heap::Heap;

#[test]
fn test_max_heap() {
    let data = vec![3, 1, 2, 4, 5, 6, 7];
    let heap = Heap::build_max_heap(data);
    assert_eq!(vec![7, 6, 5, 4, 3, 2, 1], *heap.data());
}

#[test]
fn heap_of_nothing_is_empty() {
    let heap = Heap::build_max_heap(Vec::<i32>::new());
    assert!(heap.data().is_empty());
}

#[test]
fn heap_of_one_element() {
    let heap = Heap::build_max_heap(vec![42_u8]);
    assert_eq!(vec![42_u8], *heap.data());
}

#[test]
fn heap_with_least_element_last() {
    let heap = Heap::build_max_heap(vec![2, 1]);
    assert_eq!(vec![2, 1], *heap.data());
    let heap = Heap::build_max_heap(vec![5, 9, 7, 3, 8, 1]);
    assert_eq!(vec![9, 8, 7, 5, 3, 1], *heap.data());
}

#[test]
fn heap_with_greatest_element_last() {
    let heap = Heap::build_max_heap(vec![1, 2]);
    assert_eq!(vec![2, 1], *heap.data());
}

#[test]
fn heap_keeps_repeated_elements() {
    let heap = Heap::build_max_heap(vec![4, 1, 4, 2, 1, 4, 0, 2]);
    assert_eq!(vec![4, 4, 4, 2, 2, 1, 1, 0], *heap.data());
}

#[test]
fn heap_of_sorted_and_reversed_input() {
    let ascending: Vec<u32> = (0..100).collect();
    let descending: Vec<u32> = (0..100).rev().collect();
    assert_eq!(descending, *Heap::build_max_heap(ascending).data());
    assert_eq!(descending, *Heap::build_max_heap(descending.clone()).data());
}

#[test]
fn heap_result_is_a_max_heap() {
    let mut seed: u64 = 0x2545_f491_4f6c_dd1d;
    let mut data = Vec::new();
    for _ in 0..257 {
        seed ^= seed << 13;
        seed ^= seed >> 7;
        seed ^= seed << 17;
        data.push((seed % 1000) as i64 - 500);
    }
    let mut expected = data.clone();
    expected.sort();
    expected.reverse();
    let heap = Heap::build_max_heap(data);
    assert_eq!(expected, *heap.data());
    let arranged = heap.data();
    for i in 1..arranged.len() {
        assert!(arranged[i] <= arranged[(i - 1) / 2]);
    }
}

#[test]
fn heap_of_strings_and_floats() {
    let words = vec!["pear".to_string(), "apple".to_string(), "quince".to_string(), "fig".to_string()];
    let heap = Heap::build_max_heap(words);
    assert_eq!(
        vec!["quince".to_string(), "pear".to_string(), "fig".to_string(), "apple".to_string()],
        *heap.data()
    );
    let heap = Heap::build_max_heap(vec![1.5_f64, 3.0, -2.25, 2.0]);
    assert_eq!(vec![3.0_f64, 2.0, 1.5, -2.25], *heap.data());
}
