use cherrypick::pair_iter::pairs_of;

#[test]
fn void() {
    if let None = pairs_of(vec![] as Vec<i32>) {
    } else {
        panic!("")
    }
}

#[test]
fn one() {
    if let Some(it) = pairs_of(vec![0] as Vec<i32>) {
        let v = it.into_iter().collect::<Vec<(i32, i32)>>();
        println!("{:?}", &v);
        assert_eq!(v, vec![(0, 0)])
    } else {
        panic!("")
    }
}

#[test]
fn two() {
    if let Some(it) = pairs_of(vec![0, 1] as Vec<i32>) {
        let v = it.into_iter().collect::<Vec<(i32, i32)>>();
        println!("{:?}", &v);
        assert_eq!(v, vec![(0, 0), (0, 1), (1, 1)])
    } else {
        panic!("")
    }
}

#[test]
fn three() {
    if let Some(it) = pairs_of(vec![0, 1, 2] as Vec<i32>) {
        let v = it.into_iter().collect::<Vec<(i32, i32)>>();
        println!("{:?}", &v);
        assert_eq!(v, vec![(0, 0), (0, 1), (0, 2), (1, 1), (1, 2), (2, 2)])
    } else {
        panic!("")
    }
}

#[test]
fn pairs_count_is_triangular() {
    for n in 1..=12usize {
        let items: Vec<usize> = (0..n).collect();
        let pairs = pairs_of(items).unwrap();
        assert_eq!(pairs.len(), n * (n + 1) / 2);
    }
}

#[test]
fn pairs_stand_in_index_order_without_repeats() {
    let n = 6usize;
    let items: Vec<usize> = (0..n).collect();
    let pairs = pairs_of(items).unwrap();
    let mut expected = Vec::new();
    for i in 0..n {
        for j in i..n {
            expected.push((i, j));
        }
    }
    assert_eq!(pairs, expected);
    for x in 0..pairs.len() {
        for y in (x + 1)..pairs.len() {
            assert_ne!(pairs[x], pairs[y]);
            assert!(pairs[x] < pairs[y]);
        }
    }
}

#[test]
fn pair_position_follows_the_row_formula() {
    let n = 5usize;
    let items: Vec<u8> = vec![10, 20, 30, 40, 50];
    let pairs = pairs_of(items.clone()).unwrap();
    for i in 0..n {
        for j in i..n {
            let position = i * n - (i * i - i) / 2 + (j - i);
            assert_eq!(pairs[position], (items[i], items[j]));
        }
    }
    assert_eq!(pairs[5], (20, 20));
    assert_eq!(pairs[14], (50, 50));
}

#[test]
fn pairs_keep_equal_items_apart() {
    let pairs = pairs_of(vec!['a', 'a']).unwrap();
    assert_eq!(pairs, vec![('a', 'a'), ('a', 'a'), ('a', 'a')]);
}
