use citygen::generator::rand_select;

#[test]
fn rand_select_removes_one_element() {
    let mut v = vec![1, 2, 3, 4];
    let x = rand_select(&mut v);
    assert_eq!(v.len(), 3);
    assert!(!v.contains(&x));
    let mut all = v.clone();
    all.push(x);
    all.sort();
    assert_eq!(all, vec![1, 2, 3, 4]);
}
