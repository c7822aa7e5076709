use citygen::array2d::{Array2d, SharedArray2d, Slice2d, SliceMut2d};

#[test]
fn grid_from_vec_reads_rows_and_cells() {
    let a = Array2d::from_vec(vec![1, 2, 3, 4, 5, 6], 3, 2);
    assert_eq!(a.width(), 3);
    assert_eq!(a.height(), 2);
    assert_eq!(a.get(0), &[1, 2, 3]);
    assert_eq!(a.get(1), &[4, 5, 6]);
    assert_eq!(*a.get_at(2, 1), 6);
    assert_eq!(*a.get_at(0, 1), 4);
    assert_eq!(a.data(), &[1, 2, 3, 4, 5, 6]);
}

#[test]
fn grid_from_array_flattens_rows() {
    let a = Array2d::from_array([[1u8, 2], [3, 4], [5, 6]]);
    assert_eq!(a.width(), 2);
    assert_eq!(a.height(), 3);
    assert_eq!(a.data(), &[1, 2, 3, 4, 5, 6]);
    assert_eq!(*a.get_at(1, 2), 6);
}

#[test]
fn grid_writes_through_rows_and_cells() {
    let mut a = Array2d::new(vec![0; 6], 2, 3);
    *a.get_at_mut(1, 2) = 9;
    a.get_mut(0)[0] = 7;
    a.data_mut()[3] = 5;
    assert_eq!(a.data(), &[7, 0, 0, 5, 0, 9]);
}

#[test]
fn grid_kernel_maps_each_cell_with_position() {
    let a = Array2d::from_vec(vec![10, 20, 30, 40], 2, 2);
    let k = a.kernel(|v: &i32, x: usize, y: usize| *v + (x as i32) * 100 + (y as i32) * 1000);
    assert_eq!(k.data(), &[10, 120, 1030, 1140]);
    assert_eq!(k.width(), 2);
    assert_eq!(k.height(), 2);
}

#[test]
fn grid_kernel_mut_changes_cells() {
    let mut a = Array2d::from_vec(vec![1, 2, 3, 4], 2, 2);
    let k = a.kernel_mut(|v: &mut i32, x: usize, _y: usize| {
        *v *= 2;
        x
    });
    assert_eq!(a.data(), &[2, 4, 6, 8]);
    assert_eq!(k.data(), &[0, 1, 0, 1]);
    a.kernel_on(|v: &mut i32, _x: usize, y: usize| *v += y as i32);
    assert_eq!(a.data(), &[2, 4, 7, 9]);
}

#[test]
fn slices_and_shared_grids_see_the_same_cells() {
    let mut a = Array2d::from_vec(vec![1, 2, 3, 4, 5, 6], 3, 2);
    {
        let s = a.as_slice();
        assert_eq!(s.get(1), &[4, 5, 6]);
        assert_eq!(*s.get_at(1, 0), 2);
        assert_eq!(s.width(), 3);
        assert_eq!(s.height(), 2);
    }
    {
        let mut m = a.as_slice_mut();
        *m.get_at_mut(0, 0) = 100;
        m.get_mut(1)[2] = 60;
        assert_eq!(*m.get_at(2, 1), 60);
    }
    assert_eq!(a.data(), &[100, 2, 3, 4, 5, 60]);
    let shared = a.to_shared();
    let copy = shared.clone();
    assert_eq!(*copy.get_at(0, 0), 100);
    assert_eq!(shared.get(0), &[100, 2, 3]);
    assert_eq!(shared.data(), copy.data());
}

#[test]
fn standalone_slices_index_rows() {
    let v = [1, 2, 3, 4];
    let s = Slice2d::new(&v, 2, 2);
    assert_eq!(s.get(1), &[3, 4]);
    let doubled = s.kernel(|c: &i32, _x: usize, _y: usize| c * 2);
    assert_eq!(doubled.data(), &[2, 4, 6, 8]);
    let mut w = [0u8; 4];
    let mut m = SliceMut2d::new(&mut w, 2, 2);
    m.kernel_on(|c: &mut u8, x: usize, y: usize| *c = (x + 2 * y) as u8);
    assert_eq!(m.data(), &[0, 1, 2, 3]);
    let sh = SharedArray2d::from_vec(vec![5, 6], 1, 2);
    assert_eq!(*sh.get_at(0, 1), 6);
    let sh2 = SharedArray2d::from_array([[1, 2, 3]]);
    assert_eq!(sh2.width(), 3);
    assert_eq!(sh2.height(), 1);
    let sh3 = SharedArray2d::new(vec![7, 8, 9, 10], 2, 2);
    assert_eq!(sh3.as_slice().get(1), &[9, 10]);
    assert_eq!(sh3.kernel(|c: &i32, _x: usize, _y: usize| c + 1).data(), &[8, 9, 10, 11]);
}

#[test]
fn slice_kernel_mut_stores_results_and_updates_cells() {
    let mut buf = [1usize, 2, 3, 4];
    {
        let mut s = SliceMut2d::new(&mut buf, 2, 2);
        let r = s.kernel_mut(|v: &mut usize, x: usize, y: usize| {
            *v += 1;
            x + 2 * y
        });
        assert_eq!(r.width(), 2);
        assert_eq!(r.height(), 2);
        assert_eq!(r.data(), &[0, 1, 2, 3]);
        assert_eq!(s.data(), &[2, 3, 4, 5]);
    }
    assert_eq!(buf, [2, 3, 4, 5]);
}

#[test]
fn grid_kernel_mut_puts_each_result_at_its_cell() {
    let mut a = Array2d::new(vec![10i32, 20, 30, 40, 50, 60], 3, 2);
    let r = a.kernel_mut(|v: &mut i32, x: usize, y: usize| {
        let before = *v;
        *v = (x * 10 + y) as i32;
        before + 1
    });
    assert_eq!(r.data(), &[11, 21, 31, 41, 51, 61]);
    assert_eq!(a.data(), &[0, 10, 20, 1, 11, 21]);
}

#[test]
fn writes_through_a_view_reach_the_grid() {
    let mut a = Array2d::new(vec![1u8, 2, 3, 4], 2, 2);
    {
        let mut v = a.as_slice_mut();
        *v.get_at_mut(1, 0) = 9;
    }
    assert_eq!(a.data(), &[1, 9, 3, 4]);
}

#[test]
fn slice_kernel_on_writes_back_to_the_buffer() {
    let mut buf = [0usize; 6];
    {
        let mut s = SliceMut2d::new(&mut buf, 2, 3);
        s.kernel_on(|v: &mut usize, x: usize, y: usize| *v = 10 * y + x);
        assert_eq!(s.data(), &[0, 1, 10, 11, 20, 21]);
        assert_eq!(s.width(), 2);
        assert_eq!(s.height(), 3);
    }
    assert_eq!(buf, [0, 1, 10, 11, 20, 21]);
}
