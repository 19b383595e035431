use anchors::{FnMutInto, FnMutInto2};
use im_rc::OrdMap;

#[test]
fn ffff() {
    let mut fnn = |x: &i32, y: &i32| x + y + 1;
    let r: i32 = fnn.call_into((&2, &3));
    let s: i64 = 1i32.into();
    assert_eq!(r, 6);
    assert_eq!(s, 1);
}

#[test]
fn test() {}

#[test]
fn dict_test() {
    let mut xx1: OrdMap<usize, usize> = OrdMap::new();
    xx1.insert(0, 1);
    xx1.insert(2, 1);
    xx1.insert(9, 1);
    xx1.insert(4, 2);
    println!("{xx1:?}");
    assert_eq!(xx1, OrdMap::<usize, usize>::from(vec![(0usize, 1usize), (2, 1), (4, 2), (9, 1)]));
}

#[test]
fn the_result_of_a_call_is_converted() {
    let mut count: i32 = 0;
    let mut f = |a: u8, b: u8, c: u8| {
        count += 1;
        a + b + c
    };
    let wide: u64 = f.call_into((1, 2, 3));
    assert_eq!(wide, 6);
    let wider: u128 = f.call_into2((4, 5, 6));
    assert_eq!(wider, 15);
    assert_eq!(count, 2);
    let mut one = |a: u32| a + 1;
    let r: u64 = one.call_into((41,));
    assert_eq!(r, 42);
    let mut nine = |a: u32, b: u32, c: u32, d: u32, e: u32, f: u32, g: u32, h: u32, i: u32| {
        a + b * c + d * e + f * g + h * i
    };
    let r: u64 = nine.call_into((1, 2, 3, 4, 5, 6, 7, 8, 9));
    assert_eq!(r, 141);
}
