use xross::all_types::ComprehensiveNode;
use xross::arrays::{get_fixed_array, sum_fixed_array};
use xross::bridge::{XrossClass, XrossStringView};
use xross::fast::{FastStruct, Point};
use xross::models::{ComplexStruct, ExternalStruct, PrimitiveTest};
use xross::services::MyService2;
use xross::standalone::{
    batch_heavy_prime_factorization, get_large_array, global_add, global_greet, global_multiply,
    heavy_prime_factorization, raw_global_add, raw_global_add_critical, raw_global_panic,
    test_unsigned,
};

#[test]
fn additions_and_multiplication() {
    assert_eq!(global_add(2, 40), 42);
    assert_eq!(raw_global_add(-5, 5), 0);
    assert_eq!(raw_global_add_critical(7, 8), 15);
    assert_eq!(global_multiply(-6, 7), -42);
    assert_eq!(test_unsigned(1, 2, 3), 6);
}

#[test]
fn greetings() {
    assert_eq!(global_greet("world".to_string()), "Hello, world!");
    assert_eq!(raw_global_panic(0), "Safe");
}

#[test]
fn prime_factor_counts() {
    assert_eq!(heavy_prime_factorization(1), 0);
    assert_eq!(heavy_prime_factorization(2), 1);
    assert_eq!(heavy_prime_factorization(12), 3);
    assert_eq!(heavy_prime_factorization(97), 1);
    assert_eq!(heavy_prime_factorization(1024), 10);
    assert_eq!(heavy_prime_factorization(2 * 3 * 5 * 7 * 11), 5);
    assert_eq!(heavy_prime_factorization(999_999_937), 1);
    assert_eq!(batch_heavy_prime_factorization(12, 3), 3);
    assert_eq!(batch_heavy_prime_factorization(12, 0), 0);
}

#[test]
fn fixed_arrays() {
    let a = get_fixed_array();
    assert_eq!(a, [1, 2, 3, 4, 5, 6, 7, 8]);
    assert_eq!(sum_fixed_array(a), 36);
    assert_eq!(sum_fixed_array([-1, 1, -2, 2, -3, 3, -4, 4]), 0);
}

#[test]
fn large_array() {
    let v = get_large_array(5);
    assert_eq!(v, vec![0, 1, 2, 3, 4]);
    assert!(get_large_array(0).is_empty());
}

#[test]
fn fast_struct_operations() {
    let f = FastStruct::new(7, "seven".to_string());
    assert_eq!(f.data, 7);
    assert_eq!(f.count_chars("hello".to_string()), 5);
    assert_eq!(f.count_chars(String::new()), 0);
    assert_eq!(f.add_raw(20, 22), 42);
    let p = f.move_point_raw(Point { x: 1, y: 2 });
    assert_eq!(p.x, 11);
    assert_eq!(p.y, 22);
}

#[test]
fn point_layout_string() {
    assert_eq!(<Point as XrossClass>::xross_layout(), "8;x:0:4;y:4:4");
}

#[test]
fn model_types() {
    let c = ComplexStruct::new(Some(3), Err("bad".to_string()));
    assert_eq!(c.opt, Some(3));
    assert!(c.res.is_err());

    let mut e = ExternalStruct::new(10, "Bob".to_string());
    assert_eq!(e.get_value(), 10);
    e.set_value(11);
    assert_eq!(e.get_value(), 11);
    assert_eq!(e.greet("Hi".to_string()), "Hi Bob");

    let mut pt = PrimitiveTest::new(1, 2, 3);
    pt.add_u32(40);
    assert_eq!(pt.u32_val, 42);
    assert_eq!(pt.u8_val, 1);
    assert_eq!(pt.u64_val, 3);
}

#[test]
fn service_clone_and_self_reference() {
    let s = MyService2::new(9);
    let t = s.create_clone();
    assert_eq!(t.val, 9);
    assert_eq!(s.get_self_ref().val, 9);
}

#[test]
fn node_construction() {
    let n = ComprehensiveNode::new(1, "Node".to_string());
    assert_eq!(n.id, 1);
    assert_eq!(n.data, "Node");
}

#[test]
fn string_view_decoding() {
    let latin = XrossStringView { ptr: 0, len: 3, encoding: 0 };
    let chars = latin.latin1_text(&vec![0x68, 0x69, 0xE9]);
    assert_eq!(chars, vec!['h', 'i', 'é']);

    let utf16 = XrossStringView { ptr: 0, len: 2, encoding: 1 };
    assert_eq!(utf16.utf16_text(&vec![0x68, 0x69]), "hi");
    assert_eq!(utf16.utf16_text(&Vec::new()), "");
}
