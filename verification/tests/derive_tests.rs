use kokoro::derive::{event_type_id, event_type_string, hash, sort_order_by_hash, stable_order, EventShape, VariantShape};
use std::collections::hash_map::DefaultHasher;
use std::hash::{Hash, Hasher};

fn std_hash(s: &str) -> u64 {
    let mut h = DefaultHasher::new();
    s.hash(&mut h);
    h.finish()
}

fn s(x: &str) -> String {
    x.to_string()
}

#[test]
fn hash_matches_hash_of_str() {
    for t in ["", "a", "Print", "kokoro@struct~Print(& 'static dyn Display)", "héllo"] {
        assert_eq!(hash(t), std_hash(t));
    }
    assert_ne!(hash("a"), hash("b"));
}

#[test]
fn type_strings() {
    let named = EventShape::Named(vec![(s("a"), s("u8")), (s("b"), s("String"))]);
    assert_eq!(event_type_string("pkg", "Ev", &named), "pkg@struct~Ev{a:u8;b:String}");
    assert_eq!(event_type_string("pkg", "Unit", &EventShape::Unit), "pkg@struct~Unit");
    let tuple = EventShape::Unnamed(vec![s("u8"), s("bool")]);
    assert_eq!(event_type_string("", "Pair", &tuple), "@struct~Pair(u8,bool)");
    let e = EventShape::Enum(vec![
        VariantShape { name: s("A"), fields: s(""), discriminant: Some(s("3")) },
        VariantShape { name: s("B"), fields: s("(u8)"), discriminant: None },
    ]);
    assert_eq!(event_type_string("p", "E", &e), "p@enum~E{A=3,B(u8)}");
    assert_eq!(event_type_string("p", "E", &EventShape::Named(Vec::new())), "p@struct~E{}");
    assert_eq!(event_type_id("pkg", "Unit", &EventShape::Unit), std_hash("pkg@struct~Unit"));
}

#[test]
fn stable_order_sorts_by_key_then_position() {
    assert_eq!(stable_order(&vec![5, 1, 5, 0, 1]), vec![3, 1, 4, 0, 2]);
    assert_eq!(stable_order(&Vec::new()), Vec::<usize>::new());
    assert_eq!(stable_order(&vec![7, 7, 7]), vec![0, 1, 2]);
}

#[test]
fn sort_order_by_hash_matches_sort_by_key() {
    let names = vec![s("zeta"), s("alpha"), s("beta"), s("gamma"), s("alpha")];
    let order = sort_order_by_hash(&names);
    let mut expected: Vec<usize> = (0..names.len()).collect();
    expected.sort_by_key(|&i| std_hash(&names[i]));
    assert_eq!(order, expected);
}

fn sorted_named(fields: &[(&str, &str)]) -> EventShape {
    let names: Vec<String> = fields.iter().map(|f| s(f.0)).collect();
    let order = sort_order_by_hash(&names);
    EventShape::Named(order.into_iter().map(|i| (s(fields[i].0), s(fields[i].1))).collect())
}

#[test]
fn sorted_fields_in_any_order_give_the_same_id() {
    let a = sorted_named(&[("x", "u8"), ("name", "String"), ("y", "i64")]);
    let b = sorted_named(&[("y", "i64"), ("x", "u8"), ("name", "String")]);
    let c = sorted_named(&[("name", "String"), ("y", "i64"), ("x", "u8")]);
    let ta = event_type_string("pkg", "Moved", &a);
    assert_eq!(ta, event_type_string("pkg", "Moved", &b));
    assert_eq!(ta, event_type_string("pkg", "Moved", &c));
    let id = event_type_id("pkg", "Moved", &a);
    assert_eq!(id, event_type_id("pkg", "Moved", &b));
    assert_eq!(id, event_type_id("pkg", "Moved", &c));
    assert_eq!(id, std_hash(&ta));
    let unsorted = EventShape::Named(vec![(s("y"), s("i64")), (s("x"), s("u8")), (s("name"), s("String"))]);
    let unsorted2 = EventShape::Named(vec![(s("x"), s("u8")), (s("y"), s("i64")), (s("name"), s("String"))]);
    assert_ne!(event_type_id("pkg", "Moved", &unsorted), event_type_id("pkg", "Moved", &unsorted2));
}
