use std::collections::HashMap;

use rand::thread_rng;
use rust_bart::tree::node::Node;
use rust_bart::tree::split::Split;
use rust_bart::tree::tree::Tree;

#[test]
fn split_test_split() {
    println!("split0: {:?}", Split::new_leaf());

    let x: Vec<Vec<i16>> = vec![vec![1, 13, 10], vec![2, 3, 5]];
    let split1 = Split::new_continuous(0, 4);
    println!("split1: {:?}", split1);
    assert_eq!(split1.go_left(&x, 0), true);
    assert_eq!(split1.go_right(&x, 1), true);
    assert_eq!(split1.go_left(&x, 2), false);

    let split2 = Split::new_continuous(1, 4);
    assert_eq!(split2.go_left(&x, 0), true);
    assert_eq!(split2.go_right(&x, 1), false);
    assert_eq!(split2.go_left(&x, 2), false);

    let split3 = Split::new_categorical(0, vec![1_i16, 8_i16]);
    println!("split3: {:?}", split3);
    assert_eq!(split3.go_left(&x, 0), true);
    assert_eq!(split3.go_right(&x, 1), true);
    assert_eq!(split3.go_left(&x, 2), false);

    let split4 = Split::new_categorical(1, vec![1_i16, 8_i16]);
    assert_eq!(split4.go_left(&x, 0), false);
    assert_eq!(split4.go_right(&x, 1), true);
    assert_eq!(split4.go_left(&x, 2), false)
}

#[derive(Clone, Debug, Eq, Hash, PartialEq)]
enum CatsOrInt {
    Cat(Vec<i16>),
    Con(i16),
}

fn fmt(freq: &HashMap<CatsOrInt, f64>, w: usize, p: usize) -> String {
    let mut s: Vec<String> = freq
        .iter()
        .map(|(k, &v)| match k {
            CatsOrInt::Cat(cats) => {
                let cats: Vec<String> = cats.iter().map(|&i| i.to_string()).collect();
                format!("{: >w$}:{:.p$}", cats.join(""), v, w = w, p = p)
            }
            CatsOrInt::Con(k) => {
                format!("{:0w$}:{:.p$}", *k, v, w = w, p = p)
            }
        })
        .collect::<Vec<String>>();
    s.sort();
    s.join("|")
}

#[test]
fn test_rand_pick_con_split() {
    let init = Split::new_continuous(1, 19);

    let mut tree = Tree::new(10);
    tree.grow_or_change(Node::internal(1, Split::new_continuous(1, 13)));
    tree.grow_or_change(Node::internal(2, Split::new_continuous(0, 4)));
    tree.grow_or_change(Node::internal(5, Split::new_continuous(1, 8)));
    println!("{:?}", tree);

    let mut rng = thread_rng();
    let n = 1000000;
    let mut freq: HashMap<CatsOrInt, f64> = HashMap::new();
    (0..n).for_each(|_i| {
        let split_id = init.rand_pick_sub_split(&tree, 10, &mut rng).unwrap();
        freq.entry(CatsOrInt::Con(split_id.idx_or_bit()))
            .and_modify(|f| {
                *f += (1.0 as f64) / (n as f64);
            })
            .or_insert((1.0 as f64) / (n as f64));
    });
    println!("freq:{}", fmt(&freq, 2, 2));
    assert_eq!(
        fmt(&freq, 2, 2),
        "01:0.14|02:0.14|03:0.14|04:0.14|05:0.14|06:0.14|07:0.14"
    );

    let mut freq: HashMap<CatsOrInt, f64> = HashMap::new();
    (0..n).for_each(|_i| {
        let split_id = init.rand_pick_sub_split(&tree, 11, &mut rng).unwrap();
        freq.entry(CatsOrInt::Con(split_id.idx_or_bit()))
            .and_modify(|f| {
                *f += (1.0 as f64) / (n as f64);
            })
            .or_insert((1.0 as f64) / (n as f64));
    });
    println!("freq:{}", fmt(&freq, 2, 2));
    assert_eq!(fmt(&freq, 2, 2), "08:0.20|09:0.20|10:0.20|11:0.20|12:0.20");
}

#[test]
fn test_rand_pick_cat_split() {
    let init = Split::new_categorical(1, vec![0, 1, 2, 3, 4, 5, 6, 7, 8, 9, 10, 11]);

    let mut tree = Tree::new(10);
    tree.grow_or_change(Node::internal(
        1,
        Split::new_categorical(1, vec![0, 1, 3, 6, 8, 9, 11]),
    ));
    tree.grow_or_change(Node::internal(2, Split::new_continuous(0, 4)));
    tree.grow_or_change(Node::internal(5, Split::new_categorical(1, vec![0, 3, 9])));
    println!("{:?}", tree);

    let mut rng = thread_rng();
    let n = 1000000;
    let mut freq: HashMap<CatsOrInt, f64> = HashMap::new();
    (0..n).for_each(|_i| {
        let split_id = init.rand_pick_sub_split(&tree, 10, &mut rng).unwrap();
        freq.entry(CatsOrInt::Cat(Split::cats(split_id.idx_or_bit())))
            .and_modify(|f| {
                *f += (1.0 as f64) / (n as f64);
            })
            .or_insert((1.0 as f64) / (n as f64));
    });
    println!("freq:{}", fmt(&freq, 2, 2));
    assert_eq!(fmt(&freq, 2, 2), " 0:0.33| 3:0.33|03:0.33");

    let mut freq: HashMap<CatsOrInt, f64> = HashMap::new();
    (0..n).for_each(|_i| {
        let split_id = init.rand_pick_sub_split(&tree, 11, &mut rng).unwrap();
        freq.entry(CatsOrInt::Cat(Split::cats(split_id.idx_or_bit())))
            .and_modify(|f| {
                *f += (1.0 as f64) / (n as f64);
            })
            .or_insert((1.0 as f64) / (n as f64));
    });
    println!("freq:{}", fmt(&freq, 3, 2));
    assert_eq!(
        fmt(&freq, 3, 2),
        "  1:0.14|  6:0.14|  8:0.14| 16:0.14| 18:0.14| 68:0.14|168:0.14"
    );
}

#[test]
fn split_kinds_and_codes() {
    let leaf = Split::new_leaf();
    assert!(leaf.is_leaf());
    assert!(leaf.is_categorical());
    assert!(!leaf.is_continous());
    assert_eq!(leaf.idx_or_bit(), 0);
    assert_eq!(leaf.feat_idx, u16::MAX);

    let con = Split::new_continuous(3, 32766);
    assert!(con.is_continous());
    assert_eq!(con.idx_or_bit(), 32766);

    let cat = Split::new_categorical(2, vec![0, 14, 3, 3]);
    assert!(cat.is_categorical());
    assert!(!cat.is_leaf());
    assert_eq!(cat.idx_or_bit(), i16::MIN | 1 | (1 << 3) | (1 << 14));
    assert_eq!(Split::cats(cat.idx_or_bit()), vec![0, 3, 14]);
    assert_eq!(cat.go_left_v(14), true);
    assert_eq!(cat.go_left_v(13), false);
    assert_eq!(cat.go_right_v(1), true);
    assert_eq!(con.go_left_v(0), true);
    assert_eq!(con.go_right_v(32766), true);
}

#[test]
fn split_cats_of_bits() {
    assert_eq!(Split::cats(0), Vec::<i16>::new());
    assert_eq!(Split::cats(i16::MIN), Vec::<i16>::new());
    assert_eq!(Split::cats(-1), (0..15).collect::<Vec<i16>>());
    assert_eq!(Split::cats(0b101), vec![0, 2]);
}

#[test]
fn split_select_cats() {
    let cats: Vec<i16> = vec![1, 6, 8, 11];
    assert_eq!(Split::select_cats(&cats, 1), vec![1]);
    assert_eq!(Split::select_cats(&cats, 6), vec![6, 8]);
    assert_eq!(Split::select_cats(&cats, 7), vec![1, 6, 8]);
}

#[test]
fn split_splittable() {
    let mut tree = Tree::new(4);
    tree.grow_or_change(Node::internal(1, Split::new_continuous(0, 3)));
    // Below the root's left side only thresholds 1 and 2 stay open for
    // feature 0 with a starting split of 5.
    assert!(Split::new_continuous(0, 5).is_splittable(&tree, 2));
    // A starting split of 1 leaves just threshold 1 open.
    assert!(!Split::new_continuous(0, 1).is_splittable(&tree, 2));
    // The right side of the root keeps [3, 6) open.
    assert!(Split::new_continuous(0, 5).is_splittable(&tree, 3));
    // Another feature is unaffected.
    assert!(Split::new_continuous(1, 2).is_splittable(&tree, 2));
    assert!(Split::new_categorical(1, vec![0, 1]).is_splittable(&tree, 2));
    assert!(!Split::new_categorical(1, vec![0]).is_splittable(&tree, 2));

    let mut rng = thread_rng();
    for _ in 0..200 {
        let s = Split::new_continuous(0, 5).rand_pick_sub_split(&tree, 2, &mut rng).unwrap();
        assert!(s.idx_or_bit() == 1 || s.idx_or_bit() == 2);
        let s = Split::new_continuous(0, 5).rand_pick_sub_split(&tree, 3, &mut rng).unwrap();
        assert!(3 <= s.idx_or_bit() && s.idx_or_bit() < 6);
    }
    assert!(Split::new_continuous(0, 1).rand_pick_sub_split(&tree, 2, &mut rng).is_none());
}

#[test]
fn split_routes_rows() {
    let x: Vec<Vec<i16>> = vec![vec![1, -2, 10], vec![2, 3, 15]];
    let con = Split::new_continuous(0, 4);
    assert!(con.routes(&x, 0));
    assert!(!con.routes(&x, 1));
    assert!(con.routes(&x, 2));
    assert!(!con.routes(&x, 3));
    let cat = Split::new_categorical(1, vec![2]);
    assert!(cat.routes(&x, 1));
    assert!(!cat.routes(&x, 2));
    assert!(!Split::new_continuous(2, 4).routes(&x, 0));
}

#[test]
fn split_feature_getter() {
    assert_eq!(Split::new_continuous(7, 3).feature(), 7);
    assert_eq!(Split::new_categorical(4, vec![0, 2]).feature(), 4);
}

#[test]
fn split_splittable_agrees_with_pick() {
    let mut tree = Tree::new(4);
    tree.grow_or_change(Node::internal(1, Split::new_continuous(0, 3)));
    tree.grow_or_change(Node::internal(2, Split::new_categorical(1, vec![0, 1, 2])));
    let mut rng = thread_rng();
    let starts = vec![
        Split::new_continuous(0, 5),
        Split::new_continuous(0, 1),
        Split::new_continuous(0, 2),
        Split::new_categorical(1, vec![0, 1, 2, 3]),
        Split::new_categorical(1, vec![3, 4]),
        Split::new_categorical(2, vec![5]),
    ];
    for s in starts.iter() {
        for node_idx in [0u8, 1, 2, 3, 4, 5] {
            for _ in 0..20 {
                let picked = s.rand_pick_sub_split(&tree, node_idx, &mut rng);
                assert_eq!(s.is_splittable(&tree, node_idx), picked.is_some());
                if let Some(p) = picked {
                    assert_eq!(p.feature(), s.feature());
                    assert_eq!(p.is_continous(), s.is_continous());
                }
            }
        }
    }
    // Below the left side of node 2 only categories 0, 1 and 2 stay open.
    assert!(Split::new_categorical(1, vec![0, 1, 2, 3]).is_splittable(&tree, 4));
    assert!(!Split::new_categorical(1, vec![3, 4]).is_splittable(&tree, 4));
    assert!(Split::new_categorical(1, vec![3, 4]).is_splittable(&tree, 5));
}

#[test]
fn split_draw_ranges() {
    let mut tree = Tree::new(4);
    tree.grow_or_change(Node::internal(1, Split::new_continuous(0, 3)));
    assert_eq!(Split::new_continuous(0, 5).sub_split_range(&tree, 2), Some((1, 3)));
    assert_eq!(Split::new_continuous(0, 5).sub_split_range(&tree, 3), Some((3, 6)));
    assert_eq!(Split::new_continuous(0, 1).sub_split_range(&tree, 2), None);
    assert_eq!(Split::new_categorical(1, vec![0, 1, 2]).sub_split_range(&tree, 2), Some((1, 4)));
    assert_eq!(Split::new_categorical(1, vec![0, 2, 5, 7, 9]).sub_split_range(&tree, 2), Some((1, 16)));
    assert_eq!(Split::new_categorical(1, vec![0]).sub_split_range(&tree, 2), None);
}

#[test]
fn split_sub_split_of_draw() {
    let mut tree = Tree::new(4);
    tree.grow_or_change(Node::internal(1, Split::new_continuous(0, 3)));
    assert_eq!(Split::new_continuous(0, 5).sub_split_of_draw(&tree, 2, 2), Split::new_continuous(0, 2));
    assert_eq!(Split::new_continuous(0, 5).sub_split_of_draw(&tree, 3, 4), Split::new_continuous(0, 4));
    let s = Split::new_categorical(1, vec![0, 2, 5]);
    assert_eq!(s.sub_split_of_draw(&tree, 2, 1), Split::new_categorical(1, vec![0]));
    assert_eq!(s.sub_split_of_draw(&tree, 2, 2), Split::new_categorical(1, vec![2]));
    assert_eq!(s.sub_split_of_draw(&tree, 2, 3), Split::new_categorical(1, vec![0, 2]));
}
