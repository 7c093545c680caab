use std::collections::BTreeMap;

use cart::Art;

#[derive(Clone, Debug)]
enum Op {
    Write(u8, u8),
    Read(u8),
}

// Key `k` is `k` repetitions of the byte `k`.
fn key(k: u8) -> Vec<u8> {
    vec![k; k as usize]
}

fn prop_impl_matches_model(ops: Vec<Op>) -> bool {
    let mut implementation = Art::default();
    let mut model = BTreeMap::new();

    for op in ops {
        match op {
            Op::Write(k, v) => {
                implementation.set(key(k), v);
                model.insert(k, v);
            }
            Op::Read(k) => {
                if implementation.get(&*key(k)) != model.get(&k) {
                    return false;
                }
            }
        }
    }

    true
}

// Every key in the key space, read back at the end.
fn with_final_reads(mut ops: Vec<Op>) -> Vec<Op> {
    for k in 0..20u8 {
        ops.push(Op::Read(k));
    }
    ops
}

fn first_sequence() -> Vec<Op> {
    vec![
        Op::Write(15, 67),
        Op::Write(9, 182),
        Op::Write(12, 221),
        Op::Write(16, 122),
        Op::Write(3, 41),
        Op::Write(5, 209),
        Op::Write(2, 96),
        Op::Write(10, 227),
        Op::Write(13, 37),
        Op::Write(4, 182),
        Op::Write(17, 218),
        Op::Write(6, 139),
        Op::Write(18, 249),
        Op::Write(19, 209),
        Op::Write(14, 34),
        Op::Write(11, 104),
        Op::Write(8, 89),
        Op::Write(1, 110),
    ]
}

fn second_sequence() -> Vec<Op> {
    vec![
        Op::Write(9, 58),
        Op::Write(4, 10),
        Op::Write(2, 209),
        Op::Write(5, 3),
        Op::Write(14, 175),
        Op::Write(1, 73),
        Op::Write(8, 53),
        Op::Write(18, 244),
        Op::Write(12, 227),
        Op::Write(15, 255),
        Op::Write(3, 92),
        Op::Write(6, 102),
        Op::Write(19, 239),
        Op::Write(17, 240),
        Op::Write(7, 227),
        Op::Write(11, 41),
        Op::Write(16, 15),
        Op::Write(10, 215),
        Op::Write(10, 82),
    ]
}

#[test]
fn test_1() {
    assert!(prop_impl_matches_model(first_sequence()));
}

#[test]
fn test_2() {
    assert!(prop_impl_matches_model(second_sequence()));
}

#[test]
fn test_3() {
    assert!(prop_impl_matches_model(vec![]));
}

#[test]
fn first_sequence_read_back() {
    assert!(prop_impl_matches_model(with_final_reads(first_sequence())));
}

#[test]
fn second_sequence_read_back() {
    assert!(prop_impl_matches_model(with_final_reads(second_sequence())));
}

#[test]
fn interleaved_reads_match_model() {
    let ops = vec![
        Op::Read(3),
        Op::Write(3, 1),
        Op::Read(3),
        Op::Read(0),
        Op::Write(0, 7),
        Op::Read(0),
        Op::Write(1, 2),
        Op::Read(1),
        Op::Read(2),
        Op::Write(2, 9),
        Op::Write(3, 4),
        Op::Read(3),
        Op::Read(2),
        Op::Read(1),
        Op::Read(0),
    ];
    assert!(prop_impl_matches_model(ops));
}

#[test]
fn eighteen_keys_all_found() {
    let mut t = Art::default();
    let ops = first_sequence();
    for op in &ops {
        if let Op::Write(k, v) = op {
            t.set(key(*k), *v);
        }
    }
    for op in &ops {
        if let Op::Write(k, v) = op {
            assert_eq!(t.get(&key(*k)), Some(v));
        }
    }
    assert_eq!(t.get(&key(7)), None);
    assert_eq!(t.get(&key(0)), None);
}
