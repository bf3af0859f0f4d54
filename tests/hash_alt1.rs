use exthash::hash_alt1::HashAlt1;
use exthash::record::Record;

#[test]
fn hash_alt1_test_hash_display_global_depth_2() {
    let h = HashAlt1::new(2, 4);

    println!("{}", h.render());

    assert_eq!(h.render(), "    +---+      +---+\n    | 2 |      | 2 |\n    +---+---+  +---+---+---+---+\n 00 |   A   |  |   |   |   |   | A\n    +-------+  +---+---+---+---+\n 01 |   B   |  \n    +-------+  +---+\n 10 |   C   |  | 2 |\n    +-------+  +---+---+---+---+\n 11 |   D   |  |   |   |   |   | B\n    +-------+  +---+---+---+---+\n               \n               +---+\n               | 2 |\n               +---+---+---+---+\n               |   |   |   |   | C\n               +---+---+---+---+\n               \n               +---+\n               | 2 |\n               +---+---+---+---+\n               |   |   |   |   | D\n               +---+---+---+---+\n               \n\n");
}

#[test]
fn hash_alt1_test_hash_display_global_depth_3() {
    let h = HashAlt1::new(3, 4);

    println!("{}", h.render());

    assert_eq!(h.render(), "     +---+      +---+\n     | 3 |      | 3 |\n     +---+---+  +---+---+---+---+\n 000 |   A   |  |   |   |   |   | A\n     +-------+  +---+---+---+---+\n 001 |   B   |  \n     +-------+  +---+\n 010 |   C   |  | 3 |\n     +-------+  +---+---+---+---+\n 011 |   D   |  |   |   |   |   | B\n     +-------+  +---+---+---+---+\n 100 |   E   |  \n     +-------+  +---+\n 101 |   F   |  | 3 |\n     +-------+  +---+---+---+---+\n 110 |   G   |  |   |   |   |   | C\n     +-------+  +---+---+---+---+\n 111 |   H   |  \n     +-------+  +---+\n                | 3 |\n                +---+---+---+---+\n                |   |   |   |   | D\n                +---+---+---+---+\n                \n                +---+\n                | 3 |\n                +---+---+---+---+\n                |   |   |   |   | E\n                +---+---+---+---+\n                \n                +---+\n                | 3 |\n                +---+---+---+---+\n                |   |   |   |   | F\n                +---+---+---+---+\n                \n                +---+\n                | 3 |\n                +---+---+---+---+\n                |   |   |   |   | G\n                +---+---+---+---+\n                \n                +---+\n                | 3 |\n                +---+---+---+---+\n                |   |   |   |   | H\n                +---+---+---+---+\n                \n\n");
}

#[test]
fn hash_alt1_test_hash_display_global_depth_4() {
    let h = HashAlt1::new(4, 4);

    println!("{}", h.render());

    assert_eq!(h.render(), "      +---+      +---+\n      | 4 |      | 4 |\n      +---+---+  +---+---+---+---+\n 0000 |   A   |  |   |   |   |   | A\n      +-------+  +---+---+---+---+\n 0001 |   B   |  \n      +-------+  +---+\n 0010 |   C   |  | 4 |\n      +-------+  +---+---+---+---+\n 0011 |   D   |  |   |   |   |   | B\n      +-------+  +---+---+---+---+\n 0100 |   E   |  \n      +-------+  +---+\n 0101 |   F   |  | 4 |\n      +-------+  +---+---+---+---+\n 0110 |   G   |  |   |   |   |   | C\n      +-------+  +---+---+---+---+\n 0111 |   H   |  \n      +-------+  +---+\n 1000 |   I   |  | 4 |\n      +-------+  +---+---+---+---+\n 1001 |   J   |  |   |   |   |   | D\n      +-------+  +---+---+---+---+\n 1010 |   K   |  \n      +-------+  +---+\n 1011 |   L   |  | 4 |\n      +-------+  +---+---+---+---+\n 1100 |   M   |  |   |   |   |   | E\n      +-------+  +---+---+---+---+\n 1101 |   N   |  \n      +-------+  +---+\n 1110 |   O   |  | 4 |\n      +-------+  +---+---+---+---+\n 1111 |   P   |  |   |   |   |   | F\n      +-------+  +---+---+---+---+\n                 \n                 +---+\n                 | 4 |\n                 +---+---+---+---+\n                 |   |   |   |   | G\n                 +---+---+---+---+\n                 \n                 +---+\n                 | 4 |\n                 +---+---+---+---+\n                 |   |   |   |   | H\n                 +---+---+---+---+\n                 \n                 +---+\n                 | 4 |\n                 +---+---+---+---+\n                 |   |   |   |   | I\n                 +---+---+---+---+\n                 \n                 +---+\n                 | 4 |\n                 +---+---+---+---+\n                 |   |   |   |   | J\n                 +---+---+---+---+\n                 \n                 +---+\n                 | 4 |\n                 +---+---+---+---+\n                 |   |   |   |   | K\n                 +---+---+---+---+\n                 \n                 +---+\n                 | 4 |\n                 +---+---+---+---+\n                 |   |   |   |   | L\n                 +---+---+---+---+\n                 \n                 +---+\n                 | 4 |\n                 +---+---+---+---+\n                 |   |   |   |   | M\n                 +---+---+---+---+\n                 \n                 +---+\n                 | 4 |\n                 +---+---+---+---+\n                 |   |   |   |   | N\n                 +---+---+---+---+\n                 \n                 +---+\n                 | 4 |\n                 +---+---+---+---+\n                 |   |   |   |   | O\n                 +---+---+---+---+\n                 \n                 +---+\n                 | 4 |\n                 +---+---+---+---+\n                 |   |   |   |   | P\n                 +---+---+---+---+\n                 \n\n");
}

#[test]
fn hash_alt1_test_hash_fun_2() {
    let h = HashAlt1::new(2, 4);

    assert_eq!(h.hash_fun(343), 3)
}

#[test]
fn hash_alt1_test_hash_fun_3() {
    let h = HashAlt1::new(3, 4);

    assert_eq!(h.hash_fun(343), 7)
}

#[test]
fn hash_alt1_test_insert_global_depth_2() {
    let mut h = HashAlt1::new(2, 4);

    println!("{}", h.render());

    let _ = h.insert(Record { nseq: 2, text: "Lorem ipsum dolor sit amet, consectetur adipiscing elit. Duis quis fringilla diam. Duis in est.".to_string() });
    let _ = h.insert(Record { nseq: 10, text: "Lorem ipsum dolor sit amet, consectetur adipiscing elit. Duis quis fringilla diam. Duis in est.".to_string() });
    let _ = h.insert(Record { nseq: 102, text: "Lorem ipsum dolor sit amet, consectetur adipiscing elit. Duis quis fringilla diam. Duis in est.".to_string() });
    let _ = h.insert(Record { nseq: 98, text: "Lorem ipsum dolor sit amet, consectetur adipiscing elit. Duis quis fringilla diam. Duis in est.".to_string() });
    let _ = h.insert(Record { nseq: 118, text: "Lorem ipsum dolor sit amet, consectetur adipiscing elit. Duis quis fringilla diam. Duis in est.".to_string() });

    println!("{}", h.render());

    let _ = h.insert(Record { nseq: 0, text: "Lorem ipsum dolor sit amet, consectetur adipiscing elit. Duis quis fringilla diam. Duis in est.".to_string() });
    let _ = h.insert(Record { nseq: 4, text: "Lorem ipsum dolor sit amet, consectetur adipiscing elit. Duis quis fringilla diam. Duis in est.".to_string() });
    let _ = h.insert(Record { nseq: 12, text: "Lorem ipsum dolor sit amet, consectetur adipiscing elit. Duis quis fringilla diam. Duis in est.".to_string() });
    let _ = h.insert(Record { nseq: 20, text: "Lorem ipsum dolor sit amet, consectetur adipiscing elit. Duis quis fringilla diam. Duis in est.".to_string() });
    let _ = h.insert(Record { nseq: 24, text: "Lorem ipsum dolor sit amet, consectetur adipiscing elit. Duis quis fringilla diam. Duis in est.".to_string() });

    println!("{}", h.render());

    let s1 = h.search(0).unwrap();
    let _s2 = h.search(14);
    assert_eq!(h.buckets[s1.0].data[s1.1], Record { nseq: 0_i32, text: "Lorem ipsum dolor sit amet, consectetur adipiscing elit. Duis quis fringilla diam. Duis in est.\0".to_string() });
    assert_eq!(h.search(14), None)
}

#[test]
fn hash_alt1_test_hash_double_directory() {
    let mut h = HashAlt1::new(2, 4);

    println!("{}", h.render());

    h.double_directory();

    println!("{}", h.render());

    assert_eq!(1, 1);
}

#[test]
fn test_insert_split_double() {
    let mut h = HashAlt1::new(2, 4);

    // 0, 8, 24, 56, 120

    let _ = h.insert(Record { nseq: 0, text: "Lorem ipsum dolor sit amet, consectetur adipiscing elit. Quisque imperdiet lacinia orci aliquam.".to_string() });
    let _ = h.insert(Record { nseq: 8, text: "Lorem ipsum dolor sit amet, consectetur adipiscing elit. Quisque imperdiet lacinia orci aliquam.".to_string() });
    let _ = h.insert(Record { nseq: 24, text: "Lorem ipsum dolor sit amet, consectetur adipiscing elit. Quisque imperdiet lacinia orci aliquam.".to_string() });
    let _ = h.insert(Record { nseq: 56, text: "Lorem ipsum dolor sit amet, consectetur adipiscing elit. Quisque imperdiet lacinia orci aliquam.".to_string() });

    println!("{}", h.render());

    let _ = h.insert(Record { nseq: 120, text: "Lorem ipsum dolor sit amet, consectetur adipiscing elit. Quisque imperdiet lacinia orci aliquam.".to_string() });

    println!("{}", h.render());
}
