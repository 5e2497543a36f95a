use hashlife::export::ExportError;
use hashlife::rle::{push_decimal, read, RleError, RleUnit, RleWriter};
use hashlife::rule::Rule;
use hashlife::universe::Universe;

#[test]
fn read_glider() {
    let src = "
x = 3, y = 3
bo$2bo$3o!
"
    .trim();

    let uni = read(src).unwrap();
    assert_eq!(
        uni.debug(uni.root()),
        vec![
            0b_0000_0000,
            0b_0000_0000,
            0b_0000_0000,
            0b_0000_0000,
            0b_0000_0100,
            0b_0000_0010,
            0b_0000_1110,
            0b_0000_0000,
        ]
    );
}

#[test]
fn multi_simulate() {
    let glider_0 = "x = 3, y = 3, rule = B3/S23\nbo$2bo$3o!\n";
    let glider_2 = "x = 3, y = 3, rule = B3/S23\n2bo$obo$b2o!\n";
    let glider_3 = "x = 3, y = 3, rule = B3/S23\no$b2o$2o!\n";
    let mut uni = read(glider_0).unwrap();

    uni.simulate(170).unwrap();

    let actual = hashlife::rle::write(&uni).unwrap();

    assert_eq!(glider_2, &actual);

    uni.simulate(1).unwrap();

    let actual = hashlife::rle::write(&uni).unwrap();

    assert_eq!(glider_3, &actual);
}

#[test]
fn write_reads_back() {
    let glider_1 = "x = 3, y = 3, rule = B3/S23\nobo$b2o$bo!\n";
    let uni = read(glider_1).unwrap();
    assert_eq!(hashlife::rle::write(&uni).unwrap(), glider_1);
}

#[test]
fn read_takes_the_rule_of_the_header() {
    let uni = read("x = 1, y = 1, rule = B36/S23\no!").unwrap();
    assert_eq!(uni.rule().to_string(), "B36/S23");
    let uni = read("x = 1, y = 1\no!").unwrap();
    assert_eq!(uni.rule().to_string(), "B3/S23");
    let uni = read("x=1,y=1,rule=b3/s23  \no!").unwrap();
    assert_eq!(uni.rule().to_string(), "B3/S23");
}

#[test]
fn read_passes_over_unknown_keys() {
    let uni = read("x = 2, y = 1, colour = red\n2o!").unwrap();
    assert_eq!(uni.boundary(), (0, 0, 2, 1));
}

#[test]
fn read_gives_the_least_root() {
    let uni = read("x = 3, y = 3\nbo$2bo$3o!").unwrap();
    assert_eq!(uni.level(), 3);
    assert_eq!(uni.debug(uni.root()).len(), 8);
    let uni = read("x = 5, y = 1\n4bo!").unwrap();
    assert_eq!(uni.level(), 4);
    let uni = read("x = 5, y = 1\n4b!").unwrap();
    assert_eq!(uni.level(), 3);
    let uni = read("x = 1, y = 40\n39$o!").unwrap();
    assert_eq!(uni.level(), 7);
}

#[test]
fn read_counts_runs() {
    // Three live cells, two dead ones, a live one; two rows down, one more.
    let uni = read("x = 6, y = 3\n3o2bA2$o!").unwrap();
    assert_eq!(uni.boundary(), (0, 0, 6, 3));
    let cells = uni.write_cells();
    let mut live = 0;
    for item in &cells {
        live += item.nw.count_ones() + item.ne.count_ones();
        live += item.sw.count_ones() + item.se.count_ones();
    }
    assert_eq!(live, 5);
}

#[test]
fn read_skips_white_space_between_runs() {
    let uni = read("x = 3, y = 2\n o \n 2b $ \t 3o \r\n !").unwrap();
    assert_eq!(uni.boundary(), (0, 0, 3, 2));
}

#[test]
fn read_refuses_a_header_without_size() {
    assert!(matches!(read("x = 3\nbo!"), Err(RleError::MalformedHeader)));
    assert!(matches!(read("y = 3\nbo!"), Err(RleError::MalformedHeader)));
    assert!(matches!(read("bo$2bo$3o!"), Err(RleError::MalformedHeader)));
    assert!(matches!(read(""), Err(RleError::MalformedHeader)));
}

#[test]
fn read_refuses_a_size_that_is_no_number() {
    assert!(matches!(read("x = a, y = 3\nbo!"), Err(RleError::MalformedHeader)));
    assert!(matches!(read("x = 3, y = \nbo!"), Err(RleError::MalformedHeader)));
    assert!(matches!(read("x = 3, y = -1\nbo!"), Err(RleError::MalformedHeader)));
    assert!(matches!(read("x = 4294967296, y = 1\nbo!"), Err(RleError::MalformedHeader)));
    assert!(matches!(read("x = 0, y = 1\n!"), Err(RleError::MalformedHeader)));
}

#[test]
fn read_refuses_a_field_without_one_equals_sign() {
    assert!(matches!(read("x = 3, y\nbo!"), Err(RleError::MalformedHeader)));
    assert!(matches!(read("x = 3 = 4, y = 1\nbo!"), Err(RleError::MalformedHeader)));
}

#[test]
fn read_refuses_a_rule_that_is_none() {
    assert!(matches!(read("x = 1, y = 1, rule = B9/S23\no!"), Err(RleError::MalformedRule)));
    assert!(matches!(read("x = 1, y = 1, rule = Life\no!"), Err(RleError::MalformedRule)));
    assert!(matches!(read("x = 1, y = 1, rule = B03/S23\no!"), Err(RleError::B0NotAllowed)));
}

#[test]
fn read_refuses_a_body_without_end() {
    assert!(matches!(read("x = 3, y = 3\nbo$2bo$3o"), Err(RleError::MalformedInput)));
    assert!(matches!(read("x = 3, y = 3\nbo$2bo$3"), Err(RleError::MalformedInput)));
    assert!(matches!(read("x = 3, y = 3"), Err(RleError::MalformedInput)));
}

#[test]
fn read_refuses_a_character_that_is_no_run() {
    assert!(matches!(read("x = 3, y = 3\nbo$2b?$3o!"), Err(RleError::MalformedInput)));
    assert!(matches!(read("x = 3, y = 3\nbo#!"), Err(RleError::MalformedInput)));
}

#[test]
fn read_refuses_cells_outside_the_lattice() {
    assert!(matches!(
        read("x = 1, y = 1\n4611686018427387904bo!"),
        Err(RleError::LatticeOverflow)
    ));
    assert!(matches!(
        read("x = 1, y = 1\n99999999999999999999999999o!"),
        Err(RleError::LatticeOverflow)
    ));
    assert!(matches!(
        read("x = 1, y = 1\n4611686018427387904$o!"),
        Err(RleError::LatticeOverflow)
    ));
    // Dead cells out there are no cells.
    let uni = read("x = 1, y = 1\no99999999999999999999999999b!").unwrap();
    assert_eq!(uni.boundary(), (0, 0, 1, 1));
}

#[test]
fn read_puts_a_cell_at_the_edge_of_the_lattice() {
    let uni = read("x = 1, y = 1\n4611686018427387903bo!").unwrap();
    assert_eq!(uni.boundary(), (4611686018427387903, 0, 4611686018427387904, 1));
}

#[test]
fn write_refuses_the_empty_universe() {
    let uni = Universe::new(Rule::game_of_life());
    assert_eq!(hashlife::rle::write(&uni), Err(ExportError::EmptyUniverse));
}

#[test]
fn write_folds_empty_rows() {
    let mut uni = Universe::new(Rule::game_of_life());
    uni.set(0, 0, true).unwrap();
    uni.set(2, 3, true).unwrap();
    assert_eq!(hashlife::rle::write(&uni).unwrap(), "x = 3, y = 4, rule = B3/S23\no3$2bo!\n");
}

#[test]
fn write_breaks_long_lines() {
    let mut uni = Universe::new(Rule::game_of_life());
    for i in 0..60 {
        uni.set(2 * i, 0, true).unwrap();
    }
    let text = hashlife::rle::write(&uni).unwrap();
    let mut lines = text.lines();
    assert_eq!(lines.next(), Some("x = 119, y = 1, rule = B3/S23"));
    let first = lines.next().unwrap();
    assert_eq!(first, "obobobobobobobobobobobobobobobobobobobobobobobobobobobobobobobobobobob");
    assert_eq!(first.len(), 70);
    assert_eq!(lines.next(), Some("obobobobobobobobobobobobobobobobobobobobobobobobo!"));
    assert_eq!(lines.next(), None);
}

#[test]
fn unit_writes_count_and_tag() {
    let mut out = RleWriter { text: String::new(), line_len: 0 };
    RleUnit::Dead.write(1, &mut out);
    RleUnit::Alive.write(12, &mut out);
    RleUnit::NextRow.write(3, &mut out);
    assert_eq!(out.text, "b12o3$");
    assert_eq!(out.line_len, 6);
}

#[test]
fn unit_goes_to_a_new_line_when_the_line_is_full() {
    let mut out = RleWriter { text: "x".repeat(69), line_len: 69 };
    RleUnit::Alive.write(1, &mut out);
    assert_eq!(out.line_len, 70);
    RleUnit::Alive.write(1, &mut out);
    assert_eq!(out.line_len, 1);
    assert!(out.text.ends_with("xo\no"));
    let mut out = RleWriter { text: "x".repeat(68), line_len: 68 };
    RleUnit::Dead.write(100, &mut out);
    assert!(out.text.ends_with("x\n100b"));
    assert_eq!(out.line_len, 4);
}

#[test]
fn decimal_digits() {
    let mut s = String::from("n=");
    assert_eq!(push_decimal(&mut s, 0), 1);
    assert_eq!(s, "n=0");
    assert_eq!(push_decimal(&mut s, 907), 3);
    assert_eq!(s, "n=0907");
    let mut s = String::new();
    assert_eq!(push_decimal(&mut s, u64::MAX), 20);
    assert_eq!(s, "18446744073709551615");
}
