use particle_life::forces::{
    ForceMatrix, ForceMatrixType, IdentForceMatrix, RandomForceMatrix, SnakeForceMatrix,
    ZeroForceMatrix,
};
use particle_life::text::{parse_cells, push_coef, text_is_well_formed};

fn coef_text(v: i32) -> String {
    let mut out = Vec::new();
    push_coef(&mut out, v);
    String::from_utf8(out).unwrap()
}

fn cells(m: &ForceMatrix) -> Vec<i32> {
    let n = m.color_count();
    let mut out = Vec::new();
    for y in 0..n {
        for x in 0..n {
            out.push(m.get_force(x, y));
        }
    }
    out
}

#[test]
fn coefficient_text() {
    assert_eq!(coef_text(0), "0");
    assert_eq!(coef_text(1000), "1");
    assert_eq!(coef_text(200), "0.2");
    assert_eq!(coef_text(-1500), "-1.5");
    assert_eq!(coef_text(-5), "-0.005");
    assert_eq!(coef_text(1230), "1.23");
    assert_eq!(coef_text(i32::MAX), "2147483.647");
    assert_eq!(coef_text(-i32::MAX), "-2147483.647");
}

#[test]
fn copy_snake_matrix() {
    let m = ForceMatrix::new(3, ForceMatrixType::Snakes(SnakeForceMatrix));
    let text = String::from_utf8(m.copy_text()).unwrap();
    assert_eq!(text, "1,0,0.2\n0.2,1,0\n0,0.2,1");
}

#[test]
fn parse_cells_reads_rows() {
    assert_eq!(parse_cells(b"1,0,0.2\n0.2,1,0"), vec![1000, 0, 200, 200, 1000, 0]);
    assert_eq!(parse_cells(b" -1.5 , +2,\t.25\r\n"), vec![-1500, 2000, 250]);
    assert_eq!(parse_cells(b"0.12345,7."), vec![123, 7000]);
    assert_eq!(parse_cells(b""), Vec::<i32>::new());
}

#[test]
fn parse_cells_stops_a_line_at_a_bad_part() {
    assert_eq!(parse_cells(b"1,x,2\n3"), vec![1000, 3000]);
    assert_eq!(parse_cells(b"1,,2"), vec![1000]);
    assert_eq!(parse_cells(b".,1"), Vec::<i32>::new());
    assert_eq!(parse_cells(b"-,1"), Vec::<i32>::new());
    assert_eq!(parse_cells(b"1e3,4"), Vec::<i32>::new());
    assert_eq!(parse_cells(b"2147483.648,1"), Vec::<i32>::new());
    assert_eq!(parse_cells(b"2147483.647"), vec![i32::MAX]);
    assert_eq!(parse_cells(b"99999999999999999999"), Vec::<i32>::new());
}

#[test]
fn paste_replaces_on_matching_count() {
    let mut m = ForceMatrix::new(2, ForceMatrixType::Zero(ZeroForceMatrix));
    assert!(m.paste_text(b"1,-0.5\n0.25,0"));
    assert_eq!(cells(&m), vec![1000, -500, 250, 0]);
    assert_eq!(m.get_force(1, 0), -500);
    assert_eq!(m.get_force(0, 1), 250);
}

#[test]
fn paste_rejects_wrong_count() {
    let mut m = ForceMatrix::new(2, ForceMatrixType::One(IdentForceMatrix));
    assert!(!m.paste_text(b"1,2,3"));
    assert!(!m.paste_text(b"1,2\n3,4\n5"));
    assert!(!m.paste_text(b"1,2\n3,oops"));
    assert!(!m.paste_text(b"1,2,x\n3,4"));
    assert!(!m.paste_text(b"1,2\n3,4,"));
    assert_eq!(cells(&m), vec![1000, 1000, 1000, 1000]);
}

#[test]
fn copy_then_paste_round_trip() {
    let a = ForceMatrix::new(4, ForceMatrixType::Random(RandomForceMatrix));
    let mut b = ForceMatrix::new(4, ForceMatrixType::Zero(ZeroForceMatrix));
    assert!(b.paste_text(&a.copy_text()));
    assert_eq!(cells(&a), cells(&b));
}

#[test]
fn malformed_text_leaves_the_matrix() {
    let mut m = ForceMatrix::new(1, ForceMatrixType::Zero(ZeroForceMatrix));
    assert!(!m.paste_text(b"1,x"));
    assert_eq!(m.get_force(0, 0), 0);
    assert!(m.paste_text(b" 0.5 \n\n"));
    assert_eq!(m.get_force(0, 0), 500);
}

#[test]
fn well_formed_text() {
    assert!(text_is_well_formed(b"1,2\n3,4"));
    assert!(text_is_well_formed(b"1,2\r\n3,4\r\n"));
    assert!(text_is_well_formed(b""));
    assert!(!text_is_well_formed(b"1,,2"));
    assert!(!text_is_well_formed(b"1,x"));
    assert!(!text_is_well_formed(b"1\nnope"));
}
