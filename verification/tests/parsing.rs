use splinegen::csv::Csv;
use splinegen::SplineError;

fn table(text: &str) -> Result<Csv, SplineError> {
    let bytes = text.as_bytes().to_vec();
    Csv::from_str(&bytes)
}

#[test]
fn header_and_one_row() {
    let c = table("a,b\n2,\"(3,4)\"").unwrap();
    assert_eq!(c.columns.len(), 2);
    assert_eq!(c.columns[0], b"a".to_vec());
    assert_eq!(c.columns[1], b"b".to_vec());
    assert_eq!(c.rows.len(), 1);
    assert_eq!(c.rows[0].len(), 2);
    // the bare leading cell is duplicated onto both axes
    assert_eq!(c.rows[0][0].x.num, 2);
    assert_eq!(c.rows[0][0].x.den, 1);
    assert_eq!(c.rows[0][0].y.num, 2);
    // the quoted pair keeps its two components apart
    assert_eq!(c.rows[0][1].x.num, 3);
    assert_eq!(c.rows[0][1].y.num, 4);
}

#[test]
fn fractional_values_are_exact() {
    let c = table("t,\"p\"\n0.5,\"(1.25,-0.75)\"").unwrap();
    let lead = c.rows[0][0].x;
    assert_eq!(lead.num, 5);
    assert_eq!(lead.den, 10);
    let p = c.rows[0][1];
    assert_eq!(p.x.num, 125);
    assert_eq!(p.x.den, 100);
    assert_eq!(p.y.num, -75);
    assert_eq!(p.y.den, 100);
}

#[test]
fn crlf_lines_are_accepted() {
    let c = table("a,b\r\n1,\"(2,3)\"\r\n").unwrap();
    assert_eq!(c.rows.len(), 1);
    assert_eq!(c.rows[0][1].x.num, 2);
}

#[test]
fn empty_text_gives_empty_table() {
    let c = table("").unwrap();
    assert_eq!(c.columns.len(), 0);
    assert_eq!(c.rows.len(), 0);
}

#[test]
fn header_only_gives_no_rows() {
    let c = table("alpha,beta").unwrap();
    assert_eq!(c.columns.len(), 2);
    assert_eq!(c.rows.len(), 0);
}

#[test]
fn velocity_column_is_detected() {
    assert!(table("t,velocity\n").unwrap().has_velocity());
    assert!(!table("t,speed\n").unwrap().has_velocity());
    assert!(!table("t,\"velocity\"\n").unwrap().has_velocity());
}

#[test]
fn constraint_size_reads_last_row() {
    let c = table("t,\"p\"\n3,\"(1,1)\"\n7.9,\"(2,2)\"").unwrap();
    assert_eq!(c.constraint_size(), Some(7));
}

#[test]
fn constraint_size_clamps_negative_to_zero() {
    let c = table("t,\"p\"\n-3.5,\"(1,1)\"").unwrap();
    assert_eq!(c.constraint_size(), Some(0));
}

#[test]
fn constraint_size_none_without_rows() {
    let c = table("t,\"p\"").unwrap();
    assert_eq!(c.constraint_size(), None);
}

#[test]
fn split_projects_both_axes() {
    let c = table("t,\"p\"\n1,\"(2,3)\"").unwrap();
    let (x, y) = c.split();
    assert_eq!(x.columns.len(), 2);
    assert_eq!(y.columns.len(), 2);
    assert_eq!(x.rows[0][0].num, 1);
    assert_eq!(x.rows[0][1].num, 2);
    assert_eq!(y.rows[0][0].num, 1);
    assert_eq!(y.rows[0][1].num, 3);
}

#[test]
fn signed_and_dotted_numerals() {
    let c = table("t,\"p\"\n+2,\"(-1.,.5)\"").unwrap();
    assert_eq!(c.rows[0][0].x.num, 2);
    let p = c.rows[0][1];
    assert_eq!(p.x.num, -1);
    assert_eq!(p.x.den, 1);
    assert_eq!(p.y.num, 5);
    assert_eq!(p.y.den, 10);
}

#[test]
fn stray_letters_are_parse_errors() {
    assert_eq!(table("t\n1x").unwrap_err(), SplineError::Parse);
    assert_eq!(table("t,\"p\"\n1,\"(1,2e3)\"").unwrap_err(), SplineError::Parse);
    assert_eq!(table("t\n.").unwrap_err(), SplineError::Parse);
}
