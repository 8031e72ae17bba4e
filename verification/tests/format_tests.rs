use solar_dc::ascii::{is_numeric_token, parse_usize, render_usize, split_lines, split_tokens};
use solar_dc::matrix::{Colour, Matrix};
use solar_dc::matrix_text::{
    read_colour_matrix, read_matrix, save_colour_matrix, save_matrix, HeaderField,
    MatrixTextError,
};

fn tok(s: &str) -> Vec<u8> {
    s.as_bytes().to_vec()
}

#[test]
fn test_read_matrix_good() {
    let content = b"#?SIMPLE\nNROWS=2\nNCOLS=3\nNCOMP=1\nFORMAT=ascii\n\n1 2 3\n4.5 5e2 -6\n";
    let m = read_matrix(content).unwrap();
    assert_eq!(m.size(), (2, 3));
    assert_eq!(m.get_ref(0, 0).unwrap(), &tok("1"));
    assert_eq!(m.get_ref(0, 2).unwrap(), &tok("3"));
    assert_eq!(m.get_ref(1, 0).unwrap(), &tok("4.5"));
    assert_eq!(m.get_ref(1, 1).unwrap(), &tok("5e2"));
    assert_eq!(m.get_ref(1, 2).unwrap(), &tok("-6"));
}

#[test]
fn test_round_trip_scalar() {
    let tokens: Vec<Vec<u8>> = vec![
        tok("1.25"),
        tok("-3.5e-2"),
        tok("inf"),
        tok("NaN"),
        tok("42"),
        tok("0.0"),
    ];
    let m = Matrix::from_vec(2, 3, tokens).unwrap();
    let bytes = save_matrix(&m);
    let back = read_matrix(&bytes).unwrap();
    assert_eq!(back.size(), (2, 3));
    for r in 0..2 {
        for c in 0..3 {
            assert_eq!(back.get_ref(r, c).unwrap(), m.get_ref(r, c).unwrap());
        }
    }
    // The numeric payload survives a float conversion of each token.
    let v: f64 = String::from_utf8(back.get_ref(0, 1).unwrap().clone())
        .unwrap()
        .parse()
        .unwrap();
    assert!((v + 0.035).abs() < 1e-12);
}

#[test]
fn test_round_trip_colour() {
    let cells = vec![
        Colour { red: tok("0.1"), green: tok("0.2"), blue: tok("0.3") },
        Colour { red: tok("1"), green: tok("2"), blue: tok("3") },
    ];
    let m = Matrix::from_vec(2, 1, cells).unwrap();
    let bytes = save_colour_matrix(&m);
    let back = read_colour_matrix(&bytes).unwrap();
    assert_eq!(back.size(), (2, 1));
    assert_eq!(back.get_ref(0, 0).unwrap().green, tok("0.2"));
    assert_eq!(back.get_ref(1, 0).unwrap().blue, tok("3"));
}

#[test]
fn test_saved_file_shape() {
    let m = Matrix::from_vec(1, 2, vec![tok("7"), tok("8")]).unwrap();
    let bytes = save_matrix(&m);
    assert_eq!(
        String::from_utf8(bytes).unwrap(),
        "#?SIMPLE\nNROWS=1\nNCOLS=2\nNCOMP=1\nFORMAT=ascii\n\n7\t8\t\n"
    );
}

#[test]
fn test_wrong_token_count_names_line() {
    let content = b"#?SIMPLE\nNROWS=2\nNCOLS=3\nNCOMP=1\nFORMAT=ascii\n\n1 2\n4 5 6\n";
    assert_eq!(
        read_matrix(content).unwrap_err(),
        MatrixTextError::TokenCount { line: 6, found: 2 }
    );
}

#[test]
fn test_bad_token_names_line() {
    let content = b"#?SIMPLE\nNROWS=2\nNCOLS=3\nNCOMP=1\nFORMAT=ascii\n\n1 2 3\n4 x 6\n";
    assert_eq!(read_matrix(content).unwrap_err(), MatrixTextError::BadToken { line: 7 });
}

#[test]
fn test_non_numeric_nrows_names_line() {
    let content = b"#?SIMPLE\nNROWS=abc\nNCOLS=3\nNCOMP=1\nFORMAT=ascii\n\n1 2 3\n";
    assert_eq!(
        read_matrix(content).unwrap_err(),
        MatrixTextError::HeaderValue { field: HeaderField::Rows, line: 1 }
    );
}

#[test]
fn test_overflowing_nrows_is_rejected() {
    let content =
        b"#?SIMPLE\nNROWS=99999999999999999999999999\nNCOLS=3\nNCOMP=1\nFORMAT=ascii\n\n1 2 3\n";
    assert_eq!(
        read_matrix(content).unwrap_err(),
        MatrixTextError::HeaderValue { field: HeaderField::Rows, line: 1 }
    );
}

#[test]
fn test_header_shape_error() {
    let content = b"#?SIMPLE\nNROWS=2=3\nNCOLS=3\nNCOMP=1\nFORMAT=ascii\n\n1 2 3\n1 2 3\n";
    assert_eq!(
        read_matrix(content).unwrap_err(),
        MatrixTextError::HeaderShape { field: HeaderField::Rows, line: 1 }
    );
}

#[test]
fn test_wrong_component_count() {
    let content = b"#?SIMPLE\nNROWS=1\nNCOLS=1\nNCOMP=3\nFORMAT=ascii\n\n1 2 3\n";
    assert_eq!(
        read_matrix(content).unwrap_err(),
        MatrixTextError::WrongComponentCount { found: 3, expected: 1, line: 3 }
    );
    // The same file is fine for the three-channel reader.
    let m = read_colour_matrix(content).unwrap();
    assert_eq!(m.size(), (1, 1));
    assert_eq!(m.get_ref(0, 0).unwrap().red, tok("1"));
}

#[test]
fn test_missing_counts() {
    let content = b"#?SIMPLE\nNCOLS=3\nNCOMP=1\nFORMAT=ascii\n\n1 2 3\n";
    assert_eq!(read_matrix(content).unwrap_err(), MatrixTextError::MissingRowCount);
    let content = b"#?SIMPLE\nNROWS=1\nNCOMP=1\nFORMAT=ascii\n\n1 2 3\n";
    assert_eq!(read_matrix(content).unwrap_err(), MatrixTextError::MissingColumnCount);
}

#[test]
fn test_row_count_mismatch() {
    let content = b"#?SIMPLE\nNROWS=3\nNCOLS=3\nNCOMP=1\nFORMAT=ascii\n\n1 2 3\n4 5 6\n";
    assert_eq!(
        read_matrix(content).unwrap_err(),
        MatrixTextError::RowCountMismatch { expected: 3, found: 2 }
    );
}

#[test]
fn test_last_header_value_wins() {
    let content = b"#?SIMPLE\nNROWS=5\nNROWS=1\nNCOLS=2\nNCOMP=1\nFORMAT=ascii\n\n1 2\n";
    let m = read_matrix(content).unwrap();
    assert_eq!(m.size(), (1, 2));
}

#[test]
fn test_zero_rows_file() {
    let content = b"#?SIMPLE\nNROWS=0\nNCOLS=4\nNCOMP=1\nFORMAT=ascii\n\n";
    let m = read_matrix(content).unwrap();
    assert_eq!(m.size(), (0, 4));
}

#[test]
fn test_numeric_token_grammar() {
    for good in [
        "1", "-1", "+1", "1.5", ".5", "5.", "1e9", "1E9", "1.5e-3", "-0.2E+4", "inf", "-inf",
        "Infinity", "NaN", "nan", "+inf",
    ] {
        assert!(is_numeric_token(good.as_bytes()), "{good}");
        // Rust's float parser agrees.
        assert!(good.parse::<f64>().is_ok(), "{good}");
    }
    for bad in ["", "-", ".", "e9", "1e", "1e+", "--1", "1.2.3", "1x", "in", "0x10", "1 2"] {
        assert!(!is_numeric_token(bad.as_bytes()), "{bad}");
        assert!(bad.parse::<f64>().is_err(), "{bad}");
    }
}

#[test]
fn test_usize_render_parse() {
    assert_eq!(render_usize(0), b"0".to_vec());
    assert_eq!(render_usize(90210), b"90210".to_vec());
    assert_eq!(parse_usize(b"90210"), Some(90210));
    assert_eq!(parse_usize(b"+7"), Some(7));
    assert_eq!(parse_usize(b"007"), Some(7));
    assert_eq!(parse_usize(b""), None);
    assert_eq!(parse_usize(b"+"), None);
    assert_eq!(parse_usize(b"-7"), None);
    assert_eq!(parse_usize(b"12a"), None);
    assert_eq!(parse_usize(b"99999999999999999999999999"), None);
}

#[test]
fn test_split_lines_and_tokens() {
    let lines = split_lines(b"a\r\nbb\n\ncc");
    let views: Vec<&[u8]> = lines.iter().map(|l| l.as_slice()).collect();
    assert_eq!(views, vec![b"a" as &[u8], b"bb", b"", b"cc"]);
    let toks = split_tokens(b"  1.5\t\tx  y ");
    let views: Vec<&[u8]> = toks.iter().map(|l| l.as_slice()).collect();
    assert_eq!(views, vec![b"1.5" as &[u8], b"x", b"y"]);
}

#[test]
fn test_round_trip_zero_columns() {
    let m: Matrix<Vec<u8>> = Matrix::from_vec(2, 0, Vec::new()).unwrap();
    let bytes = save_matrix(&m);
    let back = read_matrix(&bytes).unwrap();
    assert_eq!(back.size(), (2, 0));
}

#[test]
fn test_carriage_return_line_endings() {
    let content = b"#?SIMPLE\r\nNROWS=1\r\nNCOLS=2\r\nNCOMP=1\r\nFORMAT=ascii\r\n\r\n1 2\r\n";
    let m = read_matrix(content).unwrap();
    assert_eq!(m.size(), (1, 2));
    assert_eq!(m.get_ref(0, 1).unwrap(), &tok("2"));
}
