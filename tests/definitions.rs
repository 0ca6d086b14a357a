use std::collections::HashMap;

use hextuner::codec::CellError;
use hextuner::definitions::{Axis, AxisData, BinaryDefinition, Scalar, Table, ValueError};
use hextuner::eval::eval;
use hextuner::rational::Rational;
use hextuner::records::{
    hex_string, label_value, parse_value, rename_variable, AxisRecord, CategoryRecord, ConstantRecord,
    DefinitionError, DefinitionRecord, EmbeddedRecord, HeaderRecord, LinkedData, MathRecord,
    TableRecord,
};
use hextuner::views::{EditSource, ErrorView};

fn same(r: &Rational, num: i128, den: i128) -> bool {
    r.numer() * den == num * r.denom()
}

fn math(expr: &str) -> MathRecord {
    MathRecord { expression: Some(expr.to_string()), vars: vec!["X".to_string()] }
}

fn embedded(address: u64, bits: u32, rows: Option<u32>, cols: Option<u32>) -> EmbeddedRecord {
    EmbeddedRecord {
        address: Some(address),
        element_size_bits: Some(bits),
        row_count: rows,
        col_count: cols,
    }
}

fn stored_axis(id: &str, address: u64, bits: u32, rows: Option<u32>, cols: Option<u32>, expr: &str) -> AxisRecord {
    AxisRecord {
        id: Some(id.to_string()),
        count: None,
        embedded: Some(embedded(address, bits, rows, cols)),
        link: None,
        math: Some(math(expr)),
        units: Some(format!("{}-units", id)),
        labels: vec![],
    }
}

fn label_axis(id: &str, labels: &[&str]) -> AxisRecord {
    AxisRecord {
        id: Some(id.to_string()),
        count: None,
        embedded: None,
        link: None,
        math: None,
        units: None,
        labels: labels.iter().map(|l| Some(l.to_string())).collect(),
    }
}

fn table(uid: Option<u32>, axes: Vec<AxisRecord>) -> TableRecord {
    TableRecord {
        uid,
        title: Some("map".to_string()),
        description: None,
        categories: vec![Some(1), None, Some(3)],
        axes,
    }
}

fn binary_parts(axis: &Axis) -> (u64, usize, usize, String) {
    match &axis.data {
        AxisData::Binary { address, element_size, count, expression } => {
            (*address, *element_size, *count, expression.clone())
        }
        AxisData::User(_) => panic!("expected a stored axis"),
    }
}

#[test]
fn axis_count_from_rows_and_columns() {
    let a = Axis::from_xdf(stored_axis("z", 0, 8, Some(16), Some(1), "X"), None).unwrap();
    assert_eq!(a.len(), 16);
    let b = Axis::from_xdf(stored_axis("z", 0, 8, Some(16), Some(12), "X"), None).unwrap();
    assert_eq!(b.len(), 192);
    assert_eq!(binary_parts(&b).2, 192);
}

#[test]
fn axis_count_mismatch_is_rejected() {
    let mut rec = stored_axis("z", 0, 8, Some(4), Some(4), "X");
    rec.count = Some(10);
    assert_eq!(
        Axis::from_xdf(rec, None).unwrap_err(),
        DefinitionError::CountMismatch { count: 10, rows: 4, cols: 4 }
    );
}

#[test]
fn axis_record_errors() {
    let mut rec = stored_axis("z", 0, 8, Some(4), None, "X");
    rec.embedded = Some(embedded(0, 40, Some(4), None));
    assert_eq!(Axis::from_xdf(rec, None).unwrap_err(), DefinitionError::BadElementSize { bits: 40 });
    let mut rec = stored_axis("z", 0, 8, Some(4), None, "X");
    rec.math = Some(MathRecord { expression: Some("X+Y".to_string()), vars: vec!["X".to_string(), "Y".to_string()] });
    assert_eq!(Axis::from_xdf(rec, None).unwrap_err(), DefinitionError::BadVariables { count: 2 });
    let mut rec = stored_axis("z", 0, 8, None, None, "X");
    rec.embedded = Some(embedded(0, 8, None, None));
    assert_eq!(Axis::from_xdf(rec, None).unwrap_err(), DefinitionError::NoStorage);
}

#[test]
fn axis_variable_renamed() {
    let mut rec = stored_axis("z", 4, 16, Some(2), None, "RPM*2");
    rec.math = Some(MathRecord { expression: Some("RPM*2+RPMX".to_string()), vars: vec!["RPM".to_string()] });
    let a = Axis::from_xdf(rec, None).unwrap();
    let (address, size, count, expression) = binary_parts(&a);
    assert_eq!((address, size, count), (4, 2, 2));
    assert_eq!(expression, "X*2+RPMX");
    assert_eq!(a.units, "z-units");
}

#[test]
fn rename_replaces_whole_words() {
    assert_eq!(rename_variable("A*2+(A-1)/AB", "A"), "X*2+(X-1)/AB");
    assert_eq!(rename_variable("X", "X"), "X");
}

#[test]
fn label_axis_values() {
    let a = Axis::from_xdf(label_axis("x", &["12.5", "-3", "abc", "+4"]), None).unwrap();
    assert!(!a.writeable());
    let v = a.read(&[]).unwrap();
    assert_eq!(v.len(), 4);
    assert!(same(&v[0], 25, 2));
    assert!(same(&v[1], -3, 1));
    assert!(same(&v[2], 0, 1));
    assert!(same(&v[3], 4, 1));
    assert!(same(&label_value("0.25"), 1, 4));
}

#[test]
fn table_axis_assignment() {
    let rec = table(
        None,
        vec![
            stored_axis("y", 0x20, 8, Some(2), None, "X"),
            stored_axis("z", 0x30, 8, Some(2), Some(3), "X"),
            stored_axis("x", 0x10, 8, Some(3), None, "X"),
        ],
    );
    let t = Table::from_xdf(rec, None).unwrap();
    assert_eq!(binary_parts(&t.x).0, 0x10);
    assert_eq!(binary_parts(&t.y).0, 0x20);
    assert_eq!(binary_parts(&t.z).0, 0x30);
    assert_eq!(t.x.units, "x-units");
    assert_eq!(t.categories, vec![0, 2]);
    assert_eq!(t.name, "map");
}

#[test]
fn table_with_wrong_axis_count_fails() {
    let two = table(None, vec![label_axis("x", &["1"]), label_axis("y", &["1"])]);
    assert_eq!(Table::from_xdf(two, None).unwrap_err(), DefinitionError::WrongAxisCount { count: 2 });
    let four = table(
        None,
        vec![label_axis("x", &["1"]), label_axis("y", &["1"]), label_axis("z", &["1"]), label_axis("w", &["1"])],
    );
    assert_eq!(Table::from_xdf(four, None).unwrap_err(), DefinitionError::WrongAxisCount { count: 4 });
}

#[test]
fn table_category_zero_rejected() {
    let mut rec = table(None, vec![label_axis("x", &["1"]), label_axis("y", &["1"]), label_axis("z", &["1"])]);
    rec.categories = vec![Some(0)];
    assert_eq!(Table::from_xdf(rec, None).unwrap_err(), DefinitionError::BadCategory);
}

#[test]
fn link_resolution_to_later_table() {
    let linking = AxisRecord {
        id: Some("x".to_string()),
        count: Some(4),
        embedded: Some(EmbeddedRecord { address: None, element_size_bits: None, row_count: None, col_count: None }),
        link: Some(7),
        math: None,
        units: None,
        labels: vec![],
    };
    let first = table(
        Some(1),
        vec![linking, label_axis("y", &["1"]), stored_axis("z", 0x40, 8, Some(1), Some(4), "X")],
    );
    let second = table(
        Some(7),
        vec![label_axis("x", &["1"]), label_axis("y", &["1"]), stored_axis("z", 0x100, 16, Some(4), None, "X*2")],
    );
    let def = DefinitionRecord {
        header: Some(HeaderRecord { title: Some("t".to_string()), description: None, categories: vec![] }),
        constants: vec![],
        tables: vec![first, second],
    };
    let d = BinaryDefinition::from_xdf(def).unwrap();
    let (address, size, count, expression) = binary_parts(&d.tables[0].x);
    assert_eq!((address, size, count), (0x100, 2, 4));
    assert_eq!(expression, "X*2");
}

#[test]
fn unknown_link_fails() {
    let mut linking = stored_axis("x", 0, 8, Some(1), None, "X");
    linking.link = Some(99);
    let links: HashMap<u32, LinkedData> = HashMap::new();
    assert_eq!(Axis::from_xdf(linking, Some(&links)).unwrap_err(), DefinitionError::UnknownLink { id: 99 });
}

#[test]
fn precision_estimate() {
    let a = Axis::from_xdf(stored_axis("z", 0, 8, Some(1), None, "X/10"), None).unwrap();
    assert_eq!(a.precision(), Some(2));
    let b = Axis::from_xdf(stored_axis("z", 0, 8, Some(1), None, "X"), None).unwrap();
    assert_eq!(b.precision(), Some(1));
    let c = Axis::from_xdf(stored_axis("z", 0, 8, Some(1), None, "X*0.001"), None).unwrap();
    assert_eq!(c.precision(), Some(4));
    let f = Axis::from_xdf(stored_axis("z", 0, 8, Some(1), None, "X*10"), None).unwrap();
    assert_eq!(f.precision(), Some(0));
    let g = Axis::from_xdf(stored_axis("z", 0, 8, Some(1), None, "X*20"), None).unwrap();
    assert_eq!(g.precision(), Some(0));
    let h = Axis::from_xdf(stored_axis("z", 0, 8, Some(1), None, "X*100"), None).unwrap();
    assert_eq!(h.precision(), None);
    let d = Axis::from_xdf(stored_axis("z", 0, 8, Some(1), None, "X*0+3"), None).unwrap();
    assert_eq!(d.precision(), None);
    let e = Axis::from_xdf(label_axis("x", &["1"]), None).unwrap();
    assert_eq!(e.precision(), None);
}

#[test]
fn axis_range() {
    let a = Axis::from_xdf(stored_axis("z", 0, 16, Some(1), None, "X/4-40"), None).unwrap();
    let (lo, hi) = a.range().unwrap().unwrap();
    assert!(same(&lo, -40, 1));
    assert!(same(&hi, 65535 - 160, 4));
    let b = Axis::from_xdf(stored_axis("z", 0, 8, Some(1), None, "100-X"), None).unwrap();
    let (lo, hi) = b.range().unwrap().unwrap();
    assert!(same(&lo, 100, 1));
    assert!(same(&hi, -155, 1));
    let c = Axis::from_xdf(label_axis("x", &["1"]), None).unwrap();
    assert!(c.range().is_none());
}

#[test]
fn axis_write_and_read_back() {
    let a = Axis::from_xdf(stored_axis("z", 1, 16, Some(3), None, "X/4-40"), None).unwrap();
    let mut image = vec![0u8; 8];
    let vals = vec![Rational::from_int(-40), Rational::from_int(-8), Rational::new(1, 4).unwrap()];
    a.write(&mut image, vals).unwrap();
    assert_eq!(image, vec![0, 0, 0, 128, 0, 161, 0, 0]);
    let back = a.read(&image).unwrap();
    assert!(same(&back[0], -40, 1));
    assert!(same(&back[1], -8, 1));
    assert!(same(&back[2], 1, 4));
}

#[test]
fn user_axis_is_not_writeable() {
    let a = Axis::from_xdf(label_axis("x", &["1", "2"]), None).unwrap();
    let mut image = vec![0u8; 4];
    let r = a.write(&mut image, vec![Rational::from_int(1), Rational::from_int(2)]);
    assert_eq!(r.unwrap_err(), ValueError::NotWriteable);
    assert_eq!(image, vec![0u8; 4]);
}

#[test]
fn axis_write_length_must_match() {
    let a = Axis::from_xdf(stored_axis("z", 0, 8, Some(2), None, "X"), None).unwrap();
    let mut image = vec![0u8; 4];
    let r = a.write(&mut image, vec![Rational::from_int(1)]);
    assert_eq!(r.unwrap_err(), ValueError::WrongLength { expected: 2, given: 1 });
}

#[test]
fn axis_write_fails_before_touching_bytes() {
    let a = Axis::from_xdf(stored_axis("z", 0, 8, Some(2), None, "X*0"), None).unwrap();
    let mut image = vec![9u8; 4];
    let r = a.write(&mut image, vec![Rational::from_int(1), Rational::from_int(2)]);
    assert_eq!(r.unwrap_err(), ValueError::Expr(hextuner::token::ExprError::DivisionByZero));
    assert_eq!(image, vec![9u8; 4]);
}

#[test]
fn axis_read_out_of_bounds() {
    let a = Axis::from_xdf(stored_axis("z", 2, 16, Some(2), None, "X"), None).unwrap();
    let image = vec![0u8; 5];
    assert_eq!(
        a.read(&image).unwrap_err(),
        ValueError::Cell(CellError::OutOfBounds { address: 2, size: 2 })
    );
}

#[test]
fn display_grid_layout() {
    let rec = table(
        None,
        vec![
            stored_axis("x", 0, 8, Some(2), None, "X"),
            stored_axis("y", 2, 8, Some(2), None, "X*10"),
            stored_axis("z", 4, 8, Some(2), Some(2), "X+100"),
        ],
    );
    let t = Table::from_xdf(rec, None).unwrap();
    let image = vec![1u8, 2, 3, 4, 5, 6, 7, 8];
    let g = t.build_array(&image).unwrap();
    assert_eq!(g.len(), 3);
    assert!(g[0][0].is_none());
    assert!(same(g[0][1].as_ref().unwrap(), 1, 1));
    assert!(same(g[0][2].as_ref().unwrap(), 2, 1));
    assert!(same(g[1][0].as_ref().unwrap(), 30, 1));
    assert!(same(g[1][1].as_ref().unwrap(), 105, 1));
    assert!(same(g[1][2].as_ref().unwrap(), 106, 1));
    assert!(same(g[2][0].as_ref().unwrap(), 40, 1));
    assert!(same(g[2][2].as_ref().unwrap(), 108, 1));
}

#[test]
fn short_value_axis_leaves_rows_short() {
    let rec = table(
        None,
        vec![label_axis("x", &["1", "2", "3"]), label_axis("y", &["1", "2"]), label_axis("z", &["5", "6", "7", "8"])],
    );
    let t = Table::from_xdf(rec, None).unwrap();
    let g = t.build_array(&[]).unwrap();
    assert_eq!(g[0].len(), 4);
    assert_eq!(g[1].len(), 4);
    assert_eq!(g[2].len(), 2);
}

#[test]
fn scalar_read_and_write() {
    let rec = ConstantRecord {
        title: Some("idle".to_string()),
        description: Some("idle speed".to_string()),
        embedded: Some(embedded(1, 16, None, None)),
        math: Some(math("X*0.25")),
        categories: vec![Some(2), None],
    };
    let s = Scalar::from_xdf(rec).unwrap();
    assert_eq!((s.address, s.size), (1, 2));
    assert_eq!(s.categories, vec![2]);
    let mut image = vec![0u8; 4];
    s.write(&mut image, Rational::from_int(200)).unwrap();
    assert_eq!(image, vec![0, 0x20, 0x03, 0]);
    assert!(same(&s.read(&image).unwrap(), 200, 1));
    s.write(&mut image, Rational::new(1001, 10).unwrap()).unwrap();
    assert_eq!(s.read(&image).unwrap().round(), 100);
}

#[test]
fn scalar_write_rounds_to_nearest() {
    let rec = ConstantRecord {
        title: None,
        description: None,
        embedded: Some(embedded(0, 8, None, None)),
        math: Some(math("X/10")),
        categories: vec![],
    };
    let s = Scalar::from_xdf(rec).unwrap();
    let mut image = vec![0u8; 1];
    s.write(&mut image, Rational::new(125, 100).unwrap()).unwrap();
    assert_eq!(image[0], 13);
    assert_eq!(s.write(&mut image, Rational::from_int(-5)).unwrap_err(), ValueError::OutOfRange);
    assert_eq!(s.write(&mut image, Rational::new(2556, 100).unwrap()).unwrap_err(), ValueError::OutOfRange);
    assert_eq!(image[0], 13);
    s.write(&mut image, Rational::new(2554, 100).unwrap()).unwrap();
    assert_eq!(image[0], 255);
}

#[test]
fn axis_write_refuses_values_beyond_the_cell() {
    let a = Axis::from_xdf(stored_axis("z", 0, 8, Some(2), None, "X"), None).unwrap();
    let mut image = vec![7u8; 2];
    let r = a.write(&mut image, vec![Rational::from_int(1), Rational::from_int(256)]);
    assert_eq!(r.unwrap_err(), ValueError::OutOfRange);
    assert_eq!(image, vec![7u8; 2]);
}

#[test]
fn scalar_record_errors() {
    let rec = ConstantRecord { title: None, description: None, embedded: None, math: None, categories: vec![] };
    assert_eq!(Scalar::from_xdf(rec).unwrap_err(), DefinitionError::MissingEmbeddedData);
    let rec = ConstantRecord {
        title: None,
        description: None,
        embedded: Some(embedded(0, 8, None, None)),
        math: Some(MathRecord { expression: None, vars: vec![] }),
        categories: vec![],
    };
    assert_eq!(Scalar::from_xdf(rec).unwrap_err(), DefinitionError::MissingExpression);
}

#[test]
fn definition_metadata_and_categories() {
    let header = HeaderRecord {
        title: Some("ecu".to_string()),
        description: Some("file".to_string()),
        categories: vec![
            CategoryRecord { index: Some(0), name: Some("Fuel".to_string()) },
            CategoryRecord { index: Some(26), name: None },
            CategoryRecord { index: None, name: Some("skipped".to_string()) },
        ],
    };
    let def = DefinitionRecord { header: Some(header), constants: vec![], tables: vec![] };
    let d = BinaryDefinition::from_xdf(def).unwrap();
    assert_eq!(d.info.name, "ecu");
    assert_eq!(d.info.categories.len(), 2);
    assert_eq!(d.info.categories.get(&0).unwrap(), "Fuel");
    assert_eq!(d.info.categories.get(&26).unwrap(), "1a");
    assert_eq!(hex_string(255), "ff");
    assert_eq!(hex_string(0), "0");
}

#[test]
fn definition_without_header_fails() {
    let def = DefinitionRecord { header: None, constants: vec![], tables: vec![] };
    assert_eq!(BinaryDefinition::from_xdf(def).unwrap_err(), DefinitionError::MissingHeader);
}

#[test]
fn scalar_expression_matches_engine() {
    assert!(same(&eval("X*0.25", 800).unwrap(), 200, 1));
}

#[test]
fn edit_sources_and_error_view() {
    assert_ne!(EditSource::XHead(1), EditSource::YHead(1));
    assert_eq!(EditSource::Data(3), EditSource::Data(3));
    assert_eq!(ErrorView::new("bad".to_string()).text, "bad");
}

#[test]
fn typed_values_parse_or_fail() {
    assert!(same(&parse_value("1.5").unwrap(), 3, 2));
    assert!(same(&parse_value("-2").unwrap(), -2, 1));
    assert!(parse_value("abc").is_none());
    assert!(parse_value("").is_none());
    assert!(parse_value("1.2.3").is_none());
    assert!(same(&parse_value("1e3").unwrap(), 1000, 1));
    assert!(same(&parse_value("2.5E-1").unwrap(), 1, 4));
    assert!(same(&parse_value("-1.5e+2").unwrap(), -150, 1));
    assert!(same(&parse_value("0e99999").unwrap(), 0, 1));
    assert!(parse_value("1e").is_none());
    assert!(parse_value("e3").is_none());
    assert!(parse_value("1e99999").is_none());
    assert!(parse_value("1e-40").is_none());
}

#[test]
fn exponent_labels() {
    let a = Axis::from_xdf(label_axis("x", &["1e3", "5E-1", "1e"]), None).unwrap();
    let v = a.read(&[]).unwrap();
    assert!(same(&v[0], 1000, 1));
    assert!(same(&v[1], 1, 2));
    assert!(same(&v[2], 0, 1));
}

#[test]
fn bad_records_do_not_stop_assembly() {
    let bad = table(Some(3), vec![label_axis("x", &["1"]), label_axis("y", &["1"])]);
    let good = table(None, vec![label_axis("x", &["1"]), label_axis("y", &["2"]), label_axis("z", &["3"])]);
    let broken_scalar = ConstantRecord { title: None, description: None, embedded: None, math: None, categories: vec![] };
    let fine_scalar = ConstantRecord {
        title: Some("ok".to_string()),
        description: None,
        embedded: Some(embedded(0, 8, None, None)),
        math: Some(math("X")),
        categories: vec![],
    };
    let def = DefinitionRecord {
        header: Some(HeaderRecord { title: None, description: None, categories: vec![] }),
        constants: vec![fine_scalar, broken_scalar],
        tables: vec![bad, good],
    };
    let d = BinaryDefinition::from_xdf(def).unwrap();
    assert_eq!(d.tables.len(), 1);
    assert_eq!(d.table_errors, vec![(0, DefinitionError::WrongAxisCount { count: 2 })]);
    assert_eq!(d.scalars.len(), 1);
    assert_eq!(d.scalars[0].name, "ok");
    assert_eq!(d.scalar_errors, vec![(1, DefinitionError::MissingEmbeddedData)]);
}
