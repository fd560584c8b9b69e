use haversine_json::{parse_text, Value};

fn pairs_text(pairs: &[[f64; 4]]) -> String {
    let mut text = String::from("{\"pairs\": [\n");
    for (i, p) in pairs.iter().enumerate() {
        text.push_str(&format!(
            "  {{\"x0\": {}, \"y0\": {}, \"x1\": {}, \"y1\": {}}}",
            p[0], p[1], p[2], p[3]
        ));
        text.push_str(if i + 1 < pairs.len() { ",\n" } else { "\n" });
    }
    text.push_str("]}\n");
    text
}

fn check_shape(pairs: &[[f64; 4]]) {
    let text = pairs_text(pairs);
    let value = parse_text(&text).unwrap();
    let members = value.as_object().unwrap();
    assert_eq!(members.len(), 1);
    assert_eq!(members[0].key, "pairs");
    let elements = value.get("pairs").unwrap().as_array().unwrap();
    assert_eq!(elements.len(), pairs.len());
    for (element, pair) in elements.iter().zip(pairs.iter()) {
        let fields = element.as_object().unwrap();
        assert_eq!(fields.len(), 4);
        for (name, expected) in ["x0", "y0", "x1", "y1"].iter().zip(pair.iter()) {
            match element.get(name) {
                Some(Value::Num(literal)) => {
                    assert_eq!(literal.parse::<f64>().unwrap().to_bits(), expected.to_bits())
                },
                other => panic!("{:?}", other),
            }
        }
    }
}

#[test]
fn document_of_no_pairs() {
    check_shape(&[]);
    let value = parse_text("{\"pairs\": []}").unwrap();
    assert_eq!(value.get("pairs"), Some(&Value::Array(vec![])));
}

#[test]
fn document_of_one_pair() {
    check_shape(&[[-90.0, 180.0, 90.0, -180.0]]);
}

#[test]
fn document_of_many_pairs() {
    let mut pairs = Vec::new();
    let mut state: u64 = 0x9e3779b97f4a7c15;
    for _ in 0..500 {
        let mut p = [0.0; 4];
        for (i, slot) in p.iter_mut().enumerate() {
            state = state.wrapping_mul(6364136223846793005).wrapping_add(1442695040888963407);
            let unit = (state >> 11) as f64 / (1u64 << 53) as f64;
            let span = if i % 2 == 0 { 90.0 } else { 180.0 };
            *slot = (unit * 2.0 - 1.0) * span;
        }
        pairs.push(p);
    }
    check_shape(&pairs);
}

#[test]
fn document_with_small_and_large_numbers() {
    check_shape(&[[1e-7, -1e-300, 1e21, 123456789.125], [0.0, -0.0, 5e-324, f64::MAX]]);
}
