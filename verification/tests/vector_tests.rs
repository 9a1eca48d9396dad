use lemonmath::fraction::Fraction;
use lemonmath::vectors::Vector;

/// Splits a float's decimal rendering into integer part, fractional
/// digits and the count of digits after the point.
fn float_parts(value: f64) -> (i128, u128, u32) {
    let s = format!("{}", value);
    match s.split_once('.') {
        Some((int_part, frac_part)) => (
            int_part.parse::<i128>().unwrap(),
            frac_part.parse::<u128>().unwrap(),
            frac_part.len() as u32,
        ),
        None => (s.parse::<i128>().unwrap(), 0, 0),
    }
}

fn floats_to_fractions(values: &[f64]) -> Vec<Fraction> {
    values
        .iter()
        .map(|v| {
            let (int_part, frac_part, digits) = float_parts(*v);
            Fraction::from_decimal(int_part, frac_part, digits)
        })
        .collect()
}

#[test]
fn vector_test() {
    let vector1 = Vector::new(floats_to_fractions(&[1.32, 2.0, 3.432, 4.0, 5.0]), true);
    let mut vector2 = Vector::new(floats_to_fractions(&[1.0, 2.0, 3.0, 4.53, 5.0]), true);
    vector2.transpose();
    println!("{}\n{}", vector1.to_display_string(), vector2.to_display_string());
    println!("{}", vector2.dot_product(&vector1).to_display_string());
}

#[test]
fn vector_display_row() {
    let ints = |xs: &[i128]| -> Vec<Fraction> { xs.iter().map(|x| Fraction::new(*x, 1)).collect() };
    let v = Vector::new(ints(&[1, 2, 3]), false);
    assert_eq!(v.to_display_string(), "[ 1 2 3 ]");
}

#[test]
fn vector_display_column_padded() {
    let v = Vector::new(vec![Fraction::new(1, 2), Fraction::new(10, 1), Fraction::new(3, 1)], true);
    assert_eq!(v.to_display_string(), "⎡ 1/2 ⎤\n⎢ 10  ⎥\n⎣ 3   ⎦");
}

#[test]
fn vector_display_single_element_column() {
    let v = Vector::new(vec![Fraction::new(7, 1)], true);
    assert_eq!(v.to_display_string(), "⎡ 7 ⎤\n");
}

#[test]
fn vector_new_and_push() {
    let mut vector = Vector::new(vec![1i32, 2, 3, 4, 5], true);
    assert_eq!(vector.content, vec![1, 2, 3, 4, 5]);
    vector.push(6);
    assert_eq!(vector.content, vec![1, 2, 3, 4, 5, 6]);
}

#[test]
fn vector_transpose_flips_orientation() {
    let mut vector1 = Vector::new(vec![1i32, 2, 3], true);
    let vector2 = Vector::new(vec![1i32, 2, 3], false);
    vector1.transpose();
    assert_eq!(vector1, vector2);
    vector1.transpose();
    assert_ne!(vector1, vector2);
}

#[test]
fn vector_elementwise_add_sub() {
    let ints = |xs: &[i128]| -> Vec<Fraction> { xs.iter().map(|x| Fraction::new(*x, 1)).collect() };
    let v1 = Vector::new(ints(&[1, 2, 3]), true);
    let v2 = Vector::new(ints(&[10, 20, 30]), true);
    let sum = v1.add_vector(&v2);
    assert_eq!(sum.content, ints(&[11, 22, 33]));
    let diff = v1.sub_vector(&v2);
    assert_eq!(diff.content, ints(&[-9, -18, -27]));
}

#[test]
fn vector_dot_product_value() {
    let ints = |xs: &[i128]| -> Vec<Fraction> { xs.iter().map(|x| Fraction::new(*x, 1)).collect() };
    let v1 = Vector::new(ints(&[1, 2, 3, 4, 5]), true);
    let v2 = Vector::new(ints(&[1, 2, 3, 4, 5]), false);
    assert_eq!(v1.dot_product(&v2), Fraction::new(55, 1));
}

#[test]
fn vector_dot_product_fractions() {
    let v1 = Vector::new(vec![Fraction::new(1, 2), Fraction::new(1, 3)], true);
    let v2 = Vector::new(vec![Fraction::new(2, 1), Fraction::new(3, 1)], false);
    assert_eq!(v1.dot_product(&v2), Fraction::new(2, 1));
}

#[test]
fn vector_elementwise_div() {
    let ints = |xs: &[i128]| -> Vec<Fraction> { xs.iter().map(|x| Fraction::new(*x, 1)).collect() };
    let v1 = Vector::new(ints(&[1, 2, 3]), true);
    let v2 = Vector::new(ints(&[2, 3, 4]), false);
    let q = v1.div_vector(&v2);
    assert_eq!(
        q.content,
        vec![Fraction::new(1, 2), Fraction::new(2, 3), Fraction::new(3, 4)]
    );
}
