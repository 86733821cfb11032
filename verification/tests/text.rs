use ladybug_learning_standalone::text::thousandths_string;

#[test]
fn thousandths_are_rendered_with_three_places() {
    assert_eq!(thousandths_string(5000), "5.000");
    assert_eq!(thousandths_string(0), "0.000");
    assert_eq!(thousandths_string(12), "0.012");
    assert_eq!(thousandths_string(123456), "123.456");
}
