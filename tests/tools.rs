use expression_transformator::{calculate, get_smallest_dimension, Args, FloatImage};

#[test]
fn calculate_applies_each_operator() {
    assert_eq!(calculate(7, 3, '+'), 10);
    assert_eq!(calculate(7, 3, '-'), 4);
    assert_eq!(calculate(7, 3, '*'), 21);
    assert_eq!(calculate(7, 3, 'x'), 21);
    assert_eq!(calculate(7, 3, '/'), 2);
    assert_eq!(calculate(7, 3, ':'), 2);
}

#[test]
fn calculate_truncates_toward_zero() {
    assert_eq!(calculate(-7, 2, '/'), -3);
    assert_eq!(calculate(7, -2, '/'), -3);
    assert_eq!(calculate(-7, -2, '/'), 3);
}

#[test]
fn smallest_dimension_by_area() {
    assert_eq!(get_smallest_dimension((10, 10), (5, 30)), (10, 10));
    assert_eq!(get_smallest_dimension((5, 30), (10, 10)), (10, 10));
    assert_eq!(get_smallest_dimension((4, 5), (2, 10)), (2, 10));
    assert_eq!(
        get_smallest_dimension((u32::MAX, u32::MAX), (u32::MAX, 1)),
        (u32::MAX, 1)
    );
}

#[test]
fn float_image_starts_empty() {
    let image = FloatImage::new(3, 2, String::from("out.png"));
    assert_eq!(image.width, 3);
    assert_eq!(image.height, 2);
    assert!(image.data.is_empty());
    assert_eq!(image.name, String::from("out.png"));
}

#[test]
fn args_take_three_paths() {
    let argv = vec![
        String::from("tool"),
        String::from("a.png"),
        String::from("b.png"),
        String::from("c.png"),
    ];
    let args = Args::new(&argv);
    assert_eq!(args.image_1, String::from("a.png"));
    assert_eq!(args.image_2, String::from("b.png"));
    assert_eq!(args.output, String::from("c.png"));
}
