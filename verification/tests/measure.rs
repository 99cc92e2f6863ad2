use puzlib::{Axis, Cross, Dir, Vec2D, Vec3D};

#[test]
fn directions_signed() {
    let expected = [
        Some(Vec2D(-1, 0)),
        Some(Vec2D(0, 1)),
        Some(Vec2D(1, 0)),
        Some(Vec2D(0, -1)),
    ];
    let actual = Dir::<i64>::cardinals(&Vec2D(0, 0));
    assert_eq!(expected, actual);
}

#[test]
fn directions_unsigned_in_bounds() {
    let expected = [
        Some(Vec2D(9, 10)),
        Some(Vec2D(10, 11)),
        Some(Vec2D(11, 10)),
        Some(Vec2D(10, 9)),
    ];
    let actual = Dir::<i64>::cardinals(&Vec2D(10, 10));
    assert_eq!(expected, actual);
}

#[test]
fn directions_unsigned_out_of_bounds() {
    let expected = [None, Some(Vec2D(0, 1)), Some(Vec2D(1, 0)), None];
    let actual = Dir::<u8>::cardinals(&Vec2D(0, 0));
    assert_eq!(expected, actual);
}

#[test]
fn measure_test_manhattan_2d() {
    let expected = 10;
    let actual = Vec2D(-1, 6).manhattan(Vec2D(7, 8));
    assert_eq!(expected, actual);
}

#[test]
fn vec2d_test_manhattan_2d() {
    let expected = 10;
    let actual = Vec2D(-1, 6).manhattan(Vec2D(7, 8));
    assert_eq!(expected, actual);
}

#[test]
fn measure_test_dot_2d() {
    let expected = 66;
    let actual = Vec2D(-6, 8).dot(Vec2D(5, 12));
    assert_eq!(expected, actual);
}

#[test]
fn vec2d_test_dot_2d() {
    let expected = 66;
    let actual = Vec2D(-6, 8).dot(Vec2D(5, 12));
    assert_eq!(expected, actual);
}

#[test]
fn measure_test_cross_2d() {
    let expected = Vec3D(0, 0, 2);
    let actual = Vec2D(2, 2).cross(Vec2D(5, 6));
    assert_eq!(expected, actual);
}

#[test]
fn cross_product_test_cross_2d() {
    let expected = Vec3D(0, 0, 2);
    let actual = Vec2D(2, 2).cross(Vec2D(5, 6));
    assert_eq!(expected, actual);
}

#[test]
fn measure_test_manhattan_3d() {
    let expected = 10;
    let actual = Vec3D(-1, 6, 5).manhattan(Vec3D(5, 8, 3));
    assert_eq!(expected, actual);
}

#[test]
fn vec3d_test_manhattan_3d() {
    let expected = 10;
    let actual = Vec3D(-1, 6, 5).manhattan(Vec3D(5, 8, 3));
    assert_eq!(expected, actual);
}

#[test]
fn measure_test_dot_3d() {
    let expected = 602;
    let actual = Vec3D(-6, 8, 12).dot(Vec3D(5, 13, 44));
    assert_eq!(expected, actual);
}

#[test]
fn vec3d_test_dot_3d() {
    let expected = 602;
    let actual = Vec3D(-6, 8, 12).dot(Vec3D(5, 13, 44));
    assert_eq!(expected, actual);
}

#[test]
fn measure_test_cardinals() {
    let expected = [
        Some(Vec2D(1, 0)),
        Some(Vec2D(2, 1)),
        Some(Vec2D(3, 0)),
        None,
    ];
    let actual = Dir::<usize>::cardinals(&Vec2D(2, 0));
    assert_eq!(expected, actual);
}

#[test]
fn direction_test_cardinals() {
    let expected = [
        Some(Vec2D(1, 0)),
        Some(Vec2D(2, 1)),
        Some(Vec2D(3, 0)),
        None,
    ];
    let actual = Dir::<usize>::cardinals(&Vec2D(2, 0));
    assert_eq!(expected, actual);
}

#[test]
fn test_compass_unchecked() {
    let expected: [Vec2D<i64>; 8] = [
        (-1, 0).into(),
        (-1, 1).into(),
        (0, 1).into(),
        (1, 1).into(),
        (1, 0).into(),
        (1, -1).into(),
        (0, -1).into(),
        (-1, -1).into(),
    ];
    let actual = Dir::<i64>::compass_unchecked(&Vec2D(0, 0));
    assert_eq!(expected, actual);
}

#[test]
fn ordinals_and_compass_at_the_edge() {
    assert_eq!(
        [None, Some(Vec2D(1, 1)), None, None],
        Dir::<u8>::ordinals(&Vec2D(0, 0))
    );
    assert_eq!(
        [
            Some(Vec2D(254, 255)),
            None,
            None,
            None,
            None,
            None,
            Some(Vec2D(255, 254)),
            Some(Vec2D(254, 254)),
        ],
        Dir::<u8>::compass(&Vec2D(255, 255))
    );
    assert_eq!(
        [Vec2D(4, 6), Vec2D(6, 6), Vec2D(6, 4), Vec2D(4, 4)],
        Dir::<i32>::ordinals_unchecked(&Vec2D(5, 5))
    );
    assert_eq!(
        [Vec2D(4, 5), Vec2D(5, 6), Vec2D(6, 5), Vec2D(5, 4)],
        Dir::<u16>::cardinals_unchecked(&Vec2D(5, 5))
    );
}

#[test]
fn cross_of_integer_vectors() {
    assert_eq!(
        Vec3D(-3_i64, 6, -3),
        Vec3D(2_i64, 3, 4).cross(Vec3D(5, 6, 7))
    );
    assert_eq!(Vec3D(0_i8, 0, -1), Vec2D(0_i8, 1).cross(Vec2D(1, 0)));
}

#[test]
fn scale_and_project() {
    assert_eq!(Vec2D(6, -9), Vec2D(2, -3).scale(3));
    assert_eq!(Vec3D(4, 6, 8), Vec3D(2, 3, 4).scale(2));
    assert_eq!(Vec2D(2, 3), Vec3D(1, 2, 3).planer(Axis::X));
    assert_eq!(Vec2D(1, 3), Vec3D(1, 2, 3).planer(Axis::Y));
    assert_eq!(Vec2D(1, 2), Vec3D(1, 2, 3).planer(Axis::Z));
    assert_eq!(Vec3D(0, 7, 8), Vec2D(7, 8).as_vec3d(Axis::X));
    assert_eq!(Vec3D(7, 0, 8), Vec2D(7, 8).as_vec3d(Axis::Y));
    assert_eq!(Vec3D(7, 8, 0), Vec2D(7, 8).as_vec3d(Axis::Z));
}

#[test]
fn conversions() {
    let conv: Vec2D<i64> = (10_u8, 2).into();
    assert_eq!(conv, Vec2D(10_i64, 2));
    let conv: Vec3D<i64> = (10_u8, 2, 12).into();
    assert_eq!(conv, Vec3D(10_i64, 2, 12));
    assert_eq!(Vec2D(3, 4), Vec2D::from(&(3, 4)));
    assert_eq!(Vec3D(3, 4, 0), Vec3D::from(Vec2D(3, 4)));
    assert_eq!(Vec2D(1_u64, 2), Vec2D(1_u8, 2).map_into());
    assert_eq!(Vec2D(true, false), Vec2D(4, -4).map(|x| x > 0));
}

#[test]
fn directions_from_characters() {
    for ch in ['N', 'U', '^'] {
        assert_eq!(Ok(Vec2D(-1_i64, 0)), Vec2D::try_from(ch));
    }
    for ch in ['S', 'D', 'v'] {
        assert_eq!(Ok(Vec2D(1_i32, 0)), Vec2D::try_from(ch));
    }
    for ch in ['E', 'R', '<'] {
        assert_eq!(Ok(Vec2D(0_i8, -1)), Vec2D::try_from(ch));
    }
    for ch in ['W', 'L', '>'] {
        assert_eq!(Ok(Vec2D(0_i16, 1)), Vec2D::try_from(ch));
    }
    assert_eq!(
        Err("Unknown direction x".to_string()),
        Vec2D::<i64>::try_from('x')
    );
}

#[test]
fn sums_and_differences() {
    assert_eq!(Vec2D(4, 6), Vec2D(1, 2) + Vec2D(3, 4));
    assert_eq!(Vec2D(4, 6), &Vec2D(1, 2) + &Vec2D(3, 4));
    assert_eq!(Vec2D(-2, -2), Vec2D(1, 2) - Vec2D(3, 4));
    assert_eq!(Vec2D(-2, -2), &Vec2D(1, 2) - &Vec2D(3, 4));
    assert_eq!(Vec3D(5, 7, 9), Vec3D(1, 2, 3) + Vec3D(4, 5, 6));
    assert_eq!(Vec3D(5, 7, 9), &Vec3D(1, 2, 3) + &Vec3D(4, 5, 6));
    assert_eq!(Vec3D(-3, -3, -3), Vec3D(1, 2, 3) - Vec3D(4, 5, 6));
    assert_eq!(Vec3D(-3, -3, -3), &Vec3D(1, 2, 3) - &Vec3D(4, 5, 6));
}
