use raycast2d::CastConfig;
use raycast2d::CastError;
use raycast2d::Point;
use raycast2d::Rgb;
use raycast2d::Wall;
use raycast2d::cast_ray;
use raycast2d::intersect;
use raycast2d::mix_colors;
use raycast2d::point_eq;
use raycast2d::trace_ray;

fn cfg() -> CastConfig {
    CastConfig::new(10000, 5)
}

fn red() -> Rgb {
    Rgb::new(255, 0, 0)
}

#[test]
fn intersect_crossing_segments() {
    let a = Wall::from_points((0, -5), (0, 5));
    let b = Wall::from_points((-5, 2), (5, 2));
    let q = intersect(&a, &b).expect("lines cross");
    assert!(point_eq(&q, &Point::from_int(0, 2)));
}

#[test]
fn intersect_fractional_point() {
    let a = Wall::from_points((0, 0), (2, 2));
    let b = Wall::from_points((0, 1), (2, 0));
    let q = intersect(&a, &b).expect("lines cross");
    let expected = Point { xn: 2, yn: 2, den: 3 };
    assert!(point_eq(&q, &expected));
}

#[test]
fn intersect_parallel_returns_none() {
    let a = Wall::from_points((0, -5), (0, 5));
    let b = Wall::from_points((3, -5), (3, 5));
    assert!(intersect(&a, &b).is_none());
}

#[test]
fn intersect_degenerate_returns_none() {
    let a = Wall::from_points((1, 1), (1, 1));
    let b = Wall::from_points((-5, 0), (5, 0));
    assert!(intersect(&a, &b).is_none());
}

#[test]
fn cast_hits_wall_midpoint() {
    let walls = vec![Wall::new((5, -1), (5, 1), red())];
    let r = cast_ray(&Point::from_int(0, 0), (1, 0), &walls, &cfg()).expect("no corner");
    let (q, idx) = r.expect("hit");
    assert_eq!(idx, 0);
    assert!(point_eq(&q, &Point::from_int(5, 0)));
}

#[test]
fn cast_unnormalized_direction_same_point() {
    let walls = vec![Wall::new((5, -1), (5, 1), red())];
    let r = cast_ray(&Point::from_int(0, 0), (2, 0), &walls, &cfg()).expect("no corner");
    let (q, _) = r.expect("hit");
    assert!(point_eq(&q, &Point::from_int(5, 0)));
}

#[test]
fn cast_from_rational_origin() {
    let walls = vec![Wall::new((9, -1), (9, 1), red())];
    let half = Point { xn: 1, yn: 0, den: 2 };
    let r = cast_ray(&half, (1, 0), &walls, &cfg()).expect("no corner");
    let (q, idx) = r.expect("hit");
    assert_eq!(idx, 0);
    assert!(point_eq(&q, &Point::from_int(9, 0)));
}

#[test]
fn cast_away_returns_no_hit() {
    let walls = vec![Wall::new((5, -1), (5, 1), red())];
    let r = cast_ray(&Point::from_int(0, 0), (-1, 0), &walls, &cfg()).expect("no corner");
    assert!(r.is_none());
}

#[test]
fn cast_empty_scene_returns_no_hit() {
    let walls: Vec<Wall> = Vec::new();
    let r = cast_ray(&Point::from_int(0, 0), (1, 0), &walls, &cfg()).expect("no corner");
    assert!(r.is_none());
}

#[test]
fn cast_zero_direction_returns_no_hit() {
    let walls = vec![Wall::new((5, -1), (5, 1), red())];
    let r = cast_ray(&Point::from_int(0, 0), (0, 0), &walls, &cfg()).expect("no corner");
    assert!(r.is_none());
}

#[test]
fn cast_degenerate_wall_never_hit() {
    let walls = vec![Wall::new((3, 0), (3, 0), red())];
    let r = cast_ray(&Point::from_int(0, 0), (1, 0), &walls, &cfg()).expect("no corner");
    assert!(r.is_none());
}

#[test]
fn cast_respects_max_distance() {
    let near = CastConfig::new(10, 0);
    let at_limit = vec![Wall::new((10, -1), (10, 1), red())];
    let r = cast_ray(&Point::from_int(0, 0), (1, 0), &at_limit, &near).expect("no corner");
    assert!(r.is_none());
    let inside = vec![Wall::new((9, -1), (9, 1), red())];
    let r = cast_ray(&Point::from_int(0, 0), (1, 0), &inside, &near).expect("no corner");
    assert!(r.is_some());
}

#[test]
fn cast_keeps_earlier_wall_on_tie() {
    let walls = vec![
        Wall::new((5, -1), (5, 1), red()),
        Wall::new((5, -2), (5, 2), Rgb::new(0, 255, 0)),
    ];
    let r = cast_ray(&Point::from_int(0, 0), (1, 0), &walls, &cfg()).expect("no corner");
    let (q, idx) = r.expect("hit");
    assert_eq!(idx, 0);
    assert!(point_eq(&q, &Point::from_int(5, 0)));
}

#[test]
fn cast_picks_nearest_wall() {
    let walls = vec![
        Wall::new((9, -1), (9, 1), red()),
        Wall::new((7, -1), (7, 1), Rgb::new(0, 255, 0)),
    ];
    let r = cast_ray(&Point::from_int(0, 0), (1, 0), &walls, &cfg()).expect("no corner");
    let (q, idx) = r.expect("hit");
    assert_eq!(idx, 1);
    assert!(point_eq(&q, &Point::from_int(7, 0)));
}

#[test]
fn cast_skips_first_grazing_wall_silently() {
    let walls = vec![
        Wall::new((1, -10), (1, 10), red()),
        Wall::new((8, -10), (8, 10), Rgb::new(0, 255, 0)),
    ];
    let r = cast_ray(&Point::from_int(0, 0), (1, 0), &walls, &cfg()).expect("no corner");
    let (q, idx) = r.expect("hit");
    assert_eq!(idx, 1);
    assert!(point_eq(&q, &Point::from_int(8, 0)));
}

#[test]
fn cast_two_grazing_walls_is_ambiguous() {
    let walls = vec![
        Wall::new((1, -10), (1, 10), red()),
        Wall::new((2, -10), (2, 10), Rgb::new(0, 255, 0)),
        Wall::new((8, -10), (8, 10), Rgb::new(0, 0, 255)),
    ];
    let r = cast_ray(&Point::from_int(0, 0), (1, 0), &walls, &cfg());
    assert_eq!(r.unwrap_err(), CastError::AmbiguousCorner);
}

#[test]
fn rejects_point_beyond_far_endpoint() {
    let w = Wall::from_points((0, 0), (10, 0));
    assert!(w.rejects(&Point::from_int(15, 0)));
}

#[test]
fn rejects_point_behind_near_endpoint() {
    let w = Wall::from_points((0, 0), (10, 0));
    assert!(w.rejects(&Point::from_int(-3, 0)));
}

#[test]
fn accepts_points_between_endpoints() {
    let w = Wall::from_points((0, 0), (10, 0));
    assert!(!w.rejects(&Point::from_int(5, 0)));
    assert!(!w.rejects(&Point { xn: 1, yn: 0, den: 2 }));
    assert!(!w.rejects(&Point::from_int(0, 0)));
    assert!(!w.rejects(&Point::from_int(10, 0)));
}

#[test]
fn bounce_off_vertical_wall_flips_x() {
    let w = Wall::new((5, -1), (5, 1), red());
    assert_eq!(w.bounce((1, 0)), (-1, 0));
}

#[test]
fn bounce_off_horizontal_wall() {
    let w = Wall::from_points((0, 0), (10, 0));
    assert_eq!(w.bounce((3, 4)), (3, -4));
}

#[test]
fn bounce_twice_restores_direction() {
    let w = Wall::from_points((0, 0), (7, 3));
    let d = (2, -5);
    let r1 = w.bounce(d);
    let r2 = w.bounce(r1);
    assert_eq!(r2, (2, -5));
}

#[test]
fn mix_blends_two_thirds_toward_wall() {
    let c = mix_colors(Rgb::new(255, 255, 255), red());
    assert_eq!(c, Rgb::new(255, 85, 85));
    let c2 = mix_colors(Rgb::new(10, 20, 30), red());
    assert_eq!(c2, Rgb::new(173, 6, 10));
}

#[test]
fn default_wall_color_is_white() {
    let w = Wall::from_points((0, 0), (1, 1));
    assert_eq!(w.color, Rgb::new(255, 255, 255));
}

#[test]
fn point_eq_ignores_representation() {
    let a = Point { xn: 1, yn: 2, den: 2 };
    let b = Point { xn: 2, yn: 4, den: 4 };
    let c = Point { xn: 3, yn: 4, den: 4 };
    assert!(point_eq(&a, &b));
    assert!(!point_eq(&a, &c));
}

#[test]
fn trace_away_draws_one_full_length_segment() {
    let walls = vec![Wall::new((5, -1), (5, 1), red())];
    let segs = trace_ray((0, 0), (-1, 0), Rgb::new(10, 20, 30), &walls, 3, &cfg())
        .expect("no corner");
    assert_eq!(segs.len(), 1);
    assert!(point_eq(&segs[0].start, &Point::from_int(0, 0)));
    assert!(point_eq(&segs[0].end, &Point::from_int(-10000, 0)));
    assert_eq!(segs[0].color, Rgb::new(10, 20, 30));
}

#[test]
fn trace_budget_one_draws_single_segment() {
    let walls = vec![Wall::new((5, -1), (5, 1), red())];
    let segs = trace_ray((0, 0), (1, 0), Rgb::new(10, 20, 30), &walls, 1, &cfg())
        .expect("no corner");
    assert_eq!(segs.len(), 1);
    assert!(point_eq(&segs[0].start, &Point::from_int(0, 0)));
    assert!(point_eq(&segs[0].end, &Point::from_int(5, 0)));
    assert_eq!(segs[0].color, Rgb::new(10, 20, 30));
}

#[test]
fn trace_budget_two_bounces_once() {
    let walls = vec![Wall::new((5, -1), (5, 1), red())];
    let segs = trace_ray((0, 0), (1, 0), Rgb::new(10, 20, 30), &walls, 2, &cfg())
        .expect("no corner");
    assert_eq!(segs.len(), 2);
    assert!(point_eq(&segs[0].start, &Point::from_int(0, 0)));
    assert!(point_eq(&segs[0].end, &Point::from_int(5, 0)));
    assert_eq!(segs[0].color, Rgb::new(10, 20, 30));
    assert!(point_eq(&segs[1].start, &Point::from_int(5, 0)));
    assert!(point_eq(&segs[1].end, &Point::from_int(-9995, 0)));
    assert_eq!(segs[1].color, Rgb::new(173, 6, 10));
}

#[test]
fn trace_single_wall_escapes_after_bounce() {
    let walls = vec![Wall::new((5, -1), (5, 1), red())];
    let segs = trace_ray((0, 0), (1, 0), Rgb::new(10, 20, 30), &walls, 200, &cfg())
        .expect("no corner");
    assert_eq!(segs.len(), 2);
    assert!(point_eq(&segs[1].end, &Point::from_int(-9995, 0)));
}

#[test]
fn trace_between_two_mirrors() {
    let walls = vec![
        Wall::new((0, -10), (0, 10), red()),
        Wall::new((10, -10), (10, 10), Rgb::new(0, 0, 255)),
    ];
    let segs = trace_ray((2, 0), (1, 0), Rgb::new(255, 255, 255), &walls, 4, &cfg())
        .expect("no corner");
    assert_eq!(segs.len(), 4);
    assert!(point_eq(&segs[0].end, &Point::from_int(10, 0)));
    assert!(point_eq(&segs[1].end, &Point::from_int(0, 0)));
    assert!(point_eq(&segs[2].end, &Point::from_int(10, 0)));
    assert!(point_eq(&segs[3].end, &Point::from_int(0, 0)));
}

#[test]
fn trace_propagates_ambiguous_corner() {
    let walls = vec![
        Wall::new((1, -10), (1, 10), red()),
        Wall::new((2, -10), (2, 10), Rgb::new(0, 255, 0)),
    ];
    let r = trace_ray((0, 0), (1, 0), Rgb::new(255, 255, 255), &walls, 3, &cfg());
    assert_eq!(r.unwrap_err(), CastError::AmbiguousCorner);
}

#[test]
fn trace_empty_scene_escapes() {
    let walls: Vec<Wall> = Vec::new();
    let segs = trace_ray((3, 4), (0, 1), Rgb::new(1, 2, 3), &walls, 5, &cfg())
        .expect("no corner");
    assert_eq!(segs.len(), 1);
    assert!(point_eq(&segs[0].start, &Point::from_int(3, 4)));
    assert!(point_eq(&segs[0].end, &Point::from_int(3, 10004)));
}

#[test]
fn trace_zero_direction_stays_put() {
    let walls = vec![Wall::new((5, -1), (5, 1), red())];
    let segs = trace_ray((2, 2), (0, 0), Rgb::new(1, 2, 3), &walls, 3, &cfg())
        .expect("no corner");
    assert_eq!(segs.len(), 1);
    assert!(point_eq(&segs[0].start, &Point::from_int(2, 2)));
    assert!(point_eq(&segs[0].end, &Point::from_int(2, 2)));
}
