use gis_view::canvas::{Canvas, Color};
use gis_view::draw::{draw_line, draw_point};
use gis_view::error::RenderError;
use gis_view::geometry::{clamp_pixel, Coord, Extent, Geometry, Viewport};
use gis_view::vector::{
    accent, background, draw_geometry, draw_linestring, draw_parts, draw_ring, render_vector,
    vector_dimensions, vector_max_dimension,
};

const INK: Color = Color { r: 1, g: 2, b: 3 };
const PAPER: Color = Color { r: 200, g: 200, b: 200 };

fn painted(c: &Canvas, ink: Color) -> Vec<(u32, u32)> {
    let mut out = Vec::new();
    for y in 0..c.height() {
        for x in 0..c.width() {
            if c.pixel(x, y) == Some(ink) {
                out.push((x, y));
            }
        }
    }
    out
}

fn unit_view(size: u32) -> Viewport {
    Viewport {
        extent: Extent { min_x: 0, min_y: 0, max_x: size as i64, max_y: size as i64 },
        width: size,
        height: size,
    }
}

#[test]
fn horizontal_line_sets_its_six_pixels() {
    let mut c = Canvas::filled(10, 10, PAPER).unwrap();
    draw_line(&mut c, 0, 0, 5, 0, INK);
    assert_eq!(painted(&c, INK), vec![(0, 0), (1, 0), (2, 0), (3, 0), (4, 0), (5, 0)]);
}

#[test]
fn line_outside_the_canvas_draws_nothing() {
    let mut c = Canvas::filled(10, 10, PAPER).unwrap();
    draw_line(&mut c, -20, -5, -1, -3, INK);
    draw_line(&mut c, 10, 0, 50, 9, INK);
    draw_line(&mut c, 0, 10, 9, 400, INK);
    draw_line(&mut c, 3, -1, 7, -90, INK);
    assert_eq!(painted(&c, INK), Vec::<(u32, u32)>::new());
    assert_eq!(painted(&c, PAPER).len(), 100);
}

#[test]
fn line_partly_outside_is_clipped_not_clamped() {
    let mut c = Canvas::filled(4, 4, PAPER).unwrap();
    draw_line(&mut c, -2, 1, 6, 1, INK);
    assert_eq!(painted(&c, INK), vec![(0, 1), (1, 1), (2, 1), (3, 1)]);
    let mut d = Canvas::filled(4, 4, PAPER).unwrap();
    draw_line(&mut d, -2, -2, 5, 5, INK);
    assert_eq!(painted(&d, INK), vec![(0, 0), (1, 1), (2, 2), (3, 3)]);
}

#[test]
fn line_of_one_point() {
    let mut c = Canvas::filled(3, 3, PAPER).unwrap();
    draw_line(&mut c, 1, 1, 1, 1, INK);
    assert_eq!(painted(&c, INK), vec![(1, 1)]);
}

#[test]
fn shallow_line_steps_at_the_nearest_row() {
    let mut c = Canvas::filled(8, 4, PAPER).unwrap();
    draw_line(&mut c, 0, 0, 6, 2, INK);
    assert_eq!(
        painted(&c, INK),
        vec![(0, 0), (1, 0), (2, 1), (3, 1), (4, 1), (5, 2), (6, 2)]
    );
}

#[test]
fn steep_line_steps_at_the_nearest_column() {
    let mut c = Canvas::filled(4, 8, PAPER).unwrap();
    draw_line(&mut c, 0, 0, 2, 6, INK);
    assert_eq!(
        painted(&c, INK),
        vec![(0, 0), (0, 1), (1, 2), (1, 3), (1, 4), (2, 5), (2, 6)]
    );
}

#[test]
fn line_drawn_backwards() {
    let mut c = Canvas::filled(8, 4, PAPER).unwrap();
    draw_line(&mut c, 6, 2, 0, 0, INK);
    assert_eq!(
        painted(&c, INK),
        vec![(0, 0), (1, 0), (2, 1), (3, 1), (4, 1), (5, 2), (6, 2)]
    );
    let mut d = Canvas::filled(4, 4, PAPER).unwrap();
    draw_line(&mut d, 0, 3, 3, 0, INK);
    assert_eq!(painted(&d, INK), vec![(3, 0), (2, 1), (1, 2), (0, 3)]);
}

#[test]
fn line_with_a_tie_on_every_other_step() {
    let mut c = Canvas::filled(6, 4, PAPER).unwrap();
    draw_line(&mut c, 0, 0, 4, 2, INK);
    assert_eq!(painted(&c, INK), vec![(0, 0), (1, 1), (2, 1), (3, 2), (4, 2)]);
}

#[test]
fn vertical_line() {
    let mut c = Canvas::filled(3, 5, PAPER).unwrap();
    draw_line(&mut c, 1, 4, 1, 1, INK);
    assert_eq!(painted(&c, INK), vec![(1, 1), (1, 2), (1, 3), (1, 4)]);
}

#[test]
fn line_near_the_edge_of_the_coordinate_range() {
    let mut c = Canvas::filled(3, 3, PAPER).unwrap();
    draw_line(&mut c, i32::MAX - 3, 1, i32::MAX, 1, INK);
    draw_line(&mut c, i32::MIN, i32::MIN, i32::MIN + 4, i32::MIN + 2, INK);
    assert_eq!(painted(&c, INK), Vec::<(u32, u32)>::new());
}

#[test]
fn point_marker_covers_nine_pixels() {
    let mut c = Canvas::filled(5, 5, PAPER).unwrap();
    draw_point(&mut c, 2, 2, INK);
    assert_eq!(
        painted(&c, INK),
        vec![(1, 1), (2, 1), (3, 1), (1, 2), (2, 2), (3, 2), (1, 3), (2, 3), (3, 3)]
    );
}

#[test]
fn point_marker_is_clipped_at_the_corner() {
    let mut c = Canvas::filled(5, 5, PAPER).unwrap();
    draw_point(&mut c, 0, 0, INK);
    assert_eq!(painted(&c, INK), vec![(0, 0), (1, 0), (0, 1), (1, 1)]);
    let mut d = Canvas::filled(5, 5, PAPER).unwrap();
    draw_point(&mut d, 5, 5, INK);
    assert_eq!(painted(&d, INK), vec![(4, 4)]);
    let mut e = Canvas::filled(5, 5, PAPER).unwrap();
    draw_point(&mut e, i32::MAX, i32::MIN, INK);
    draw_point(&mut e, -2, 7, INK);
    assert_eq!(painted(&e, INK), Vec::<(u32, u32)>::new());
}

#[test]
fn extent_minimum_maps_to_the_bottom_left() {
    let view = Viewport {
        extent: Extent { min_x: -500, min_y: 1000, max_x: 1500, max_y: 2000 },
        width: 200,
        height: 100,
    };
    assert_eq!(view.to_pixel(Coord { x: -500, y: 1000 }), (0, 100));
}

#[test]
fn extent_maximum_maps_to_the_top_right() {
    let view = Viewport {
        extent: Extent { min_x: -500, min_y: 1000, max_x: 1500, max_y: 2000 },
        width: 200,
        height: 100,
    };
    assert_eq!(view.to_pixel(Coord { x: 1500, y: 2000 }), (200, 0));
}

#[test]
fn positions_scale_and_flip() {
    let view = Viewport {
        extent: Extent { min_x: 0, min_y: 0, max_x: 1000, max_y: 1000 },
        width: 100,
        height: 50,
    };
    assert_eq!(view.to_pixel(Coord { x: 500, y: 500 }), (50, 25));
    assert_eq!(view.to_pixel(Coord { x: 999, y: 1 }), (99, 49));
    assert_eq!(view.to_pixel(Coord { x: 15, y: 990 }), (1, 0));
    // outside the extent, rounded towards zero
    assert_eq!(view.to_pixel(Coord { x: -15, y: -30 }), (-1, 51));
    assert_eq!(view.to_pixel(Coord { x: -5, y: 1030 }), (0, -1));
    assert_eq!(view.to_pixel(Coord { x: 0, y: 1010 }), (0, 0));
}

#[test]
fn far_positions_saturate() {
    let view = Viewport {
        extent: Extent { min_x: 0, min_y: 0, max_x: 1, max_y: 1 },
        width: 4_000_000_000,
        height: 4_000_000_000,
    };
    assert_eq!(view.to_pixel(Coord { x: i64::MAX, y: i64::MAX }), (i32::MAX, i32::MIN));
    assert_eq!(view.to_pixel(Coord { x: i64::MIN, y: i64::MIN }), (i32::MIN, i32::MAX));
    assert_eq!(view.to_pixel(Coord { x: 1, y: 1 }), (i32::MAX, 0));
    assert_eq!(clamp_pixel(i128::MAX), i32::MAX);
    assert_eq!(clamp_pixel(-7), -7);
}

#[test]
fn extent_validity() {
    assert!(Extent { min_x: 0, min_y: 0, max_x: 1, max_y: 1 }.is_valid());
    assert!(!Extent { min_x: 0, min_y: 0, max_x: 0, max_y: 1 }.is_valid());
    assert!(!Extent { min_x: 0, min_y: 5, max_x: 3, max_y: 1 }.is_valid());
}

#[test]
fn linestring_joins_consecutive_vertices() {
    let mut c = Canvas::filled(5, 5, PAPER).unwrap();
    let view = unit_view(5);
    // pixel rows are flipped: y = 5 is the top row
    let pts = vec![Coord { x: 0, y: 5 }, Coord { x: 3, y: 5 }, Coord { x: 3, y: 3 }];
    draw_linestring(&mut c, &pts, &view, INK);
    assert_eq!(painted(&c, INK), vec![(0, 0), (1, 0), (2, 0), (3, 0), (3, 1), (3, 2)]);
}

#[test]
fn short_linestrings_draw_nothing() {
    let mut c = Canvas::filled(5, 5, PAPER).unwrap();
    let view = unit_view(5);
    draw_linestring(&mut c, &vec![], &view, INK);
    draw_linestring(&mut c, &vec![Coord { x: 2, y: 2 }], &view, INK);
    draw_ring(&mut c, &vec![Coord { x: 2, y: 2 }], &view, INK);
    assert_eq!(painted(&c, INK), Vec::<(u32, u32)>::new());
}

#[test]
fn ring_is_closed() {
    let mut c = Canvas::filled(5, 5, PAPER).unwrap();
    let view = unit_view(5);
    let pts = vec![Coord { x: 1, y: 4 }, Coord { x: 3, y: 4 }, Coord { x: 3, y: 2 }, Coord { x: 1, y: 2 }];
    draw_ring(&mut c, &pts, &view, INK);
    assert_eq!(
        painted(&c, INK),
        vec![(1, 1), (2, 1), (3, 1), (1, 2), (3, 2), (1, 3), (2, 3), (3, 3)]
    );
}

#[test]
fn polygon_draws_its_exterior_ring_only() {
    let mut c = Canvas::filled(8, 8, PAPER).unwrap();
    let view = unit_view(8);
    let outer = vec![
        Coord { x: 0, y: 8 },
        Coord { x: 6, y: 8 },
        Coord { x: 6, y: 2 },
        Coord { x: 0, y: 2 },
        Coord { x: 0, y: 8 },
    ];
    let hole = vec![
        Coord { x: 2, y: 6 },
        Coord { x: 4, y: 6 },
        Coord { x: 4, y: 4 },
        Coord { x: 2, y: 4 },
        Coord { x: 2, y: 6 },
    ];
    draw_geometry(&mut c, &Geometry::Polygon(vec![outer, hole]), &view);
    let ink = painted(&c, accent());
    assert_eq!(ink.len(), 24);
    assert!(ink.iter().all(|(x, y)| *x == 0 || *x == 6 || *y == 0 || *y == 6));
    assert_eq!(c.pixel(2, 2), Some(PAPER));
    assert_eq!(c.pixel(3, 3), Some(PAPER));
    let mut d = Canvas::filled(8, 8, PAPER).unwrap();
    draw_geometry(&mut d, &Geometry::Polygon(vec![]), &view);
    assert_eq!(painted(&d, accent()), Vec::<(u32, u32)>::new());
}

#[test]
fn geometry_tree_is_walked_to_its_leaves() {
    let mut c = Canvas::filled(10, 10, PAPER).unwrap();
    let view = unit_view(10);
    let tree = Geometry::GeometryCollection(vec![
        Geometry::MultiPoint(vec![Geometry::Point(Coord { x: 1, y: 9 })]),
        Geometry::Other(vec![Geometry::MultiLineString(vec![Geometry::LineString(vec![
            Coord { x: 5, y: 5 },
            Coord { x: 8, y: 5 },
        ])])]),
        Geometry::MultiPolygon(vec![]),
        Geometry::Other(vec![]),
    ]);
    draw_geometry(&mut c, &tree, &view);
    assert_eq!(
        painted(&c, accent()),
        vec![
            (0, 0), (1, 0), (2, 0),
            (0, 1), (1, 1), (2, 1),
            (0, 2), (1, 2), (2, 2),
            (5, 5), (6, 5), (7, 5), (8, 5)
        ]
    );
}

#[test]
fn parts_are_drawn_in_turn() {
    let mut c = Canvas::filled(6, 6, PAPER).unwrap();
    let view = unit_view(6);
    let parts = vec![
        Geometry::Point(Coord { x: 0, y: 0 }),
        Geometry::LineString(vec![Coord { x: 2, y: 6 }, Coord { x: 4, y: 6 }]),
    ];
    draw_parts(&mut c, &parts, &view);
    assert_eq!(painted(&c, accent()), vec![(2, 0), (3, 0), (4, 0), (0, 5), (1, 5)]);
}

#[test]
fn vector_image_keeps_the_aspect_ratio() {
    let wide = Extent { min_x: 0, min_y: 0, max_x: 2000, max_y: 1000 };
    assert_eq!(vector_dimensions(&wide, 800), (800, 400));
    let tall = Extent { min_x: -10, min_y: -10, max_x: 20, max_y: 90 };
    assert_eq!(vector_dimensions(&tall, 1000), (300, 1000));
    let square = Extent { min_x: 5, min_y: 5, max_x: 6, max_y: 6 };
    assert_eq!(vector_dimensions(&square, 77), (77, 77));
    let thin = Extent { min_x: 0, min_y: 0, max_x: 3, max_y: 1000 };
    assert_eq!(vector_dimensions(&thin, 100), (0, 100));
    let widest = Extent { min_x: i64::MIN, min_y: 0, max_x: i64::MAX, max_y: 1 };
    assert_eq!(vector_dimensions(&widest, u32::MAX), (u32::MAX, 0));
}

#[test]
fn extent_without_area_gives_an_empty_image() {
    let flat = Extent { min_x: 0, min_y: 7, max_x: 10, max_y: 7 };
    assert_eq!(vector_dimensions(&flat, 50), (50, 0));
    let narrow = Extent { min_x: 3, min_y: 0, max_x: 3, max_y: 9 };
    assert_eq!(vector_dimensions(&narrow, 50), (0, 50));
    let c = render_vector(&vec![Geometry::Point(Coord { x: 3, y: 3 })], &narrow, 50).unwrap();
    assert_eq!((c.width(), c.height()), (0, 50));
    assert_eq!(c.to_rgb(), Vec::<u8>::new());
}

#[test]
fn vector_max_dimension_prefers_a_smaller_limit() {
    assert_eq!(vector_max_dimension(0, 1920), 1920);
    assert_eq!(vector_max_dimension(800, 1920), 800);
    assert_eq!(vector_max_dimension(4000, 1920), 1920);
    assert_eq!(vector_max_dimension(1920, 1920), 1920);
}

#[test]
fn layer_is_rendered_on_the_background() {
    let extent = Extent { min_x: 0, min_y: 0, max_x: 100, max_y: 50 };
    let features = vec![
        Geometry::LineString(vec![Coord { x: 0, y: 50 }, Coord { x: 50, y: 50 }]),
        Geometry::Point(Coord { x: 100, y: 0 }),
    ];
    let c = render_vector(&features, &extent, 10).unwrap();
    assert_eq!((c.width(), c.height()), (10, 5));
    assert_eq!(
        painted(&c, accent()),
        vec![(0, 0), (1, 0), (2, 0), (3, 0), (4, 0), (5, 0), (9, 4)]
    );
    assert_eq!(painted(&c, background()).len(), 50 - 7);
    assert_eq!(accent(), Color { r: 100, g: 200, b: 255 });
    assert_eq!(background(), Color { r: 20, g: 20, b: 30 });
}

#[test]
fn layer_too_large_to_hold_is_refused() {
    let extent = Extent { min_x: 0, min_y: 0, max_x: 1, max_y: 1 };
    assert!(matches!(render_vector(&vec![], &extent, u32::MAX), Err(RenderError::ImageTooLarge)));
}

#[test]
fn points_at_the_extent_corners_are_clipped_to_the_image() {
    let extent = Extent { min_x: 0, min_y: 0, max_x: 60, max_y: 60 };
    let features = vec![
        Geometry::Point(Coord { x: 0, y: 0 }),
        Geometry::Point(Coord { x: 60, y: 60 }),
    ];
    let c = render_vector(&features, &extent, 6).unwrap();
    assert_eq!((c.width(), c.height()), (6, 6));
    // (0, 6) is below the bottom-left corner and (6, 0) right of the top-right one
    assert_eq!(painted(&c, accent()), vec![(5, 0), (5, 1), (0, 5), (1, 5)]);
}
