use alloy_engine::cpu_drawer::{edge_x, CPUDrawer, FAR_DEPTH};

const RED: [u8; 4] = [255, 0, 0, 255];
const GREEN: [u8; 4] = [0, 255, 0, 255];
const BLUE: [u8; 4] = [0, 0, 255, 255];

fn px(frame: &[u8], w: usize, x: usize, y: usize) -> [u8; 4] {
    let i = (y * w + x) * 4;
    [frame[i], frame[i + 1], frame[i + 2], frame[i + 3]]
}

fn painted(frame: &[u8], w: usize, h: usize, color: [u8; 4]) -> Vec<(usize, usize)> {
    let mut v = Vec::new();
    for y in 0..h {
        for x in 0..w {
            if px(frame, w, x, y) == color {
                v.push((x, y));
            }
        }
    }
    v
}

#[test]
fn new_drawer_reports_its_size() {
    let mut frame = vec![0u8; 4 * 6 * 3];
    let d = CPUDrawer::new(&mut frame, 6, 3);
    assert_eq!(d.width(), 6);
    assert_eq!(d.height(), 3);
    assert!(!d.depth_enabled);
    assert_eq!(d.current_depth, FAR_DEPTH);
}

#[test]
fn clear_fills_every_pixel() {
    let mut frame = vec![7u8; 4 * 3 * 2];
    {
        let mut d = CPUDrawer::new(&mut frame, 3, 2);
        d.clear([20, 20, 35, 255]);
    }
    for chunk in frame.chunks(4) {
        assert_eq!(chunk, &[20, 20, 35, 255]);
    }
}

#[test]
fn draw_pixel_sets_one_pixel() {
    let mut frame = vec![0u8; 4 * 4 * 4];
    {
        let mut d = CPUDrawer::new(&mut frame, 4, 4);
        d.draw_pixel(2, 1, RED);
    }
    assert_eq!(painted(&frame, 4, 4, RED), vec![(2, 1)]);
    assert_eq!(&frame[(1 * 4 + 2) * 4..(1 * 4 + 2) * 4 + 4], &RED);
}

#[test]
fn draw_pixel_off_canvas_is_discarded() {
    let mut frame = vec![0u8; 4 * 4 * 4];
    {
        let mut d = CPUDrawer::new(&mut frame, 4, 4);
        d.draw_pixel(-1, 0, RED);
        d.draw_pixel(0, -1, RED);
        d.draw_pixel(4, 0, RED);
        d.draw_pixel(0, 4, RED);
    }
    assert!(frame.iter().all(|b| *b == 0));
}

#[test]
fn depth_test_keeps_nearest() {
    let mut frame = vec![0u8; 4 * 2 * 2];
    {
        let mut d = CPUDrawer::new(&mut frame, 2, 2);
        d.enable_depth_mode(true);
        assert_eq!(d.depth_buffer.as_ref().map(|b| b.len()), Some(4));
        d.set_current_depth_value(10);
        d.draw_pixel(0, 0, RED);
        // Farther: rejected.
        d.set_current_depth_value(20);
        d.draw_pixel(0, 0, GREEN);
        // Equal: rejected too.
        d.set_current_depth_value(10);
        d.draw_pixel(0, 0, GREEN);
        // Nearer: accepted.
        d.set_current_depth_value(5);
        d.draw_pixel(1, 1, BLUE);
        d.draw_pixel(0, 0, BLUE);
        assert_eq!(d.depth_buffer.as_ref().unwrap()[0], 5);
        assert_eq!(d.depth_buffer.as_ref().unwrap()[1], FAR_DEPTH);
    }
    assert_eq!(px(&frame, 2, 0, 0), BLUE);
    assert_eq!(px(&frame, 2, 1, 1), BLUE);
    assert_eq!(px(&frame, 2, 1, 0), [0, 0, 0, 0]);
}

#[test]
fn depth_order_independent() {
    let mut a = vec![0u8; 4];
    let mut b = vec![0u8; 4];
    {
        let mut d = CPUDrawer::new(&mut a, 1, 1);
        d.enable_depth_mode(true);
        d.set_current_depth_value(3);
        d.draw_pixel(0, 0, RED);
        d.set_current_depth_value(9);
        d.draw_pixel(0, 0, GREEN);
    }
    {
        let mut d = CPUDrawer::new(&mut b, 1, 1);
        d.enable_depth_mode(true);
        d.set_current_depth_value(9);
        d.draw_pixel(0, 0, GREEN);
        d.set_current_depth_value(3);
        d.draw_pixel(0, 0, RED);
    }
    assert_eq!(a, b);
    assert_eq!(a, RED.to_vec());
}

#[test]
fn clear_resets_depth_buffer() {
    let mut frame = vec![0u8; 4 * 2];
    let mut d = CPUDrawer::new(&mut frame, 2, 1);
    d.enable_depth_mode(true);
    d.set_current_depth_value(1);
    d.draw_pixel(0, 0, RED);
    assert_eq!(d.depth_buffer.as_ref().unwrap()[0], 1);
    d.clear([0, 0, 0, 255]);
    assert_eq!(d.depth_buffer.as_ref().unwrap(), &vec![FAR_DEPTH, FAR_DEPTH]);
    d.set_current_depth_value(1);
    d.draw_pixel(0, 0, RED);
    d.clear_depth_buffer();
    assert_eq!(d.depth_buffer.as_ref().unwrap(), &vec![FAR_DEPTH, FAR_DEPTH]);
}

#[test]
fn disabling_depth_keeps_buffer_but_stops_testing() {
    let mut frame = vec![0u8; 4];
    {
        let mut d = CPUDrawer::new(&mut frame, 1, 1);
        d.enable_depth_mode(true);
        d.set_current_depth_value(1);
        d.draw_pixel(0, 0, RED);
        d.enable_depth_mode(false);
        assert!(d.depth_buffer.is_some());
        d.set_current_depth_value(100);
        d.draw_pixel(0, 0, GREEN);
        assert_eq!(d.depth_buffer.as_ref().unwrap()[0], 1);
    }
    assert_eq!(frame, GREEN.to_vec());
}

#[test]
fn draw_rect_fills_clipped_rectangle() {
    let mut frame = vec![0u8; 4 * 5 * 4];
    {
        let mut d = CPUDrawer::new(&mut frame, 5, 4);
        d.draw_rect(3, 2, 4, 5, RED);
    }
    assert_eq!(painted(&frame, 5, 4, RED), vec![(3, 2), (4, 2), (3, 3), (4, 3)]);
}

#[test]
fn draw_rect_negative_corner_and_empty() {
    let mut frame = vec![0u8; 4 * 3 * 3];
    {
        let mut d = CPUDrawer::new(&mut frame, 3, 3);
        d.draw_rect(-1, -1, 2, 2, RED);
        d.draw_rect(1, 1, 0, 3, GREEN);
    }
    assert_eq!(painted(&frame, 3, 3, RED), vec![(0, 0)]);
    assert!(painted(&frame, 3, 3, GREEN).is_empty());
}

#[test]
fn draw_line_horizontal_clipped() {
    let mut frame = vec![0u8; 4 * 4 * 2];
    {
        let mut d = CPUDrawer::new(&mut frame, 4, 2);
        d.draw_line(6, 1, -3, 1, RED);
    }
    assert_eq!(painted(&frame, 4, 2, RED), vec![(0, 1), (1, 1), (2, 1), (3, 1)]);
}

#[test]
fn draw_line_horizontal_keeps_nearer_pixel() {
    let mut frame = vec![0u8; 4 * 2 * 2];
    {
        let mut d = CPUDrawer::new(&mut frame, 2, 2);
        d.enable_depth_mode(true);
        d.set_current_depth_value(1);
        d.draw_pixel(0, 0, [1, 1, 1, 1]);
        d.set_current_depth_value(5);
        d.draw_line(0, 0, 1, 0, [2, 2, 2, 2]);
    }
    assert_eq!(&frame[0..4], &[1, 1, 1, 1]);
    assert_eq!(&frame[4..8], &[2, 2, 2, 2]);
    assert_eq!(&frame[8..16], &[0; 8]);
}

#[test]
fn draw_line_horizontal_records_depth() {
    let mut frame = vec![0u8; 4 * 3];
    {
        let mut d = CPUDrawer::new(&mut frame, 3, 1);
        d.enable_depth_mode(true);
        d.set_current_depth_value(4);
        d.draw_line(0, 0, 2, 0, RED);
        d.set_current_depth_value(6);
        d.draw_pixel(1, 0, GREEN);
        d.set_current_depth_value(2);
        d.draw_pixel(2, 0, BLUE);
    }
    assert_eq!(px(&frame, 3, 0, 0), RED);
    assert_eq!(px(&frame, 3, 1, 0), RED);
    assert_eq!(px(&frame, 3, 2, 0), BLUE);
}

#[test]
fn draw_line_bresenham_points() {
    let mut frame = vec![0u8; 4 * 4 * 2];
    {
        let mut d = CPUDrawer::new(&mut frame, 4, 2);
        d.draw_line(0, 0, 3, 1, RED);
    }
    assert_eq!(painted(&frame, 4, 2, RED), vec![(0, 0), (1, 0), (2, 1), (3, 1)]);
}

#[test]
fn draw_line_vertical_and_steep() {
    let mut frame = vec![0u8; 4 * 3 * 4];
    {
        let mut d = CPUDrawer::new(&mut frame, 3, 4);
        d.draw_line(2, 3, 2, 0, RED);
        d.draw_line(0, 0, 1, 3, GREEN);
    }
    assert_eq!(painted(&frame, 3, 4, RED), vec![(2, 0), (2, 1), (2, 2), (2, 3)]);
    assert_eq!(painted(&frame, 3, 4, GREEN), vec![(0, 0), (0, 1), (1, 2), (1, 3)]);
}

#[test]
fn draw_line_partly_off_canvas() {
    let mut frame = vec![0u8; 4 * 3 * 3];
    {
        let mut d = CPUDrawer::new(&mut frame, 3, 3);
        d.draw_line(-2, -2, 2, 2, RED);
    }
    assert_eq!(painted(&frame, 3, 3, RED), vec![(0, 0), (1, 1), (2, 2)]);
}

#[test]
fn draw_line_with_extreme_coordinates_terminates() {
    let mut frame = vec![0u8; 4 * 2 * 2];
    {
        let mut d = CPUDrawer::new(&mut frame, 2, 2);
        d.draw_line(0, 0, 1, 1, RED);
        d.draw_line(i32::MIN, 0, i32::MIN + 3, 5, GREEN);
    }
    assert_eq!(painted(&frame, 2, 2, RED), vec![(0, 0), (1, 1)]);
    assert!(painted(&frame, 2, 2, GREEN).is_empty());
}

#[test]
fn draw_triangle_outline() {
    let mut frame = vec![0u8; 4 * 4 * 4];
    {
        let mut d = CPUDrawer::new(&mut frame, 4, 4);
        d.draw_triangle(0, 0, 3, 0, 0, 3, RED);
    }
    assert_eq!(
        painted(&frame, 4, 4, RED),
        vec![(0, 0), (1, 0), (2, 0), (3, 0), (0, 1), (2, 1), (0, 2), (1, 2), (0, 3)]
    );
}

#[test]
fn edge_interpolation_rounds_toward_zero() {
    assert_eq!(edge_x(2, 4, 0, 0, 4), 2);
    assert_eq!(edge_x(1, 0, 0, 3, 2), 1);
    assert_eq!(edge_x(1, 0, 0, -3, 2), -1);
    assert_eq!(edge_x(5, 7, 3, 9, 3), 7);
    assert_eq!(edge_x(2, i32::MAX, 0, i32::MIN, 1), i32::MIN);
}

#[test]
fn filled_triangle_rows() {
    let mut frame = vec![0u8; 4 * 5 * 5];
    {
        let mut d = CPUDrawer::new(&mut frame, 5, 5);
        d.draw_filled_triangle(0, 0, 4, 0, 0, 4, RED);
    }
    let expected = vec![
        (0, 0), (1, 0), (2, 0), (3, 0), (4, 0),
        (0, 1), (1, 1), (2, 1), (3, 1),
        (0, 2), (1, 2), (2, 2),
        (0, 3), (1, 3),
        (0, 4),
    ];
    assert_eq!(painted(&frame, 5, 5, RED), expected);
}

#[test]
fn flat_top_triangle_fills_its_top_row() {
    let mut f = [0u8; 64];
    {
        let mut d = CPUDrawer::new(&mut f, 4, 4);
        d.draw_filled_triangle(0, 0, 3, 0, 0, 3, [9, 9, 9, 9]);
    }
    for y in 0..4usize {
        for x in 0..4usize {
            let expected = if x + y <= 3 { [9, 9, 9, 9] } else { [0, 0, 0, 0] };
            assert_eq!(px(&f, 4, x, y), expected, "pixel ({}, {})", x, y);
        }
    }
}

#[test]
fn flat_top_triangle_any_vertex_order() {
    let orders = [
        (0, 0, 3, 0, 0, 3),
        (3, 0, 0, 0, 0, 3),
        (0, 3, 3, 0, 0, 0),
        (0, 3, 0, 0, 3, 0),
    ];
    let mut first: Option<Vec<u8>> = None;
    for (x0, y0, x1, y1, x2, y2) in orders {
        let mut f = vec![0u8; 64];
        {
            let mut d = CPUDrawer::new(&mut f, 4, 4);
            d.draw_filled_triangle(x0, y0, x1, y1, x2, y2, RED);
        }
        match &first {
            None => first = Some(f),
            Some(g) => assert_eq!(&f, g),
        }
    }
}

#[test]
fn filled_triangle_depth_tested() {
    let mut f = vec![0u8; 4 * 4 * 4];
    {
        let mut d = CPUDrawer::new(&mut f, 4, 4);
        d.enable_depth_mode(true);
        d.set_current_depth_value(1);
        d.draw_pixel(1, 1, GREEN);
        d.set_current_depth_value(3);
        d.draw_filled_triangle(0, 0, 3, 0, 0, 3, RED);
    }
    assert_eq!(px(&f, 4, 1, 1), GREEN);
    assert_eq!(px(&f, 4, 0, 0), RED);
    assert_eq!(px(&f, 4, 2, 1), RED);
}

#[test]
fn wide_canvas_draws() {
    let w: u32 = 70_000;
    let mut f = vec![0u8; 4 * w as usize];
    {
        let mut d = CPUDrawer::new(&mut f, w, 1);
        d.draw_line(-5, 0, 3, 0, RED);
        d.draw_rect(69_998, 0, 10, 1, GREEN);
    }
    assert_eq!(painted(&f, w as usize, 1, RED), vec![(0, 0), (1, 0), (2, 0), (3, 0)]);
    assert_eq!(painted(&f, w as usize, 1, GREEN), vec![(69_998, 0), (69_999, 0)]);
}

#[test]
fn filled_triangle_vertex_order_sorted_by_y() {
    let mut a = vec![0u8; 4 * 6 * 6];
    let mut b = vec![0u8; 4 * 6 * 6];
    {
        let mut d = CPUDrawer::new(&mut a, 6, 6);
        d.draw_filled_triangle(1, 0, 5, 3, 0, 5, RED);
    }
    {
        let mut d = CPUDrawer::new(&mut b, 6, 6);
        d.draw_filled_triangle(0, 5, 1, 0, 5, 3, RED);
    }
    assert_eq!(a, b);
    assert!(painted(&a, 6, 6, RED).contains(&(1, 0)));
    assert!(painted(&a, 6, 6, RED).contains(&(0, 5)));
    assert!(painted(&a, 6, 6, RED).contains(&(5, 3)));
}

#[test]
fn degenerate_flat_triangle_draws_nothing() {
    let mut frame = vec![0u8; 4 * 4 * 4];
    {
        let mut d = CPUDrawer::new(&mut frame, 4, 4);
        d.draw_filled_triangle(0, 2, 3, 2, 1, 2, RED);
        d.draw_filled_triangle(0, -5, 3, -4, 1, -1, RED);
    }
    assert!(frame.iter().all(|b| *b == 0));
}

#[test]
fn longer_frame_keeps_extra_bytes() {
    let mut frame = vec![9u8; 4 * 2 + 3];
    {
        let mut d = CPUDrawer::new(&mut frame, 2, 1);
        d.clear(RED);
    }
    assert_eq!(&frame[0..8], &[255, 0, 0, 255, 255, 0, 0, 255]);
    assert_eq!(&frame[8..11], &[9, 9, 9]);
}

#[test]
fn canvas_wider_than_i32_accepted() {
    let mut f: Vec<u8> = Vec::new();
    let mut d = CPUDrawer::new(&mut f, 2_147_483_649, 0);
    assert_eq!(d.width(), 2_147_483_649);
    d.draw_pixel(5, 0, RED);
    d.draw_line(0, 0, 9, 0, RED);
    d.draw_rect(0, 0, 3, 3, RED);
    d.draw_filled_triangle(0, 0, 4, 0, 0, 4, RED);
    d.clear(RED);
}
