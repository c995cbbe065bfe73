use alloy_engine::cpu_drawer::CPUDrawer;
use alloy_engine::keyboard::{Key, KeyboardManager};
use alloy_engine::ordering::stable_order;

fn painted(frame: &[u8], w: usize, h: usize) -> Vec<(i32, i32)> {
    let mut v = Vec::new();
    for y in 0..h {
        for x in 0..w {
            let i = (y * w + x) * 4;
            if frame[i + 3] != 0 {
                v.push((x as i32, y as i32));
            }
        }
    }
    v
}

#[test]
fn line_reaches_both_ends_contiguously() {
    let ends = [(0, 0, 9, 4), (9, 4, 0, 0), (2, 9, 7, 0), (0, 3, 9, 7), (5, 0, 5, 9), (1, 1, 8, 8)];
    for (x0, y0, x1, y1) in ends {
        let mut frame = vec![0u8; 4 * 10 * 10];
        {
            let mut d = CPUDrawer::new(&mut frame, 10, 10);
            d.draw_line(x0, y0, x1, y1, [1, 1, 1, 255]);
        }
        let pts = painted(&frame, 10, 10);
        assert!(pts.contains(&(x0, y0)));
        assert!(pts.contains(&(x1, y1)));
        let dx = (x1 - x0).abs();
        let dy = (y1 - y0).abs();
        assert_eq!(pts.len() as i32, dx.max(dy) + 1);
        // Every painted pixel but the ends has a painted neighbour on each side of the chain.
        for &(x, y) in &pts {
            let neighbours = pts
                .iter()
                .filter(|&&(a, b)| (a, b) != (x, y) && (a - x).abs() <= 1 && (b - y).abs() <= 1)
                .count();
            assert!(neighbours >= 1);
        }
    }
}

#[test]
fn keyboard_events_stay_consistent() {
    let mut kb = KeyboardManager::new();
    let keys = [Key::A, Key::B, Key::A, Key::C];
    for (i, k) in keys.iter().enumerate() {
        if i % 2 == 0 {
            kb.register_press(*k);
        } else {
            kb.register_release(*k);
        }
        for k2 in [Key::A, Key::B, Key::C] {
            if kb.is_key_pressed(k2) {
                assert!(kb.is_key_down(k2) || kb.is_key_released(k2));
            }
        }
    }
    kb.begin_frame();
    assert!(kb.is_key_down(Key::A) && !kb.is_key_pressed(Key::A));
}

#[test]
fn press_then_release_restores_held_keys() {
    let mut kb = KeyboardManager::new();
    kb.register_press(Key::Z);
    kb.register_press(Key::Left);
    kb.register_release(Key::Left);
    assert!(kb.is_key_down(Key::Z));
    assert!(!kb.is_key_down(Key::Left));
    assert!(kb.is_key_pressed(Key::Left) && kb.is_key_released(Key::Left));
}

#[test]
fn stable_order_is_sorted_and_complete() {
    let keys = vec![4, -1, 4, 0, 7, -1];
    let all = vec![true; 6];
    let desc = stable_order(&keys, &all, true);
    assert_eq!(desc, vec![4, 0, 2, 3, 1, 5]);
    let asc = stable_order(&keys, &all, false);
    assert_eq!(asc, vec![1, 5, 3, 0, 2, 4]);
}

#[test]
fn filled_triangle_stays_within_vertex_rows() {
    let mut frame = vec![0u8; 4 * 8 * 8];
    {
        let mut d = CPUDrawer::new(&mut frame, 8, 8);
        d.draw_filled_triangle(6, 5, 1, 2, 4, 6, [1, 1, 1, 255]);
    }
    let pts = painted(&frame, 8, 8);
    assert!(!pts.is_empty());
    assert!(pts.iter().all(|&(_, y)| (2..=6).contains(&y)));
}

#[test]
fn keyboard_history_over_a_call_sequence() {
    // (call, key): 0 = press, 1 = release, 2 = begin_frame
    let calls = [
        (0, Key::A), (0, Key::B), (0, Key::A), (2, Key::A), (1, Key::B), (0, Key::C),
        (1, Key::C), (1, Key::C), (0, Key::B), (2, Key::A), (0, Key::A), (1, Key::A),
    ];
    let keys = [Key::A, Key::B, Key::C, Key::D];
    let mut m = KeyboardManager::new();
    for n in 0..calls.len() {
        let (call, key) = calls[n];
        match call {
            0 => m.register_press(key),
            1 => m.register_release(key),
            _ => m.begin_frame(),
        }
        let done = &calls[..=n];
        let start = done.iter().rposition(|c| c.0 == 2).map(|p| p + 1).unwrap_or(0);
        for k in keys {
            // Down exactly when the last press or release of k was a press.
            let last = done.iter().rev().find(|c| c.0 != 2 && c.1 == k).map(|c| c.0 == 0);
            assert_eq!(m.is_key_down(k), last == Some(true));
            // Pressed / released exactly when, in this frame, such a call found
            // the key up / down.
            let mut down = false;
            let mut pressed = false;
            let mut released = false;
            for (i, c) in done.iter().enumerate() {
                if c.1 == k && c.0 == 0 {
                    if !down && i >= start {
                        pressed = true;
                    }
                    down = true;
                } else if c.1 == k && c.0 == 1 {
                    if down && i >= start {
                        released = true;
                    }
                    down = false;
                }
            }
            assert_eq!(m.is_key_pressed(k), pressed);
            assert_eq!(m.is_key_released(k), released);
        }
    }
}

#[test]
fn line_pixels_are_depth_tested_as_a_set() {
    let mut frame = vec![0u8; 4 * 5 * 5];
    {
        let mut d = CPUDrawer::new(&mut frame, 5, 5);
        d.enable_depth_mode(true);
        d.set_current_depth_value(3);
        d.draw_line(0, 0, 4, 3, [1, 1, 1, 255]);
        d.set_current_depth_value(7);
        d.draw_line(0, 0, 4, 3, [2, 2, 2, 255]);
        d.set_current_depth_value(3);
        d.draw_line(0, 0, 4, 3, [3, 3, 3, 255]);
    }
    let pts = painted(&frame, 5, 5);
    assert_eq!(pts.len(), 5);
    for (x, y) in pts {
        let i = ((y * 5 + x) * 4) as usize;
        assert_eq!(&frame[i..i + 4], &[1, 1, 1, 255]);
    }
}
