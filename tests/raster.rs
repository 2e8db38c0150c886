use audio_visualizer::raster::{Renderer, AMPLITUDE_FLOOR, BACKGROUND, FOREGROUND, FULL_SCALE};

fn lit_rows(buf: &[u32], w: usize, h: usize, x: usize) -> Vec<usize> {
    (0..h).filter(|&y| buf[y * w + x] == FOREGROUND).collect()
}

#[test]
fn new_grid_is_background() {
    let r = Renderer::new(7, 5);
    assert_eq!(r.get_buffer().len(), 35);
    assert!(r.get_buffer().iter().all(|&p| p == BACKGROUND));
}

#[test]
fn empty_batch_lights_centre_row() {
    for &(w, h) in &[(1usize, 1usize), (4, 3), (5, 6), (800, 600)] {
        let mut r = Renderer::new(w, h);
        r.update(&[]);
        let buf = r.get_buffer();
        assert_eq!(buf.len(), w * h);
        for y in 0..h {
            for x in 0..w {
                let want = if y == h / 2 { FOREGROUND } else { BACKGROUND };
                assert_eq!(buf[y * w + x], want);
            }
        }
    }
}

#[test]
fn zeros_draw_the_same_line_as_an_empty_batch() {
    let (w, h) = (6usize, 9usize);
    let mut idle = Renderer::new(w, h);
    idle.update(&[]);
    let mut silent = Renderer::new(w, h);
    silent.update(&vec![0; w]);
    assert_eq!(silent.get_buffer(), idle.get_buffer());
    silent.update(&vec![0; w + 3]);
    assert_eq!(silent.get_buffer(), idle.get_buffer());
}

#[test]
fn full_scale_pair_hits_both_edges() {
    let mut r = Renderer::new(2, 100);
    r.update(&[FULL_SCALE, -FULL_SCALE]);
    let buf = r.get_buffer();
    // a positive sample maps below the centre: 1.0 * 50 + 50 = 100, clamped to 99
    assert_eq!(buf[99 * 2], FOREGROUND);
    // -1.0 * 50 + 50 = 0: the top row
    assert_eq!(buf[1], FOREGROUND);
    assert_eq!(buf.iter().filter(|&&p| p == FOREGROUND).count(), 2);
}

#[test]
fn rows_are_rounded_and_short_batches_leave_columns_dark() {
    let mut r = Renderer::new(4, 10);
    r.update(&[250_000, -FULL_SCALE, 500_000]);
    let buf = r.get_buffer();
    // peak 1.0, scale 5: 1.25 + 5 rounds to 6, -5 + 5 is 0, 2.5 + 5 rounds to 8
    assert_eq!(lit_rows(buf, 4, 10, 0), vec![6]);
    assert_eq!(lit_rows(buf, 4, 10, 1), vec![0]);
    assert_eq!(lit_rows(buf, 4, 10, 2), vec![8]);
    assert_eq!(lit_rows(buf, 4, 10, 3), Vec::<usize>::new());
}

#[test]
fn quiet_batch_is_scaled_by_the_amplitude_floor() {
    let mut r = Renderer::new(3, 100);
    // 0.0005, -0.0002 and 0.00001 of full scale: normalised by 0.001, not by their peak
    r.update(&[500, -200, 10]);
    let buf = r.get_buffer();
    assert_eq!(AMPLITUDE_FLOOR, 1_000);
    assert_eq!(lit_rows(buf, 3, 100, 0), vec![75]);
    assert_eq!(lit_rows(buf, 3, 100, 1), vec![40]);
    assert_eq!(lit_rows(buf, 3, 100, 2), vec![51]);
}

#[test]
fn rendering_twice_gives_the_same_grid() {
    let batch = vec![120_000, -340_000, 999_999, 0, -1, 77_777];
    let mut r = Renderer::new(5, 8);
    r.update(&batch);
    let first = r.get_buffer().to_vec();
    r.update(&batch);
    assert_eq!(r.get_buffer(), &first[..]);
    let mut other = Renderer::new(5, 8);
    other.update(&[FULL_SCALE; 5]);
    other.update(&batch);
    assert_eq!(other.get_buffer(), &first[..]);
}

#[test]
fn samples_past_the_width_are_not_drawn() {
    let w = 4usize;
    let h = 20usize;
    let batch: Vec<i32> = vec![FULL_SCALE, -FULL_SCALE, 0, 500_000, 300_000, -200_000, 0, 100_000, -FULL_SCALE];
    assert_eq!(batch.len(), w + 5);
    let mut r = Renderer::new(w, h);
    r.update(&batch);
    let buf = r.get_buffer();
    assert_eq!(buf.len(), w * h);
    for x in 0..w {
        assert_eq!(lit_rows(buf, w, h, x).len(), 1);
    }
    let mut first_w = Renderer::new(w, h);
    first_w.update(&batch[..w]);
    assert_eq!(first_w.get_buffer(), buf);
}

#[test]
fn zero_width_grid_draws_nothing() {
    let mut r = Renderer::new(0, 4);
    r.update(&[1, 2, 3]);
    assert!(r.get_buffer().is_empty());
    r.update(&[]);
    assert!(r.get_buffer().is_empty());
}

#[test]
fn odd_height_scales_by_the_real_half_height() {
    let mut r = Renderer::new(2, 9);
    // peak 0.02, scale 4.5 / 0.02: 0.02 maps to 4.5 + 4 = 8.5, rounded to 9 and
    // clamped to 8; 0.007 maps to round(1.575) + 4 = 6
    r.update(&[20_000, 7_000]);
    let buf = r.get_buffer();
    assert_eq!(lit_rows(buf, 2, 9, 0), vec![8]);
    assert_eq!(lit_rows(buf, 2, 9, 1), vec![6]);
}

#[test]
fn odd_height_zeros_stay_on_the_centre_row() {
    let mut r = Renderer::new(3, 7);
    r.update(&[0, 0, 0]);
    let buf = r.get_buffer();
    for x in 0..3 {
        assert_eq!(lit_rows(buf, 3, 7, x), vec![3]);
    }
}
