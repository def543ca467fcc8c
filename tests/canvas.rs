use rusty_ray::{canvas, Canvas, Rgb};

type Color = (f32, f32, f32);

const BLACK: Color = (0.0, 0.0, 0.0);

fn channel(part: f32) -> u8 {
    let n = if part > 1.0 {
        1.0
    } else if part < 0.0 {
        0.0
    } else {
        part
    };
    (n * 255.0).round() as u8
}

fn encode(c: &Canvas<Color>) -> Canvas<Rgb> {
    let pixels: Vec<Rgb> = c
        .pixels
        .iter()
        .map(|p| Rgb { r: channel(p.0), g: channel(p.1), b: channel(p.2) })
        .collect();
    Canvas::new(c.width, c.height, pixels)
}

fn ppm_of(c: &Canvas<Color>) -> String {
    encode(c).to_ppm()
}

fn creating_a_canvas() {
    let c = canvas(10, 20, BLACK);

    assert_eq!(c.width, 10);
    assert_eq!(c.height, 20);
    assert!(c.pixels.iter().all(|&pixel| pixel == (0.0, 0.0, 0.0)));
}

fn writing_pixels_to_canvas() {
    let mut c = canvas(10, 20, BLACK);
    let red = (1.0, 0.0, 0.0);

    c.write_pixel(2, 3, red);

    assert_eq!(c.pixel_at(2, 3), red);
}

fn construct_ppm_header() {
    let c = canvas(5, 3, BLACK);
    let ppm = ppm_of(&c);
    let header: Vec<&str> = ppm.lines().take(3).collect();

    assert_eq!("P3", header[0]);
    assert_eq!("5 3", header[1]);
    assert_eq!("255", header[2]);
}

fn construct_ppm_pixel_data() {
    let mut c = canvas(5, 3, BLACK);
    let c1 = (1.5, 0.0, 0.0);
    let c2 = (0.0, 0.5, 0.0);
    let c3 = (-0.5, 0.0, 1.0);

    c.write_pixel(0, 0, c1);
    c.write_pixel(2, 1, c2);
    c.write_pixel(4, 2, c3);

    let ppm = ppm_of(&c);
    let body: Vec<&str> = ppm.lines().skip(3).take(3).collect();

    assert_eq!("255 0 0 0 0 0 0 0 0 0 0 0 0 0 0", body[0]);
    assert_eq!("0 0 0 0 0 0 0 128 0 0 0 0 0 0 0", body[1]);
    assert_eq!("0 0 0 0 0 0 0 0 0 0 0 0 0 0 255", body[2]);
}

fn split_long_lines_in_ppm_files() {
    let mut c = canvas(10, 2, BLACK);
    let color = (1.0, 0.8, 0.6);
    for y in 0..c.height {
        for x in 0..c.width {
            c.write_pixel(x, y, color)
        }
    }
    let ppm = ppm_of(&c);
    let body: Vec<&str> = ppm.lines().skip(3).take(4).collect();

    assert_eq!("255 204 153 255 204 153 255 204 153 255 204 153 255 204 153 255 204", body[0]);
    assert_eq!("153 255 204 153 255 204 153 255 204 153 255 204 153", body[1]);
    assert_eq!("255 204 153 255 204 153 255 204 153 255 204 153 255 204 153 255 204", body[2]);
    assert_eq!("153 255 204 153 255 204 153 255 204 153 255 204 153", body[3]);
}

fn ppm_files_terminate_with_newline() {
    let c = canvas(5, 3, BLACK);
    let ppm = ppm_of(&c);

    assert!(ppm.ends_with("\n"));
}

#[test]
fn canvas_creating_a_canvas() {
    creating_a_canvas();
}

#[test]
fn canvas_writing_pixels_to_canvas() {
    writing_pixels_to_canvas();
}

#[test]
fn canvas_construct_ppm_header() {
    construct_ppm_header();
}

#[test]
fn canvas_construct_ppm_pixel_data() {
    construct_ppm_pixel_data();
}

#[test]
fn canvas_split_long_lines_in_ppm_files() {
    split_long_lines_in_ppm_files();
}

#[test]
fn canvas_ppm_files_terminate_with_newline() {
    ppm_files_terminate_with_newline();
}

#[test]
fn lib_creating_a_canvas() {
    creating_a_canvas();
}

#[test]
fn lib_writing_pixels_to_canvas() {
    writing_pixels_to_canvas();
}

#[test]
fn lib_construct_ppm_header() {
    construct_ppm_header();
}

#[test]
fn lib_construct_ppm_pixel_data() {
    construct_ppm_pixel_data();
}

#[test]
fn lib_split_long_lines_in_ppm_files() {
    split_long_lines_in_ppm_files();
}

#[test]
fn lib_ppm_files_terminate_with_newline() {
    ppm_files_terminate_with_newline();
}

#[test]
fn mod_creating_a_canvas() {
    creating_a_canvas();
}

#[test]
fn mod_writing_pixels_to_canvas() {
    writing_pixels_to_canvas();
}

#[test]
fn mod_construct_ppm_header() {
    construct_ppm_header();
}

#[test]
fn mod_construct_ppm_pixel_data() {
    construct_ppm_pixel_data();
}

#[test]
fn mod_split_long_lines_in_ppm_files() {
    split_long_lines_in_ppm_files();
}

// Clamping happens when the canvas is serialised; the stored colour keeps its
// over-range channel.
#[test]
fn over_range_channel_is_kept_until_serialised() {
    let mut c = canvas(5, 3, BLACK);
    c.write_pixel(0, 0, (1.5, 0.0, 0.0));

    assert_eq!(c.pixel_at(0, 0), (1.5, 0.0, 0.0));
    let ppm = ppm_of(&c);
    let row0 = ppm.lines().nth(3).unwrap();
    assert!(row0.starts_with("255 0 0 0 0 0 "));
}

#[test]
fn fully_painted_rows_split_into_two_lines_each() {
    let c = canvas(10, 2, (1.0, 0.8, 0.6));
    let ppm = ppm_of(&c);
    let body: Vec<&str> = ppm.lines().skip(3).collect();

    assert_eq!(body.len(), 4);
    for line in &body {
        assert!(line.len() <= 70);
        assert!(!line.starts_with(' ') && !line.ends_with(' '));
    }
    assert_eq!(format!("{} {}", body[0], body[1]), "255 204 153 ".repeat(10).trim_end());
}

#[test]
fn write_pixel_keeps_other_pixels() {
    let mut c = canvas(3, 2, Rgb { r: 1, g: 2, b: 3 });
    c.write_pixel(2, 1, Rgb { r: 9, g: 8, b: 7 });

    assert_eq!(c.pixels[5], Rgb { r: 9, g: 8, b: 7 });
    for i in 0..5 {
        assert_eq!(c.pixels[i], Rgb { r: 1, g: 2, b: 3 });
    }
    assert_eq!(c.pixel_at(0, 1), Rgb { r: 1, g: 2, b: 3 });
}

#[test]
fn new_keeps_row_major_order() {
    let pixels: Vec<u32> = (0..6).collect();
    let c = Canvas::new(3, 2, pixels);

    assert_eq!(c.pixel_at(0, 0), 0);
    assert_eq!(c.pixel_at(2, 0), 2);
    assert_eq!(c.pixel_at(0, 1), 3);
    assert_eq!(c.pixel_at(2, 1), 5);
}
