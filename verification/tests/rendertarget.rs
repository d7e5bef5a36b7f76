use rain2d::color::{white, Color};
use rain2d::rendertarget::RenderTarget;

#[test]
fn test_new_rendertarget() {
    let target = RenderTarget::new(10, 10);
    assert_eq!(target.width, 10);
    assert_eq!(target.height, 10);
    assert_eq!(target.data.len(), 10 * 10);
    assert_eq!(target.data.iter().sum::<u32>(), 0);
}

#[test]
fn rendertarget_test_clear() {
    let mut target = RenderTarget::new(10, 10);
    target.clear(white());

    for p in target.data {
        assert_eq!(p, white().to_u32());
    }
}

#[test]
fn test_set_pixel() {
    let mut target = RenderTarget::new(10, 10);
    let (x, y) = (5, 2);
    let color = white();
    target.set_pixel(x, y, color);

    assert_eq!(target.data[x as usize + y as usize * 10], color.to_u32());
}

#[test]
fn test_get_pixel() {
    let mut target = RenderTarget::new(10, 10);
    let (x, y) = (7, 3);
    let color = white();
    target.set_pixel(x, y, color);

    assert_eq!(target.get_pixel(x, y), Some(color));
    assert_eq!(target.get_pixel(100, 100), None);
}

#[test]
fn test_set_then_get_in_bounds() {
    let mut target = RenderTarget::new(10, 10);
    let color = white();
    target.set_pixel(5, 3, color);
    assert_eq!(target.get_pixel(5, 3), Some(color));
    assert_eq!(target.get_pixel(100, 100), None);
}

#[test]
fn test_out_of_bounds_writes_are_dropped() {
    let mut target = RenderTarget::new(4, 4);
    let color = Color::rgb(10, 20, 30);
    target.set_pixel(-1, 0, color);
    target.set_pixel(0, -1, color);
    target.set_pixel(4, 0, color);
    target.set_pixel(0, 4, color);
    for p in target.data {
        assert_eq!(p, 0);
    }
}

#[test]
fn test_clear_saturates_every_cell() {
    let mut target = RenderTarget::new(7, 5);
    let color = Color::rgba(12, 34, 56, 78);
    target.clear(color);
    assert_eq!(target.data.len(), 35);
    for p in target.data {
        assert_eq!(p, color.to_u32());
    }
}
