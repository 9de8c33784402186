use std::cell::Cell;
use std::rc::Rc;

use suleyth::resources::{ResourceLoader, ResourceManager};
use suleyth::utils::{Blit, Rect, SpriteSheet};

/// Stands for the texture loader: a texture is the number of the call that
/// made it.
struct Numbers {
    calls: Cell<u32>,
}

impl<'l> ResourceLoader<'l, u32> for Numbers {
    type Args = str;

    fn load(&'l self, data: &str) -> Result<u32, String> {
        self.calls.set(self.calls.get() + 1);
        if data.is_empty() {
            Err(String::from("no path"))
        } else {
            Ok(self.calls.get())
        }
    }
}

fn sheet(width: u32, height: u32) -> SpriteSheet<u32> {
    let loader = Numbers { calls: Cell::new(0) };
    let mut manager = ResourceManager::new(&loader);
    SpriteSheet::new(&mut manager, "day.png", width, height).unwrap()
}

#[test]
fn sheet_keeps_its_cell_size() {
    let tiles = sheet(32, 16);
    assert_eq!(tiles.width(), 32);
    assert_eq!(tiles.height(), 16);
    assert_eq!(**tiles.texture(), 1);
}

#[test]
fn sheets_of_one_source_share_the_texture() {
    let loader = Numbers { calls: Cell::new(0) };
    let mut manager = ResourceManager::new(&loader);
    let day = SpriteSheet::new(&mut manager, "day.png", 32, 32).unwrap();
    let again = SpriteSheet::new(&mut manager, "day.png", 16, 16).unwrap();
    let night = SpriteSheet::new(&mut manager, "night.png", 32, 32).unwrap();
    assert!(Rc::ptr_eq(day.texture(), again.texture()));
    assert!(!Rc::ptr_eq(day.texture(), night.texture()));
    assert!(Rc::ptr_eq(day.texture(), &manager.load("day.png").unwrap()));
    assert_eq!(loader.calls.get(), 2);
    assert_eq!(again.width(), 16);
}

#[test]
fn sheet_passes_a_failed_load_on() {
    let loader = Numbers { calls: Cell::new(0) };
    let mut manager = ResourceManager::new(&loader);
    assert_eq!(SpriteSheet::new(&mut manager, "", 32, 32).err(), Some(String::from("no path")));
    assert!(manager.cached("").is_none());
}

#[test]
fn draw_index_picks_the_cell() {
    let tiles = sheet(32, 16);
    assert_eq!(
        tiles.draw_index(3, 2, 100, -7),
        Blit {
            source: Rect { x: 96, y: 32, width: 32, height: 16 },
            target: Rect { x: 100, y: -7, width: 32, height: 16 },
        }
    );
    assert_eq!(
        tiles.draw_index(0, 0, 0, 0),
        Blit {
            source: Rect { x: 0, y: 0, width: 32, height: 16 },
            target: Rect { x: 0, y: 0, width: 32, height: 16 },
        }
    );
}

#[test]
fn draw_index_takes_cells_left_of_and_above_the_sheet() {
    let tiles = sheet(32, 16);
    assert_eq!(
        tiles.draw_index(-2, -1, 5, 6).source,
        Rect { x: -64, y: -16, width: 32, height: 16 }
    );
}

#[test]
fn draw_index_reaches_the_ends_of_the_range() {
    let tiles = sheet(1, 1);
    let far = tiles.draw_index(i32::MAX, i32::MIN, i32::MIN, i32::MAX);
    assert_eq!(far.source, Rect { x: i32::MAX, y: i32::MIN, width: 1, height: 1 });
    assert_eq!(far.target, Rect { x: i32::MIN, y: i32::MAX, width: 1, height: 1 });
    let wide = sheet(u32::MAX, 0x8000_0000);
    let near = wide.draw_index(0, -1, 1, 2);
    assert_eq!(near.source, Rect { x: 0, y: i32::MIN, width: u32::MAX, height: 0x8000_0000 });
    let big = sheet(65536, 32768);
    assert_eq!(big.draw_index(32767, -65536, 0, 0).source.x, 2147418112);
    assert_eq!(big.draw_index(32767, -65536, 0, 0).source.y, i32::MIN);
}
