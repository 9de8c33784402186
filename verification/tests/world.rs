use std::cell::Cell;
use std::rc::Rc;

use suleyth::game::world::{
    atlas_cell, get_tile_id, has_map_marker, parse_header, read_header, Header, HeaderField,
    MapError, ParseError, Tile, TileMap, TILE_SIZE,
};
use suleyth::resources::{ResourceLoader, ResourceManager};
use suleyth::utils::{Blit, Rect, SpriteSheet};

/// Stands for the texture loader: a texture is the path it came from.
struct Paths {
    calls: Cell<u32>,
}

impl<'l> ResourceLoader<'l, String> for Paths {
    type Args = str;

    fn load(&'l self, data: &str) -> Result<String, String> {
        self.calls.set(self.calls.get() + 1);
        if data.ends_with(".png") {
            Ok(String::from(data))
        } else {
            Err(format!("Couldn't open {}", data))
        }
    }
}

fn map_of(text: &str) -> TileMap<String> {
    let loader = Paths { calls: Cell::new(0) };
    let mut manager = ResourceManager::new(&loader);
    TileMap::new(text, "res/spritesheets/day.png", &mut manager).unwrap()
}

fn tile_at(column: i32, row: i32, x: i32, y: i32) -> Blit {
    Blit {
        source: Rect { x: column * 32, y: row * 32, width: 32, height: 32 },
        target: Rect { x, y, width: 32, height: 32 },
    }
}

#[test]
fn tile_characters() {
    assert_eq!(get_tile_id('#'), Tile::Ground);
    assert_eq!(get_tile_id('.'), Tile::Air);
    assert_eq!(get_tile_id('-'), Tile::Block);
}

#[test]
fn unknown_characters_are_air() {
    for c in ['x', ' ', '\n', '0', 'M', '\u{4e2d}', '\u{0}', '+', '_', '='] {
        assert_eq!(get_tile_id(c), Tile::Air);
    }
}

#[test]
fn every_tile_has_its_atlas_cell() {
    assert_eq!(atlas_cell(Tile::Air), (30, 0));
    assert_eq!(atlas_cell(Tile::Ground), (0, 0));
    assert_eq!(atlas_cell(Tile::Block), (0, 1));
}

#[test]
fn parse_round_trip() {
    let map = map_of("4 1 0 0\nMAP\n#.-.");
    assert_eq!(map.width, 4);
    assert_eq!(map.height, 1);
    assert_eq!(map.tile_grid(), vec![Tile::Ground, Tile::Air, Tile::Block, Tile::Air]);
}

#[test]
fn parse_keeps_spawn_and_grid_text() {
    let map = map_of("10 2 3 -4\nMAP\n##########\n..........");
    assert_eq!(map.width, 10);
    assert_eq!(map.height, 2);
    assert_eq!(map.spawn, (3, -4));
    assert_eq!(map.tokens.iter().collect::<String>(), "##########..........");
    let grid = map.tile_grid();
    assert_eq!(grid.len(), 20);
    assert!(grid[..10].iter().all(|tile| *tile == Tile::Ground));
    assert!(grid[10..].iter().all(|tile| *tile == Tile::Air));
}

#[test]
fn parse_takes_the_atlas_from_the_cache() {
    let loader = Paths { calls: Cell::new(0) };
    let mut manager = ResourceManager::new(&loader);
    let first = TileMap::new("1 1 0 0\nMAP\n#", "day.png", &mut manager).unwrap();
    let second = TileMap::new("1 1 0 0\nMAP\n.", "day.png", &mut manager).unwrap();
    assert!(Rc::ptr_eq(first.tiles.texture(), second.tiles.texture()));
    assert_eq!(**first.tiles.texture(), "day.png");
    assert_eq!(first.tiles.width(), TILE_SIZE);
    assert_eq!(first.tiles.height(), TILE_SIZE);
    assert_eq!(TILE_SIZE, 32);
    assert_eq!(loader.calls.get(), 1);
}

#[test]
fn cell_size_can_be_chosen() {
    let loader = Paths { calls: Cell::new(0) };
    let mut manager = ResourceManager::new(&loader);
    let map = TileMap::with_cell_size("2 2 0 0\nMAP\n#.\n-#", "day.png", &mut manager, 16, 8)
        .unwrap();
    assert_eq!(map.tiles.width(), 16);
    assert_eq!(map.tiles.height(), 8);
    assert_eq!(
        map.draw(),
        vec![
            Blit {
                source: Rect { x: 0, y: 0, width: 16, height: 8 },
                target: Rect { x: 0, y: 0, width: 16, height: 8 },
            },
            Blit {
                source: Rect { x: 480, y: 0, width: 16, height: 8 },
                target: Rect { x: 16, y: 0, width: 16, height: 8 },
            },
            Blit {
                source: Rect { x: 0, y: 8, width: 16, height: 8 },
                target: Rect { x: 0, y: 8, width: 16, height: 8 },
            },
            Blit {
                source: Rect { x: 0, y: 0, width: 16, height: 8 },
                target: Rect { x: 16, y: 8, width: 16, height: 8 },
            },
        ]
    );
    let bad = TileMap::with_cell_size("2 x 0 0\nMAP\n", "day.png", &mut manager, 16, 8);
    assert_eq!(bad.err(), Some(MapError::Parse(ParseError::Invalid(HeaderField::Height))));
}

#[test]
fn parse_rejects_a_header_that_is_no_number() {
    let loader = Paths { calls: Cell::new(0) };
    let mut manager = ResourceManager::new(&loader);
    let result = TileMap::new("four 1 0 0\nMAP\n....", "day.png", &mut manager);
    assert_eq!(result.err(), Some(MapError::Parse(ParseError::Invalid(HeaderField::Width))));
    assert_eq!(loader.calls.get(), 0);
    assert!(manager.cached("day.png").is_none());
}

#[test]
fn parse_reports_a_failed_atlas() {
    let loader = Paths { calls: Cell::new(0) };
    let mut manager = ResourceManager::new(&loader);
    let result = TileMap::new("1 1 0 0\nMAP\n#", "day.bmp", &mut manager);
    assert_eq!(result.err(), Some(MapError::Load(String::from("Couldn't open day.bmp"))));
    assert_eq!(loader.calls.get(), 1);
    assert!(manager.cached("day.bmp").is_none());
}

#[test]
fn a_bad_header_comes_before_a_bad_atlas() {
    let loader = Paths { calls: Cell::new(0) };
    let mut manager = ResourceManager::new(&loader);
    let result = TileMap::new("1 1 0\nMAP\n#", "day.bmp", &mut manager);
    assert_eq!(result.err(), Some(MapError::Parse(ParseError::Invalid(HeaderField::SpawnY))));
    assert_eq!(loader.calls.get(), 0);
}

#[test]
fn header_fields_are_read_in_order() {
    assert_eq!(
        parse_header("10 2 0 0\nMAP\n"),
        Ok(Header { width: 10, height: 2, spawn_x: 0, spawn_y: 0 })
    );
    assert_eq!(
        parse_header("  +7\t4294967295\r\n-9223372036854775808 9223372036854775807 5 6 7"),
        Ok(Header {
            width: 7,
            height: 4294967295,
            spawn_x: -9223372036854775808,
            spawn_y: 9223372036854775807,
        })
    );
    assert_eq!(
        parse_header("0 0 -0 +0"),
        Ok(Header { width: 0, height: 0, spawn_x: 0, spawn_y: 0 })
    );
}

#[test]
fn each_missing_field_is_named() {
    assert_eq!(parse_header(""), Err(ParseError::Missing(HeaderField::Width)));
    assert_eq!(parse_header(" \n\t"), Err(ParseError::Missing(HeaderField::Width)));
    assert_eq!(parse_header("4"), Err(ParseError::Missing(HeaderField::Height)));
    assert_eq!(parse_header("4 1 "), Err(ParseError::Missing(HeaderField::SpawnX)));
    assert_eq!(parse_header("4 1 0"), Err(ParseError::Missing(HeaderField::SpawnY)));
}

#[test]
fn each_invalid_field_is_named() {
    assert_eq!(parse_header("four 1 0 0"), Err(ParseError::Invalid(HeaderField::Width)));
    assert_eq!(parse_header("-4 1 0 0"), Err(ParseError::Invalid(HeaderField::Width)));
    assert_eq!(parse_header("4294967296 1 0 0"), Err(ParseError::Invalid(HeaderField::Width)));
    assert_eq!(parse_header("4 1.5 0 0"), Err(ParseError::Invalid(HeaderField::Height)));
    assert_eq!(parse_header("4 1 x 0"), Err(ParseError::Invalid(HeaderField::SpawnX)));
    assert_eq!(
        parse_header("4 1 9223372036854775808 0"),
        Err(ParseError::Invalid(HeaderField::SpawnX))
    );
    assert_eq!(
        parse_header("4 1 3000000000 2147483648"),
        Ok(Header { width: 4, height: 1, spawn_x: 3000000000, spawn_y: 2147483648 })
    );
    assert_eq!(parse_header("4 1 0 MAP"), Err(ParseError::Invalid(HeaderField::SpawnY)));
    assert_eq!(parse_header("4 1 0 -"), Err(ParseError::Invalid(HeaderField::SpawnY)));
}

#[test]
fn the_first_fault_is_the_one_reported() {
    assert_eq!(parse_header("a b c"), Err(ParseError::Invalid(HeaderField::Width)));
    assert_eq!(parse_header("1 b"), Err(ParseError::Invalid(HeaderField::Height)));
    assert_eq!(parse_header("1 2 c"), Err(ParseError::Invalid(HeaderField::SpawnX)));
}

#[test]
fn read_header_works_on_characters() {
    let chars: Vec<char> = "3 2 1 0 MAP".chars().collect();
    assert_eq!(read_header(&chars), Ok(Header { width: 3, height: 2, spawn_x: 1, spawn_y: 0 }));
}

#[test]
fn marker_test_matches_the_text() {
    assert!(has_map_marker("4 1 0 0\nMAP\n#.-."));
    assert!(!has_map_marker("4 1 0 0\n#.-."));
    assert!(!has_map_marker("4 1 0 0\nmap\n#.-."));
}

#[test]
fn grid_ends_at_a_second_marker() {
    let map = map_of("2 1 0 0\nMAP\n#-\nMAP\n..");
    assert_eq!(map.tile_grid(), vec![Tile::Ground, Tile::Block]);
}

#[test]
fn line_ends_of_either_kind_are_dropped() {
    let map = map_of("2 2 0 0\r\nMAP\r\n#-\r\n.#\r\n");
    assert_eq!(map.tokens, vec!['#', '-', '.', '#']);
}

#[test]
fn draw_goes_row_by_row() {
    let map = map_of("3 2 0 0\nMAP\n#.-\n-#.");
    assert!(map.can_draw());
    assert_eq!(
        map.draw(),
        vec![
            tile_at(0, 0, 0, 0),
            tile_at(30, 0, 32, 0),
            tile_at(0, 1, 64, 0),
            tile_at(0, 1, 0, 32),
            tile_at(0, 0, 32, 32),
            tile_at(30, 0, 64, 32),
        ]
    );
}

#[test]
fn draw_gives_exact_rectangles() {
    let map = map_of("2 1 0 0\nMAP\n.-");
    let blits = map.draw();
    assert_eq!(blits[0].source, Rect { x: 960, y: 0, width: 32, height: 32 });
    assert_eq!(blits[0].target, Rect { x: 0, y: 0, width: 32, height: 32 });
    assert_eq!(blits[1].source, Rect { x: 0, y: 32, width: 32, height: 32 });
    assert_eq!(blits[1].target, Rect { x: 32, y: 0, width: 32, height: 32 });
}

#[test]
fn draw_leaves_out_what_is_past_the_grid() {
    let map = map_of("2 1 0 0\nMAP\n##----");
    assert!(map.can_draw());
    assert_eq!(map.draw(), vec![tile_at(0, 0, 0, 0), tile_at(0, 0, 32, 0)]);
    assert_eq!(map.tile_grid().len(), 6);
}

#[test]
fn a_short_grid_cannot_be_drawn() {
    assert!(!map_of("2 2 0 0\nMAP\n##\n#").can_draw());
    assert!(!map_of("1 1 0 0\nMAP\n").can_draw());
    assert!(map_of("2 2 0 0\nMAP\n##\n##").can_draw());
}

#[test]
fn an_empty_map_draws_nothing() {
    for text in ["0 0 0 0\nMAP\n", "0 5 0 0\nMAP\n##", "5 0 0 0\nMAP\n"] {
        let map = map_of(text);
        assert!(map.can_draw());
        assert_eq!(map.draw(), Vec::<Blit>::new());
    }
}

#[test]
fn a_map_too_wide_for_the_target_cannot_be_drawn() {
    let loader = Paths { calls: Cell::new(0) };
    let mut manager = ResourceManager::new(&loader);
    let mut map = TileMap::new("2 1 0 0\nMAP\n###", "day.png", &mut manager).unwrap();
    map.tiles = SpriteSheet::new(&mut manager, "day.png", 0x4000_0000, 1).unwrap();
    assert!(map.can_draw());
    assert_eq!(map.draw()[1].target, Rect { x: 0x4000_0000, y: 0, width: 0x4000_0000, height: 1 });
    map.width = 3;
    assert!(!map.can_draw());
    map.width = 1;
    map.height = 3;
    assert!(map.can_draw());
    map.tiles = SpriteSheet::new(&mut manager, "day.png", 1, 0x4000_0000).unwrap();
    assert!(!map.can_draw());
    map.height = 2;
    assert!(map.can_draw());
}

#[test]
fn a_tile_whose_atlas_cell_is_out_of_reach_cannot_be_drawn() {
    let loader = Paths { calls: Cell::new(0) };
    let mut manager = ResourceManager::new(&loader);
    let mut map = TileMap::new("1 1 0 0\nMAP\n#", "day.png", &mut manager).unwrap();
    map.tiles = SpriteSheet::new(&mut manager, "day.png", 71582789, 0x8000_0000).unwrap();
    assert!(map.can_draw());
    map.tokens = vec!['.'];
    assert!(!map.can_draw());
    map.tokens = vec!['-'];
    assert!(!map.can_draw());
    map.tiles = SpriteSheet::new(&mut manager, "day.png", 71582788, 0x7fff_ffff).unwrap();
    assert!(map.can_draw());
    assert_eq!(map.draw()[0].source.y, 0x7fff_ffff);
    map.tokens = vec!['.'];
    assert!(map.can_draw());
    assert_eq!(map.draw()[0].source.x, 2147483640);
}
