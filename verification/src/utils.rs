//! Sprite sheets: one texture cut into cells of equal size.

use crate::resources::{ResourceLoader, ResourceManager};
use std::rc::Rc;
use vstd::prelude::*;

verus! {

/// A rectangle on a texture or on the render target, by its upper left
/// corner and its size.
#[derive(Debug, Clone, Copy, PartialEq, Eq, Structural)]
pub struct Rect {
    pub x: i32,
    pub y: i32,
    pub width: u32,
    pub height: u32,
}

/// One copy of a region of a texture onto a region of the render target.
#[derive(Debug, Clone, Copy, PartialEq, Eq, Structural)]
pub struct Blit {
    pub source: Rect,
    pub target: Rect,
}

/// The copy that shows the cell in column `ix` and row `iy` of a sheet with
/// cells of `width` by `height` at the position `(x, y)`.
pub open spec fn cell_blit(width: u32, height: u32, ix: int, iy: int, x: i32, y: i32) -> Blit {
    Blit {
        source: Rect { x: (ix * width) as i32, y: (iy * height) as i32, width, height },
        target: Rect { x, y, width, height },
    }
}

/// Whether the corner of the cell in column `ix` and row `iy` of a sheet
/// with cells of `width` by `height` can be written in 32 bits.
pub open spec fn cell_in_reach(width: u32, height: u32, ix: int, iy: int) -> bool {
    &&& i32::MIN <= ix * width <= i32::MAX
    &&& i32::MIN <= iy * height <= i32::MAX
}

/// A shared texture and the size of the cells it is cut into.
pub struct SpriteSheet<T> {
    width: u32,
    height: u32,
    texture: Rc<T>,
}

impl<T> SpriteSheet<T> {
    #[verifier::type_invariant]
    spec fn cells_are_not_empty(self) -> bool {
        self.width > 0 && self.height > 0
    }

    /// The width of a cell.
    pub closed spec fn cell_width(&self) -> u32 {
        self.width
    }

    /// The height of a cell.
    pub closed spec fn cell_height(&self) -> u32 {
        self.height
    }

    /// The texture that the cells are cut from.
    pub closed spec fn sheet(&self) -> Rc<T> {
        self.texture
    }

    /// Makes a sheet of the texture that `source` names, with cells of
    /// `width` by `height`. The texture comes from the cache `tm`, which is
    /// asked as by its `load`; its failure is passed on.
    pub fn new<'l, L>(
        tm: &mut ResourceManager<'l, T, L>,
        source: &str,
        width: u32,
        height: u32,
    ) -> (result: Result<Self, String>) where L: ResourceLoader<'l, T, Args = str>
        requires
            width > 0,
            height > 0,
        ensures
            match result {
                Ok(sheet) => {
                    &&& ResourceManager::loads(
                        *old(tm),
                        source,
                        *final(tm),
                        Ok::<Rc<T>, String>(sheet.sheet()),
                    )
                    &&& sheet.cell_width() == width
                    &&& sheet.cell_height() == height
                },
                Err(reason) => ResourceManager::loads(
                    *old(tm),
                    source,
                    *final(tm),
                    Err::<Rc<T>, String>(reason),
                ),
            },
    {
        match tm.load(source) {
            Ok(texture) => Ok(SpriteSheet { width, height, texture }),
            Err(reason) => Err(reason),
        }
    }

    /// The width of a cell, which is not zero.
    pub fn width(&self) -> (width: u32)
        ensures
            width == self.cell_width(),
            width > 0,
    {
        proof {
            use_type_invariant(self);
        }
        self.width
    }

    /// The height of a cell, which is not zero.
    pub fn height(&self) -> (height: u32)
        ensures
            height == self.cell_height(),
            height > 0,
    {
        proof {
            use_type_invariant(self);
        }
        self.height
    }

    /// The texture that the cells are cut from.
    pub fn texture(&self) -> (texture: &Rc<T>)
        ensures
            *texture == self.sheet(),
    {
        &self.texture
    }

    /// The copy that draws the cell in column `ix` and row `iy` with its
    /// upper left corner at `(x, y)`.
    pub fn draw_index(&self, ix: i32, iy: i32, x: i32, y: i32) -> (blit: Blit)
        requires
            cell_in_reach(self.cell_width(), self.cell_height(), ix as int, iy as int),
        ensures
            blit == cell_blit(self.cell_width(), self.cell_height(), ix as int, iy as int, x, y),
    {
        let width = self.width;
        let height = self.height;
        assert(-0x8000_0000_0000_0000 <= ix * width <= 0x7fff_ffff_ffff_ffff) by (nonlinear_arith)
            requires
                -0x8000_0000 <= ix <= 0x7fff_ffff,
                0 <= width <= 0xffff_ffff,
        ;
        assert(-0x8000_0000_0000_0000 <= iy * height <= 0x7fff_ffff_ffff_ffff) by (nonlinear_arith)
            requires
                -0x8000_0000 <= iy <= 0x7fff_ffff,
                0 <= height <= 0xffff_ffff,
        ;
        let left: i64 = ix as i64 * width as i64;
        let top: i64 = iy as i64 * height as i64;
        Blit {
            source: Rect { x: left as i32, y: top as i32, width, height },
            target: Rect { x, y, width, height },
        }
    }
}

} // verus!
