//! A small per-color store, one slot for each of White, Empty and Black.
//! The Wall sentinel has no slot.

use vstd::prelude::*;
use crate::Color;

verus! {

pub struct ColorStorage<T> {
    white: T,
    empty: T,
    black: T,
}

impl<T> ColorStorage<T> {
    /// The value held for `c`; Wall has no slot.
    pub closed spec fn spec_get(&self, c: Color) -> T {
        match c {
            Color::White => self.white,
            Color::Black => self.black,
            Color::Empty => self.empty,
            Color::Wall => arbitrary(),
        }
    }

    pub fn new(white: T, empty: T, black: T) -> (r: ColorStorage<T>)
        ensures
            r.spec_get(Color::White) == white,
            r.spec_get(Color::Empty) == empty,
            r.spec_get(Color::Black) == black,
    {
        ColorStorage { white, empty, black }
    }

    pub fn get(&self, color: &Color) -> (r: &T)
        requires
            *color != Color::Wall,
        ensures
            *r == self.spec_get(*color),
    {
        match color {
            Color::White => &self.white,
            Color::Black => &self.black,
            _ => &self.empty,
        }
    }

    pub fn set(&mut self, color: &Color, count: T)
        requires
            *color != Color::Wall,
        ensures
            final(self).spec_get(*color) == count,
            forall|c: Color|
                c != *color && c != Color::Wall ==> final(self).spec_get(c) == old(self).spec_get(
                    c,
                ),
    {
        match color {
            Color::White => self.white = count,
            Color::Black => self.black = count,
            _ => self.empty = count,
        }
    }
}

} // verus!
