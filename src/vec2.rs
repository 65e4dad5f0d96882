use vstd::prelude::*;

verus! {

/// A point or offset on the integer grid.
#[derive(Copy, Clone, PartialEq, Eq, PartialOrd, Ord, Debug, Structural)]
pub struct Vec2<T> {
    pub x: T,
    pub y: T,
}

/// Grid coordinates.
pub type Vec2i = Vec2<i32>;

impl<T> Vec2<T> {
    pub fn new(x: T, y: T) -> (r: Vec2<T>)
        ensures
            r.x == x,
            r.y == y,
    {
        Vec2 { x: x, y: y }
    }
}

impl Vec2<i32> {
    /// The point as a pair of mathematical integers.
    pub open spec fn view(self) -> (int, int) {
        (self.x as int, self.y as int)
    }
}

impl core::ops::Add for Vec2<i32> {
    type Output = Vec2<i32>;

    fn add(self, rhs: Vec2<i32>) -> (r: Vec2<i32>) {
        Vec2 { x: self.x + rhs.x, y: self.y + rhs.y }
    }
}

impl vstd::std_specs::ops::AddSpecImpl for Vec2<i32> {
    open spec fn obeys_add_spec() -> bool {
        true
    }

    open spec fn add_req(self, rhs: Vec2<i32>) -> bool {
        i32::MIN <= self.x + rhs.x <= i32::MAX && i32::MIN <= self.y + rhs.y <= i32::MAX
    }

    open spec fn add_spec(self, rhs: Vec2<i32>) -> Vec2<i32> {
        Vec2 { x: (self.x + rhs.x) as i32, y: (self.y + rhs.y) as i32 }
    }
}

impl core::ops::Sub for Vec2<i32> {
    type Output = Vec2<i32>;

    fn sub(self, rhs: Vec2<i32>) -> (r: Vec2<i32>) {
        Vec2 { x: self.x - rhs.x, y: self.y - rhs.y }
    }
}

impl vstd::std_specs::ops::SubSpecImpl for Vec2<i32> {
    open spec fn obeys_sub_spec() -> bool {
        true
    }

    open spec fn sub_req(self, rhs: Vec2<i32>) -> bool {
        i32::MIN <= self.x - rhs.x <= i32::MAX && i32::MIN <= self.y - rhs.y <= i32::MAX
    }

    open spec fn sub_spec(self, rhs: Vec2<i32>) -> Vec2<i32> {
        Vec2 { x: (self.x - rhs.x) as i32, y: (self.y - rhs.y) as i32 }
    }
}

impl PartialEq<[i32; 2]> for Vec2<i32> {
    fn eq(&self, rhs: &[i32; 2]) -> (r: bool) {
        self.x == rhs[0] && self.y == rhs[1]
    }
}

impl vstd::std_specs::cmp::PartialEqSpecImpl<[i32; 2]> for Vec2<i32> {
    open spec fn obeys_eq_spec() -> bool {
        true
    }

    open spec fn eq_spec(&self, rhs: &[i32; 2]) -> bool {
        self.x == rhs@[0] && self.y == rhs@[1]
    }
}

} // verus!
