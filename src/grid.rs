use vstd::prelude::*;

verus! {

/// An integer grid coordinate; `y` grows southwards.
#[derive(Clone, Copy, PartialEq, Eq, Structural, Debug, Default)]
pub struct Pos {
    pub x: i32,
    pub y: i32,
}

/// The four cardinal directions, in the order in which the carver looks at them.
#[derive(Clone, Copy, PartialEq, Eq, Structural, Debug, Default)]
pub enum News {
    #[default]
    North,
    East,
    West,
    South,
}

impl News {
    /// The step that the direction stands for, as `(dx, dy)`.
    pub open spec fn delta(self) -> (int, int) {
        match self {
            News::North => (0, -1),
            News::East => (1, 0),
            News::West => (-1, 0),
            News::South => (0, 1),
        }
    }

    pub fn offset(self) -> (r: (i32, i32))
        ensures
            r.0 as int == self.delta().0,
            r.1 as int == self.delta().1,
    {
        match self {
            News::North => (0, -1),
            News::East => (1, 0),
            News::West => (-1, 0),
            News::South => (0, 1),
        }
    }
}

impl Pos {
    pub fn new(x: i32, y: i32) -> (r: Pos)
        ensures
            r.x == x,
            r.y == y,
    {
        Pos { x, y }
    }

    /// The neighbour one step away in direction `news`.
    pub open spec fn moved(self, news: News) -> (int, int) {
        (self.x + news.delta().0, self.y + news.delta().1)
    }

    pub fn add(self, news: News) -> (r: Pos)
        requires
            news == News::North ==> self.y > i32::MIN,
            news == News::East ==> self.x < i32::MAX,
            news == News::West ==> self.x > i32::MIN,
            news == News::South ==> self.y < i32::MAX,
        ensures
            r.x as int == self.moved(news).0,
            r.y as int == self.moved(news).1,
    {
        let (dx, dy) = news.offset();
        Pos { x: self.x + dx, y: self.y + dy }
    }
}

} // verus!
