use vstd::prelude::*;

verus! {

/// A level: its title and author, its size, its cubes and the places to reach.
#[derive(Clone, Debug, Default)]
pub struct Seed {
    pub info: Info,
    pub size: Size,
    pub cubes: Vec<Cube>,
    pub destnations: Vec<Location>,
}

#[derive(Clone, Debug, Default)]
pub struct Info {
    pub title: String,
    pub author: String,
}

#[derive(Clone, Copy, Debug, Default, PartialEq, Eq, Structural)]
pub struct Size {
    pub width: i32,
    pub height: i32,
}

/// A cube: its colour, the cells it takes, and the moves it repeats, if any.
#[derive(Clone, Debug, Default)]
pub struct Cube {
    pub kind: CubeType,
    pub body: Vec<Location>,
    pub command: Option<Command>,
}

#[derive(Clone, Copy, Debug, PartialEq, Eq, Structural)]
pub enum CubeType {
    White,
    Red,
    Blue,
    Green,
}

impl Default for CubeType {
    fn default() -> (r: CubeType)
        ensures
            r == CubeType::White,
    {
        CubeType::White
    }
}

#[derive(Clone, Copy, Debug, Default, PartialEq, Eq, Structural)]
pub struct Location {
    pub x: i32,
    pub y: i32,
}

/// Moves with their counts, run once or over and over.
#[derive(Clone, Debug, Default)]
pub struct Command {
    pub is_loop: bool,
    pub movements: Vec<(i32, Movement)>,
}

#[derive(Clone, Copy, Debug, PartialEq, Eq, Structural)]
pub enum Movement {
    Idle,
    Left,
    Down,
    Up,
    Right,
}

impl Default for Movement {
    fn default() -> (r: Movement)
        ensures
            r == Movement::Idle,
    {
        Movement::Idle
    }
}

/// A command as values.
pub struct CommandView {
    pub is_loop: bool,
    pub movements: Seq<(i32, Movement)>,
}

/// A cube as values.
pub struct CubeView {
    pub kind: CubeType,
    pub body: Seq<Location>,
    pub command: Option<CommandView>,
}

/// A level as values.
pub struct SeedView {
    pub title: Seq<char>,
    pub author: Seq<char>,
    pub size: Size,
    pub cubes: Seq<CubeView>,
    pub destnations: Seq<Location>,
}

impl View for Command {
    type V = CommandView;

    open spec fn view(&self) -> CommandView {
        CommandView { is_loop: self.is_loop, movements: self.movements@ }
    }
}

impl View for Cube {
    type V = CubeView;

    open spec fn view(&self) -> CubeView {
        CubeView {
            kind: self.kind,
            body: self.body@,
            command: match self.command {
                Some(c) => Some(c@),
                None => None,
            },
        }
    }
}

/// The views of some cubes.
pub open spec fn cube_views(cs: Seq<Cube>) -> Seq<CubeView> {
    cs.map_values(|c: Cube| c@)
}

impl View for Seed {
    type V = SeedView;

    open spec fn view(&self) -> SeedView {
        SeedView {
            title: self.info.title@,
            author: self.info.author@,
            size: self.size,
            cubes: cube_views(self.cubes@),
            destnations: self.destnations@,
        }
    }
}

} // verus!
