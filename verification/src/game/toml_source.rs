use vstd::prelude::*;

use super::seed::{self as target, cube_views, CubeType, CubeView, CommandView, Location, SeedView};

verus! {

/// Why a level description was refused.
#[derive(Clone, Copy, Debug, PartialEq, Eq)]
pub enum Error {
    MissingField { field: &'static str },
    InvalidMarker { character: char },
    Uncopiable { position: (i32, i32) },
    Unmergeable { this: (i32, i32), that: (i32, i32) },
    InvalidMovement { character: char },
    InvalidLocation { position: (i32, i32) },
}

/// A level as written: its title and author, a map drawn in characters, and the commands
/// bound to cubes of the map.
pub struct Source {
    pub info: Info,
    pub map: MapText,
}

pub struct Info {
    pub title: String,
    pub author: String,
}

/// The map drawn in characters, and the commands bound to its cubes.
pub struct MapText {
    pub raw: String,
    pub commands: Vec<Command>,
}

/// Moves written as letters, each maybe followed by a count, and the map cells of the cubes
/// that follow them.
pub struct Command {
    pub content: String,
    pub is_loop: bool,
    pub binding: Vec<[i32; 2]>,
}

/// A list of level files: the directory that holds them, their extension, and their names.
pub struct SourceList {
    pub directory: String,
    pub extension: String,
    pub name_list: Vec<String>,
}

// ---------------------------------------------------------------------------------------
// Lines

/// The pieces of `s` between line feeds; there is one more piece than there are line feeds.
pub open spec fn pieces(s: Seq<char>) -> Seq<Seq<char>>
    decreases s.len(),
{
    if s.len() == 0 {
        seq![Seq::empty()]
    } else {
        let p = pieces(s.drop_last());
        if s.last() == '\n' {
            p.push(Seq::empty())
        } else {
            p.update(p.len() - 1, p.last().push(s.last()))
        }
    }
}

/// `l` without one trailing carriage return.
pub open spec fn trim_cr(l: Seq<char>) -> Seq<char> {
    if l.len() > 0 && l.last() == '\r' {
        l.drop_last()
    } else {
        l
    }
}

/// The lines of `s`: pieces ended by a line feed lose a carriage return before it, and an
/// empty last piece is no line.
pub open spec fn lines(s: Seq<char>) -> Seq<Seq<char>> {
    let p = pieces(s);
    let n = p.len() - 1;
    let kept = if p[n].len() == 0 { n } else { n + 1 };
    Seq::new(kept as nat, |i: int| if i < n { trim_cr(p[i]) } else { p[i] })
}

proof fn lemma_pieces_len(s: Seq<char>)
    ensures
        pieces(s).len() >= 1,
    decreases s.len(),
{
    if s.len() > 0 {
        lemma_pieces_len(s.drop_last());
    }
}

// ---------------------------------------------------------------------------------------
// The map

/// The state of reading a map: rows read, widest row, column in the current row, cubes,
/// destinations, and for each cell read, the cube it belongs to.
#[verifier::ext_equal]
pub struct Board {
    pub h: int,
    pub w: int,
    pub x: int,
    pub cs: Seq<CubeView>,
    pub ds: Seq<Location>,
    pub m: Seq<Seq<Option<usize>>>,
}

pub open spec fn empty_board() -> Board {
    Board { h: 0, w: 0, x: 0, cs: Seq::empty(), ds: Seq::empty(), m: Seq::empty() }
}

/// `m` with `v` added to its last row; the first value opens the first row.
pub open spec fn index_put(m: Seq<Seq<Option<usize>>>, v: Option<usize>) -> Seq<Seq<Option<usize>>> {
    if m.len() == 0 {
        seq![seq![v]]
    } else {
        m.update(m.len() - 1, m.last().push(v))
    }
}

/// The cube of the cell at column `x` of row `y`, if the cell was read and holds one.
pub open spec fn index_get(m: Seq<Seq<Option<usize>>>, x: int, y: int) -> Option<usize> {
    if 0 <= y < m.len() && 0 <= x < m[y].len() {
        m[y][x]
    } else {
        None
    }
}

pub open spec fn loc(x: int, y: int) -> Location {
    Location { x: x as i32, y: y as i32 }
}

/// One more cell read, holding `v`.
pub open spec fn made(b: Board, v: Option<usize>) -> Board {
    Board { h: b.h, w: b.w, x: b.x + 1, cs: b.cs, ds: b.ds, m: index_put(b.m, v) }
}

/// The end of a row.
pub open spec fn line_ended(b: Board) -> Board {
    Board {
        h: b.h + 1,
        w: if b.w >= b.x { b.w } else { b.x },
        x: 0,
        cs: b.cs,
        ds: b.ds,
        m: b.m.push(Seq::empty()),
    }
}

/// A new cube of `kind` at the current cell.
pub open spec fn with_cube(b: Board, kind: CubeType) -> Board {
    made(
        Board {
            h: b.h,
            w: b.w,
            x: b.x,
            cs: b.cs.push(CubeView { kind, body: seq![loc(b.x, b.h)], command: None }),
            ds: b.ds,
            m: b.m,
        },
        Some(b.cs.len() as usize),
    )
}

/// A destination at the current cell.
pub open spec fn with_destination(b: Board) -> Board {
    made(Board { h: b.h, w: b.w, x: b.x, cs: b.cs, ds: b.ds.push(loc(b.x, b.h)), m: b.m }, None)
}

/// `c` with `body` in place of its body.
pub open spec fn with_body(c: CubeView, body: Seq<Location>) -> CubeView {
    CubeView { kind: c.kind, body, command: c.command }
}

/// The current cell added to cube `i`.
pub open spec fn grown(b: Board, i: usize) -> Board {
    made(
        Board {
            h: b.h,
            w: b.w,
            x: b.x,
            cs: b.cs.update(i as int, with_body(b.cs[i as int], b.cs[i as int].body.push(loc(b.x, b.h)))),
            ds: b.ds,
            m: b.m,
        },
        Some(i),
    )
}

/// The cell left of the current one belongs to a cube, which takes the current cell too.
pub open spec fn copied_left(b: Board) -> Result<Board, Error> {
    match index_get(b.m, b.x - 1, b.h) {
        Some(i) if i < b.cs.len() => Ok(grown(b, i)),
        _ => Err(Error::Uncopiable { position: ((b.x - 1) as i32, b.h as i32) }),
    }
}

/// The cell above the current one belongs to a cube, which takes the current cell too.
pub open spec fn copied_upper(b: Board) -> Result<Board, Error> {
    match index_get(b.m, b.x, b.h - 1) {
        Some(i) if i < b.cs.len() => Ok(grown(b, i)),
        _ => Err(Error::Uncopiable { position: (b.x as i32, (b.h - 1) as i32) }),
    }
}

/// The cell at `o` names cube `l` if it names a cube at all.
pub open spec fn relabel_at(m: Seq<Seq<Option<usize>>>, o: Location, l: usize) -> Seq<Seq<Option<usize>>> {
    let x = o.x as int;
    let y = o.y as int;
    if 0 <= y < m.len() && 0 <= x < m[y].len() && m[y][x] is Some {
        m.update(y, m[y].update(x, Some(l)))
    } else {
        m
    }
}

/// Every cell of `v`, in order, relabelled to cube `l`.
pub open spec fn relabeled(m: Seq<Seq<Option<usize>>>, v: Seq<Location>, l: usize) -> Seq<Seq<Option<usize>>>
    decreases v.len(),
{
    if v.len() == 0 {
        m
    } else {
        relabel_at(relabeled(m, v.drop_last(), l), v.last(), l)
    }
}

/// Cube `r` poured into cube `l`, which also takes the current cell.
pub open spec fn merged(b: Board, l: usize, r: usize) -> Board {
    let v = b.cs[r as int].body;
    let cs1 = b.cs.update(r as int, with_body(b.cs[r as int], Seq::empty()));
    let cs2 = cs1.update(l as int, with_body(cs1[l as int], cs1[l as int].body + v + seq![loc(b.x, b.h)]));
    made(Board { h: b.h, w: b.w, x: b.x, cs: cs2, ds: b.ds, m: relabeled(b.m, v, l) }, Some(l))
}

/// The cells above and left of the current one belong to cubes of one kind: the later cube
/// joins the earlier, which takes the current cell too. When both are one cube, nothing
/// happens.
pub open spec fn copied_upper_and_left(b: Board) -> Result<Board, Error> {
    let err = Err(Error::Unmergeable { this: (b.x as i32, (b.h - 1) as i32), that: ((b.x - 1) as i32, b.h as i32) });
    match (index_get(b.m, b.x, b.h - 1), index_get(b.m, b.x - 1, b.h)) {
        (Some(i), Some(j)) => if i < b.cs.len() && j < b.cs.len() {
            if i == j {
                Ok(b)
            } else if b.cs[i as int].kind != b.cs[j as int].kind {
                err
            } else if i < j {
                Ok(merged(b, i, j))
            } else {
                Ok(merged(b, j, i))
            }
        } else {
            err
        },
        _ => err,
    }
}

/// The index of cells read has one row per row started, the last as long as the column
/// reached: the next cell read lands at column `x` of row `h`. It holds from the first
/// cell on (a map that opens with empty lines never reaches it).
pub open spec fn aligned(b: Board) -> bool {
    &&& b.h >= 0
    &&& b.m.len() == b.h + 1
    &&& b.m[b.h].len() == b.x
}

/// The smaller of the cubes above and left of the current cell, when both cells name one.
pub open spec fn merge_target(b: Board) -> Option<usize> {
    match (index_get(b.m, b.x, b.h - 1), index_get(b.m, b.x - 1, b.h)) {
        (Some(i), Some(j)) => Some(if i < j { i } else { j }),
        _ => None,
    }
}

/// A cell read lands at the cursor: on an aligned board, `made` puts `v` at column `x` of
/// row `h`, keeps every other cell, and stays aligned.
pub proof fn lemma_made_at(b: Board, v: Option<usize>)
    requires
        aligned(b),
    ensures
        aligned(made(b, v)),
        index_get(made(b, v).m, b.x, b.h) == v,
        forall|x: int, y: int| !(x == b.x && y == b.h) ==> #[trigger] index_get(made(b, v).m, x, y) == index_get(b.m, x, y),
{
    let m2 = made(b, v).m;
    assert(m2 == b.m.update(b.h, b.m[b.h].push(v)));
}

/// Relabelling cells keeps the shape of the index.
proof fn lemma_relabeled_shape(m: Seq<Seq<Option<usize>>>, vs: Seq<Location>, l: usize)
    ensures
        relabeled(m, vs, l).len() == m.len(),
        forall|y: int| 0 <= y < m.len() ==> #[trigger] relabeled(m, vs, l)[y].len() == m[y].len(),
    decreases vs.len(),
{
    if vs.len() > 0 {
        lemma_relabeled_shape(m, vs.drop_last(), l);
    }
}

/// Pouring one cube into another keeps an aligned board aligned, and the current cell
/// lands at the cursor, with the cube that takes it.
proof fn lemma_merged_at(b: Board, l: usize, r: usize)
    requires
        aligned(b),
    ensures
        aligned(merged(b, l, r)),
        index_get(merged(b, l, r).m, b.x, b.h) == Some(l),
{
    let v = b.cs[r as int].body;
    let cs1 = b.cs.update(r as int, with_body(b.cs[r as int], Seq::empty()));
    let cs2 = cs1.update(l as int, with_body(cs1[l as int], cs1[l as int].body + v + seq![loc(b.x, b.h)]));
    let b1 = Board { h: b.h, w: b.w, x: b.x, cs: cs2, ds: b.ds, m: relabeled(b.m, v, l) };
    lemma_relabeled_shape(b.m, v, l);
    lemma_made_at(b1, Some(l));
}

/// The colour of cube that a map letter names: `W`hite, `R`ed, `B`lue, `G`reen.
pub open spec fn marker_kind(c: char) -> Option<CubeType> {
    match c {
        'W' => Some(CubeType::White),
        'R' => Some(CubeType::Red),
        'B' => Some(CubeType::Blue),
        'G' => Some(CubeType::Green),
        _ => None,
    }
}

/// A colour letter of the map starts a cube of the colour it names: the board gains, as
/// its last cube, a cube of that colour holding just the current cell, which the index
/// gives to it, and the cursor moves one column on; nothing else changes.
pub proof fn lemma_marker_makes_cube(b: Board, c: char)
    ensures
        marker_kind(c) matches Some(k) ==> marked(b, c) == Ok::<Board, Error>(
            Board {
                h: b.h,
                w: b.w,
                x: b.x + 1,
                cs: b.cs.push(CubeView { kind: k, body: seq![Location { x: b.x as i32, y: b.h as i32 }], command: None }),
                ds: b.ds,
                m: index_put(b.m, Some(b.cs.len() as usize)),
            },
        ),
        marker_kind(c) is None && c != 'x' && c != ' ' && c != '~' && c != '|' && c != '/' ==> marked(b, c)
            == Err::<Board, Error>(Error::InvalidMarker { character: c }),
{
}

/// The board after reading the marker `c`.
pub open spec fn marked(b: Board, c: char) -> Result<Board, Error> {
    if c == 'W' {
        Ok(with_cube(b, CubeType::White))
    } else if c == 'R' {
        Ok(with_cube(b, CubeType::Red))
    } else if c == 'B' {
        Ok(with_cube(b, CubeType::Blue))
    } else if c == 'G' {
        Ok(with_cube(b, CubeType::Green))
    } else if c == 'x' {
        Ok(with_destination(b))
    } else if c == ' ' {
        Ok(made(b, None))
    } else if c == '~' {
        copied_left(b)
    } else if c == '|' {
        copied_upper(b)
    } else if c == '/' {
        copied_upper_and_left(b)
    } else {
        Err(Error::InvalidMarker { character: c })
    }
}

/// The board after reading the markers of `row` from `b`, or the first error.
pub open spec fn run_row(b: Board, row: Seq<char>) -> Result<Board, Error>
    decreases row.len(),
{
    if row.len() == 0 {
        Ok(b)
    } else {
        match marked(b, row[0]) {
            Ok(b1) => run_row(b1, row.drop_first()),
            Err(e) => Err(e),
        }
    }
}

/// The board after reading `rows` from `b`, each row ended, or the first error.
pub open spec fn run_rows(b: Board, rows: Seq<Seq<char>>) -> Result<Board, Error>
    decreases rows.len(),
{
    if rows.len() == 0 {
        Ok(b)
    } else {
        match run_row(b, rows[0]) {
            Ok(b1) => run_rows(line_ended(b1), rows.drop_first()),
            Err(e) => Err(e),
        }
    }
}

// ---------------------------------------------------------------------------------------
// Commands

pub open spec fn is_digit(c: char) -> bool {
    '0' <= c <= '9'
}

/// The value of a string of decimal digits.
pub open spec fn number_of(ds: Seq<char>) -> int
    decreases ds.len(),
{
    if ds.len() == 0 {
        0
    } else {
        number_of(ds.drop_last()) * 10 + (ds.last() as int - '0' as int)
    }
}

/// Moves read so far, with counts, and the digits read since the last move.
#[verifier::ext_equal]
pub struct Counting {
    pub ms: Seq<(int, target::Movement)>,
    pub buf: Seq<char>,
}

/// `mv` once more: the last count grows if it counts `mv`, else `mv` starts a new count.
pub open spec fn counted(ms: Seq<(int, target::Movement)>, mv: target::Movement) -> Seq<(int, target::Movement)> {
    if ms.len() > 0 && ms.last().1 == mv {
        ms.update(ms.len() - 1, (ms.last().0 + 1, mv))
    } else {
        ms.push((1, mv))
    }
}

/// A count `n` written after a move: the move is done `n` times in all.
pub open spec fn added(ms: Seq<(int, target::Movement)>, n: int) -> Seq<(int, target::Movement)> {
    if ms.len() > 0 {
        ms.update(ms.len() - 1, (ms.last().0 + n - 1, ms.last().1))
    } else {
        ms.push((n, target::Movement::Idle))
    }
}

/// Pending digits applied to the last move, when they make a number that fits an `i32`.
pub open spec fn flushed(c: Counting) -> Counting {
    if c.buf.len() > 0 && number_of(c.buf) <= i32::MAX {
        Counting { ms: added(c.ms, number_of(c.buf)), buf: Seq::empty() }
    } else {
        c
    }
}

pub open spec fn movement_of(c: char) -> Option<target::Movement> {
    if c == 'I' {
        Some(target::Movement::Idle)
    } else if c == 'L' {
        Some(target::Movement::Left)
    } else if c == 'D' {
        Some(target::Movement::Down)
    } else if c == 'U' {
        Some(target::Movement::Up)
    } else if c == 'R' {
        Some(target::Movement::Right)
    } else {
        None
    }
}

/// Reading one character of a command: a move letter, or a digit once some move was read.
pub open spec fn counting_step(c: Counting, ch: char) -> Result<Counting, Error> {
    match movement_of(ch) {
        Some(mv) => {
            let f = flushed(c);
            Ok(Counting { ms: counted(f.ms, mv), buf: f.buf })
        },
        None => if is_digit(ch) && c.ms.len() > 0 {
            Ok(Counting { ms: c.ms, buf: c.buf.push(ch) })
        } else {
            Err(Error::InvalidMovement { character: ch })
        },
    }
}

/// Nothing counted yet.
pub open spec fn no_counts() -> Counting {
    Counting { ms: Seq::empty(), buf: Seq::empty() }
}

/// The counts after reading `content` from `c`, or the first error.
pub open spec fn run_counting(c: Counting, content: Seq<char>) -> Result<Counting, Error>
    decreases content.len(),
{
    if content.len() == 0 {
        Ok(c)
    } else {
        match counting_step(c, content[0]) {
            Ok(c1) => run_counting(c1, content.drop_first()),
            Err(e) => Err(e),
        }
    }
}

/// Every count fits an `i32`.
pub open spec fn counts_fit(ms: Seq<(int, target::Movement)>) -> bool {
    forall|i: int| 0 <= i < ms.len() ==> i32::MIN <= #[trigger] ms[i].0 <= i32::MAX
}

/// Reading `ch` after `c`, no count leaves the range of an `i32`.
pub open spec fn step_fits(c: Counting, ch: char) -> bool {
    match movement_of(ch) {
        Some(mv) => counts_fit(flushed(c).ms) && counts_fit(counted(flushed(c).ms, mv)),
        None => true,
    }
}

/// Reading `content` from `c`, no count leaves the range of an `i32` before an error.
pub open spec fn fits_from(c: Counting, content: Seq<char>) -> bool
    decreases content.len(),
{
    if content.len() == 0 {
        true
    } else {
        step_fits(c, content[0]) && match counting_step(c, content[0]) {
            Ok(c1) => fits_from(c1, content.drop_first()),
            Err(_) => true,
        }
    }
}

/// Reading `content`, no count ever leaves the range of an `i32`.
pub open spec fn content_fits(content: Seq<char>) -> bool {
    fits_from(no_counts(), content)
}

/// The command made of counted moves: moves counted zero times or less are dropped.
pub open spec fn command_of(is_loop: bool, ms: Seq<(int, target::Movement)>) -> CommandView {
    CommandView {
        is_loop,
        movements: ms.filter(|m: (int, target::Movement)| m.0 > 0).map_values(
            |m: (int, target::Movement)| (m.0 as i32, m.1),
        ),
    }
}

/// The cube of the cell at `(x, y)` follows `c`.
pub open spec fn bound(b: Board, x: i32, y: i32, c: CommandView) -> Result<Board, Error> {
    match index_get(b.m, x as int, y as int) {
        Some(i) if i < b.cs.len() => Ok(
            Board {
                h: b.h,
                w: b.w,
                x: b.x,
                cs: b.cs.update(
                    i as int,
                    CubeView { kind: b.cs[i as int].kind, body: b.cs[i as int].body, command: Some(c) },
                ),
                ds: b.ds,
                m: b.m,
            },
        ),
        _ => Err(Error::InvalidLocation { position: (x, y) }),
    }
}

/// Each cell of `binding` bound to `c`, in order, or the first error.
pub open spec fn bind_all(b: Board, binding: Seq<(i32, i32)>, c: CommandView) -> Result<Board, Error>
    decreases binding.len(),
{
    if binding.len() == 0 {
        Ok(b)
    } else {
        match bound(b, binding[0].0, binding[0].1, c) {
            Ok(b1) => bind_all(b1, binding.drop_first(), c),
            Err(e) => Err(e),
        }
    }
}

/// A command as values.
pub struct CommandSource {
    pub content: Seq<char>,
    pub is_loop: bool,
    pub binding: Seq<(i32, i32)>,
}

/// Each command read and bound, in order, or the first error.
pub open spec fn run_commands(b: Board, cmds: Seq<CommandSource>) -> Result<Board, Error>
    decreases cmds.len(),
{
    if cmds.len() == 0 {
        Ok(b)
    } else {
        let m = cmds[0];
        match run_counting(no_counts(), m.content) {
            Ok(c) => match bind_all(b, m.binding, command_of(m.is_loop, c.ms)) {
                Ok(b1) => run_commands(b1, cmds.drop_first()),
                Err(e) => Err(e),
            },
            Err(e) => Err(e),
        }
    }
}

// ---------------------------------------------------------------------------------------
// The level

/// A source as values.
pub struct SourceView {
    pub title: Seq<char>,
    pub author: Seq<char>,
    pub raw: Seq<char>,
    pub commands: Seq<CommandSource>,
}

impl View for Command {
    type V = CommandSource;

    open spec fn view(&self) -> CommandSource {
        CommandSource {
            content: self.content@,
            is_loop: self.is_loop,
            binding: self.binding@.map_values(|p: [i32; 2]| (p@[0], p@[1])),
        }
    }
}

impl View for Source {
    type V = SourceView;

    open spec fn view(&self) -> SourceView {
        SourceView {
            title: self.info.title@,
            author: self.info.author@,
            raw: self.map.raw@,
            commands: self.map.commands@.map_values(|c: Command| c@),
        }
    }
}

/// The level that a finished board gives: cubes left without cells are dropped.
pub open spec fn seed_of(title: Seq<char>, author: Seq<char>, b: Board) -> SeedView {
    SeedView {
        title,
        author,
        size: target::Size { width: b.w as i32, height: b.h as i32 },
        cubes: b.cs.filter(|c: CubeView| c.body.len() > 0),
        destnations: b.ds,
    }
}

/// The level that `src` describes, or why it is refused.
pub open spec fn parse(src: SourceView) -> Result<SeedView, Error> {
    if src.title.len() == 0 {
        Err(Error::MissingField { field: "info.title" })
    } else if src.author.len() == 0 {
        Err(Error::MissingField { field: "info.author" })
    } else if src.raw.len() == 0 {
        Err(Error::MissingField { field: "map.raw" })
    } else {
        match run_rows(empty_board(), lines(src.raw)) {
            Ok(b) => match run_commands(b, src.commands) {
                Ok(b2) => Ok(seed_of(src.title, src.author, b2)),
                Err(e) => Err(e),
            },
            Err(e) => Err(e),
        }
    }
}

/// Reading `src` keeps every column and row number within an `i32`, and every count too.
pub open spec fn source_fits(src: SourceView) -> bool {
    &&& lines(src.raw).len() <= i32::MAX
    &&& forall|i: int| 0 <= i < lines(src.raw).len() ==> #[trigger] lines(src.raw)[i].len() <= i32::MAX
    &&& forall|i: int| 0 <= i < src.commands.len() ==> content_fits(#[trigger] src.commands[i].content)
}


// ---------------------------------------------------------------------------------------
// Reading

/// The characters of `s`, in order.
fn chars_of(s: &str) -> (r: Vec<char>)
    ensures
        r@ == s@,
{
    let mut r: Vec<char> = Vec::new();
    for c in it: s.chars()
        invariant
            r@ == it.seq().take(it.index() as int),
    {
        r.push(c);
    }
    r
}

/// The lines of `s`.
fn split_lines(s: &Vec<char>) -> (r: Vec<Vec<char>>)
    ensures
        r@.map_values(|l: Vec<char>| l@) == lines(s@),
{
    let mut done: Vec<Vec<char>> = Vec::new();
    let mut cur: Vec<char> = Vec::new();
    let mut k: usize = 0;
    while k < s.len()
        invariant
            k <= s@.len(),
            pieces(s@.take(k as int)).len() == done@.len() + 1,
            forall|i: int|
                0 <= i < done@.len() ==> #[trigger] done@[i]@ == trim_cr(pieces(s@.take(k as int))[i]),
            cur@ == pieces(s@.take(k as int))[done@.len() as int],
        decreases s@.len() - k,
    {
        proof {
            assert(s@.take(k + 1).drop_last() =~= s@.take(k as int));
            assert(s@.take(k + 1).last() == s@[k as int]);
        }
        let c = s[k];
        if c == '\n' {
            let ghost before = done@;
            if cur.len() > 0 && cur[cur.len() - 1] == '\r' {
                cur.pop();
            }
            done.push(cur);
            cur = Vec::new();
            proof {
                assert forall|i: int|
                    0 <= i < done@.len() implies #[trigger] done@[i]@ == trim_cr(
                    pieces(s@.take(k + 1))[i],
                ) by {
                    if i < before.len() {
                        assert(done@[i] == before[i]);
                    }
                }
            }
        } else {
            cur.push(c);
        }
        k = k + 1;
    }
    proof {
        assert(s@.take(s@.len() as int) =~= s@);
    }
    let ghost p = pieces(s@);
    let ghost n = done@.len();
    if cur.len() > 0 {
        done.push(cur);
    }
    proof {
        assert(done@.map_values(|l: Vec<char>| l@) =~= lines(s@));
    }
    done
}

/// The cube of every cell read, row by row.
struct Indexer(Vec<Vec<Option<usize>>>);

impl View for Indexer {
    type V = Seq<Seq<Option<usize>>>;

    closed spec fn view(&self) -> Seq<Seq<Option<usize>>> {
        self.0@.map_values(|r: Vec<Option<usize>>| r@)
    }
}

impl Indexer {
    fn new() -> (r: Indexer)
        ensures
            r@ == Seq::<Seq<Option<usize>>>::empty(),
    {
        let r = Indexer(Vec::new());
        assert(r@ =~= Seq::<Seq<Option<usize>>>::empty());
        r
    }

    fn make_row(&mut self)
        ensures
            final(self)@ == old(self)@.push(Seq::empty()),
    {
        self.0.push(Vec::new());
        assert(self@ =~= old(self)@.push(Seq::empty()));
    }

    fn make_row_with(&mut self, value: Option<usize>)
        ensures
            final(self)@ == old(self)@.push(seq![value]),
    {
        let mut row: Vec<Option<usize>> = Vec::new();
        row.push(value);
        self.0.push(row);
        assert(self@ =~= old(self)@.push(seq![value]));
    }

    fn put(&mut self, value: Option<usize>)
        ensures
            final(self)@ == index_put(old(self)@, value),
    {
        match self.0.pop() {
            None => {
                self.make_row_with(value);
                assert(self@ =~= index_put(old(self)@, value));
            },
            Some(mut v) => {
                v.push(value);
                self.0.push(v);
                assert(self@ =~= index_put(old(self)@, value));
            },
        }
    }

    fn get(&self, x: i32, y: i32) -> (r: Option<usize>)
        ensures
            r == index_get(self@, x as int, y as int),
    {
        if 0 <= y && (y as usize) < self.0.len() {
            let row = &self.0[y as usize];
            if 0 <= x && (x as usize) < row.len() {
                row[x as usize]
            } else {
                None
            }
        } else {
            None
        }
    }

    /// The cell at `(x, y)` names cube `l`, if it names a cube at all.
    fn relabel(&mut self, x: i32, y: i32, l: usize)
        ensures
            final(self)@ == relabel_at(old(self)@, Location { x, y }, l),
    {
        if 0 <= y && (y as usize) < self.0.len() {
            let yy = y as usize;
            if 0 <= x && (x as usize) < self.0[yy].len() && self.0[yy][x as usize].is_some() {
                let mut row = self.0.remove(yy);
                row.set(x as usize, Some(l));
                self.0.insert(yy, row);
                assert(self@ =~= relabel_at(old(self)@, Location { x, y }, l));
            }
        }
    }
}


/// A step that either fails as `expected` does, or succeeds and leaves the board `now`.
pub open spec fn follows(r: Result<(), Error>, now: Board, expected: Result<Board, Error>) -> bool {
    match expected {
        Ok(b) => r is Ok && now == b,
        Err(e) => r == Err::<(), Error>(e),
    }
}

/// A level being read from its map.
struct LevelBuilder {
    i: target::Info,
    h: i32,
    w: i32,
    cs: Vec<target::Cube>,
    ds: Vec<Location>,
    x: i32,
    m: Indexer,
}

impl View for LevelBuilder {
    type V = Board;

    closed spec fn view(&self) -> Board {
        Board {
            h: self.h as int,
            w: self.w as int,
            x: self.x as int,
            cs: cube_views(self.cs@),
            ds: self.ds@,
            m: self.m@,
        }
    }
}

proof fn lemma_views_update(cs: Seq<target::Cube>, i: int, c: target::Cube)
    requires
        0 <= i < cs.len(),
    ensures
        cube_views(cs.update(i, c)) == cube_views(cs).update(i, c@),
{
    assert(cube_views(cs.update(i, c)) =~= cube_views(cs).update(i, c@));
}

impl LevelBuilder {
    closed spec fn info(self) -> (Seq<char>, Seq<char>) {
        (self.i.title@, self.i.author@)
    }

    fn new(i: target::Info) -> (r: LevelBuilder)
        ensures
            r@ == empty_board(),
            r.info() == (i.title@, i.author@),
    {
        let r = LevelBuilder {
            i,
            h: 0,
            w: 0,
            cs: Vec::new(),
            ds: Vec::new(),
            x: 0,
            m: Indexer::new(),
        };
        assert(r@ =~= empty_board());
        r
    }

    fn make(&mut self, value: Option<usize>)
        requires
            old(self)@.x < i32::MAX,
        ensures
            final(self)@ == made(old(self)@, value),
            aligned(old(self)@) ==> aligned(final(self)@) && index_get(final(self)@.m, old(self)@.x, old(self)@.h) == value,
            final(self).info() == old(self).info(),
    {
        proof {
            if aligned(self@) {
                lemma_made_at(self@, value);
            }
        }
        self.x = self.x + 1;
        self.m.put(value);
    }

    fn mark_line_end(&mut self)
        requires
            old(self)@.h < i32::MAX,
        ensures
            final(self)@ == line_ended(old(self)@),
            aligned(old(self)@) ==> aligned(final(self)@),
            final(self).info() == old(self).info(),
    {
        self.h = self.h + 1;
        self.w = if self.w >= self.x {
            self.w
        } else {
            self.x
        };
        self.x = 0;
        self.m.make_row();
    }

    fn make_empty(&mut self)
        requires
            old(self)@.x < i32::MAX,
        ensures
            final(self)@ == made(old(self)@, None),
            final(self).info() == old(self).info(),
    {
        self.make(None);
    }

    fn make_destination(&mut self)
        requires
            old(self)@.x < i32::MAX,
        ensures
            final(self)@ == with_destination(old(self)@),
            final(self).info() == old(self).info(),
    {
        let l = Location { x: self.x, y: self.h };
        self.ds.push(l);
        self.make(None);
    }

    fn make_cube(&mut self, kind: CubeType)
        requires
            old(self)@.x < i32::MAX,
        ensures
            final(self)@ == with_cube(old(self)@, kind),
            final(self).info() == old(self).info(),
    {
        let i = self.cs.len();
        let mut body: Vec<Location> = Vec::new();
        body.push(Location { x: self.x, y: self.h });
        let c = target::Cube { kind, body, command: None };
        self.cs.push(c);
        proof {
            assert(cube_views(self.cs@) =~= cube_views(old(self).cs@).push(c@));
            assert(c@.body =~= seq![loc(old(self)@.x, old(self)@.h)]);
        }
        self.make(Some(i));
    }

    /// The current cell added to cube `i`.
    fn grow(&mut self, i: usize)
        requires
            i < old(self)@.cs.len(),
            old(self)@.x < i32::MAX,
        ensures
            final(self)@ == grown(old(self)@, i),
            final(self).info() == old(self).info(),
    {
        proof {
            assert(old(self)@.cs.len() == old(self).cs@.len());
        }
        let mut c = self.cs.remove(i);
        c.body.push(Location { x: self.x, y: self.h });
        self.cs.insert(i, c);
        proof {
            assert(self.cs@ =~= old(self).cs@.update(i as int, c));
            lemma_views_update(old(self).cs@, i as int, c);
            assert(c@ == with_body(old(self)@.cs[i as int], old(self)@.cs[i as int].body.push(loc(old(self)@.x, old(self)@.h))));
        }
        self.make(Some(i));
    }

    fn copy_left(&mut self) -> (r: Result<(), Error>)
        requires
            old(self)@.x < i32::MAX,
            old(self)@.x >= 0,
        ensures
            follows(r, final(self)@, copied_left(old(self)@)),
            r is Err ==> final(self)@ == old(self)@,
            aligned(old(self)@) ==> aligned(final(self)@),
            aligned(old(self)@) && r is Ok ==> index_get(final(self)@.m, old(self)@.x, old(self)@.h) == index_get(
                old(self)@.m,
                old(self)@.x - 1,
                old(self)@.h,
            ),
            final(self).info() == old(self).info(),
    {
        proof {
            if aligned(self@) {
                if let Some(i) = index_get(self@.m, self@.x - 1, self@.h) {
                    if i < self@.cs.len() {
                        let b = self@;
                        lemma_made_at(Board {
                            h: b.h,
                            w: b.w,
                            x: b.x,
                            cs: b.cs.update(i as int, with_body(b.cs[i as int], b.cs[i as int].body.push(loc(b.x, b.h)))),
                            ds: b.ds,
                            m: b.m,
                        }, Some(i));
                    }
                }
            }
        }
        let x = self.x - 1;
        let y = self.h;
        match self.m.get(x, y) {
            Some(i) => {
                if i < self.cs.len() {
                    self.grow(i);
                    Ok(())
                } else {
                    Err(Error::Uncopiable { position: (x, y) })
                }
            },
            None => Err(Error::Uncopiable { position: (x, y) }),
        }
    }

    fn copy_upper(&mut self) -> (r: Result<(), Error>)
        requires
            old(self)@.x < i32::MAX,
            old(self)@.h >= 0,
        ensures
            follows(r, final(self)@, copied_upper(old(self)@)),
            r is Err ==> final(self)@ == old(self)@,
            aligned(old(self)@) ==> aligned(final(self)@),
            aligned(old(self)@) && r is Ok ==> index_get(final(self)@.m, old(self)@.x, old(self)@.h) == index_get(
                old(self)@.m,
                old(self)@.x,
                old(self)@.h - 1,
            ),
            final(self).info() == old(self).info(),
    {
        proof {
            if aligned(self@) {
                if let Some(i) = index_get(self@.m, self@.x, self@.h - 1) {
                    if i < self@.cs.len() {
                        let b = self@;
                        lemma_made_at(Board {
                            h: b.h,
                            w: b.w,
                            x: b.x,
                            cs: b.cs.update(i as int, with_body(b.cs[i as int], b.cs[i as int].body.push(loc(b.x, b.h)))),
                            ds: b.ds,
                            m: b.m,
                        }, Some(i));
                    }
                }
            }
        }
        let x = self.x;
        let y = self.h - 1;
        match self.m.get(x, y) {
            Some(i) => {
                if i < self.cs.len() {
                    self.grow(i);
                    Ok(())
                } else {
                    Err(Error::Uncopiable { position: (x, y) })
                }
            },
            None => Err(Error::Uncopiable { position: (x, y) }),
        }
    }

    /// Cube `r` poured into cube `l`, which also takes the current cell.
    fn merge(&mut self, l: usize, r: usize)
        requires
            l < r < old(self)@.cs.len(),
            old(self)@.x < i32::MAX,
        ensures
            final(self)@ == merged(old(self)@, l, r),
            final(self).info() == old(self).info(),
    {
        let ghost b = old(self)@;
        proof {
            assert(b.cs.len() == old(self).cs@.len());
        }
        let mut cr = self.cs.remove(r);
        let mut v: Vec<Location> = Vec::new();
        std::mem::swap(&mut v, &mut cr.body);
        self.cs.insert(r, cr);
        proof {
            assert(self.cs@ =~= old(self).cs@.update(r as int, cr));
            lemma_views_update(old(self).cs@, r as int, cr);
            assert(cr@ == with_body(b.cs[r as int], Seq::empty()));
            assert(v@ == b.cs[r as int].body);
        }
        let ghost cs1 = self.cs@;
        let mut k: usize = 0;
        while k < v.len()
            invariant
                k <= v@.len(),
                v@ == b.cs[r as int].body,
                self.m@ == relabeled(b.m, v@.take(k as int), l),
                self.cs@ == cs1,
                self@.x == b.x,
                self@.h == b.h,
                self@.w == b.w,
                self@.ds == b.ds,
                self.info() == old(self).info(),
            decreases v@.len() - k,
        {
            let o = v[k];
            self.m.relabel(o.x, o.y, l);
            proof {
                assert(v@.take(k + 1).drop_last() =~= v@.take(k as int));
            }
            k = k + 1;
        }
        proof {
            assert(v@.take(v@.len() as int) =~= v@);
        }
        let ghost vv = v@;
        let mut cl = self.cs.remove(l);
        let ghost cl0 = cl;
        cl.body.append(&mut v);
        cl.body.push(Location { x: self.x, y: self.h });
        self.cs.insert(l, cl);
        proof {
            assert(self.cs@ =~= cs1.update(l as int, cl));
            lemma_views_update(cs1, l as int, cl);
            assert(cube_views(cs1)[l as int] == cl0@);
            assert(cl@.body =~= cl0@.body + vv + seq![loc(b.x, b.h)]);
            assert(cl@ == with_body(cl0@, cl0@.body + vv + seq![loc(b.x, b.h)]));
        }
        self.make(Some(l));
    }

    fn copy_upper_and_left(&mut self) -> (r: Result<(), Error>)
        requires
            old(self)@.x < i32::MAX,
            old(self)@.x >= 0,
            old(self)@.h >= 0,
        ensures
            follows(r, final(self)@, copied_upper_and_left(old(self)@)),
            r is Err ==> final(self)@ == old(self)@,
            aligned(old(self)@) ==> aligned(final(self)@),
            aligned(old(self)@) && r is Ok && final(self)@.x == old(self)@.x + 1 ==> index_get(
                final(self)@.m,
                old(self)@.x,
                old(self)@.h,
            ) == merge_target(old(self)@),
            final(self).info() == old(self).info(),
    {
        proof {
            let b = self@;
            if aligned(b) {
                if let (Some(i), Some(j)) = (index_get(b.m, b.x, b.h - 1), index_get(b.m, b.x - 1, b.h)) {
                    if i < j {
                        lemma_merged_at(b, i, j);
                    } else if j < i {
                        lemma_merged_at(b, j, i);
                    }
                }
            }
        }
        let upper = (self.x, self.h - 1);
        let left = (self.x - 1, self.h);
        let lhs = self.m.get(upper.0, upper.1);
        let rhs = self.m.get(left.0, left.1);
        proof {
            assert(self@.cs.len() == self.cs@.len());
        }
        match (lhs, rhs) {
            (Some(i), Some(j)) => {
                if i < self.cs.len() && j < self.cs.len() {
                    if i == j {
                        Ok(())
                    } else if self.cs[i].kind != self.cs[j].kind {
                        Err(Error::Unmergeable { this: upper, that: left })
                    } else {
                        if i < j {
                            self.merge(i, j);
                        } else {
                            self.merge(j, i);
                        }
                        Ok(())
                    }
                } else {
                    Err(Error::Unmergeable { this: upper, that: left })
                }
            },
            _ => Err(Error::Unmergeable { this: upper, that: left }),
        }
    }
}


impl LevelBuilder {
    fn bind_command(&mut self, x: i32, y: i32, command: target::Command) -> (r: Result<(), Error>)
        ensures
            follows(r, final(self)@, bound(old(self)@, x, y, command@)),
            r is Err ==> final(self)@ == old(self)@,
            final(self).info() == old(self).info(),
    {
        proof {
            assert(self@.cs.len() == self.cs@.len());
        }
        match self.m.get(x, y) {
            Some(i) => {
                if i < self.cs.len() {
                    let ghost c0 = self.cs@[i as int];
                    let mut c = self.cs.remove(i);
                    c.command = Some(command);
                    self.cs.insert(i, c);
                    proof {
                        assert(self.cs@ =~= old(self).cs@.update(i as int, c));
                        lemma_views_update(old(self).cs@, i as int, c);
                    }
                    Ok(())
                } else {
                    Err(Error::InvalidLocation { position: (x, y) })
                }
            },
            None => Err(Error::InvalidLocation { position: (x, y) }),
        }
    }

    /// The level read: cubes left without cells are dropped.
    fn into_seed(self) -> (r: target::Seed)
        ensures
            r@ == seed_of(self.info().0, self.info().1, self@),
    {
        let LevelBuilder { i, h, w, cs, ds, x, m } = self;
        let ghost all = cs@;
        let mut cs = cs;
        let mut out: Vec<target::Cube> = Vec::new();
        let ghost mut k: int = 0;
        while cs.len() > 0
            invariant
                0 <= k <= all.len(),
                cs@ == all.skip(k),
                cube_views(out@) == cube_views(all.take(k)).filter(|c: CubeView| c.body.len() > 0),
            decreases cs@.len(),
        {
            let c = cs.remove(0);
            proof {
                assert(all.take(k + 1) =~= all.take(k).push(c));
                assert(cube_views(all.take(k + 1)) =~= cube_views(all.take(k)).push(c@));
                cube_views(all.take(k)).lemma_filter_push(c@, |c: CubeView| c.body.len() > 0);
                assert(cs@ =~= all.skip(k + 1));
            }
            if c.body.len() > 0 {
                let ghost before = out@;
                out.push(c);
                proof {
                    assert(cube_views(out@) =~= cube_views(before).push(c@));
                }
            }
            proof {
                k = k + 1;
            }
        }
        proof {
            assert(all.take(k) =~= all);
        }
        target::Seed {
            info: i,
            size: target::Size { width: w, height: h },
            cubes: out,
            destnations: ds,
        }
    }
}

/// Moves being counted.
struct CommandBuilder(target::Command);

impl View for CommandBuilder {
    type V = Seq<(int, target::Movement)>;

    closed spec fn view(&self) -> Seq<(int, target::Movement)> {
        self.0.movements@.map_values(|m: (i32, target::Movement)| (m.0 as int, m.1))
    }
}

impl CommandBuilder {
    closed spec fn is_loop(self) -> bool {
        self.0.is_loop
    }

    fn new(is_loop: bool) -> (r: CommandBuilder)
        ensures
            r@ == Seq::<(int, target::Movement)>::empty(),
            r.is_loop() == is_loop,
    {
        let r = CommandBuilder(target::Command { is_loop, movements: Vec::new() });
        assert(r@ =~= Seq::<(int, target::Movement)>::empty());
        r
    }

    fn put(&mut self, movement: target::Movement)
        requires
            counts_fit(counted(old(self)@, movement)),
        ensures
            final(self)@ == counted(old(self)@, movement),
            final(self).is_loop() == old(self).is_loop(),
    {
        let ghost ms = old(self)@;
        match self.0.movements.pop() {
            Some(c) => {
                if c.1 == movement {
                    assert(counted(ms, movement)[ms.len() - 1].0 == c.0 + 1);
                    self.0.movements.push((c.0 + 1, movement));
                } else {
                    self.0.movements.push(c);
                    self.0.movements.push((1, movement));
                }
            },
            None => {
                self.0.movements.push((1, movement));
            },
        }
        assert(self@ =~= counted(ms, movement));
    }

    fn add(&mut self, number: i32)
        requires
            number > i32::MIN,
            counts_fit(added(old(self)@, number as int)),
        ensures
            final(self)@ == added(old(self)@, number as int),
            final(self).is_loop() == old(self).is_loop(),
    {
        let ghost ms = old(self)@;
        match self.0.movements.pop() {
            Some(c) => {
                assert(added(ms, number as int)[ms.len() - 1].0 == c.0 + number - 1);
                self.0.movements.push((c.0 + (number - 1), c.1));
            },
            None => {
                self.0.movements.push((number, target::Movement::Idle));
            },
        }
        assert(self@ =~= added(ms, number as int));
    }

    fn is_empty(&self) -> (r: bool)
        ensures
            r == (self@.len() == 0),
    {
        self.0.movements.len() == 0
    }

    /// The command: moves counted zero times or less are dropped.
    fn into_command(self) -> (r: target::Command)
        ensures
            r@ == command_of(self.is_loop(), self@),
    {
        let CommandBuilder(target::Command { is_loop, movements }) = self;
        let ghost all = movements@;
        let mut out: Vec<(i32, target::Movement)> = Vec::new();
        let mut k: usize = 0;
        while k < movements.len()
            invariant
                k <= all.len(),
                movements@ == all,
                out@ == command_of(is_loop, all.take(k as int).map_values(
                    |m: (i32, target::Movement)| (m.0 as int, m.1),
                )).movements,
            decreases all.len() - k,
        {
            let m = movements[k];
            proof {
                let f = |m: (i32, target::Movement)| (m.0 as int, m.1);
                let p = |m: (int, target::Movement)| m.0 > 0;
                assert(all.take(k + 1).map_values(f) =~= all.take(k as int).map_values(f).push(f(m)));
                all.take(k as int).map_values(f).lemma_filter_push(f(m), p);
            }
            if m.0 > 0 {
                out.push(m);
            }
            proof {
                let f = |m: (i32, target::Movement)| (m.0 as int, m.1);
                let p = |m: (int, target::Movement)| m.0 > 0;
                let g = |m: (int, target::Movement)| (m.0 as i32, m.1);
                let s0 = all.take(k as int).map_values(f).filter(p);
                if m.0 > 0 {
                    assert(s0.push(f(m)).map_values(g) =~= s0.map_values(g).push(m));
                }
            }
            k = k + 1;
        }
        proof {
            assert(all.take(all.len() as int) =~= all);
        }
        target::Command { is_loop, movements: out }
    }
}

/// A copy of `c`.
fn copy_command(c: &target::Command) -> (r: target::Command)
    ensures
        r@ == c@,
{
    let mut movements: Vec<(i32, target::Movement)> = Vec::new();
    let mut k: usize = 0;
    while k < c.movements.len()
        invariant
            k <= c.movements@.len(),
            movements@ == c.movements@.take(k as int),
        decreases c.movements@.len() - k,
    {
        movements.push(c.movements[k]);
        proof {
            assert(c.movements@.take(k + 1) =~= c.movements@.take(k as int).push(c.movements@[k as int]));
        }
        k = k + 1;
    }
    assert(c.movements@.take(c.movements@.len() as int) =~= c.movements@);
    target::Command { is_loop: c.is_loop, movements }
}

proof fn lemma_number_grows(ds: Seq<char>, k: int)
    requires
        0 <= k <= ds.len(),
        forall|i: int| 0 <= i < ds.len() ==> is_digit(#[trigger] ds[i]),
    ensures
        0 <= number_of(ds.take(k)) <= number_of(ds),
    decreases ds.len(),
{
    if ds.len() > 0 {
        if k == ds.len() {
            assert(ds.take(k) =~= ds);
            lemma_number_grows(ds.drop_last(), k - 1);
            assert(ds.drop_last().take(k - 1) =~= ds.drop_last());
        } else {
            lemma_number_grows(ds.drop_last(), k);
            assert(ds.drop_last().take(k) =~= ds.take(k));
            lemma_number_grows(ds.drop_last(), ds.len() - 1);
            assert(ds.drop_last().take(ds.len() - 1) =~= ds.drop_last());
        }
    }
}

/// The number that a string of digits writes, if it fits an `i32`.
fn parse_number(ds: &Vec<char>) -> (r: Option<i32>)
    requires
        forall|i: int| 0 <= i < ds@.len() ==> is_digit(#[trigger] ds@[i]),
    ensures
        r == (if number_of(ds@) <= i32::MAX {
            Some(number_of(ds@) as i32)
        } else {
            None
        }),
        number_of(ds@) >= 0,
{
    proof {
        lemma_number_grows(ds@, ds@.len() as int);
    }
    let mut acc: i32 = 0;
    let mut k: usize = 0;
    while k < ds.len()
        invariant
            k <= ds@.len(),
            forall|i: int| 0 <= i < ds@.len() ==> is_digit(#[trigger] ds@[i]),
            acc as int == number_of(ds@.take(k as int)),
        decreases ds@.len() - k,
    {
        proof {
            assert(ds@.take(k + 1).drop_last() =~= ds@.take(k as int));
        }
        let d = ds[k];
        assert(is_digit(ds@[k as int]));
        let digit = (d as u32 - '0' as u32) as i32;
        match acc.checked_mul(10) {
            Some(t) => match t.checked_add(digit) {
                Some(u) => {
                    acc = u;
                },
                None => {
                    proof {
                        lemma_number_grows(ds@, k + 1);
                    }
                    return None;
                },
            },
            None => {
                proof {
                    lemma_number_grows(ds@, k + 1);
                }
                return None;
            },
        }
        k = k + 1;
    }
    proof {
        assert(ds@.take(ds@.len() as int) =~= ds@);
    }
    Some(acc)
}

/// Pending digits applied to the last move, when they make a number that fits an `i32`.
fn put_pending(b: &mut CommandBuilder, n: &mut Vec<char>)
    requires
        forall|i: int| 0 <= i < old(n)@.len() ==> is_digit(#[trigger] old(n)@[i]),
        counts_fit(flushed((Counting { ms: old(b)@, buf: old(n)@ })).ms),
    ensures
        (Counting { ms: final(b)@, buf: final(n)@ }) == flushed((Counting { ms: old(b)@, buf: old(n)@ })),
        final(b).is_loop() == old(b).is_loop(),
{
    if n.len() > 0 {
        match parse_number(n) {
            Some(i) => {
                b.add(i);
                n.clear();
                assert(n@ =~= Seq::<char>::empty());
            },
            None => {},
        }
    }
    assert((Counting { ms: b@, buf: n@ }) =~= flushed((Counting { ms: old(b)@, buf: old(n)@ })));
}


impl Source {
    /// The level that this source describes, or why it is refused.
    #[verifier::loop_isolation(false)]
    pub fn into_level(self) -> (r: Result<target::Seed, Error>)
        requires
            source_fits(self@),
        ensures
            match parse(self@) {
                Ok(v) => r matches Ok(s) && s@ == v,
                Err(e) => r matches Err(f) && f == e,
            },
    {
        let ghost src = self@;
        let Source { info, map } = self;
        if info.title.as_str().is_empty() {
            return Err(Error::MissingField { field: "info.title" });
        }
        if info.author.as_str().is_empty() {
            return Err(Error::MissingField { field: "info.author" });
        }
        if map.raw.as_str().is_empty() {
            return Err(Error::MissingField { field: "map.raw" });
        }
        let raw = chars_of(map.raw.as_str());
        let rows = split_lines(&raw);
        let ghost ls = lines(src.raw);
        let mut builder = LevelBuilder::new(target::Info { title: info.title, author: info.author });
        proof {
            assert(ls.skip(0) =~= ls);
        }
        let mut y: usize = 0;
        while y < rows.len()
            invariant
                y <= rows@.len(),
                rows@.map_values(|l: Vec<char>| l@) == ls,
                ls == lines(src.raw),
                source_fits(src),
                src.title.len() > 0 && src.author.len() > 0 && src.raw.len() > 0,
                run_rows(builder@, ls.skip(y as int)) == run_rows(empty_board(), ls),
                builder@.x == 0,
                builder@.h == y,
                builder.info() == (src.title, src.author),
            decreases rows@.len() - y,
        {
            let row = &rows[y];
            let ghost b0 = builder@;
            proof {
                assert(row@ == ls[y as int]);
                assert(ls[y as int].len() <= i32::MAX);
                assert(ls.skip(y as int)[0] == ls[y as int]);
                assert(ls.skip(y as int).drop_first() =~= ls.skip(y + 1));
                assert(row@.skip(0) =~= row@);
            }
            let mut k: usize = 0;
            while k < row.len()
                invariant
                    k <= row@.len(),
                    y < ls.len(),
                    row@ == ls[y as int],
                    row@.len() <= i32::MAX,
                    ls == lines(src.raw),
                    src.title.len() > 0 && src.author.len() > 0 && src.raw.len() > 0,
                    run_rows(b0, ls.skip(y as int)) == run_rows(empty_board(), ls),
                    ls.skip(y as int)[0] == row@,
                    run_row(builder@, row@.skip(k as int)) == run_row(b0, row@),
                    0 <= builder@.x <= k,
                    builder@.h == y,
                    y < i32::MAX,
                    builder.info() == (src.title, src.author),
                decreases row@.len() - k,
            {
                let c = row[k];
                let ghost bk = builder@;
                proof {
                    assert(row@.skip(k as int)[0] == c);
                    assert(row@.skip(k as int).drop_first() =~= row@.skip(k + 1));
                }
                let step: Result<(), Error> = if c == 'W' {
                    builder.make_cube(CubeType::White);
                    Ok(())
                } else if c == 'R' {
                    builder.make_cube(CubeType::Red);
                    Ok(())
                } else if c == 'B' {
                    builder.make_cube(CubeType::Blue);
                    Ok(())
                } else if c == 'G' {
                    builder.make_cube(CubeType::Green);
                    Ok(())
                } else if c == 'x' {
                    builder.make_destination();
                    Ok(())
                } else if c == ' ' {
                    builder.make_empty();
                    Ok(())
                } else if c == '~' {
                    builder.copy_left()
                } else if c == '|' {
                    builder.copy_upper()
                } else if c == '/' {
                    builder.copy_upper_and_left()
                } else {
                    Err(Error::InvalidMarker { character: c })
                };
                proof {
                    assert(follows(step, builder@, marked(bk, c)));
                }
                match step {
                    Ok(()) => {},
                    Err(e) => {
                        proof {
                            assert(marked(bk, c) == Err::<Board, Error>(e));
                            assert(run_row(bk, row@.skip(k as int)) == Err::<Board, Error>(e));
                            assert(run_rows(b0, ls.skip(y as int)) == Err::<Board, Error>(e));
                            assert(parse(src) == Err::<SeedView, Error>(e));
                        }
                        return Err(e);
                    },
                }
                k = k + 1;
            }
            proof {
                assert(row@.skip(k as int).len() == 0);
            }
            builder.mark_line_end();
            y = y + 1;
        }
        proof {
            assert(ls.skip(y as int).len() == 0);
        }
        let ghost board = builder@;
        let cmds = &map.commands;
        let ghost cs = src.commands;
        proof {
            assert(cs.skip(0) =~= cs);
        }
        let mut ci: usize = 0;
        while ci < cmds.len()
            invariant
                ci <= cmds@.len(),
                cs == cmds@.map_values(|c: Command| c@),
                source_fits(src),
                cs == src.commands,
                src.title.len() > 0 && src.author.len() > 0 && src.raw.len() > 0,
                run_rows(empty_board(), lines(src.raw)) == Ok::<Board, Error>(board),
                run_commands(builder@, cs.skip(ci as int)) == run_commands(board, cs),
                builder.info() == (src.title, src.author),
            decreases cmds@.len() - ci,
        {
            let m = &cmds[ci];
            let content = chars_of(m.content.as_str());
            let ghost bc = builder@;
            proof {
                assert(cs[ci as int] == m@);
                assert(content_fits(m@.content));
                assert(cs.skip(ci as int)[0] == m@);
                assert(cs.skip(ci as int).drop_first() =~= cs.skip(ci + 1));
                assert(content@.skip(0) =~= content@);
                assert((Counting { ms: Seq::empty(), buf: Seq::empty() }) =~= no_counts());
            }
            let mut n: Vec<char> = Vec::new();
            let mut b = CommandBuilder::new(m.is_loop);
            proof {
                assert(n@ =~= Seq::<char>::empty());
                assert((Counting { ms: b@, buf: n@ }) =~= no_counts());
            }
            let mut k: usize = 0;
            while k < content.len()
                invariant
                    k <= content@.len(),
                    content@ == m@.content,
                    run_counting((Counting { ms: b@, buf: n@ }), content@.skip(k as int))
                        == run_counting(no_counts(), content@),
                    fits_from((Counting { ms: b@, buf: n@ }), content@.skip(k as int)),
                    forall|i: int| 0 <= i < n@.len() ==> is_digit(#[trigger] n@[i]),
                    b.is_loop() == m.is_loop,
                    src.title.len() > 0 && src.author.len() > 0 && src.raw.len() > 0,
                    run_rows(empty_board(), lines(src.raw)) == Ok::<Board, Error>(board),
                    run_commands(bc, cs.skip(ci as int)) == run_commands(board, cs),
                    cs.skip(ci as int)[0] == m@,
                    cs == src.commands,
                decreases content@.len() - k,
            {
                let c = content[k];
                let ghost ck = Counting { ms: b@, buf: n@ };
                proof {
                    assert(content@.skip(k as int)[0] == c);
                    assert(content@.skip(k as int).drop_first() =~= content@.skip(k + 1));
                }
                let mv: Option<target::Movement> = if c == 'I' {
                    Some(target::Movement::Idle)
                } else if c == 'L' {
                    Some(target::Movement::Left)
                } else if c == 'D' {
                    Some(target::Movement::Down)
                } else if c == 'U' {
                    Some(target::Movement::Up)
                } else if c == 'R' {
                    Some(target::Movement::Right)
                } else {
                    None
                };
                proof {
                    assert(mv == movement_of(c));
                }
                match mv {
                    Some(movement) => {
                        put_pending(&mut b, &mut n);
                        b.put(movement);
                        proof {
                            assert((Counting { ms: b@, buf: n@ }) =~= counting_step(ck, c)->Ok_0);
                        }
                    },
                    None => {
                        if '0' <= c && c <= '9' && !b.is_empty() {
                            n.push(c);
                            proof {
                                assert((Counting { ms: b@, buf: n@ }) =~= counting_step(ck, c)->Ok_0);
                            }
                        } else {
                            proof {
                                let e = Error::InvalidMovement { character: c };
                                assert(counting_step(ck, c) == Err::<Counting, Error>(e));
                                assert(run_counting(ck, content@.skip(k as int)) == Err::<Counting, Error>(e));
                                assert(run_commands(bc, cs.skip(ci as int)) == Err::<Board, Error>(e));
                                assert(parse(src) == Err::<SeedView, Error>(e));
                            }
                            return Err(Error::InvalidMovement { character: c });
                        }
                    },
                }
                k = k + 1;
            }
            proof {
                assert(content@.skip(k as int).len() == 0);
            }
            let command = b.into_command();
            let ghost b1 = builder@;
            proof {
                assert(m@.binding.skip(0) =~= m@.binding);
            }
            let mut j: usize = 0;
            while j < m.binding.len()
                invariant
                    j <= m.binding@.len(),
                    bind_all(builder@, m@.binding.skip(j as int), command@) == bind_all(
                        b1,
                        m@.binding,
                        command@,
                    ),
                    builder.info() == (src.title, src.author),
                    src.title.len() > 0 && src.author.len() > 0 && src.raw.len() > 0,
                    run_rows(empty_board(), lines(src.raw)) == Ok::<Board, Error>(board),
                    run_commands(b1, cs.skip(ci as int)) == run_commands(board, cs),
                    cs.skip(ci as int)[0] == m@,
                    cs == src.commands,
                    run_counting(no_counts(), m@.content) matches Ok(cnt) && command@ == command_of(
                        m@.is_loop,
                        cnt.ms,
                    ),
                decreases m.binding@.len() - j,
            {
                let p = m.binding[j];
                let ghost bj = builder@;
                proof {
                    assert(m@.binding.skip(j as int)[0] == (p@[0], p@[1]));
                    assert(m@.binding.skip(j as int).drop_first() =~= m@.binding.skip(j + 1));
                }
                let r = builder.bind_command(p[0], p[1], copy_command(&command));
                match r {
                    Ok(()) => {},
                    Err(e) => {
                        proof {
                            assert(bound(bj, p@[0], p@[1], command@) == Err::<Board, Error>(e));
                            assert(bind_all(bj, m@.binding.skip(j as int), command@) == Err::<Board, Error>(e));
                            assert(run_commands(b1, cs.skip(ci as int)) == Err::<Board, Error>(e));
                            assert(parse(src) == Err::<SeedView, Error>(e));
                        }
                        return Err(e);
                    },
                }
                j = j + 1;
            }
            proof {
                assert(m@.binding.skip(j as int).len() == 0);
            }
            ci = ci + 1;
        }
        proof {
            assert(cs.skip(ci as int).len() == 0);
        }
        Ok(builder.into_seed())
    }
}


proof fn lemma_row_keeps_height(b: Board, row: Seq<char>)
    ensures
        run_row(b, row) matches Ok(b2) ==> b2.h == b.h,
    decreases row.len(),
{
    if row.len() > 0 {
        match marked(b, row[0]) {
            Ok(b1) => {
                lemma_row_keeps_height(b1, row.drop_first());
            },
            Err(_) => {},
        }
    }
}

proof fn lemma_rows_height(b: Board, rows: Seq<Seq<char>>)
    ensures
        run_rows(b, rows) matches Ok(b2) ==> b2.h == b.h + rows.len(),
    decreases rows.len(),
{
    if rows.len() > 0 {
        lemma_row_keeps_height(b, rows[0]);
        match run_row(b, rows[0]) {
            Ok(b1) => {
                lemma_rows_height(line_ended(b1), rows.drop_first());
            },
            Err(_) => {},
        }
    }
}

proof fn lemma_binding_keeps_height(b: Board, binding: Seq<(i32, i32)>, c: CommandView)
    ensures
        bind_all(b, binding, c) matches Ok(b2) ==> b2.h == b.h,
    decreases binding.len(),
{
    if binding.len() > 0 {
        match bound(b, binding[0].0, binding[0].1, c) {
            Ok(b1) => {
                lemma_binding_keeps_height(b1, binding.drop_first(), c);
            },
            Err(_) => {},
        }
    }
}

proof fn lemma_commands_keep_height(b: Board, cmds: Seq<CommandSource>)
    ensures
        run_commands(b, cmds) matches Ok(b2) ==> b2.h == b.h,
    decreases cmds.len(),
{
    if cmds.len() > 0 {
        let m = cmds[0];
        match run_counting(no_counts(), m.content) {
            Ok(c) => {
                let cmd = command_of(m.is_loop, c.ms);
                lemma_binding_keeps_height(b, m.binding, cmd);
                match bind_all(b, m.binding, cmd) {
                    Ok(b1) => {
                        lemma_commands_keep_height(b1, cmds.drop_first());
                    },
                    Err(_) => {},
                }
            },
            Err(_) => {},
        }
    }
}

/// A level read from a source is as tall as its map has lines, and each of its cubes
/// takes at least one cell.
pub proof fn lemma_level_shape(src: SourceView)
    requires
        source_fits(src),
    ensures
        parse(src) matches Ok(v) ==> {
            &&& v.size.height == lines(src.raw).len()
            &&& forall|k: int| 0 <= k < v.cubes.len() ==> (#[trigger] v.cubes[k]).body.len() > 0
        },
{
    if src.title.len() > 0 && src.author.len() > 0 && src.raw.len() > 0 {
        lemma_rows_height(empty_board(), lines(src.raw));
        match run_rows(empty_board(), lines(src.raw)) {
            Ok(b) => {
                lemma_commands_keep_height(b, src.commands);
                match run_commands(b, src.commands) {
                    Ok(b2) => {
                        let v = seed_of(src.title, src.author, b2);
                        assert forall|k: int| 0 <= k < v.cubes.len() implies (#[trigger] v.cubes[k]).body.len() > 0 by {
                            b2.cs.lemma_filter_pred(|c: CubeView| c.body.len() > 0, k);
                        }
                    },
                    Err(_) => {},
                }
            },
            Err(_) => {},
        }
    }
}


/// The counts of `ms` as integers.
pub open spec fn wide_counts(ms: Seq<(i64, target::Movement)>) -> Seq<(int, target::Movement)> {
    ms.map_values(|m: (i64, target::Movement)| (m.0 as int, m.1))
}

/// Whether counting the moves of `content` keeps every count within an `i32`.
fn content_fits_exec(content: &Vec<char>) -> (r: bool)
    ensures
        r == content_fits(content@),
{
    let mut ms: Vec<(i64, target::Movement)> = Vec::new();
    let mut buf: Vec<char> = Vec::new();
    proof {
        assert(content@.skip(0) =~= content@);
        assert((Counting { ms: wide_counts(ms@), buf: buf@ }) =~= no_counts());
    }
    let mut k: usize = 0;
    while k < content.len()
        invariant
            k <= content@.len(),
            fits_from((Counting { ms: wide_counts(ms@), buf: buf@ }), content@.skip(k as int))
                == content_fits(content@),
            counts_fit(wide_counts(ms@)),
            forall|i: int| 0 <= i < buf@.len() ==> is_digit(#[trigger] buf@[i]),
        decreases content@.len() - k,
    {
        let c = content[k];
        let ghost ck = Counting { ms: wide_counts(ms@), buf: buf@ };
        proof {
            assert(content@.skip(k as int)[0] == c);
            assert(content@.skip(k as int).drop_first() =~= content@.skip(k + 1));
        }
        let mv: Option<target::Movement> = if c == 'I' {
            Some(target::Movement::Idle)
        } else if c == 'L' {
            Some(target::Movement::Left)
        } else if c == 'D' {
            Some(target::Movement::Down)
        } else if c == 'U' {
            Some(target::Movement::Up)
        } else if c == 'R' {
            Some(target::Movement::Right)
        } else {
            None
        };
        match mv {
            Some(movement) => {
                // apply the pending digits
                if buf.len() > 0 {
                    match parse_number(&buf) {
                        Some(n) => {
                            let ghost before = ms@;
                            match ms.pop() {
                                Some(last) => {
                                    assert(wide_counts(before)[before.len() - 1] == (last.0 as int, last.1));
                                    let v = last.0 + (n as i64) - 1;
                                    ms.push((v, last.1));
                                    if v < i32::MIN as i64 || v > i32::MAX as i64 {
                                        proof {
                                            assert(wide_counts(ms@) =~= flushed(ck).ms);
                                            let f = flushed(ck).ms;
                                            assert(f[f.len() - 1].0 == v);
                                        }
                                        return false;
                                    }
                                },
                                None => {
                                    ms.push((n as i64, target::Movement::Idle));
                                },
                            }
                            buf.clear();
                            proof {
                                assert(wide_counts(ms@) =~= flushed(ck).ms);
                                assert(buf@ =~= flushed(ck).buf);
                            }
                        },
                        None => {},
                    }
                }
                let ghost f = Counting { ms: wide_counts(ms@), buf: buf@ };
                proof {
                    assert(f =~= flushed(ck));
                }
                // count the move
                let ghost before = ms@;
                match ms.pop() {
                    Some(last) => {
                        assert(wide_counts(before)[before.len() - 1] == (last.0 as int, last.1));
                        if last.1 == movement {
                            ms.push((last.0 + 1, movement));
                            if last.0 + 1 > i32::MAX as i64 {
                                proof {
                                    let g = counted(f.ms, movement);
                                    assert(g[g.len() - 1].0 == last.0 + 1);
                                }
                                return false;
                            }
                        } else {
                            ms.push(last);
                            ms.push((1, movement));
                        }
                    },
                    None => {
                        ms.push((1, movement));
                    },
                }
                proof {
                    assert(wide_counts(ms@) =~= counted(f.ms, movement));
                }
            },
            None => {
                if '0' <= c && c <= '9' && ms.len() > 0 {
                    buf.push(c);
                    proof {
                        assert((Counting { ms: wide_counts(ms@), buf: buf@ }) =~= counting_step(ck, c)->Ok_0);
                    }
                } else {
                    return true;
                }
            },
        }
        k = k + 1;
    }
    true
}

impl Source {
    /// Whether reading this source keeps every column, row and count within an `i32`.
    #[verifier::loop_isolation(false)]
    pub fn fits(&self) -> (r: bool)
        ensures
            r == source_fits(self@),
    {
        let raw = chars_of(self.map.raw.as_str());
        let rows = split_lines(&raw);
        let ghost ls = lines(self@.raw);
        if rows.len() > i32::MAX as usize {
            return false;
        }
        let mut y: usize = 0;
        while y < rows.len()
            invariant
                y <= rows@.len(),
                rows@.map_values(|l: Vec<char>| l@) == ls,
                forall|i: int| 0 <= i < y ==> #[trigger] ls[i].len() <= i32::MAX,
            decreases rows@.len() - y,
        {
            assert(rows@[y as int]@ == ls[y as int]);
            if rows[y].len() > i32::MAX as usize {
                return false;
            }
            y = y + 1;
        }
        let cmds = &self.map.commands;
        let mut ci: usize = 0;
        while ci < cmds.len()
            invariant
                ci <= cmds@.len(),
                self@.commands == cmds@.map_values(|c: Command| c@),
                forall|i: int| 0 <= i < ci ==> content_fits(#[trigger] self@.commands[i].content),
            decreases cmds@.len() - ci,
        {
            let content = chars_of(cmds[ci].content.as_str());
            assert(self@.commands[ci as int] == cmds@[ci as int]@);
            if !content_fits_exec(&content) {
                proof {
                    assert(!content_fits(self@.commands[ci as int].content));
                }
                return false;
            }
            ci = ci + 1;
        }
        true
    }
}

} // verus!