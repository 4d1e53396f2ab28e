use vstd::prelude::*;
use vstd::string::*;

verus! {

/// One of the four moves on the grid. Each direction has a single-bit code,
/// so a set of open directions packs into one small integer.
#[derive(Debug, Clone, Copy, PartialEq, Eq, Structural, Hash)]
pub enum Direction {
    Left,
    Up,
    Right,
    Down,
}

/// A cell coordinate. `y` grows downwards.
#[derive(Debug, Clone, Copy, PartialEq, Eq, Structural, Hash)]
pub struct Position {
    pub x: i32,
    pub y: i32,
}

impl View for Position {
    type V = (int, int);

    open spec fn view(&self) -> (int, int) {
        (self.x as int, self.y as int)
    }
}

/// The bit that stands for `d` in a passage mask.
pub open spec fn code_of(d: Direction) -> u8 {
    match d {
        Direction::Left => 8,
        Direction::Up => 4,
        Direction::Right => 2,
        Direction::Down => 1,
    }
}

/// The word that names a direction.
pub open spec fn word_of(d: Direction) -> Seq<char> {
    match d {
        Direction::Up => "up"@,
        Direction::Right => "right"@,
        Direction::Down => "down"@,
        Direction::Left => "left"@,
    }
}

/// The opposite direction.
pub open spec fn opposite(d: Direction) -> Direction {
    match d {
        Direction::Up => Direction::Down,
        Direction::Down => Direction::Up,
        Direction::Left => Direction::Right,
        Direction::Right => Direction::Left,
    }
}

/// The coordinate one step from `p` in direction `d`.
pub open spec fn moved(p: (int, int), d: Direction) -> (int, int) {
    match d {
        Direction::Up => (p.0, p.1 - 1),
        Direction::Right => (p.0 + 1, p.1),
        Direction::Down => (p.0, p.1 + 1),
        Direction::Left => (p.0 - 1, p.1),
    }
}

/// A coordinate pair that an `i32` position can hold.
pub open spec fn fits_i32(p: (int, int)) -> bool {
    i32::MIN <= p.0 <= i32::MAX && i32::MIN <= p.1 <= i32::MAX
}

/// Every neighbour of `p` can be held by a position.
pub open spec fn neighbours_fit(p: (int, int)) -> bool {
    i32::MIN < p.0 < i32::MAX && i32::MIN < p.1 < i32::MAX
}

/// The coordinates of a sequence of positions.
pub open spec fn views(ps: Seq<Position>) -> Seq<(int, int)> {
    ps.map_values(|p: Position| p@)
}

/// A coordinate on a grid that an `i32` position spans, with room for
/// every neighbour.
pub open spec fn within_grid(p: (int, int)) -> bool {
    0 <= p.0 < i32::MAX && 0 <= p.1 < i32::MAX
}

/// The order in which `Position::surroundings` lists the neighbours.
pub open spec fn neighbour_dir(i: int) -> Direction {
    if i == 0 {
        Direction::Up
    } else if i == 1 {
        Direction::Down
    } else if i == 2 {
        Direction::Right
    } else {
        Direction::Left
    }
}

/// Squared Euclidean distance between two coordinates.
pub open spec fn dist_sq(a: (int, int), b: (int, int)) -> int {
    (a.0 - b.0) * (a.0 - b.0) + (a.1 - b.1) * (a.1 - b.1)
}

/// The direction that the `i`-th flag of a position report stands for.
pub open spec fn report_dir(i: int) -> Direction {
    if i == 0 {
        Direction::Up
    } else if i == 1 {
        Direction::Right
    } else if i == 2 {
        Direction::Down
    } else {
        Direction::Left
    }
}

/// A report flag that says the way is open.
pub open spec fn is_open_flag(a: Seq<char>) -> bool {
    a == seq!['0']
}

/// The open directions among the first `n` flags, in report order.
pub open spec fn open_dirs(flags: Seq<Seq<char>>, n: int) -> Seq<Direction>
    decreases n,
{
    if n <= 0 {
        seq![]
    } else if is_open_flag(flags[n - 1]) {
        open_dirs(flags, n - 1).push(report_dir(n - 1))
    } else {
        open_dirs(flags, n - 1)
    }
}

/// The passage mask of a sequence of directions: the OR of their codes.
pub open spec fn mask_of(s: Seq<Direction>) -> u8
    decreases s.len(),
{
    if s.len() == 0 {
        0
    } else {
        mask_of(s.drop_last()) | code_of(s.last())
    }
}

/// A mask with exactly one direction open.
pub open spec fn is_single(bits: u8) -> bool {
    bits == 1 || bits == 2 || bits == 4 || bits == 8
}

/// The glyph that draws a cell marker.
pub open spec fn glyph_of(bits: u8) -> char {
    if bits == 3 {
        '╔'
    } else if bits == 5 {
        '║'
    } else if bits == 6 {
        '╚'
    } else if bits == 7 {
        '╠'
    } else if bits == 9 {
        '╗'
    } else if bits == 10 {
        '═'
    } else if bits == 11 {
        '╦'
    } else if bits == 12 {
        '╝'
    } else if bits == 13 {
        '╣'
    } else if bits == 14 {
        '╩'
    } else if bits == 15 {
        '╬'
    } else if bits == 16 {
        '░'
    } else if bits == 32 {
        'S'
    } else if bits == 64 {
        'G'
    } else if is_single(bits) {
        'x'
    } else {
        ' '
    }
}

/// A passage mask never has a bit beyond the four direction bits.
pub proof fn lemma_mask_below_16(s: Seq<Direction>)
    ensures
        mask_of(s) < 16,
    decreases s.len(),
{
    if s.len() > 0 {
        lemma_mask_below_16(s.drop_last());
        let a = mask_of(s.drop_last());
        let b = code_of(s.last());
        assert(a < 16 && b < 16 ==> a | b < 16) by (bit_vector);
    }
}

/// Inverting a direction twice gives it back.
pub proof fn lemma_inverse_involutive(d: Direction)
    ensures
        opposite(opposite(d)) == d,
{
}

/// A step followed by a step in the opposite direction returns to the start.
pub proof fn lemma_step_back(p: (int, int), d: Direction)
    ensures
        moved(moved(p, d), opposite(d)) == p,
{
}

impl Position {
    pub fn new(x: i32, y: i32) -> (r: Self)
        ensures
            r.x == x,
            r.y == y,
    {
        Self { x, y }
    }

    /// The neighbouring position in direction `d`.
    pub fn add(&self, d: &Direction) -> (r: Self)
        requires
            fits_i32(moved(self@, *d)),
        ensures
            r@ == moved(self@, *d),
    {
        let x = self.x;
        let y = self.y;
        match d {
            Direction::Up => Self { x, y: y - 1 },
            Direction::Right => Self { x: x + 1, y },
            Direction::Down => Self { x, y: y + 1 },
            Direction::Left => Self { x: x - 1, y },
        }
    }

    /// The four neighbours, in the order up, down, right, left.
    pub fn surroundings(&self) -> (r: Vec<Position>)
        requires
            neighbours_fit(self@),
        ensures
            r@.len() == 4,
            forall|i: int| 0 <= i < 4 ==> (#[trigger] r@[i])@ == moved(self@, neighbour_dir(i)),
    {
        let mut r: Vec<Position> = Vec::new();
        r.push(self.add(&Direction::Up));
        r.push(self.add(&Direction::Down));
        r.push(self.add(&Direction::Right));
        r.push(self.add(&Direction::Left));
        r
    }

    /// Squared Euclidean distance to `b`, which orders positions by distance
    /// exactly as the Euclidean distance does.
    pub fn distance_sq(&self, b: &Self) -> (r: i128)
        ensures
            r == dist_sq(self@, b@),
    {
        let dx = self.x as i128 - b.x as i128;
        let dy = self.y as i128 - b.y as i128;
        assert(dx * dx <= 0x1_0000_0000_0000_0000 && dx * dx >= 0) by (nonlinear_arith)
            requires
                -0x1_0000_0000 <= dx <= 0x1_0000_0000,
        ;
        assert(dy * dy <= 0x1_0000_0000_0000_0000 && dy * dy >= 0) by (nonlinear_arith)
            requires
                -0x1_0000_0000 <= dy <= 0x1_0000_0000,
        ;
        dx * dx + dy * dy
    }
}

impl From<(i32, i32)> for Position {
    fn from(p: (i32, i32)) -> Position {
        Position { x: p.0, y: p.1 }
    }
}

impl vstd::std_specs::convert::FromSpecImpl<(i32, i32)> for Position {
    open spec fn obeys_from_spec() -> bool {
        true
    }

    open spec fn from_spec(p: (i32, i32)) -> Position {
        Position { x: p.0, y: p.1 }
    }
}

impl Direction {
    pub const EMPTY: u8 = 0;
    pub const FLOODED: u8 = 0b10000;
    pub const START: u8 = 0b100000;
    pub const GOAL: u8 = 0b1000000;

    /// The open directions of a position report, whose flags stand for up,
    /// right, down and left in that order; `"0"` means open.
    pub fn parse(args: [&str; 4]) -> (r: Vec<Self>)
        ensures
            r@ == open_dirs(args@.map_values(|a: &str| a@), 4),
    {
        let ghost flags = args@.map_values(|a: &str| a@);
        let dic = [Direction::Up, Direction::Right, Direction::Down, Direction::Left];
        let mut out: Vec<Direction> = Vec::new();
        let mut i: usize = 0;
        while i < 4
            invariant
                i <= 4,
                flags == args@.map_values(|a: &str| a@),
                dic@ == seq![Direction::Up, Direction::Right, Direction::Down, Direction::Left],
                out@ == open_dirs(flags, i as int),
            decreases 4 - i,
        {
            let arg: &str = args[i];
            assert(flags[i as int] == arg@);
            let open = arg.unicode_len() == 1 && arg.get_char(0) == '0';
            assert(open == is_open_flag(arg@)) by {
                if open {
                    assert(arg@ =~= seq!['0']);
                }
            }
            if open {
                out.push(dic[i]);
            }
            i = i + 1;
        }
        out
    }

    /// Whether a passage mask leaves exactly one way open.
    pub fn is_dead_end(bits: u8) -> (r: bool)
        ensures
            r == is_single(bits),
    {
        bits == 4 || bits == 2 || bits == 8 || bits == 1
    }

    /// The passage mask of a list of open directions.
    pub fn into_bits(slice: &[Direction]) -> (r: u8)
        ensures
            r == mask_of(slice@),
            r < 16,
    {
        let mut acc: u8 = 0;
        let mut i: usize = 0;
        while i < slice.len()
            invariant
                i <= slice@.len(),
                acc == mask_of(slice@.subrange(0, i as int)),
            decreases slice@.len() - i,
        {
            assert(slice@.subrange(0, i as int + 1).drop_last() =~= slice@.subrange(0, i as int));
            acc = acc | slice[i].code();
            i = i + 1;
        }
        assert(slice@.subrange(0, i as int) =~= slice@);
        proof {
            lemma_mask_below_16(slice@);
        }
        acc
    }

    /// The glyph that draws a cell marker.
    pub fn into_char(bits: u8) -> (r: char)
        ensures
            r == glyph_of(bits),
    {
        match bits {
            3 => '╔',
            5 => '║',
            6 => '╚',
            7 => '╠',
            9 => '╗',
            10 => '═',
            11 => '╦',
            12 => '╝',
            13 => '╣',
            14 => '╩',
            15 => '╬',
            16 => '░',
            32 => 'S',
            64 => 'G',
            1 | 2 | 4 | 8 => 'x',
            _ => ' ',
        }
    }

    /// The lowercase English word for this direction, as a move command
    /// names it.
    pub fn as_str(&self) -> (r: &'static str)
        ensures
            r@ == word_of(*self),
    {
        match self {
            Direction::Up => "up",
            Direction::Right => "right",
            Direction::Down => "down",
            Direction::Left => "left",
        }
    }

    /// The bit of this direction in a passage mask.
    pub fn code(&self) -> (r: u8)
        ensures
            r == code_of(*self),
    {
        match self {
            Direction::Left => 8,
            Direction::Up => 4,
            Direction::Right => 2,
            Direction::Down => 1,
        }
    }

    pub fn inverse(&self) -> (r: Self)
        ensures
            r == opposite(*self),
    {
        match self {
            Direction::Up => Direction::Down,
            Direction::Down => Direction::Up,
            Direction::Left => Direction::Right,
            Direction::Right => Direction::Left,
        }
    }
}

} // verus!
