//! Steps to the eight tiles around a tile, and the masks that say which of them are open.

use crate::text::{chars_of, parse_u32, same, text_of, to_ascii_lowercase, trim};
use vstd::prelude::*;
#[allow(unused_imports)]
use crate::text::{ascii_lowered, trimmed, unsigned_value};

verus! {

/// A step to a neighbouring tile.
#[derive(Debug, Clone, Copy, PartialEq, Eq, Structural)]
pub enum Movement {
    North,
    South,
    East,
    West,
    NorthEast,
    NorthWest,
    SouthEast,
    SouthWest,
}

pub const NORTH: Movement = Movement::North;

pub const SOUTH: Movement = Movement::South;

pub const EAST: Movement = Movement::East;

pub const WEST: Movement = Movement::West;

pub const NORTHEAST: Movement = Movement::NorthEast;

pub const NORTHWEST: Movement = Movement::NorthWest;

pub const SOUTHEAST: Movement = Movement::SouthEast;

pub const SOUTHWEST: Movement = Movement::SouthWest;

impl Movement {
    pub open spec fn flag(self) -> u32 {
        match self {
            Movement::North => 1,
            Movement::South => 2,
            Movement::East => 4,
            Movement::West => 8,
            Movement::NorthEast => 16,
            Movement::NorthWest => 32,
            Movement::SouthEast => 64,
            Movement::SouthWest => 128,
        }
    }

    pub open spec fn offset(self) -> (int, int) {
        match self {
            Movement::North => (0, 1),
            Movement::South => (0, -1),
            Movement::East => (1, 0),
            Movement::West => (-1, 0),
            Movement::NorthEast => (1, 1),
            Movement::NorthWest => (-1, 1),
            Movement::SouthEast => (1, -1),
            Movement::SouthWest => (-1, -1),
        }
    }

    pub open spec fn label(self) -> Seq<char> {
        match self {
            Movement::North => "north"@,
            Movement::South => "south"@,
            Movement::East => "east"@,
            Movement::West => "west"@,
            Movement::NorthEast => "northeast"@,
            Movement::NorthWest => "northwest"@,
            Movement::SouthEast => "southeast"@,
            Movement::SouthWest => "southwest"@,
        }
    }

    /// The bit of the step in a mask.
    pub fn bit(&self) -> (r: u32)
        ensures
            r == self.flag(),
    {
        match self {
            Movement::North => 1,
            Movement::South => 2,
            Movement::East => 4,
            Movement::West => 8,
            Movement::NorthEast => 16,
            Movement::NorthWest => 32,
            Movement::SouthEast => 64,
            Movement::SouthWest => 128,
        }
    }

    pub fn dx(&self) -> (r: i32)
        ensures
            r == self.offset().0,
            -1 <= r <= 1,
    {
        match self {
            Movement::North => 0,
            Movement::South => 0,
            Movement::East => 1,
            Movement::West => -1,
            Movement::NorthEast => 1,
            Movement::NorthWest => -1,
            Movement::SouthEast => 1,
            Movement::SouthWest => -1,
        }
    }

    pub fn dy(&self) -> (r: i32)
        ensures
            r == self.offset().1,
            -1 <= r <= 1,
    {
        match self {
            Movement::North => 1,
            Movement::South => -1,
            Movement::East => 0,
            Movement::West => 0,
            Movement::NorthEast => 1,
            Movement::NorthWest => 1,
            Movement::SouthEast => -1,
            Movement::SouthWest => -1,
        }
    }

    pub fn name(&self) -> (r: &'static str)
        ensures
            r@ == self.label(),
    {
        match self {
            Movement::North => "north",
            Movement::South => "south",
            Movement::East => "east",
            Movement::West => "west",
            Movement::NorthEast => "northeast",
            Movement::NorthWest => "northwest",
            Movement::SouthEast => "southeast",
            Movement::SouthWest => "southwest",
        }
    }
}

/// The order in which steps are taken: along the axes first.
pub open spec fn steps_in_order() -> Seq<Movement> {
    seq![NORTH, SOUTH, EAST, WEST, NORTHEAST, NORTHWEST, SOUTHEAST, SOUTHWEST]
}

pub fn movement_order() -> (r: [Movement; 8])
    ensures
        r@ == steps_in_order(),
{
    let r: [Movement; 8] = [NORTH, SOUTH, EAST, WEST, NORTHEAST, NORTHWEST, SOUTHEAST, SOUTHWEST];
    assert(r@ =~= steps_in_order());
    r
}

/// `n` where the condition holds, else 0.
pub open spec fn when(b: bool, n: int) -> int {
    if b { n } else { 0 }
}

/// The mask of a tile's data, whose lowest eight bits stand for west, north, east, south,
/// northwest, northeast, southeast and southwest.
pub open spec fn tiledata_mask(v: i64) -> u32 {
    (when(v & 1 != 0, 8) + when(v & 2 != 0, 1) + when(v & 4 != 0, 4) + when(v & 8 != 0, 2) + when(v & 16 != 0, 32) + when(
        v & 32 != 0,
        16,
    ) + when(v & 64 != 0, 64) + when(v & 128 != 0, 128)) as u32
}

/// The mask of a tile's data, where it has any.
pub fn mask_from_tiledata(value: Option<i64>) -> (r: Option<u32>)
    ensures
        r == match value {
            Some(v) => Some(tiledata_mask(v)),
            None => None,
        },
{
    match value {
        Some(v) => {
            let mut m: u32 = 0;
            if v & 1 != 0 {
                m += 8;
            }
            if v & 2 != 0 {
                m += 1;
            }
            if v & 4 != 0 {
                m += 4;
            }
            if v & 8 != 0 {
                m += 2;
            }
            if v & 16 != 0 {
                m += 32;
            }
            if v & 32 != 0 {
                m += 16;
            }
            if v & 64 != 0 {
                m += 64;
            }
            if v & 128 != 0 {
                m += 128;
            }
            Some(m)
        },
        None => None,
    }
}

/// The bit of a tile's data that stands for a step.
pub open spec fn data_bit(m: Movement) -> i64 {
    match m {
        Movement::West => 1,
        Movement::North => 2,
        Movement::East => 4,
        Movement::South => 8,
        Movement::NorthWest => 16,
        Movement::NorthEast => 32,
        Movement::SouthEast => 64,
        Movement::SouthWest => 128,
    }
}

/// A step is open in the mask exactly where its bit is set in the tile's data.
pub proof fn law_tiledata_bits(v: i64, m: Movement)
    ensures
        tiledata_mask(v) & m.flag() != 0 <==> v & data_bit(m) != 0,
{
    let (w, n, e, s) = (v & 1 != 0, v & 2 != 0, v & 4 != 0, v & 8 != 0);
    let (nw, ne, se, sw) = (v & 16 != 0, v & 32 != 0, v & 64 != 0, v & 128 != 0);
    let a = if n { 1u32 } else { 0 };
    let b = if s { 2u32 } else { 0 };
    let c = if e { 4u32 } else { 0 };
    let d = if w { 8u32 } else { 0 };
    let f = if ne { 16u32 } else { 0 };
    let g = if nw { 32u32 } else { 0 };
    let h = if se { 64u32 } else { 0 };
    let i = if sw { 128u32 } else { 0 };
    let mask = tiledata_mask(v);
    assert(mask == a + b + c + d + f + g + h + i);
    let k = m.flag();
    assert((k == 1 || k == 2 || k == 4 || k == 8 || k == 16 || k == 32 || k == 64 || k == 128) && mask & k != 0 <==> (k == 1
        && a != 0) || (k == 2 && b != 0) || (k == 4 && c != 0) || (k == 8 && d != 0) || (k == 16 && f != 0) || (k == 32 && g
        != 0) || (k == 64 && h != 0) || (k == 128 && i != 0)) by (bit_vector)
        requires
            mask == a + b + c + d + f + g + h + i,
            a == 0 || a == 1,
            b == 0 || b == 2,
            c == 0 || c == 4,
            d == 0 || d == 8,
            f == 0 || f == 16,
            g == 0 || g == 32,
            h == 0 || h == 64,
            i == 0 || i == 128,
    ;
}

/// The mask that a number gives: its lowest 32 bits.
pub fn decode_allowed_mask_int(value: Option<i64>) -> (r: u32)
    ensures
        r == match value {
            Some(v) => v as u32,
            None => 0,
        },
{
    match value {
        Some(v) => v as u32,
        None => 0,
    }
}

/// The bit of a step by its name; 0 for what is no name.
pub open spec fn named_bit(name: Seq<char>) -> u32 {
    if name == "north"@ {
        1
    } else if name == "south"@ {
        2
    } else if name == "east"@ {
        4
    } else if name == "west"@ {
        8
    } else if name == "northeast"@ {
        16
    } else if name == "northwest"@ {
        32
    } else if name == "southeast"@ {
        64
    } else if name == "southwest"@ {
        128
    } else {
        0
    }
}

fn bit_of_name(name: &str) -> (r: u32)
    ensures
        r == named_bit(name@),
{
    if same(name, "north") {
        1
    } else if same(name, "south") {
        2
    } else if same(name, "east") {
        4
    } else if same(name, "west") {
        8
    } else if same(name, "northeast") {
        16
    } else if same(name, "northwest") {
        32
    } else if same(name, "southeast") {
        64
    } else if same(name, "southwest") {
        128
    } else {
        0
    }
}

/// Where the part that starts at `i` ends: at the next comma, or at the end.
pub open spec fn part_end(s: Seq<char>, i: int) -> int
    decreases s.len() - i,
{
    if i < 0 || i >= s.len() || s[i] == ',' { i } else { part_end(s, i + 1) }
}

proof fn lemma_part_end(s: Seq<char>, i: int)
    requires
        0 <= i <= s.len(),
    ensures
        i <= part_end(s, i) <= s.len(),
    decreases s.len() - i,
{
    if i < s.len() && s[i] != ',' {
        lemma_part_end(s, i + 1);
    }
}

/// The bits of the steps that are named from `i` on, with commas between them. White space round
/// a name and the case of its letters do not count.
pub open spec fn named_bits(s: Seq<char>, i: int) -> u32
    decreases s.len() - i + 1,
{
    if i < 0 || i > s.len() || part_end(s, i) < i || part_end(s, i) > s.len() {
        0
    } else {
        named_bit(ascii_lowered(trimmed(s.subrange(i, part_end(s, i))))) | named_bits(s, part_end(s, i) + 1)
    }
}

/// The mask that a text gives: a number, or the names of steps.
pub open spec fn allowed_mask(s: Seq<char>) -> u32 {
    let t = trimmed(s);
    if t.len() == 0 {
        0
    } else {
        match unsigned_value(t) {
            Some(n) => if n <= u32::MAX { n as u32 } else { named_bits(t, 0) },
            None => named_bits(t, 0),
        }
    }
}

/// The mask that a text gives, where there is one: a number, or the names of steps with commas
/// between them. Other names are passed over.
pub fn decode_allowed_mask_str(s: Option<&str>) -> (r: u32)
    ensures
        r == match s {
            Some(t) => allowed_mask(t@),
            None => 0,
        },
{
    let raw: &str = match s {
        Some(t) => t,
        None => {
            return 0;
        },
    };
    let stripped: &str = trim(raw);
    let chars: Vec<char> = chars_of(stripped);
    if chars.len() == 0 {
        return 0;
    }
    if let Some(n) = parse_u32(stripped) {
        return n;
    }
    let ghost t = chars@;
    let len: usize = chars.len();
    let mut mask: u32 = 0;
    let mut i: usize = 0;
    let mut more: bool = true;
    proof {
        let all = named_bits(t, 0);
        assert(0u32 | all == all) by (bit_vector);
    }
    while more
        invariant
            t == chars@,
            len == t.len(),
            more ==> i <= len,
            more ==> mask | named_bits(t, i as int) == named_bits(t, 0),
            !more ==> mask == named_bits(t, 0),
        decreases (if more { len - i + 1 } else { 0 }),
    {
        let start: usize = i;
        proof {
            lemma_part_end(t, start as int);
        }
        while i < len && chars[i] != ','
            invariant
                t == chars@,
                len == t.len(),
                start <= i <= len,
                part_end(t, start as int) == part_end(t, i as int),
            decreases len - i,
        {
            i += 1;
        }
        let part: String = text_of(&chars.as_slice()[start..i]);
        let name: String = to_ascii_lowercase(trim(part.as_str()));
        let b: u32 = bit_of_name(name.as_str());
        proof {
            let rest = named_bits(t, i + 1);
            let m = mask;
            assert((m | b) | rest == m | (b | rest)) by (bit_vector);
            if i == len {
                assert(rest == 0);
                assert((m | b) | 0 == m | b) by (bit_vector);
            }
        }
        mask = mask | b;
        if i < len {
            i += 1;
        } else {
            more = false;
        }
    }
    mask
}

/// North is up, east is right, and a diagonal step is one along each axis. Steps with one bit are one
/// step, and so are steps with one offset.
pub proof fn law_steps(m: Movement, o: Movement)
    ensures
        NORTH.offset() == (0int, 1int),
        EAST.offset() == (1int, 0int),
        SOUTH.offset() == (-NORTH.offset().0, -NORTH.offset().1),
        WEST.offset() == (-EAST.offset().0, -EAST.offset().1),
        NORTHEAST.offset() == (EAST.offset().0, NORTH.offset().1),
        NORTHWEST.offset() == (WEST.offset().0, NORTH.offset().1),
        SOUTHEAST.offset() == (EAST.offset().0, SOUTH.offset().1),
        SOUTHWEST.offset() == (WEST.offset().0, SOUTH.offset().1),
        m.offset() == o.offset() ==> m == o,
        m.flag() == o.flag() ==> m == o,
        NORTH.flag() == 1 && SOUTH.flag() == 2 && EAST.flag() == 4 && WEST.flag() == 8 && NORTHEAST.flag() == 16 && NORTHWEST.flag()
            == 32 && SOUTHEAST.flag() == 64 && SOUTHWEST.flag() == 128,
{
}

/// The names of the steps.
pub proof fn law_step_names()
    ensures
        NORTH.label() == "north"@,
        SOUTH.label() == "south"@,
        EAST.label() == "east"@,
        WEST.label() == "west"@,
        NORTHEAST.label() == "northeast"@,
        NORTHWEST.label() == "northwest"@,
        SOUTHEAST.label() == "southeast"@,
        SOUTHWEST.label() == "southwest"@,
{
}

/// All eight steps are tried, each once, and those along an axis before the diagonal ones.
pub proof fn law_axes_come_first(m: Movement)
    ensures
        steps_in_order().len() == 8,
        steps_in_order().contains(m),
        forall|i: int|
            0 <= i < 8 ==> ((#[trigger] steps_in_order()[i]).offset().0 == 0 || steps_in_order()[i].offset().1 == 0 <==> i < 4),
{
    let s = steps_in_order();
    assert(s[0] == NORTH && s[1] == SOUTH && s[2] == EAST && s[3] == WEST && s[4] == NORTHEAST && s[5] == NORTHWEST && s[6]
        == SOUTHEAST && s[7] == SOUTHWEST);
}

/// Whether the characters from `a` to `b` are a part of the text between commas.
pub open spec fn is_part(s: Seq<char>, a: int, b: int) -> bool {
    &&& 0 <= a <= b <= s.len()
    &&& a == 0 || s[a - 1] == ','
    &&& b == s.len() || s[b] == ','
    &&& forall|k: int| a <= k < b ==> #[trigger] s[k] != ','
}

/// Whether a part of the text from `i` on names the step.
pub open spec fn is_named_from(s: Seq<char>, i: int, m: Movement) -> bool {
    exists|a: int, b: int| i <= a && #[trigger] is_part(s, a, b) && ascii_lowered(trimmed(s.subrange(a, b))) == m.label()
}

proof fn lemma_part_ends(s: Seq<char>, i: int)
    requires
        0 <= i <= s.len(),
    ensures
        i <= part_end(s, i) <= s.len(),
        part_end(s, i) < s.len() ==> s[part_end(s, i)] == ',',
        forall|k: int| i <= k < part_end(s, i) ==> #[trigger] s[k] != ',',
    decreases s.len() - i,
{
    if i < s.len() && s[i] != ',' {
        lemma_part_ends(s, i + 1);
    }
}

proof fn lemma_named_bit(name: Seq<char>, m: Movement)
    ensures
        named_bit(name) & m.flag() != 0 <==> name == m.label(),
{
    reveal_strlit("north");
    reveal_strlit("south");
    reveal_strlit("east");
    reveal_strlit("west");
    reveal_strlit("northeast");
    reveal_strlit("northwest");
    reveal_strlit("southeast");
    reveal_strlit("southwest");
    let (n, s, e, w) = ("north"@, "south"@, "east"@, "west"@);
    let (ne, nw, se, sw) = ("northeast"@, "northwest"@, "southeast"@, "southwest"@);
    assert(n.len() == 5 && s.len() == 5 && e.len() == 4 && w.len() == 4 && ne.len() == 9 && nw.len() == 9 && se.len() == 9
        && sw.len() == 9);
    assert(n[0] == 'n' && s[0] == 's' && e[0] == 'e' && w[0] == 'w' && ne[0] == 'n' && nw[0] == 'n' && se[0] == 's' && sw[0]
        == 's');
    assert(ne[5] == 'e' && nw[5] == 'w' && se[5] == 'e' && sw[5] == 'w');
    let (k, f) = (named_bit(name), m.flag());
    assert((k == 0 || k == 1 || k == 2 || k == 4 || k == 8 || k == 16 || k == 32 || k == 64 || k == 128) && (f == 1 || f == 2 || f
        == 4 || f == 8 || f == 16 || f == 32 || f == 64 || f == 128) ==> (k & f != 0 <==> k == f)) by (bit_vector);
}

proof fn lemma_named_bits(s: Seq<char>, i: int, m: Movement)
    requires
        0 <= i <= s.len() + 1,
        i == 0 || i == s.len() + 1 || s[i - 1] == ',',
    ensures
        named_bits(s, i) & m.flag() != 0 <==> is_named_from(s, i, m),
    decreases s.len() - i + 1,
{
    if i > s.len() {
        let f = m.flag();
        assert(0u32 & f == 0) by (bit_vector);
    } else {
        lemma_part_ends(s, i);
        let e = part_end(s, i);
        lemma_named_bits(s, e + 1, m);
        let name = ascii_lowered(trimmed(s.subrange(i, e)));
        lemma_named_bit(name, m);
        let (x, y, f) = (named_bit(name), named_bits(s, e + 1), m.flag());
        assert((x | y) & f != 0 <==> x & f != 0 || y & f != 0) by (bit_vector);
        assert(is_part(s, i, e));
        if is_named_from(s, i, m) {
            let (a, b) = choose|a: int, b: int| i <= a && #[trigger] is_part(s, a, b) && ascii_lowered(trimmed(s.subrange(a, b))) == m.label();
            if a == i {
                if b < e {
                    assert(s[b] != ',');
                } else if e < b {
                    assert(s[e] != ',');
                }
                assert(b == e);
            } else {
                assert(a - 1 >= e) by {
                    if a - 1 < e {
                        assert(s[a - 1] != ',');
                    }
                }
                assert(is_named_from(s, e + 1, m));
            }
        }
        if is_named_from(s, e + 1, m) {
            let (a, b) = choose|a: int, b: int| e + 1 <= a && #[trigger] is_part(s, a, b) && ascii_lowered(trimmed(s.subrange(a, b))) == m.label();
            assert(i <= a && is_part(s, a, b));
        }
    }
}

/// A step is open in the mask of a text that is no number exactly where a part between its commas names
/// it; a number is the mask itself.
pub proof fn law_named_steps_are_open(s: Seq<char>, m: Movement)
    ensures
        forall|n: nat| unsigned_value(trimmed(s)) == Some(n) && n <= u32::MAX ==> allowed_mask(s) == #[trigger] (n as u32),
        unsigned_value(trimmed(s)) is None ==> (allowed_mask(s) & m.flag() != 0 <==> is_named_from(trimmed(s), 0, m)),
{
    lemma_named_bits(trimmed(s), 0, m);
    if trimmed(s).len() == 0 {
        let f = m.flag();
        assert(0u32 & f == 0) by (bit_vector);
        assert(is_named_from(trimmed(s), 0, m) ==> false) by {
            if is_named_from(trimmed(s), 0, m) {
                let t = trimmed(s);
                let (a, b) = choose|a: int, b: int| 0 <= a && #[trigger] is_part(t, a, b) && ascii_lowered(trimmed(t.subrange(a, b))) == m.label();
                assert(trimmed(t.subrange(a, b)).len() == 0);
                reveal_strlit("north");
                reveal_strlit("south");
                reveal_strlit("east");
                reveal_strlit("west");
                reveal_strlit("northeast");
                reveal_strlit("northwest");
                reveal_strlit("southeast");
                reveal_strlit("southwest");
                assert(m.label().len() > 0);
                assert(ascii_lowered(trimmed(t.subrange(a, b))).len() == 0);
            }
        }
        assert(unsigned_value(trimmed(s)) is None);
    }
}

}
