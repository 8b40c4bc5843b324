//! Cube-draw game records: a line names a game and lists the handfuls
//! of coloured cubes it showed. The records are parsed, checked against
//! a bag of cubes, and reduced to the smallest bag that admits them.

use vstd::prelude::*;
use crate::text::{
    spec_split, spec_trim, spec_parse_u32, spec_parse_u32_or_zero, split_char, trim_chars,
    parse_u32, parse_u32_or_zero, chars_of, chars_eq,
};

verus! {

/// One drawn handful: how many cubes of each colour it showed, when the
/// record named that colour at all.
pub struct CubeSet {
    pub red: Option<u32>,
    pub green: Option<u32>,
    pub blue: Option<u32>,
}

/// `set` updated by one comma-separated component of a record: after
/// trimming, the component's first space-separated part is the count
/// and its second the colour; an unknown colour changes nothing.
pub open spec fn spec_apply_cube(set: CubeSet, comp: Seq<char>) -> CubeSet {
    let parts = spec_split(spec_trim(comp), ' ');
    let v = spec_parse_u32_or_zero(parts[0]);
    if parts[1] == seq!['r', 'e', 'd'] {
        CubeSet { red: Some(v), green: set.green, blue: set.blue }
    } else if parts[1] == seq!['g', 'r', 'e', 'e', 'n'] {
        CubeSet { red: set.red, green: Some(v), blue: set.blue }
    } else if parts[1] == seq!['b', 'l', 'u', 'e'] {
        CubeSet { red: set.red, green: set.green, blue: Some(v) }
    } else {
        set
    }
}

/// The cube set a list of components denotes: each applied in order to
/// an empty set, later components overriding earlier ones.
pub open spec fn spec_cube_set_from(comps: Seq<Seq<char>>) -> CubeSet
    decreases comps.len(),
{
    if comps.len() == 0 {
        CubeSet { red: None, green: None, blue: None }
    } else {
        spec_apply_cube(spec_cube_set_from(comps.drop_last()), comps.last())
    }
}

/// The cube set a record denotes: its comma-separated components
/// applied in order.
pub open spec fn spec_cube_set(s: Seq<char>) -> CubeSet {
    spec_cube_set_from(spec_split(s, ','))
}

/// Whether every comma-separated component of a cube record, after
/// trimming, splits on a space into at least a count and a colour.
pub open spec fn cube_line_ok(s: Seq<char>) -> bool {
    forall|i: int|
        0 <= i < spec_split(s, ',').len() ==> spec_split(
            spec_trim(#[trigger] spec_split(s, ',')[i]),
            ' ',
        ).len() >= 2
}

fn color_red() -> (v: Vec<char>)
    ensures
        v@ == seq!['r', 'e', 'd'],
{
    let mut v: Vec<char> = Vec::new();
    v.push('r');
    v.push('e');
    v.push('d');
    proof {
        assert(v@ =~= seq!['r', 'e', 'd']);
    }
    v
}

fn color_green() -> (v: Vec<char>)
    ensures
        v@ == seq!['g', 'r', 'e', 'e', 'n'],
{
    let mut v: Vec<char> = Vec::new();
    v.push('g');
    v.push('r');
    v.push('e');
    v.push('e');
    v.push('n');
    proof {
        assert(v@ =~= seq!['g', 'r', 'e', 'e', 'n']);
    }
    v
}

fn color_blue() -> (v: Vec<char>)
    ensures
        v@ == seq!['b', 'l', 'u', 'e'],
{
    let mut v: Vec<char> = Vec::new();
    v.push('b');
    v.push('l');
    v.push('u');
    v.push('e');
    proof {
        assert(v@ =~= seq!['b', 'l', 'u', 'e']);
    }
    v
}

impl CubeSet {
    /// Parses the cube list of one drawn handful, such as
    /// `1 blue, 2 green`. Every component must name a count and a
    /// colour.
    pub fn new(line: &str) -> (s: CubeSet)
        requires
            cube_line_ok(line@),
        ensures
            s == spec_cube_set(line@),
    {
        let cs = chars_of(line);
        Self::from_chars(&cs)
    }

    /// Parses the cube list held in a character vector.
    pub fn from_chars(cs: &Vec<char>) -> (s: CubeSet)
        requires
            cube_line_ok(cs@),
        ensures
            s == spec_cube_set(cs@),
    {
        let comps = split_char(cs, ',');
        let ghost scomps = spec_split(cs@, ',');
        let mut set = CubeSet { red: None, green: None, blue: None };
        let n = comps.len();
        proof {
            assert(scomps.subrange(0, 0) =~= Seq::<Seq<char>>::empty());
        }
        let mut i: usize = 0;
        while i < n
            invariant
                comps.deep_view() == scomps,
                scomps == spec_split(cs@, ','),
                cube_line_ok(cs@),
                n == comps@.len(),
                i <= n,
                set == spec_cube_set_from(scomps.subrange(0, i as int)),
            decreases n - i,
        {
            proof {
                assert(comps@[i as int].deep_view() =~= comps@[i as int]@);
                assert(comps@[i as int]@ == scomps[i as int]);
            }
            let t = trim_chars(&comps[i]);
            let parts = split_char(&t, ' ');
            let ghost sparts = spec_split(spec_trim(scomps[i as int]), ' ');
            proof {
                assert(sparts.len() >= 2);
                assert(parts@[0].deep_view() =~= parts@[0]@);
                assert(parts@[0]@ == sparts[0]);
                assert(parts@[1].deep_view() =~= parts@[1]@);
                assert(parts@[1]@ == sparts[1]);
            }
            let v = parse_u32_or_zero(&parts[0]);
            let cr = color_red();
            let cg = color_green();
            let cb = color_blue();
            let ghost prev = set;
            if chars_eq(&parts[1], &cr) {
                set = CubeSet { red: Some(v), green: set.green, blue: set.blue };
            } else if chars_eq(&parts[1], &cg) {
                set = CubeSet { red: set.red, green: Some(v), blue: set.blue };
            } else if chars_eq(&parts[1], &cb) {
                set = CubeSet { red: set.red, green: set.green, blue: Some(v) };
            }
            proof {
                assert(set == spec_apply_cube(prev, scomps[i as int]));
                assert(scomps.subrange(0, i as int + 1).drop_last() =~= scomps.subrange(
                    0,
                    i as int,
                ));
                assert(scomps.subrange(0, i as int + 1).last() == scomps[i as int]);
            }
            i = i + 1;
        }
        proof {
            assert(scomps.subrange(0, n as int) =~= scomps);
        }
        set
    }
}

/// Whether a whole game record is well formed: a head naming the game
/// and its number, a colon, and well-formed cube lists separated by
/// semicolons.
pub open spec fn game_line_ok(s: Seq<char>) -> bool {
    let parts = spec_split(s, ':');
    &&& parts.len() >= 2
    &&& spec_split(parts[0], ' ').len() >= 2
    &&& spec_parse_u32(spec_split(parts[0], ' ')[1]) is Some
    &&& forall|i: int|
        0 <= i < spec_split(parts[1], ';').len() ==> cube_line_ok(
            spec_trim(#[trigger] spec_split(parts[1], ';')[i]),
        )
}

/// The game number a record names.
pub open spec fn spec_game_id(s: Seq<char>) -> u32 {
    spec_parse_u32(spec_split(spec_split(s, ':')[0], ' ')[1])->0
}

/// The drawn handfuls a record lists, in order.
pub open spec fn spec_game_sets(s: Seq<char>) -> Seq<CubeSet> {
    spec_split(spec_split(s, ':')[1], ';').map_values(
        |c: Seq<char>| spec_cube_set(spec_trim(c)),
    )
}

/// A game record: its number and the handfuls it showed, in order.
pub struct Game {
    pub id: u32,
    pub sets: Vec<CubeSet>,
}

impl Game {
    /// Parses a whole record, such as
    /// `Game 2: 1 blue, 2 green; 3 green, 4 blue, 1 red`.
    pub fn new(line: String) -> (g: Game)
        requires
            game_line_ok(line@),
        ensures
            g.id == spec_game_id(line@),
            g.sets@ == spec_game_sets(line@),
    {
        let cs = chars_of(line.as_str());
        let parts = split_char(&cs, ':');
        let ghost sparts = spec_split(line@, ':');
        proof {
            assert(parts@[0].deep_view() =~= parts@[0]@);
            assert(parts@[0]@ == sparts[0]);
            assert(parts@[1].deep_view() =~= parts@[1]@);
            assert(parts@[1]@ == sparts[1]);
        }
        let head_parts = split_char(&parts[0], ' ');
        proof {
            assert(head_parts@[1].deep_view() =~= head_parts@[1]@);
            assert(head_parts@[1]@ == spec_split(sparts[0], ' ')[1]);
        }
        let id = parse_u32(&head_parts[1]).unwrap();
        let set_strs = split_char(&parts[1], ';');
        let ghost ssets = spec_split(sparts[1], ';');
        let n = set_strs.len();
        let mut sets: Vec<CubeSet> = Vec::new();
        proof {
            assert(sets@ =~= spec_game_sets(line@).subrange(0, 0));
        }
        let mut i: usize = 0;
        while i < n
            invariant
                set_strs.deep_view() == ssets,
                ssets == spec_split(spec_split(line@, ':')[1], ';'),
                game_line_ok(line@),
                n == set_strs@.len(),
                i <= n,
                sets@ == spec_game_sets(line@).subrange(0, i as int),
            decreases n - i,
        {
            proof {
                assert(set_strs@[i as int].deep_view() =~= set_strs@[i as int]@);
                assert(set_strs@[i as int]@ == ssets[i as int]);
            }
            let t = trim_chars(&set_strs[i]);
            let set = CubeSet::from_chars(&t);
            sets.push(set);
            proof {
                assert(sets@ =~= spec_game_sets(line@).subrange(0, i as int + 1));
            }
            i = i + 1;
        }
        proof {
            assert(spec_game_sets(line@).subrange(0, n as int) =~= spec_game_sets(line@));
        }
        Game { id, sets }
    }
}

/// The count a colour entry denotes: its number, or zero when the
/// record never named the colour.
pub open spec fn opt_count(o: Option<u32>) -> u32 {
    match o {
        Some(v) => v,
        None => 0,
    }
}

/// Whether one handful stays within the given per-colour counts.
pub open spec fn set_within(s: CubeSet, red: u32, green: u32, blue: u32) -> bool {
    opt_count(s.red) <= red && opt_count(s.green) <= green && opt_count(s.blue) <= blue
}

/// The smallest bag that admits every handful: the per-colour maximum
/// over the sets, zero when there are none.
pub open spec fn spec_smallest(sets: Seq<CubeSet>) -> Bag
    decreases sets.len(),
{
    if sets.len() == 0 {
        Bag { red: 0, green: 0, blue: 0 }
    } else {
        let p = spec_smallest(sets.drop_last());
        let l = sets.last();
        Bag {
            red: if opt_count(l.red) > p.red {
                opt_count(l.red)
            } else {
                p.red
            },
            green: if opt_count(l.green) > p.green {
                opt_count(l.green)
            } else {
                p.green
            },
            blue: if opt_count(l.blue) > p.blue {
                opt_count(l.blue)
            } else {
                p.blue
            },
        }
    }
}

/// A bag of cubes: how many of each colour it holds.
#[derive(Debug)]
pub struct Bag {
    pub red: u32,
    pub green: u32,
    pub blue: u32,
}

impl PartialEq for Bag {
    fn eq(&self, other: &Bag) -> (r: bool) {
        self.red == other.red && self.green == other.green && self.blue == other.blue
    }
}

impl vstd::std_specs::cmp::PartialEqSpecImpl for Bag {
    open spec fn obeys_eq_spec() -> bool {
        true
    }

    open spec fn eq_spec(&self, other: &Bag) -> bool {
        self.red == other.red && self.green == other.green && self.blue == other.blue
    }
}

impl Bag {
    /// Whether every handful of the game stays within this bag.
    pub fn is_game_possible(&self, game: &Game) -> (p: bool)
        ensures
            p == forall|i: int|
                0 <= i < game.sets@.len() ==> set_within(
                    #[trigger] game.sets@[i],
                    self.red,
                    self.green,
                    self.blue,
                ),
    {
        let n = game.sets.len();
        let mut i: usize = 0;
        while i < n
            invariant
                n == game.sets@.len(),
                i <= n,
                forall|j: int|
                    0 <= j < i ==> set_within(
                        #[trigger] game.sets@[j],
                        self.red,
                        self.green,
                        self.blue,
                    ),
            decreases n - i,
        {
            let set = &game.sets[i];
            let r = match set.red {
                Some(v) => v,
                None => 0,
            };
            let g = match set.green {
                Some(v) => v,
                None => 0,
            };
            let b = match set.blue {
                Some(v) => v,
                None => 0,
            };
            if r > self.red || g > self.green || b > self.blue {
                proof {
                    assert(!set_within(game.sets@[i as int], self.red, self.green, self.blue));
                }
                return false;
            }
            i = i + 1;
        }
        true
    }

    /// The bag's power: the product of its three counts.
    pub fn power(&self) -> (p: u32)
        requires
            self.red * self.green <= u32::MAX,
            self.red * self.green * self.blue <= u32::MAX,
        ensures
            p == self.red * self.green * self.blue,
    {
        self.red * self.green * self.blue
    }

    /// The smallest bag that admits every handful of the game.
    pub fn find_smallest(game: &Game) -> (b: Bag)
        ensures
            b == spec_smallest(game.sets@),
    {
        let n = game.sets.len();
        let mut red: u32 = 0;
        let mut green: u32 = 0;
        let mut blue: u32 = 0;
        proof {
            assert(game.sets@.subrange(0, 0) =~= Seq::<CubeSet>::empty());
        }
        let mut i: usize = 0;
        while i < n
            invariant
                n == game.sets@.len(),
                i <= n,
                (Bag { red, green, blue }) == spec_smallest(game.sets@.subrange(0, i as int)),
            decreases n - i,
        {
            let set = &game.sets[i];
            let r = match set.red {
                Some(v) => v,
                None => 0,
            };
            let g = match set.green {
                Some(v) => v,
                None => 0,
            };
            let b = match set.blue {
                Some(v) => v,
                None => 0,
            };
            if r > red {
                red = r;
            }
            if g > green {
                green = g;
            }
            if b > blue {
                blue = b;
            }
            proof {
                assert(game.sets@.subrange(0, i as int + 1).drop_last() =~= game.sets@.subrange(
                    0,
                    i as int,
                ));
                assert(game.sets@.subrange(0, i as int + 1).last() == game.sets@[i as int]);
            }
            i = i + 1;
        }
        proof {
            assert(game.sets@.subrange(0, n as int) =~= game.sets@);
        }
        Bag { red, green, blue }
    }
}

} // verus!
