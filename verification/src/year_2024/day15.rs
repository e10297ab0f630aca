//! Herb gathering in a maze: each herb letter sets one bit of the
//! collected set, and walkers may not enter walls or lakes.

use vstd::prelude::*;

verus! {

/// A maze position: row then column.
pub type Pos = (usize, usize);

/// The herb set with the bit of one herb letter added: letters share a bit
/// in groups, and anything else changes nothing.
pub open spec fn add_herb_spec(herbs: usize, herb: char) -> usize {
    if herb == 'A' || herb == 'G' || herb == 'N' {
        herbs | 0b000001
    } else if herb == 'B' || herb == 'H' || herb == 'O' {
        herbs | 0b000010
    } else if herb == 'C' || herb == 'I' || herb == 'P' {
        herbs | 0b000100
    } else if herb == 'D' || herb == 'J' || herb == 'Q' {
        herbs | 0b001000
    } else if herb == 'E' || herb == 'K' || herb == 'R' {
        herbs | 0b010000
    } else if herb == 'L' {
        herbs | 0b100000
    } else {
        herbs
    }
}

/// Adds the bit of one herb letter to the collected set.
pub fn add_herb(herbs: usize, herb: char) -> (r: usize)
    ensures
        r == add_herb_spec(herbs, herb),
{
    match herb {
        'A' | 'G' | 'N' => herbs | 0b000001,
        'B' | 'H' | 'O' => herbs | 0b000010,
        'C' | 'I' | 'P' => herbs | 0b000100,
        'D' | 'J' | 'Q' => herbs | 0b001000,
        'E' | 'K' | 'R' => herbs | 0b010000,
        'L' => herbs | 0b100000,
        _ => herbs,
    }
}

/// The map is a non-empty rectangle.
pub open spec fn map_rect(g: Seq<Seq<char>>) -> bool {
    g.len() > 0 && g[0].len() > 0 && forall|i: int|
        0 <= i < g.len() ==> (#[trigger] g[i]).len() == g[0].len()
}

/// The cells a walker can step to from `(x, y)`: adjacent, inside the map,
/// and neither a wall nor a lake, in the order up, right, down, left.
pub open spec fn neighbors_spec(g: Seq<Seq<char>>, x: int, y: int) -> Seq<Pos> {
    (if x > 0 && g[x - 1][y] != '#' && g[x - 1][y] != '~' {
        seq![((x - 1) as usize, y as usize)]
    } else {
        Seq::<Pos>::empty()
    }) + (if y < g[0].len() - 1 && g[x][y + 1] != '#' && g[x][y + 1] != '~' {
        seq![(x as usize, (y + 1) as usize)]
    } else {
        Seq::<Pos>::empty()
    }) + (if x < g.len() - 1 && g[x + 1][y] != '#' && g[x + 1][y] != '~' {
        seq![((x + 1) as usize, y as usize)]
    } else {
        Seq::<Pos>::empty()
    }) + (if y > 0 && g[x][y - 1] != '#' && g[x][y - 1] != '~' {
        seq![(x as usize, (y - 1) as usize)]
    } else {
        Seq::<Pos>::empty()
    })
}

/// The walkable cells next to `(x, y)`.
#[verifier::loop_isolation(false)]
pub fn get_neighbors(map: &Vec<Vec<char>>, x: usize, y: usize) -> (r: Vec<Pos>)
    requires
        map_rect(map.deep_view()),
        x < map.deep_view().len(),
        y < map.deep_view()[0].len(),
    ensures
        r@ == neighbors_spec(map.deep_view(), x as int, y as int),
{
    let ghost g = map.deep_view();
    proof {
        assert forall|i: int| 0 <= i < g.len() implies (#[trigger] map@[i])@.len() == g[0].len()
            && map@[i]@ =~= g[i] by {
            assert(g[i] == map@[i].deep_view());
        }
    }
    let mut neighbors: Vec<Pos> = Vec::new();
    if x > 0 && map[x - 1][y] != '#' && map[x - 1][y] != '~' {
        neighbors.push((x - 1, y));
    }
    if y < map[0].len() - 1 && map[x][y + 1] != '#' && map[x][y + 1] != '~' {
        neighbors.push((x, y + 1));
    }
    if x < map.len() - 1 && map[x + 1][y] != '#' && map[x + 1][y] != '~' {
        neighbors.push((x + 1, y));
    }
    if y > 0 && map[x][y - 1] != '#' && map[x][y - 1] != '~' {
        neighbors.push((x, y - 1));
    }
    proof {
        assert(neighbors@ =~= neighbors_spec(g, x as int, y as int));
    }
    neighbors
}

} // verus!
