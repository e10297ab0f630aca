//! A maze of numbered platforms: moving between neighboring platforms
//! costs one second plus the shortest turn of a ten-step height dial.

use vstd::prelude::*;

verus! {

/// A maze position: row then column.
pub type Pos = (usize, usize);

/// The height of a platform: start and end sit at height zero, a digit
/// names its own height.
pub open spec fn height_spec(c: char) -> int {
    if c == 'S' || c == 'E' {
        0
    } else {
        c as int - '0' as int
    }
}

/// The seconds to move between two platforms: the shorter way around the
/// ten-step height dial, plus one step.
pub open spec fn dist_spec(c1: char, c2: char) -> int {
    let dh = if height_spec(c1) >= height_spec(c2) {
        height_spec(c1) - height_spec(c2)
    } else {
        height_spec(c2) - height_spec(c1)
    };
    (if dh <= 10 - dh {
        dh
    } else {
        10 - dh
    }) + 1
}

/// The height of a platform.
pub fn get_height(c: char) -> (r: i32)
    ensures
        r == height_spec(c),
{
    match c {
        'S' | 'E' => 0,
        c => c as i32 - '0' as i32,
    }
}

/// The seconds to move between two neighboring platforms, for digit
/// platforms and the start and end markers.
pub fn get_dist(c1: char, c2: char) -> (r: u32)
    requires
        '0' <= c1 && c1 <= '9' || c1 == 'S' || c1 == 'E',
        '0' <= c2 && c2 <= '9' || c2 == 'S' || c2 == 'E',
    ensures
        r == dist_spec(c1, c2),
{
    let h1 = get_height(c1);
    let h2 = get_height(c2);
    let dh: i32 = if h1 >= h2 {
        h1 - h2
    } else {
        h2 - h1
    };
    let wrapped: i32 = if dh <= 10 - dh {
        dh
    } else {
        10 - dh
    };
    (wrapped + 1) as u32
}

/// The maze is a non-empty rectangle.
pub open spec fn maze_wf(g: Seq<Seq<char>>) -> bool {
    g.len() > 0 && g[0].len() > 0 && forall|i: int|
        0 <= i < g.len() ==> (#[trigger] g[i]).len() == g[0].len()
}

/// Finds the needle: the first matching column of the first row that holds
/// the needle at all.
#[verifier::loop_isolation(false)]
pub fn get_pos(maze: &Vec<Vec<char>>, needle: char) -> (r: Option<Pos>)
    requires
        maze_wf(maze.deep_view()),
    ensures
        ({
            let g = maze.deep_view();
            match r {
                Some(p) => 0 <= p.0 < g.len() && 0 <= p.1 < g[0].len() && g[p.0 as int][p.1 as int]
                    == needle && (forall|x: int, y: int|
                    0 <= x < p.0 && 0 <= y < g[0].len() ==> g[x][y] != needle) && (forall|y: int|
                    0 <= y < p.1 ==> g[p.0 as int][y] != needle),
                None => forall|x: int, y: int|
                    0 <= x < g.len() && 0 <= y < g[0].len() ==> g[x][y] != needle,
            }
        }),
{
    let ghost g = maze.deep_view();
    proof {
        assert forall|i: int| 0 <= i < g.len() implies (#[trigger] maze@[i])@.len() == g[0].len()
            && maze@[i]@ =~= g[i] by {
            assert(g[i] == maze@[i].deep_view());
        }
    }
    let mut row: usize = 0;
    while row < maze.len()
        invariant
            row <= g.len(),
            forall|x: int, y: int| 0 <= x < row && 0 <= y < g[0].len() ==> g[x][y] != needle,
        decreases g.len() - row,
    {
        let line = &maze[row];
        let mut col: usize = 0;
        while col < line.len()
            invariant
                col <= g[0].len(),
                forall|y: int| 0 <= y < col ==> g[row as int][y] != needle,
            decreases g[0].len() - col,
        {
            if line[col] == needle {
                return Some((row, col));
            }
            col = col + 1;
        }
        row = row + 1;
    }
    None
}

/// The neighbors the walker can step to: the four adjacent cells that stay
/// inside the maze and are not walls, in the order up, right, down, left.
pub open spec fn neighbors_spec(g: Seq<Seq<char>>, x: int, y: int) -> Seq<Pos> {
    (if x > 0 && g[x - 1][y] != '#' {
        seq![((x - 1) as usize, y as usize)]
    } else {
        Seq::<Pos>::empty()
    }) + (if y < g[0].len() - 1 && g[x][y + 1] != '#' {
        seq![(x as usize, (y + 1) as usize)]
    } else {
        Seq::<Pos>::empty()
    }) + (if x < g.len() - 1 && g[x + 1][y] != '#' {
        seq![((x + 1) as usize, y as usize)]
    } else {
        Seq::<Pos>::empty()
    }) + (if y > 0 && g[x][y - 1] != '#' {
        seq![(x as usize, (y - 1) as usize)]
    } else {
        Seq::<Pos>::empty()
    })
}

/// The open cells next to `(x, y)`.
#[verifier::loop_isolation(false)]
pub fn get_neighbors(maze: &Vec<Vec<char>>, x: usize, y: usize) -> (r: Vec<Pos>)
    requires
        maze_wf(maze.deep_view()),
        x < maze.deep_view().len(),
        y < maze.deep_view()[0].len(),
    ensures
        r@ == neighbors_spec(maze.deep_view(), x as int, y as int),
{
    let ghost g = maze.deep_view();
    proof {
        assert forall|i: int| 0 <= i < g.len() implies (#[trigger] maze@[i])@.len() == g[0].len()
            && maze@[i]@ =~= g[i] by {
            assert(g[i] == maze@[i].deep_view());
        }
    }
    let mut neighbors: Vec<Pos> = Vec::new();
    if x > 0 && maze[x - 1][y] != '#' {
        neighbors.push((x - 1, y));
    }
    if y < maze[0].len() - 1 && maze[x][y + 1] != '#' {
        neighbors.push((x, y + 1));
    }
    if x < maze.len() - 1 && maze[x + 1][y] != '#' {
        neighbors.push((x + 1, y));
    }
    if y > 0 && maze[x][y - 1] != '#' {
        neighbors.push((x, y - 1));
    }
    proof {
        assert(neighbors@ =~= neighbors_spec(g, x as int, y as int));
    }
    neighbors
}

} // verus!
