//! The map grid and the terrain layer of the path-finding graph.
use crate::graph::{GraphLayer, GraphNode, GraphType, GraphWeight};
use vstd::prelude::*;

verus! {

/// A rectangle of cells stored row by row: cell `(x, y)` of a grid of
/// dimensions `(w, h)` is entry `x * h + y`.
pub struct Grid<T> {
    data: Vec<T>,
    dimensions: (usize, usize),
}

impl<T> Grid<T> {
    #[verifier::type_invariant]
    spec fn well_formed(self) -> bool {
        self.data@.len() == self.dimensions.0 * self.dimensions.1
    }

    /// Width and height of the grid.
    pub closed spec fn dims(&self) -> (usize, usize) {
        self.dimensions
    }

    /// The value of cell `(x, y)`.
    pub closed spec fn cell(&self, x: int, y: int) -> T {
        self.data@[x * self.dimensions.1 + y]
    }

    /// Builds the grid whose cell `(x, y)` is `f(x, y)`.
    pub fn from_fn<F: Fn(usize, usize) -> T>(f: F, dimensions: (usize, usize)) -> (g: Self)
        requires
            dimensions.0 * dimensions.1 <= usize::MAX,
            forall|x: usize, y: usize|
                x < dimensions.0 && y < dimensions.1 ==> #[trigger] f.requires((x, y)),
        ensures
            g.dims() == dimensions,
            forall|x: usize, y: usize|
                x < dimensions.0 && y < dimensions.1 ==> f.ensures((x, y), #[trigger] g.cell(
                    x as int,
                    y as int,
                )),
    {
        let mut data: Vec<T> = Vec::new();
        let mut x: usize = 0;
        while x < dimensions.0
            invariant
                x <= dimensions.0,
                dimensions.0 * dimensions.1 <= usize::MAX,
                forall|a: usize, b: usize|
                    a < dimensions.0 && b < dimensions.1 ==> #[trigger] f.requires((a, b)),
                data@.len() == x * dimensions.1,
                forall|a: usize, b: usize|
                    a < x && b < dimensions.1 ==> f.ensures(
                        (a, b),
                        #[trigger] data@[a * dimensions.1 + b],
                    ),
            decreases dimensions.0 - x,
        {
            let mut y: usize = 0;
            while y < dimensions.1
                invariant
                    x < dimensions.0,
                    y <= dimensions.1,
                    dimensions.0 * dimensions.1 <= usize::MAX,
                    forall|a: usize, b: usize|
                        a < dimensions.0 && b < dimensions.1 ==> #[trigger] f.requires((a, b)),
                    data@.len() == x * dimensions.1 + y,
                    forall|a: usize, b: usize|
                        (a < x && b < dimensions.1) || (a == x && b < y) ==> f.ensures(
                            (a, b),
                            #[trigger] data@[a * dimensions.1 + b],
                        ),
                decreases dimensions.1 - y,
            {
                proof {
                    lemma_cell_index(x as int, y as int, dimensions.0 as int, dimensions.1 as int);
                }
                let v = f(x, y);
                data.push(v);
                proof {
                    assert forall|a: usize, b: usize|
                        (a < x && b < dimensions.1) || (a == x && b < y + 1) implies f.ensures(
                        (a, b),
                        #[trigger] data@[a * dimensions.1 + b],
                    ) by {
                        lemma_cell_index(a as int, b as int, dimensions.0 as int, dimensions.1 as int);
                        if a < x {
                            assert(a * dimensions.1 + b < x * dimensions.1) by (nonlinear_arith)
                                requires
                                    a < x,
                                    b < dimensions.1,
                            ;
                        }
                    }
                }
                y = y + 1;
            }
            proof {
                assert((x + 1) * dimensions.1 == x * dimensions.1 + dimensions.1) by (nonlinear_arith);
            }
            x = x + 1;
        }
        Self { dimensions, data }
    }

    /// The value of cell `(x, y)`.
    pub fn get(&self, x: usize, y: usize) -> (r: &T)
        requires
            x < self.dims().0,
            y < self.dims().1,
        ensures
            *r == self.cell(x as int, y as int),
    {
        proof {
            use_type_invariant(self);
            lemma_cell_index(x as int, y as int, self.dimensions.0 as int, self.dimensions.1 as int);
        }
        let len = self.data.len();
        assert(x * self.dimensions.1 + y < len);
        &self.data[x * self.dimensions.1 + y]
    }

    pub fn dimensions(&self) -> (d: (usize, usize))
        ensures
            d == self.dims(),
    {
        self.dimensions
    }
}

proof fn lemma_cell_index(x: int, y: int, w: int, h: int)
    requires
        0 <= x < w,
        0 <= y < h,
    ensures
        0 <= x * h + y < w * h,
        x * h + y + 1 <= w * h,
{
    assert(0 <= x * h + y < w * h) by (nonlinear_arith)
        requires
            0 <= x < w,
            0 <= y < h,
    ;
}

/// The terrain as a layer of the graph: each cell is joined to its
/// neighbours left, below, right and above, each at weight one.
pub struct TerrainGraphLayer {
    dimensions: (usize, usize),
}

/// The terrain's edges leaving `p` on a grid of dimensions `d`, in the order
/// left, below, right, above.
pub open spec fn terrain_children(d: (usize, usize), p: GraphNode) -> Seq<(GraphNode, GraphWeight)> {
    let left = if p.0 > 0 {
        seq![(GraphNode((p.0 - 1) as usize, p.1), GraphWeight::Finite(1))]
    } else {
        Seq::empty()
    };
    let below = if p.1 > 0 {
        seq![(GraphNode(p.0, (p.1 - 1) as usize), GraphWeight::Finite(1))]
    } else {
        Seq::empty()
    };
    let right = if p.0 < d.0 - 1 {
        seq![(GraphNode((p.0 + 1) as usize, p.1), GraphWeight::Finite(1))]
    } else {
        Seq::empty()
    };
    let above = if p.1 < d.1 - 1 {
        seq![(GraphNode(p.0, (p.1 + 1) as usize), GraphWeight::Finite(1))]
    } else {
        Seq::empty()
    };
    left + below + right + above
}

impl TerrainGraphLayer {
    #[verifier::type_invariant]
    spec fn well_formed(self) -> bool {
        self.dimensions.0 >= 1 && self.dimensions.1 >= 1
    }

    /// Width and height of the terrain.
    pub closed spec fn dims(&self) -> (usize, usize) {
        self.dimensions
    }

    /// The terrain layer of a map of the given dimensions.
    pub fn new(dimensions: (usize, usize)) -> (t: Self)
        requires
            dimensions.0 >= 1,
            dimensions.1 >= 1,
        ensures
            t.dims() == dimensions,
    {
        TerrainGraphLayer { dimensions }
    }

    /// The terrain layer of a grid, of the grid's dimensions.
    pub fn from_grid<T>(grid: &Grid<T>) -> (t: Self)
        requires
            grid.dims().0 >= 1,
            grid.dims().1 >= 1,
        ensures
            t.dims() == grid.dims(),
    {
        TerrainGraphLayer { dimensions: grid.dimensions() }
    }
}

impl GraphLayer for TerrainGraphLayer {
    open spec fn spec_children(&self, point: GraphNode) -> Seq<(GraphNode, GraphWeight)> {
        terrain_children(self.dims(), point)
    }

    open spec fn spec_type(&self) -> GraphType {
        GraphType::Terrain
    }

    fn get_type(&self) -> (t: GraphType) {
        GraphType::Terrain
    }

    fn get_children(&self, point: &GraphNode) -> (v: Vec<(GraphNode, GraphWeight)>) {
        proof {
            use_type_invariant(self);
        }
        let pos = *point;
        let mut v: Vec<(GraphNode, GraphWeight)> = Vec::new();
        if pos.0 > 0 {
            v.push((GraphNode(pos.0 - 1, pos.1), GraphWeight::Finite(1)));
        }
        if pos.1 > 0 {
            v.push((GraphNode(pos.0, pos.1 - 1), GraphWeight::Finite(1)));
        }
        if pos.0 < self.dimensions.0 - 1 {
            v.push((GraphNode(pos.0 + 1, pos.1), GraphWeight::Finite(1)));
        }
        if pos.1 < self.dimensions.1 - 1 {
            v.push((GraphNode(pos.0, pos.1 + 1), GraphWeight::Finite(1)));
        }
        assert(v@ =~= terrain_children(self.dimensions, pos));
        v
    }
}

/// The terrain's edges join each cell of a `w` by `h` grid to exactly its
/// neighbours inside the grid: the cell left of it if `x > 0`, below it if
/// `y > 0`, right of it if `x + 1 < w` and above it if `y + 1 < h`, each at
/// weight one; and every edge leaving the cell ends in a neighbouring cell
/// of the grid, at weight one.
pub proof fn lemma_terrain_edges(t: TerrainGraphLayer, x: usize, y: usize)
    requires
        x < t.dims().0,
        y < t.dims().1,
    ensures
        t.spec_children(GraphNode(x, y)).no_duplicates(),
        x > 0 ==> t.spec_children(GraphNode(x, y)).contains(
            (GraphNode((x - 1) as usize, y), GraphWeight::Finite(1)),
        ),
        y > 0 ==> t.spec_children(GraphNode(x, y)).contains(
            (GraphNode(x, (y - 1) as usize), GraphWeight::Finite(1)),
        ),
        x + 1 < t.dims().0 ==> t.spec_children(GraphNode(x, y)).contains(
            (GraphNode((x + 1) as usize, y), GraphWeight::Finite(1)),
        ),
        y + 1 < t.dims().1 ==> t.spec_children(GraphNode(x, y)).contains(
            (GraphNode(x, (y + 1) as usize), GraphWeight::Finite(1)),
        ),
        forall|j: int|
            0 <= j < t.spec_children(GraphNode(x, y)).len() ==> {
                let e = #[trigger] t.spec_children(GraphNode(x, y))[j];
                &&& e.1 == GraphWeight::Finite(1)
                &&& e.0.0 < t.dims().0
                &&& e.0.1 < t.dims().1
                &&& ((e.0.1 == y && (e.0.0 + 1 == x || x + 1 == e.0.0)) || (e.0.0 == x && (e.0.1 + 1 == y
                    || y + 1 == e.0.1)))
            },
{
    let c = t.spec_children(GraphNode(x, y));
    let d = t.dims();
    let p = GraphNode(x, y);
    let left: Seq<(GraphNode, GraphWeight)> = if p.0 > 0 {
        seq![(GraphNode((p.0 - 1) as usize, p.1), GraphWeight::Finite(1))]
    } else {
        Seq::empty()
    };
    let below: Seq<(GraphNode, GraphWeight)> = if p.1 > 0 {
        seq![(GraphNode(p.0, (p.1 - 1) as usize), GraphWeight::Finite(1))]
    } else {
        Seq::empty()
    };
    let right: Seq<(GraphNode, GraphWeight)> = if p.0 < d.0 - 1 {
        seq![(GraphNode((p.0 + 1) as usize, p.1), GraphWeight::Finite(1))]
    } else {
        Seq::empty()
    };
    let above: Seq<(GraphNode, GraphWeight)> = if p.1 < d.1 - 1 {
        seq![(GraphNode(p.0, (p.1 + 1) as usize), GraphWeight::Finite(1))]
    } else {
        Seq::empty()
    };
    assert(c =~= left + below + right + above);
    if x > 0 {
        assert(c[0] == (GraphNode((x - 1) as usize, y), GraphWeight::Finite(1)));
    }
    if y > 0 {
        assert(c[left.len() as int] == (GraphNode(x, (y - 1) as usize), GraphWeight::Finite(1)));
    }
    if x + 1 < d.0 {
        assert(c[(left.len() + below.len()) as int] == (GraphNode((x + 1) as usize, y), GraphWeight::Finite(1)));
    }
    if y + 1 < d.1 {
        assert(c[(left.len() + below.len() + right.len()) as int] == (
        GraphNode(x, (y + 1) as usize),
        GraphWeight::Finite(1),
        ));
    }
}

} // verus!
