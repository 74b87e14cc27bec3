//! Ski lifts: their layer of the path-finding graph and the state machine
//! that places a new lift with two clicks.
use crate::graph::{weight_to, GraphLayer, GraphNode, GraphType, GraphWeight};
use crate::model::RenderLayer;
use crate::terrain::TerrainGraphLayer;
use vstd::prelude::*;

verus! {

/// A lift as a layer of the graph: one edge of weight one from its bottom
/// station to its top station.
#[derive(Clone, Copy, Debug, PartialEq, Eq, Structural)]
pub struct LiftLayer {
    pub start: GraphNode,
    pub end: GraphNode,
}

impl LiftLayer {
    pub fn new(start: GraphNode, end: GraphNode) -> (l: Self)
        ensures
            l.start == start,
            l.end == end,
    {
        LiftLayer { start, end }
    }

}

impl GraphLayer for LiftLayer {
    open spec fn spec_children(&self, point: GraphNode) -> Seq<(GraphNode, GraphWeight)> {
        if point == self.start {
            seq![(self.end, GraphWeight::Finite(1))]
        } else {
            Seq::empty()
        }
    }

    open spec fn spec_type(&self) -> GraphType {
        GraphType::Lift { start: self.start, end: self.end }
    }

    fn get_type(&self) -> (t: GraphType) {
        GraphType::Lift { start: self.start, end: self.end }
    }

    fn get_children(&self, point: &GraphNode) -> (v: Vec<(GraphNode, GraphWeight)>) {
        if *point == self.start {
            let mut v: Vec<(GraphNode, GraphWeight)> = Vec::new();
            v.push((self.end, GraphWeight::Finite(1)));
            assert(v@ =~= seq![(self.end, GraphWeight::Finite(1))]);
            v
        } else {
            let v: Vec<(GraphNode, GraphWeight)> = Vec::new();
            assert(v@ =~= Seq::<(GraphNode, GraphWeight)>::empty());
            v
        }
    }

    /// Weight of the lift's edge between two points: one from the bottom
    /// to the top station, infinite for any other pair.
    fn get_distance(&self, start_point: &GraphNode, end_point: &GraphNode) -> (w: GraphWeight)
        ensures
            w == (if *start_point == self.start && *end_point == self.end {
                GraphWeight::Finite(1)
            } else {
                GraphWeight::Infinity
            }),
    {
        proof {
            let cs = self.spec_children(*start_point);
            if *start_point == self.start {
                assert(cs[0] == (self.end, GraphWeight::Finite(1)));
                assert(cs.drop_first() =~= Seq::<(GraphNode, GraphWeight)>::empty());
                assert(weight_to(cs.drop_first(), *end_point) == GraphWeight::Infinity);
            } else {
                assert(cs.len() == 0);
            }
        }
        if *start_point == self.start && *end_point == self.end {
            GraphWeight::Finite(1)
        } else {
            GraphWeight::Infinity
        }
    }
}

/// A layer of the game's graph: the terrain or one lift.
pub enum AnyLayer {
    Terrain(TerrainGraphLayer),
    Lift(LiftLayer),
}

impl GraphLayer for AnyLayer {
    open spec fn spec_children(&self, point: GraphNode) -> Seq<(GraphNode, GraphWeight)> {
        match self {
            AnyLayer::Terrain(t) => t.spec_children(point),
            AnyLayer::Lift(l) => l.spec_children(point),
        }
    }

    open spec fn spec_type(&self) -> GraphType {
        match self {
            AnyLayer::Terrain(t) => t.spec_type(),
            AnyLayer::Lift(l) => l.spec_type(),
        }
    }

    fn get_type(&self) -> (t: GraphType) {
        match self {
            AnyLayer::Terrain(t) => t.get_type(),
            AnyLayer::Lift(l) => l.get_type(),
        }
    }

    fn get_children(&self, point: &GraphNode) -> (v: Vec<(GraphNode, GraphWeight)>) {
        match self {
            AnyLayer::Terrain(t) => t.get_children(point),
            AnyLayer::Lift(l) => l.get_children(point),
        }
    }

    fn get_distance(&self, start_point: &GraphNode, end_point: &GraphNode) -> (w: GraphWeight) {
        match self {
            AnyLayer::Terrain(t) => t.get_distance(start_point, end_point),
            AnyLayer::Lift(l) => l.get_distance(start_point, end_point),
        }
    }
}

/// Step of the lift builder: nothing being placed, placing the bottom
/// station, or placing the top station.
#[derive(Clone, Copy, Debug, PartialEq, Eq, Structural)]
pub enum LiftBuild {
    Idle,
    First,
    Second,
}

/// The step after `l` when the lift button is clicked.
pub open spec fn next_lift_build(l: LiftBuild) -> LiftBuild {
    match l {
        LiftBuild::Idle => LiftBuild::First,
        LiftBuild::First => LiftBuild::Second,
        LiftBuild::Second => LiftBuild::Idle,
    }
}

/// Three clicks of the lift button lead back to the step they started
/// from, and no fewer do.
pub proof fn lemma_lift_build_cycle(l: LiftBuild)
    ensures
        next_lift_build(next_lift_build(next_lift_build(l))) == l,
        next_lift_build(l) != l,
        next_lift_build(next_lift_build(l)) != l,
{
}

/// What the lift builder has placed so far.
#[derive(Clone, Copy, Debug, PartialEq, Eq, Structural)]
pub struct LiftBuilderState {
    pub lift: LiftBuild,
    pub bottom_position: Option<GraphNode>,
    pub top_position: Option<GraphNode>,
}

impl Default for LiftBuilderState {
    fn default() -> (s: Self)
        ensures
            s == (LiftBuilderState { lift: LiftBuild::Idle, bottom_position: None, top_position: None }),
    {
        LiftBuilderState::new()
    }
}

impl LiftBuilderState {
    /// Nothing placed, nothing being built.
    pub fn new() -> (s: Self)
        ensures
            s == (LiftBuilderState { lift: LiftBuild::Idle, bottom_position: None, top_position: None }),
    {
        LiftBuilderState { lift: LiftBuild::Idle, bottom_position: None, top_position: None }
    }

    /// A click on the lift button moves to the next step, from the last step
    /// back to the first.
    pub fn click_builder_button(&mut self, clicked: bool)
        ensures
            final(self).bottom_position == old(self).bottom_position,
            final(self).top_position == old(self).top_position,
            final(self).lift == (if !clicked {
                old(self).lift
            } else {
                next_lift_build(old(self).lift)
            }),
    {
        if clicked {
            let new_state = match self.lift {
                LiftBuild::Idle => LiftBuild::First,
                LiftBuild::First => LiftBuild::Second,
                LiftBuild::Second => LiftBuild::Idle,
            };
            self.lift = new_state;
        }
    }

    /// One frame of the bottom station's marker. While the bottom station
    /// is being placed the marker is drawn, follows the point under the
    /// mouse (`hit`, if the mouse is over the terrain), and a fresh left
    /// click fixes it and moves on to the top station; otherwise it is
    /// hidden. Returns the layer the marker is drawn in.
    pub fn bottom_lift(&mut self, hit: Option<GraphNode>, first_down: bool) -> (layer: RenderLayer)
        ensures
            old(self).lift == LiftBuild::First ==> {
                &&& layer == RenderLayer::Main
                &&& final(self).bottom_position == (if hit is Some {
                    hit
                } else {
                    old(self).bottom_position
                })
                &&& final(self).top_position == old(self).top_position
                &&& final(self).lift == (if first_down {
                    LiftBuild::Second
                } else {
                    LiftBuild::First
                })
            },
            old(self).lift != LiftBuild::First ==> layer == RenderLayer::DoNotRender && *final(self)
                == *old(self),
    {
        if self.lift == LiftBuild::First {
            if let Some(pos) = hit {
                self.bottom_position = Some(pos);
            }
            if first_down {
                self.lift = LiftBuild::Second;
            }
            RenderLayer::Main
        } else {
            RenderLayer::DoNotRender
        }
    }

    /// One frame of the top station's marker. While the top station is
    /// being placed the marker is drawn and follows the point under the
    /// mouse; a fresh left click that is not in the marker's first frame
    /// ends the building, and if both stations were placed returns them so
    /// that the lift is built. `first_frame` is cleared in every frame in
    /// which the top station is being placed.
    pub fn top_lift(&mut self, first_frame: &mut bool, hit: Option<GraphNode>, first_down: bool) -> (r: (
        RenderLayer,
        Option<(GraphNode, GraphNode)>,
    ))
        ensures
            old(self).lift == LiftBuild::Second ==> {
                let top = if hit is Some {
                    hit
                } else {
                    old(self).top_position
                };
                let done = first_down && !*old(first_frame);
                &&& r.0 == RenderLayer::Main
                &&& final(self).top_position == top
                &&& final(self).bottom_position == old(self).bottom_position
                &&& final(self).lift == (if done {
                    LiftBuild::Idle
                } else {
                    LiftBuild::Second
                })
                &&& r.1 == (if done && old(self).bottom_position is Some && top is Some {
                    Some((old(self).bottom_position->0, top->0))
                } else {
                    None
                })
                &&& *final(first_frame) == false
            },
            old(self).lift != LiftBuild::Second ==> {
                &&& r == (RenderLayer::DoNotRender, None::<(GraphNode, GraphNode)>)
                &&& *final(self) == *old(self)
                &&& *final(first_frame) == *old(first_frame)
            },
    {
        if self.lift == LiftBuild::Second {
            if let Some(pos) = hit {
                self.top_position = Some(pos);
            }
            let mut built: Option<(GraphNode, GraphNode)> = None;
            if first_down && !*first_frame {
                self.lift = LiftBuild::Idle;
                match (self.bottom_position, self.top_position) {
                    (Some(bottom), Some(top)) => {
                        built = Some((bottom, top));
                    },
                    _ => {},
                }
            }
            *first_frame = false;
            (RenderLayer::Main, built)
        } else {
            (RenderLayer::DoNotRender, None)
        }
    }
}

} // verus!
