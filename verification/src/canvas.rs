//! Where layers stand on the named canvases of a graph.
use vstd::prelude::*;

use crate::graph::{has_layer, ids_ascend, ids_grow, Canvas, Graph, GraphError};
use crate::id::LayerId;
use crate::scalar::Scalar;

verus! {

/// `h` is `g` but for its canvases.
pub open spec fn same_but_canvases(g: Graph, h: Graph) -> bool {
    &&& h.layers == g.layers
    &&& h.list_order == g.list_order
    &&& h.output == g.output
    &&& h.params == g.params
    &&& h.next_id == g.next_id
}

/// `h` comes of `g` by adding a canvas, with the outcome `r`.
pub open spec fn canvas_added(
    g: Graph,
    h: Graph,
    name: Seq<char>,
    r: Result<(), GraphError>,
) -> bool {
    match r {
        Ok(_) => {
            &&& !g.canvases@.dom().contains(name)
            &&& h.canvases@ == g.canvases@.insert(name, h.canvases@[name])
            &&& h.canvases@[name].positions@ == Map::<u64, [Scalar; 2]>::empty()
            &&& h.canvases@[name].output_pos is None
        },
        Err(e) => {
            &&& g.canvases@.dom().contains(name)
            &&& h.canvases == g.canvases
            &&& e is DuplicateCanvas
            &&& e->DuplicateCanvas_0@ == name
        },
    }
}

/// `h` comes of `g` by removing a canvas, with the outcome `r`.
pub open spec fn canvas_removed(
    g: Graph,
    h: Graph,
    name: Seq<char>,
    r: Result<(), GraphError>,
) -> bool {
    match r {
        Ok(_) => {
            &&& g.canvases@.dom().contains(name)
            &&& h.canvases@ == g.canvases@.remove(name)
        },
        Err(e) => {
            &&& !g.canvases@.dom().contains(name)
            &&& h.canvases == g.canvases
            &&& e is UnknownCanvas
            &&& e->UnknownCanvas_0@ == name
        },
    }
}

/// `h` comes of `g` by placing a layer on a canvas, with the outcome `r`.
pub open spec fn layer_placed(
    g: Graph,
    h: Graph,
    canvas: Seq<char>,
    id: LayerId,
    pos: [Scalar; 2],
    r: Result<(), GraphError>,
) -> bool {
    match r {
        Ok(_) => {
            let before = g.canvases@[canvas];
            let after = h.canvases@[canvas];
            &&& has_layer(g.layers@, id.0)
            &&& g.canvases@.dom().contains(canvas)
            &&& h.canvases@ == g.canvases@.insert(canvas, after)
            &&& after.positions@ == before.positions@.insert(id.0, pos)
            &&& after.output_pos == before.output_pos
        },
        Err(e) => {
            &&& h.canvases == g.canvases
            &&& if !has_layer(g.layers@, id.0) {
                e == GraphError::UnknownId(id)
            } else {
                &&& !g.canvases@.dom().contains(canvas)
                &&& e is UnknownCanvas
                &&& e->UnknownCanvas_0@ == canvas
            }
        },
    }
}

/// `h` comes of `g` by placing the output on a canvas, with the outcome `r`.
pub open spec fn output_placed(
    g: Graph,
    h: Graph,
    canvas: Seq<char>,
    pos: [Scalar; 2],
    r: Result<(), GraphError>,
) -> bool {
    match r {
        Ok(_) => {
            &&& g.canvases@.dom().contains(canvas)
            &&& h.canvases@ == g.canvases@.insert(
                canvas,
                Canvas { output_pos: Some(pos), ..g.canvases@[canvas] },
            )
        },
        Err(e) => {
            &&& !g.canvases@.dom().contains(canvas)
            &&& h.canvases == g.canvases
            &&& e is UnknownCanvas
            &&& e->UnknownCanvas_0@ == canvas
        },
    }
}

impl Graph {
    /// Adds an empty canvas. The name must be unused.
    pub fn add_canvas(&mut self, name: &str) -> (r: Result<(), GraphError>)
        ensures
            same_but_canvases(*old(self), *final(self)),
            canvas_added(*old(self), *final(self), name@, r),
            ids_grow(*old(self), *final(self)),
            old(self).well_formed() ==> final(self).well_formed(),
    {
        if self.canvases.contains_key(name) {
            return Err(GraphError::DuplicateCanvas(name.to_owned()));
        }
        let empty = Canvas::default();
        self.canvases.insert(name, empty);
        assert(self.canvases@[name@] == empty);
        Ok(())
    }

    /// Removes a canvas.
    pub fn remove_canvas(&mut self, name: &str) -> (r: Result<(), GraphError>)
        ensures
            same_but_canvases(*old(self), *final(self)),
            canvas_removed(*old(self), *final(self), name@, r),
            ids_grow(*old(self), *final(self)),
            old(self).well_formed() ==> final(self).well_formed(),
    {
        match self.canvases.remove(name) {
            Some(_) => Ok(()),
            None => {
                Err(GraphError::UnknownCanvas(name.to_owned()))
            },
        }
    }

    /// Places a layer on a canvas.
    pub fn set_position(&mut self, canvas: &str, id: LayerId, pos: [Scalar; 2]) -> (r: Result<
        (),
        GraphError,
    >)
        requires
            ids_ascend(old(self).layers@),
        ensures
            same_but_canvases(*old(self), *final(self)),
            layer_placed(*old(self), *final(self), canvas@, id, pos, r),
            ids_grow(*old(self), *final(self)),
            old(self).well_formed() ==> final(self).well_formed(),
    {
        if !self.contains(id) {
            return Err(GraphError::UnknownId(id));
        }
        match self.canvases.get_mut(canvas) {
            Some(c) => {
                c.positions.insert(id.0, pos);
                Ok(())
            },
            None => Err(GraphError::UnknownCanvas(canvas.to_owned())),
        }
    }

    /// Places the output on a canvas.
    pub fn set_output_position(&mut self, canvas: &str, pos: [Scalar; 2]) -> (r: Result<
        (),
        GraphError,
    >)
        ensures
            same_but_canvases(*old(self), *final(self)),
            output_placed(*old(self), *final(self), canvas@, pos, r),
            ids_grow(*old(self), *final(self)),
            old(self).well_formed() ==> final(self).well_formed(),
    {
        match self.canvases.get_mut(canvas) {
            Some(c) => {
                c.output_pos = Some(pos);
                Ok(())
            },
            None => Err(GraphError::UnknownCanvas(canvas.to_owned())),
        }
    }
}

/// A canvas is added where its name is new, and is empty; it is removed where
/// there is one of that name. Other canvases stay. Adding and then removing it
/// leaves the canvases as they were.
pub proof fn law_canvases_come_and_go_by_name(
    g: Graph,
    h: Graph,
    k: Graph,
    name: Seq<char>,
    r: Result<(), GraphError>,
    s: Result<(), GraphError>,
    other: Seq<char>,
)
    requires
        canvas_added(g, h, name, r),
        canvas_removed(h, k, name, s),
    ensures
        r is Ok <==> !g.canvases@.dom().contains(name),
        r is Ok ==> h.canvases@.dom().contains(name) && h.canvases@[name].output_pos is None && (
        forall|id: u64| !(#[trigger] h.canvases@[name].positions@.dom().contains(id))),
        r matches Err(e) ==> (e matches GraphError::DuplicateCanvas(n) && n@ == name)
            && h.canvases@ == g.canvases@,
        s is Ok,
        !k.canvases@.dom().contains(name),
        other != name ==> k.canvases@.get(other) == g.canvases@.get(other),
        r is Ok ==> k.canvases@ == g.canvases@,
{
    if r is Ok {
        assert(k.canvases@ =~= g.canvases@);
    }
}

/// A layer is placed where both it and the canvas exist, and then stands where
/// it was put. No other layer moves, nor the output, nor anything on another
/// canvas.
pub proof fn law_placing_moves_one_layer(
    g: Graph,
    h: Graph,
    canvas: Seq<char>,
    id: LayerId,
    pos: [Scalar; 2],
    r: Result<(), GraphError>,
    x: u64,
    other: Seq<char>,
)
    requires
        layer_placed(g, h, canvas, id, pos, r),
    ensures
        r is Ok <==> has_layer(g.layers@, id.0) && g.canvases@.dom().contains(canvas),
        r is Ok ==> {
            let (before, after) = (g.canvases@[canvas], h.canvases@[canvas]);
            &&& after.positions@.get(id.0) == Some(pos)
            &&& x != id.0 ==> after.positions@.get(x) == before.positions@.get(x)
            &&& after.output_pos == before.output_pos
        },
        other != canvas || r is Err ==> h.canvases@.get(other) == g.canvases@.get(other),
        !has_layer(g.layers@, id.0) ==> r == Err::<(), GraphError>(GraphError::UnknownId(id)),
        r matches Err(GraphError::UnknownCanvas(n)) ==> n@ == canvas,
{
}

/// As [`law_placing_moves_one_layer`], for the output.
pub proof fn law_placing_the_output_moves_no_layer(
    g: Graph,
    h: Graph,
    canvas: Seq<char>,
    pos: [Scalar; 2],
    r: Result<(), GraphError>,
    other: Seq<char>,
)
    requires
        output_placed(g, h, canvas, pos, r),
    ensures
        r is Ok <==> g.canvases@.dom().contains(canvas),
        r is Ok ==> {
            let (before, after) = (g.canvases@[canvas], h.canvases@[canvas]);
            &&& after.output_pos == Some(pos)
            &&& after.positions == before.positions
        },
        other != canvas || r is Err ==> h.canvases@.get(other) == g.canvases@.get(other),
        r matches Err(e) ==> (e matches GraphError::UnknownCanvas(n) && n@ == canvas),
{
}

} // verus!
