//! The parameters of a graph: declaring, renaming and removing them, and what
//! they are bound to in a bake.
use vstd::prelude::*;

use crate::edit::lemma_same_shape;
use crate::eval::{color_read, scalar_read, EvalCtx};
use crate::graph::{
    has_layer, ids_are_known, ids_grow, kind_is_valid, lemma_same_ids_grow, refs_are_declared, Graph,
    GraphError, Layer,
};
use crate::id::{raw_ids, LayerId};
use crate::kind::{opt_ids, refs_view, ColorInput, ScalarInput};
use crate::lists::lemma_filter_holds;
use crate::names::same_name;
use crate::param::{ParamDecl, ParamUse, ParamValue};
use crate::rewire::{
    color_frozen, kind_frozen, kind_renamed, lemma_kind_frozen, lemma_kind_renamed,
    lemma_output_frozen, lemma_output_renamed, not_named, output_frozen, output_renamed,
    ref_renamed, refs_renamed, refs_without, scalar_frozen,
};

verus! {

/// Some reference is to `name`.
pub open spec fn refs_name(refs: Seq<(Seq<char>, ParamUse)>, name: Seq<char>) -> bool {
    exists|i: int| 0 <= i < refs.len() && (#[trigger] refs[i]).0 == name
}

/// Some socket of a layer or of the output reads the parameter.
pub open spec fn param_is_read(graph: Graph, name: Seq<char>) -> bool {
    ||| exists|i: int|
        0 <= i < graph.layers@.len() && refs_name(
            (#[trigger] graph.layers@[i]).kind.ref_names(),
            name,
        )
    ||| refs_name(graph.output.ref_names(), name)
}

/// The layers that read a parameter, in order.
pub open spec fn reader_ids(layers: Seq<Layer>, name: Seq<char>) -> Seq<LayerId>
    decreases layers.len(),
{
    if layers.len() == 0 {
        Seq::empty()
    } else if refs_name(layers.last().kind.ref_names(), name) {
        reader_ids(layers.drop_last(), name).push(layers.last().id)
    } else {
        reader_ids(layers.drop_last(), name)
    }
}

/// What a parameter is worth: its binding where that is of the declared sort,
/// and the declared default otherwise.
pub open spec fn resolved_value(
    decl: ParamDecl,
    bound: Map<Seq<char>, ParamValue>,
    name: Seq<char>,
) -> ParamValue {
    if bound.dom().contains(name) && bound[name].sort() == decl.kind.sort() {
        bound[name]
    } else {
        decl.default
    }
}

/// Bindings with every declared parameter present.
pub open spec fn resolved(
    params: Map<Seq<char>, ParamDecl>,
    bound: Map<Seq<char>, ParamValue>,
) -> Map<Seq<char>, ParamValue> {
    Map::new(
        |name: Seq<char>| bound.dom().contains(name) || params.dom().contains(name),
        |name: Seq<char>|
            if params.dom().contains(name) {
                resolved_value(params[name], bound, name)
            } else {
                bound[name]
            },
    )
}

/// One of the first `i` entries has that name.
spec fn named_within<V>(entries: Seq<(String, V)>, name: Seq<char>, i: int) -> bool {
    exists|j: int| 0 <= j < i && (#[trigger] entries[j]).0@ == name
}

fn refs_hold(refs: &Vec<(&str, ParamUse)>, name: &str) -> (r: bool)
    ensures
        r == refs_name(refs_view(refs@), name@),
{
    let ghost all = refs_view(refs@);
    let mut i: usize = 0;
    while i < refs.len()
        invariant
            i <= refs@.len(),
            all == refs_view(refs@),
            forall|j: int| 0 <= j < i ==> (#[trigger] all[j]).0 != name@,
        decreases refs@.len() - i,
    {
        assert(all[i as int].0 == refs@[i as int].0@);
        if same_name(refs[i].0, name) {
            return true;
        }
        i += 1;
    }
    false
}

fn validate_decl(decl: &ParamDecl) -> (r: Result<(), GraphError>)
    ensures
        match r {
            Ok(_) => decl.default.sort() == decl.kind.sort(),
            Err(e) => decl.default.sort() != decl.kind.sort() && default_refused(*decl, e),
        },
{
    if !decl.default.matches(&decl.kind) {
        return Err(
            GraphError::ParamDefaultMismatch {
                name: decl.name.clone(),
                declared: decl.kind.label(),
            },
        );
    }
    Ok(())
}

/// `e` reports that the declaration's default is not of its own kind.
pub open spec fn default_refused(decl: ParamDecl, e: GraphError) -> bool {
    e matches GraphError::ParamDefaultMismatch { name, declared } && name@ == decl.name@
        && declared == decl.kind.label()
}

/// `h` is `g` but for its parameters.
pub open spec fn same_but_params(g: Graph, h: Graph) -> bool {
    &&& h.layers == g.layers
    &&& h.list_order == g.list_order
    &&& h.canvases == g.canvases
    &&& h.output == g.output
    &&& h.next_id == g.next_id
}

/// References stay declared where the declarations they name stay.
proof fn lemma_refs_stay_declared(
    refs: Seq<(Seq<char>, ParamUse)>,
    before: Map<Seq<char>, ParamDecl>,
    after: Map<Seq<char>, ParamDecl>,
)
    requires
        refs_are_declared(refs, before),
        forall|name: Seq<char>| #[trigger]
            refs_name(refs, name) && before.dom().contains(name) ==> after.dom().contains(name)
                && after[name].kind.sort() == before[name].kind.sort(),
    ensures
        refs_are_declared(refs, after),
{
    assert forall|i: int| 0 <= i < refs.len() implies after.dom().contains((#[trigger] refs[i]).0)
        && after[refs[i].0].kind.sort() == refs[i].1 by {
        assert(refs_name(refs, refs[i].0));
    }
}

/// A change of declarations that keeps every parameter that is read, with its
/// sort, keeps the graph well formed.
proof fn lemma_params_replaced(g: Graph, h: Graph)
    requires
        g.well_formed(),
        same_but_params(g, h),
        h.declarations_valid(),
        forall|name: Seq<char>| #[trigger]
            param_is_read(g, name) && g.params@.dom().contains(name) ==> h.params@.dom().contains(
                name,
            ) && h.params@[name].kind.sort() == g.params@[name].kind.sort(),
    ensures
        h.well_formed(),
{
    assert forall|i: int| 0 <= i < h.layers@.len() implies refs_are_declared(
        (#[trigger] h.layers@[i]).kind.ref_names(),
        h.params@,
    ) by {
        let refs = g.layers@[i].kind.ref_names();
        assert(refs_are_declared(refs, g.params@));
        assert forall|name: Seq<char>| #[trigger]
            refs_name(refs, name) && g.params@.dom().contains(name) implies h.params@.dom().contains(
            name,
        ) && h.params@[name].kind.sort() == g.params@[name].kind.sort() by {
            assert(param_is_read(g, name));
        }
        lemma_refs_stay_declared(refs, g.params@, h.params@);
    }
    let refs = g.output.ref_names();
    assert forall|name: Seq<char>| #[trigger]
        refs_name(refs, name) && g.params@.dom().contains(name) implies h.params@.dom().contains(
        name,
    ) && h.params@[name].kind.sort() == g.params@[name].kind.sort() by {
        assert(param_is_read(g, name));
    }
    lemma_refs_stay_declared(refs, g.params@, h.params@);
}

/// `h` comes of `g` by declaring a parameter, with the outcome `r`.
pub open spec fn param_declared(
    g: Graph,
    h: Graph,
    decl: ParamDecl,
    r: Result<(), GraphError>,
) -> bool {
    match r {
        Ok(_) => {
            &&& !g.params@.dom().contains(decl.name@)
            &&& decl.default.sort() == decl.kind.sort()
            &&& h.params@ == g.params@.insert(decl.name@, decl)
        },
        Err(e) => {
            &&& h.params == g.params
            &&& if g.params@.dom().contains(decl.name@) {
                e is DuplicateParam && e->DuplicateParam_0@ == decl.name@
            } else {
                decl.default.sort() != decl.kind.sort() && default_refused(decl, e)
            }
        },
    }
}

/// `h` comes of `g` by replacing the declaration of `name`, with the outcome
/// `r`.
pub open spec fn decl_replaced(
    g: Graph,
    h: Graph,
    name: Seq<char>,
    decl: ParamDecl,
    r: Result<(), GraphError>,
) -> bool {
    let before = g.params@;
    let changed = before[name].kind.sort() != decl.kind.sort() || decl.name@ != name;
    match r {
        Ok(_) => {
            &&& before.dom().contains(name)
            &&& decl.name@ != name ==> !before.dom().contains(decl.name@)
            &&& decl.default.sort() == decl.kind.sort()
            &&& !(changed && param_is_read(g, name))
            &&& h.params@ == before.remove(name).insert(decl.name@, decl)
        },
        Err(e) => {
            &&& h.params == g.params
            &&& if !before.dom().contains(name) {
                e is UnknownParam && e->UnknownParam_0@ == name
            } else if decl.name@ != name && before.dom().contains(decl.name@) {
                e is DuplicateParam && e->DuplicateParam_0@ == decl.name@
            } else if decl.default.sort() != decl.kind.sort() {
                default_refused(decl, e)
            } else {
                &&& changed
                &&& param_is_read(g, name)
                &&& e matches GraphError::ParamTypeMismatch {
                    name: n,
                    declared,
                    wanted,
                } && n@ == name && declared == before[name].kind.label() && wanted
                    == decl.kind.label()
            }
        },
    }
}

impl Graph {
    /// True where some socket of a layer or of the output reads the parameter.
    pub fn reads_param(&self, name: &str) -> (r: bool)
        ensures
            r == param_is_read(*self, name@),
    {
        let mut i: usize = 0;
        while i < self.layers.len()
            invariant
                i <= self.layers@.len(),
                forall|j: int|
                    0 <= j < i ==> !refs_name(
                        (#[trigger] self.layers@[j]).kind.ref_names(),
                        name@,
                    ),
            decreases self.layers@.len() - i,
        {
            if refs_hold(&self.layers[i].kind.param_refs(), name) {
                return true;
            }
            i += 1;
        }
        refs_hold(&self.output.param_refs(), name)
    }

    /// Every layer with a socket reading `name`. If the output reads it, the
    /// output's color layer follows, if it has one; the output itself has no
    /// id, so [`Graph::reads_param`] tells whether anything reads a parameter.
    pub fn param_readers(&self, name: &str) -> (r: Vec<LayerId>)
        ensures
            r@ == reader_ids(self.layers@, name@) + (if refs_name(
                self.output.ref_names(),
                name@,
            ) {
                opt_ids(self.output.color)
            } else {
                Seq::empty()
            }),
    {
        let mut out: Vec<LayerId> = Vec::new();
        let mut i: usize = 0;
        while i < self.layers.len()
            invariant
                i <= self.layers@.len(),
                out@ == reader_ids(self.layers@.take(i as int), name@),
            decreases self.layers@.len() - i,
        {
            assert(self.layers@.take(i + 1).drop_last() =~= self.layers@.take(i as int));
            if refs_hold(&self.layers[i].kind.param_refs(), name) {
                out.push(self.layers[i].id);
            }
            i += 1;
        }
        assert(self.layers@.take(i as int) =~= self.layers@);
        if refs_hold(&self.output.param_refs(), name) {
            crate::kind::push_opt(&mut out, self.output.color);
        }
        assert(out@ =~= reader_ids(self.layers@, name@) + (if refs_name(
            self.output.ref_names(),
            name@,
        ) {
            opt_ids(self.output.color)
        } else {
            Seq::empty()
        }));
        out
    }

    /// Declares a parameter. The name must be unused and the default must match
    /// the declared kind.
    pub fn declare_param(&mut self, decl: ParamDecl) -> (r: Result<(), GraphError>)
        ensures
            same_but_params(*old(self), *final(self)),
            param_declared(*old(self), *final(self), decl, r),
            ids_grow(*old(self), *final(self)),
            old(self).well_formed() ==> final(self).well_formed(),
    {
        if self.params.contains_key(decl.name.as_str()) {
            return Err(GraphError::DuplicateParam(decl.name));
        }
        match validate_decl(&decl) {
            Ok(_) => {},
            Err(e) => {
                return Err(e);
            },
        }
        let name = decl.name.clone();
        self.params.insert(name.as_str(), decl);
        proof {
            if old(self).well_formed() {
                lemma_params_replaced(*old(self), *self);
            }
        }
        Ok(())
    }

    /// Replaces a declaration. A change of kind or name is refused while
    /// anything reads the parameter, rather than silently unbinding the
    /// readers; see [`Graph::rename_param`].
    pub fn set_param_decl(&mut self, name: &str, decl: ParamDecl) -> (r: Result<(), GraphError>)
        ensures
            same_but_params(*old(self), *final(self)),
            decl_replaced(*old(self), *final(self), name@, decl, r),
            ids_grow(*old(self), *final(self)),
            old(self).well_formed() ==> final(self).well_formed(),
    {
        let kind = match self.params.get(name) {
            Some(before) => before.kind,
            None => {
                return Err(GraphError::UnknownParam(name.to_owned()));
            },
        };
        let renamed = !same_name(decl.name.as_str(), name);
        if renamed && self.params.contains_key(decl.name.as_str()) {
            return Err(GraphError::DuplicateParam(decl.name));
        }
        match validate_decl(&decl) {
            Ok(_) => {},
            Err(e) => {
                return Err(e);
            },
        }
        if (!kind.same_sort(&decl.kind) || renamed) && self.reads_param(name) {
            return Err(
                GraphError::ParamTypeMismatch {
                    name: name.to_owned(),
                    declared: kind.label(),
                    wanted: decl.kind.label(),
                },
            );
        }
        let new_name = decl.name.clone();
        self.params.remove(name);
        self.params.insert(new_name.as_str(), decl);
        proof {
            if old(self).well_formed() {
                lemma_params_replaced(*old(self), *self);
            }
        }
        Ok(())
    }

    /// The binding in `ctx`, or the declared default if unbound or of the wrong
    /// kind. `None` if undeclared. Works on an unresolved context.
    pub fn param_value(&self, name: &str, ctx: &EvalCtx) -> (r: Option<ParamValue>)
        ensures
            match r {
                Some(v) => self.params@.dom().contains(name@) && v == resolved_value(
                    self.params@[name@],
                    ctx.params@,
                    name@,
                ),
                None => !self.params@.dom().contains(name@),
            },
    {
        let decl = match self.params.get(name) {
            Some(decl) => decl,
            None => {
                return None;
            },
        };
        match ctx.params.get(name) {
            Some(v) if v.matches(&decl.kind) => Some(*v),
            _ => Some(decl.default),
        }
    }

    /// `ctx` with every declared parameter present, as [`Graph::param_value`]
    /// gives it. Evaluation and scheduling start with this.
    pub fn resolve_params(&self, ctx: &EvalCtx) -> (r: EvalCtx)
        ensures
            r.seed == ctx.seed,
            r.normal_epsilon == ctx.normal_epsilon,
            r.params@ == resolved(self.params@, ctx.params@),
            ctx.params.sorted() ==> r.params.sorted(),
    {
        let mut params = ctx.params.copied();
        let mut i: usize = 0;
        let ghost names = self.params.entry_seq();
        while i < self.params.len()
            invariant
                i <= names.len(),
                names == self.params.entry_seq(),
                ctx.params.sorted() ==> params.sorted(),
                forall|n: Seq<char>| #[trigger]
                    params@.dom().contains(n) <==> ctx.params@.dom().contains(n) || named_within(
                        names,
                        n,
                        i as int,
                    ),
                forall|n: Seq<char>| #[trigger]
                    params@.dom().contains(n) ==> params@[n] == if named_within(
                        names,
                        n,
                        i as int,
                    ) {
                        resolved_value(self.params@[n], ctx.params@, n)
                    } else {
                        ctx.params@[n]
                    },
            decreases names.len() - i,
        {
            let name = self.params.name_at(i);
            let ghost before = params@;
            match self.param_value(name, ctx) {
                Some(value) => {
                    params.insert(name, value);
                },
                None => {},
            }
            proof {
                assert(names[i as int].0@ == name@);
                assert forall|n: Seq<char>| #[trigger]
                    named_within(names, n, i + 1) <==> named_within(names, n, i as int) || n
                        == name@ by {
                    if named_within(names, n, i + 1) {
                        let j = choose|j: int| 0 <= j < i + 1 && (#[trigger] names[j]).0@ == n;
                        if j < i {
                            assert(names[j].0@ == n);
                        }
                    }
                }
            }
            i += 1;
        }
        proof {
            assert forall|n: Seq<char>| #[trigger]
                self.params@.dom().contains(n) <==> named_within(names, n, names.len() as int) by {
                self.params.lemma_bound_somewhere(n);
            }
            assert(params@ =~= resolved(self.params@, ctx.params@));
        }
        EvalCtx { seed: ctx.seed, normal_epsilon: ctx.normal_epsilon, params }
    }
}

/// `h` is `g` with the parameter `from` called `to`, in its declaration and in
/// every socket that reads it.
pub open spec fn param_renamed(g: Graph, h: Graph, from: Seq<char>, to: Seq<char>) -> bool {
    &&& h.params@ == g.params@.remove(from).insert(to, h.params@[to])
    &&& h.params@[to].name@ == to
    &&& h.params@[to].kind == g.params@[from].kind
    &&& h.params@[to].default == g.params@[from].default
    &&& h.params@[to].description == g.params@[from].description
    &&& h.layers@.len() == g.layers@.len()
    &&& forall|i: int|
        0 <= i < g.layers@.len() ==> {
            &&& (#[trigger] h.layers@[i]).id == g.layers@[i].id
            &&& h.layers@[i].name == g.layers@[i].name
            &&& kind_renamed(g.layers@[i].kind, h.layers@[i].kind, from, to)
        }
    &&& output_renamed(g.output, h.output, from, to)
    &&& h.list_order == g.list_order
    &&& h.canvases == g.canvases
    &&& h.next_id == g.next_id
}

/// `h` is `g` without the parameter `name`, its default in every socket that
/// read it.
pub open spec fn param_removed(g: Graph, h: Graph, name: Seq<char>) -> bool {
    &&& h.params@ == g.params@.remove(name)
    &&& h.layers@.len() == g.layers@.len()
    &&& forall|i: int|
        0 <= i < g.layers@.len() ==> {
            &&& (#[trigger] h.layers@[i]).id == g.layers@[i].id
            &&& h.layers@[i].name == g.layers@[i].name
            &&& kind_frozen(g.layers@[i].kind, h.layers@[i].kind, name, g.params@[name].default)
        }
    &&& h.output == output_frozen(g.output, name, g.params@[name].default)
    &&& h.list_order == g.list_order
    &&& h.canvases == g.canvases
    &&& h.next_id == g.next_id
}

/// The graphs have the same layers reading the same layers.
spec fn same_structure(g: Graph, h: Graph) -> bool {
    &&& h.layers@.len() == g.layers@.len()
    &&& forall|i: int|
        0 <= i < g.layers@.len() ==> {
            &&& (#[trigger] h.layers@[i]).id == g.layers@[i].id
            &&& h.layers@[i].name == g.layers@[i].name
            &&& h.layers@[i].kind.input_ids() == g.layers@[i].kind.input_ids()
            &&& kind_is_valid(g.layers@[i].kind) ==> kind_is_valid(h.layers@[i].kind)
        }
    &&& h.output.referenced_ids() == g.output.referenced_ids()
    &&& h.list_order == g.list_order
    &&& h.canvases == g.canvases
    &&& h.next_id == g.next_id
}

/// With the structure kept and the parameters in order, a graph stays well
/// formed.
proof fn lemma_same_structure(g: Graph, h: Graph)
    requires
        g.well_formed(),
        same_structure(g, h),
        h.declarations_valid(),
        h.params_known(),
    ensures
        h.well_formed(),
{
    lemma_same_shape(g.layers@, h.layers@);
    assert(h.ordered()) by {
        assert forall|i: int| 0 <= i < h.layers@.len() implies (#[trigger] h.layers@[i]).id.0
            < h.next_id by {
            assert(g.layers@[i].id.0 < g.next_id);
        }
    }
    assert(h.list_is_permutation()) by {
        assert forall|x: u64|
            #![trigger has_layer(h.layers@, x)]
            raw_ids(h.list_order@).contains(x) <==> has_layer(h.layers@, x) by {
            assert(has_layer(g.layers@, x) <==> raw_ids(g.list_order@).contains(x));
        }
    }
    assert(h.names_differ()) by {
        assert forall|i: int, j: int|
            #![trigger h.layers@[i], h.layers@[j]]
            0 <= i < j < h.layers@.len() implies h.layers@[i].name@ != h.layers@[j].name@ by {
            assert(g.layers@[i].name@ != g.layers@[j].name@);
        }
    }
    assert(h.references_known()) by {
        assert forall|i: int| 0 <= i < h.layers@.len() implies ids_are_known(
            (#[trigger] h.layers@[i]).kind.input_ids(),
            h.layers@,
        ) by {
            assert(ids_are_known(g.layers@[i].kind.input_ids(), g.layers@));
        }
    }
    assert(h.kinds_valid()) by {
        assert forall|i: int| 0 <= i < h.layers@.len() implies kind_is_valid(
            (#[trigger] h.layers@[i]).kind,
        ) by {
            assert(kind_is_valid(g.layers@[i].kind));
        }
    }
    assert(h.canvases_valid());
}

/// Renamed references are declared where the declaration moved along.
proof fn lemma_refs_renamed_declared(
    refs: Seq<(Seq<char>, ParamUse)>,
    before: Map<Seq<char>, ParamDecl>,
    after: Map<Seq<char>, ParamDecl>,
    from: Seq<char>,
    to: Seq<char>,
)
    requires
        refs_are_declared(refs, before),
        after == before.remove(from).insert(to, after[to]),
        after[to].kind == before[from].kind,
        !before.dom().contains(to),
    ensures
        refs_are_declared(refs_renamed(refs, from, to), after),
{
    let renamed = refs_renamed(refs, from, to);
    assert forall|i: int| 0 <= i < renamed.len() implies after.dom().contains(
        (#[trigger] renamed[i]).0,
    ) && after[renamed[i].0].kind.sort() == renamed[i].1 by {
        assert(renamed[i] == ref_renamed(refs[i], from, to));
        assert(before.dom().contains(refs[i].0));
    }
}

/// References that are left after a removal are declared still.
proof fn lemma_refs_without_declared(
    refs: Seq<(Seq<char>, ParamUse)>,
    before: Map<Seq<char>, ParamDecl>,
    name: Seq<char>,
)
    requires
        refs_are_declared(refs, before),
    ensures
        refs_are_declared(refs_without(refs, name), before.remove(name)),
        !refs_name(refs_without(refs, name), name),
{
    let left = refs_without(refs, name);
    assert forall|i: int| 0 <= i < left.len() implies left[i].0 != name && before.dom().contains(
        (#[trigger] left[i]).0,
    ) && before[left[i].0].kind.sort() == left[i].1 by {
        assert(left.contains(left[i]));
        lemma_filter_holds(refs, not_named(name), left[i]);
        let k = choose|k: int| 0 <= k < refs.len() && refs[k] == left[i];
        assert(before.dom().contains(refs[k].0));
    }
}

proof fn lemma_param_renamed_well_formed(g: Graph, h: Graph, from: Seq<char>, to: Seq<char>)
    requires
        g.well_formed(),
        param_renamed(g, h, from, to),
        h.params.sorted(),
        g.params@.dom().contains(from),
        !g.params@.dom().contains(to),
    ensures
        h.well_formed(),
{
    assert forall|i: int| 0 <= i < g.layers@.len() implies ({
        let a = g.layers@[i].kind;
        let b = (#[trigger] h.layers@[i]).kind;
        &&& b.input_ids() == a.input_ids()
        &&& b.ref_names() == refs_renamed(a.ref_names(), from, to)
        &&& kind_is_valid(a) ==> kind_is_valid(b)
    }) by {
        lemma_kind_renamed(g.layers@[i].kind, h.layers@[i].kind, from, to);
    }
    lemma_output_renamed(g.output, h.output, from, to);
    assert(same_structure(g, h));
    assert(h.declarations_valid()) by {
        assert forall|n: Seq<char>| #[trigger] h.params@.dom().contains(n) implies h.params@[n].name@
            == n && h.params@[n].default.sort() == h.params@[n].kind.sort() by {
            if n != to {
                assert(g.params@.dom().contains(n));
            } else {
                assert(g.params@.dom().contains(from));
            }
        }
    }
    assert(h.params_known()) by {
        assert forall|i: int| 0 <= i < h.layers@.len() implies refs_are_declared(
            (#[trigger] h.layers@[i]).kind.ref_names(),
            h.params@,
        ) by {
            lemma_refs_renamed_declared(
                g.layers@[i].kind.ref_names(),
                g.params@,
                h.params@,
                from,
                to,
            );
        }
        lemma_refs_renamed_declared(g.output.ref_names(), g.params@, h.params@, from, to);
    }
    lemma_same_structure(g, h);
}

proof fn lemma_param_removed_well_formed(g: Graph, h: Graph, name: Seq<char>)
    requires
        g.well_formed(),
        param_removed(g, h, name),
        h.params.sorted(),
    ensures
        h.well_formed(),
{
    let value = g.params@[name].default;
    assert forall|i: int| 0 <= i < g.layers@.len() implies ({
        let a = g.layers@[i].kind;
        let b = (#[trigger] h.layers@[i]).kind;
        &&& b.input_ids() == a.input_ids()
        &&& b.ref_names() == refs_without(a.ref_names(), name)
        &&& kind_is_valid(a) ==> kind_is_valid(b)
    }) by {
        lemma_kind_frozen(g.layers@[i].kind, h.layers@[i].kind, name, value);
    }
    lemma_output_frozen(g.output, name, value);
    assert(same_structure(g, h));
    assert(h.declarations_valid()) by {
        assert forall|n: Seq<char>| #[trigger] h.params@.dom().contains(n) implies h.params@[n].name@
            == n && h.params@[n].default.sort() == h.params@[n].kind.sort() by {
            assert(g.params@.dom().contains(n));
        }
    }
    assert(h.params_known()) by {
        assert forall|i: int| 0 <= i < h.layers@.len() implies refs_are_declared(
            (#[trigger] h.layers@[i]).kind.ref_names(),
            h.params@,
        ) by {
            lemma_refs_without_declared(g.layers@[i].kind.ref_names(), g.params@, name);
        }
        lemma_refs_without_declared(g.output.ref_names(), g.params@, name);
    }
    lemma_same_structure(g, h);
}

impl Graph {
    /// Renames a parameter, and rewrites every socket that reads it.
    pub fn rename_param(&mut self, name: &str, new_name: &str) -> (r: Result<(), GraphError>)
        ensures
            match r {
                Ok(_) => {
                    &&& old(self).params@.dom().contains(name@)
                    &&& if name@ == new_name@ {
                        *final(self) == *old(self)
                    } else {
                        &&& !old(self).params@.dom().contains(new_name@)
                        &&& param_renamed(*old(self), *final(self), name@, new_name@)
                    }
                },
                Err(e) => {
                    &&& *final(self) == *old(self)
                    &&& if !old(self).params@.dom().contains(name@) {
                        e is UnknownParam && e->UnknownParam_0@ == name@
                    } else {
                        &&& name@ != new_name@
                        &&& old(self).params@.dom().contains(new_name@)
                        &&& e is DuplicateParam
                        &&& e->DuplicateParam_0@ == new_name@
                    }
                },
            },
            ids_grow(*old(self), *final(self)),
            old(self).well_formed() ==> final(self).well_formed(),
    {
        if !self.params.contains_key(name) {
            return Err(GraphError::UnknownParam(name.to_owned()));
        }
        if same_name(name, new_name) {
            return Ok(());
        }
        if self.params.contains_key(new_name) {
            return Err(GraphError::DuplicateParam(new_name.to_owned()));
        }
        let ghost g = *self;
        let mut decl = self.params.remove(name).unwrap();
        decl.name = new_name.to_owned();
        self.params.insert(new_name, decl);
        let ghost params = self.params;
        let mut i: usize = 0;
        while i < self.layers.len()
            invariant
                i <= self.layers@.len(),
                self.layers@.len() == g.layers@.len(),
                self.params == params,
                self.output == g.output,
                self.list_order == g.list_order,
                self.canvases == g.canvases,
                self.next_id == g.next_id,
                forall|j: int|
                    0 <= j < i ==> {
                        &&& (#[trigger] self.layers@[j]).id == g.layers@[j].id
                        &&& self.layers@[j].name == g.layers@[j].name
                        &&& kind_renamed(
                            g.layers@[j].kind,
                            self.layers@[j].kind,
                            name@,
                            new_name@,
                        )
                    },
                forall|j: int|
                    i <= j < g.layers@.len() ==> (#[trigger] self.layers@[j]) == g.layers@[j],
            decreases self.layers@.len() - i,
        {
            self.layers[i].kind.rename_param(name, new_name);
            i += 1;
        }
        self.output.rename_param(name, new_name);
        proof {
            assert(self.params@[new_name@] == decl);
            assert(self.params@ =~= g.params@.remove(name@).insert(new_name@, decl));
            lemma_same_ids_grow(g, *self);
            if g.well_formed() {
                lemma_param_renamed_well_formed(g, *self, name@, new_name@);
            }
        }
        Ok(())
    }

    /// Removes a parameter. Every socket reading it gets the declared default
    /// as a constant, so that the graph renders the same.
    pub fn remove_param(&mut self, name: &str) -> (r: Result<(), GraphError>)
        ensures
            match r {
                Ok(_) => {
                    &&& old(self).params@.dom().contains(name@)
                    &&& param_removed(*old(self), *final(self), name@)
                },
                Err(e) => {
                    &&& *final(self) == *old(self)
                    &&& !old(self).params@.dom().contains(name@)
                    &&& e is UnknownParam
                    &&& e->UnknownParam_0@ == name@
                },
            },
            ids_grow(*old(self), *final(self)),
            old(self).well_formed() ==> final(self).well_formed(),
    {
        if !self.params.contains_key(name) {
            return Err(GraphError::UnknownParam(name.to_owned()));
        }
        let ghost g = *self;
        let decl = self.params.remove(name).unwrap();
        let fallback = decl.default;
        let ghost params = self.params;
        let mut i: usize = 0;
        while i < self.layers.len()
            invariant
                i <= self.layers@.len(),
                self.layers@.len() == g.layers@.len(),
                self.params == params,
                self.output == g.output,
                self.list_order == g.list_order,
                self.canvases == g.canvases,
                self.next_id == g.next_id,
                forall|j: int|
                    0 <= j < i ==> {
                        &&& (#[trigger] self.layers@[j]).id == g.layers@[j].id
                        &&& self.layers@[j].name == g.layers@[j].name
                        &&& kind_frozen(
                            g.layers@[j].kind,
                            self.layers@[j].kind,
                            name@,
                            fallback,
                        )
                    },
                forall|j: int|
                    i <= j < g.layers@.len() ==> (#[trigger] self.layers@[j]) == g.layers@[j],
            decreases self.layers@.len() - i,
        {
            self.layers[i].kind.freeze_param(name, fallback);
            i += 1;
        }
        self.output.freeze_param(name, fallback);
        proof {
            lemma_same_ids_grow(g, *self);
            if g.well_formed() {
                lemma_param_removed_well_formed(g, *self, name@);
            }
        }
        Ok(())
    }
}

/// After a rename nothing reads the old name.
pub proof fn law_renamed_param_has_no_reader_left(
    g: Graph,
    h: Graph,
    from: Seq<char>,
    to: Seq<char>,
)
    requires
        param_renamed(g, h, from, to),
        from != to,
    ensures
        !param_is_read(h, from),
        !h.params@.dom().contains(from),
        param_is_read(g, from) ==> param_is_read(h, to),
{
    assert forall|i: int| 0 <= i < h.layers@.len() implies !refs_name(
        (#[trigger] h.layers@[i]).kind.ref_names(),
        from,
    ) && (refs_name(g.layers@[i].kind.ref_names(), from) ==> refs_name(
        h.layers@[i].kind.ref_names(),
        to,
    )) by {
        lemma_kind_renamed(g.layers@[i].kind, h.layers@[i].kind, from, to);
        lemma_refs_renamed_names(g.layers@[i].kind.ref_names(), from, to);
    }
    lemma_output_renamed(g.output, h.output, from, to);
    lemma_refs_renamed_names(g.output.ref_names(), from, to);
    if param_is_read(g, from) && !refs_name(g.output.ref_names(), from) {
        let i = choose|i: int|
            0 <= i < g.layers@.len() && refs_name(
                (#[trigger] g.layers@[i]).kind.ref_names(),
                from,
            );
        assert(refs_name(h.layers@[i].kind.ref_names(), to));
    }
}

proof fn lemma_refs_renamed_names(
    refs: Seq<(Seq<char>, ParamUse)>,
    from: Seq<char>,
    to: Seq<char>,
)
    requires
        from != to,
    ensures
        !refs_name(refs_renamed(refs, from, to), from),
        refs_name(refs, from) ==> refs_name(refs_renamed(refs, from, to), to),
{
    let renamed = refs_renamed(refs, from, to);
    assert forall|i: int| 0 <= i < renamed.len() implies (#[trigger] renamed[i]).0 != from by {
        assert(renamed[i] == ref_renamed(refs[i], from, to));
    }
    if refs_name(refs, from) {
        let i = choose|i: int| 0 <= i < refs.len() && (#[trigger] refs[i]).0 == from;
        assert(renamed[i].0 == to);
    }
}

/// After a removal nothing reads the parameter.
pub proof fn law_removed_param_has_no_reader_left(g: Graph, h: Graph, name: Seq<char>)
    requires
        param_removed(g, h, name),
        g.well_formed(),
    ensures
        !param_is_read(h, name),
        !h.params@.dom().contains(name),
{
    let value = g.params@[name].default;
    assert forall|i: int| 0 <= i < h.layers@.len() implies !refs_name(
        (#[trigger] h.layers@[i]).kind.ref_names(),
        name,
    ) by {
        lemma_kind_frozen(g.layers@[i].kind, h.layers@[i].kind, name, value);
        lemma_refs_without_declared(g.layers@[i].kind.ref_names(), g.params@, name);
    }
    lemma_output_frozen(g.output, name, value);
    lemma_refs_without_declared(g.output.ref_names(), g.params@, name);
}

/// A removed parameter leaves every socket reading what it read before, in a
/// bake that does not bind it.
pub proof fn law_frozen_sockets_read_the_same(
    g: Graph,
    h: Graph,
    name: Seq<char>,
    bound: Map<Seq<char>, ParamValue>,
    si: ScalarInput,
    ci: ColorInput,
)
    requires
        g.declarations_valid(),
        g.params@.dom().contains(name),
        param_removed(g, h, name),
        !bound.dom().contains(name),
        refs_are_declared(si.refs(), g.params@),
        refs_are_declared(ci.refs(), g.params@),
    ensures
        ({
            let value = g.params@[name].default;
            &&& scalar_read(resolved(h.params@, bound), scalar_frozen(si, name, value))
                == scalar_read(resolved(g.params@, bound), si)
            &&& color_read(resolved(h.params@, bound), color_frozen(ci, name, value))
                == color_read(resolved(g.params@, bound), ci)
        }),
{
    if let ScalarInput::Param(n) = si {
        assert(si.refs()[0] == (n@, ParamUse::Scalar));
        assert(g.params@.dom().contains(n@));
    }
    if let ColorInput::Param(n) = ci {
        assert(ci.refs()[0] == (n@, ParamUse::Color));
        assert(g.params@.dom().contains(n@));
    }
}

/// Resolving is idempotent: a context that was resolved resolves to itself, so
/// a caller need not resolve first.
pub proof fn law_resolving_twice_changes_nothing(
    params: Map<Seq<char>, ParamDecl>,
    bound: Map<Seq<char>, ParamValue>,
)
    ensures
        resolved(params, resolved(params, bound)) == resolved(params, bound),
{
    let once = resolved(params, bound);
    assert forall|n: Seq<char>| once.dom().contains(n) implies #[trigger] resolved(params, once)[n]
        == once[n] by {}
    assert(resolved(params, once) =~= once);
}

/// In a well-formed graph every socket that reads a parameter gets a value of
/// its own sort, whatever the bake binds.
pub proof fn law_resolved_params_fit_their_sockets(
    g: Graph,
    bound: Map<Seq<char>, ParamValue>,
    r: (Seq<char>, ParamUse),
)
    requires
        g.well_formed(),
        g.output.ref_names().contains(r) || exists|i: int|
            0 <= i < g.layers@.len() && (#[trigger] g.layers@[i]).kind.ref_names().contains(r),
    ensures
        resolved(g.params@, bound).dom().contains(r.0),
        resolved(g.params@, bound)[r.0].sort() == r.1,
{
    let refs = if g.output.ref_names().contains(r) {
        g.output.ref_names()
    } else {
        let i = choose|i: int|
            0 <= i < g.layers@.len() && (#[trigger] g.layers@[i]).kind.ref_names().contains(r);
        g.layers@[i].kind.ref_names()
    };
    assert(refs_are_declared(refs, g.params@));
    let k = choose|k: int| 0 <= k < refs.len() && refs[k] == r;
    assert(g.params@.dom().contains(refs[k].0));
}

/// A declared parameter is worth its binding where that fits, and its default
/// where there is none or one of the other sort. A name that is bound and not
/// declared keeps its binding, and nothing else has a value.
pub proof fn law_bindings_win_where_they_fit(
    params: Map<Seq<char>, ParamDecl>,
    bound: Map<Seq<char>, ParamValue>,
    name: Seq<char>,
)
    ensures
        match (params.get(name), bound.get(name)) {
            (None, None) => resolved(params, bound).get(name) is None,
            (None, Some(v)) => resolved(params, bound).get(name) == Some(v),
            (Some(decl), None) => resolved(params, bound).get(name) == Some(decl.default),
            (Some(decl), Some(v)) => resolved(params, bound).get(name) == Some(
                if v is Scalar == decl.kind is Scalar {
                    v
                } else {
                    decl.default
                },
            ),
        },
{
}

/// The layers listed as readers of a parameter are those with a socket that
/// names it, in the order of the layers.
pub proof fn law_readers_are_those_that_name_it(layers: Seq<Layer>, name: Seq<char>)
    ensures
        forall|id: LayerId| #[trigger]
            reader_ids(layers, name).contains(id) <==> exists|i: int|
                0 <= i < layers.len() && (#[trigger] layers[i]).id == id && refs_name(
                    layers[i].kind.ref_names(),
                    name,
                ),
        (forall|i: int, j: int|
            #![trigger layers[i], layers[j]]
            0 <= i < j < layers.len() ==> layers[i].id.0 < layers[j].id.0) ==> forall|i: int, j: int|
            #![trigger reader_ids(layers, name)[i], reader_ids(layers, name)[j]]
            0 <= i < j < reader_ids(layers, name).len() ==> reader_ids(layers, name)[i].0
                < reader_ids(layers, name)[j].0,
    decreases layers.len(),
{
    let ids = reader_ids(layers, name);
    if layers.len() > 0 {
        let front = layers.drop_last();
        let n = layers.len() - 1;
        let before = reader_ids(front, name);
        law_readers_are_those_that_name_it(front, name);
        let named = refs_name(layers[n].kind.ref_names(), name);
        assert forall|id: LayerId| #[trigger] ids.contains(id) <==> exists|i: int|
            0 <= i < layers.len() && (#[trigger] layers[i]).id == id && refs_name(
                layers[i].kind.ref_names(),
                name,
            ) by {
            if ids.contains(id) {
                let k = choose|k: int| 0 <= k < ids.len() && ids[k] == id;
                if k < before.len() {
                    assert(before[k] == id);
                    assert(before.contains(id));
                    let i = choose|i: int|
                        0 <= i < front.len() && (#[trigger] front[i]).id == id && refs_name(
                            front[i].kind.ref_names(),
                            name,
                        );
                    assert(layers[i] == front[i]);
                } else {
                    assert(layers[n].id == id);
                }
            }
            if exists|i: int|
                0 <= i < layers.len() && (#[trigger] layers[i]).id == id && refs_name(
                    layers[i].kind.ref_names(),
                    name,
                ) {
                let i = choose|i: int|
                    0 <= i < layers.len() && (#[trigger] layers[i]).id == id && refs_name(
                        layers[i].kind.ref_names(),
                        name,
                    );
                if i < n {
                    assert(front[i] == layers[i]);
                    assert(before.contains(id));
                    let k = choose|k: int| 0 <= k < before.len() && before[k] == id;
                    assert(ids[k] == id);
                } else {
                    assert(ids[before.len() as int] == id);
                }
            }
        }
        if forall|i: int, j: int|
            #![trigger layers[i], layers[j]]
            0 <= i < j < layers.len() ==> layers[i].id.0 < layers[j].id.0 {
            assert forall|i: int, j: int|
                #![trigger front[i], front[j]]
                0 <= i < j < front.len() implies front[i].id.0 < front[j].id.0 by {
                assert(layers[i].id.0 < layers[j].id.0);
            }
            assert forall|i: int, j: int|
                #![trigger ids[i], ids[j]]
                0 <= i < j < ids.len() implies ids[i].0 < ids[j].0 by {
                if j < before.len() {
                    assert(before[i].0 < before[j].0);
                } else {
                    assert(before[i] == ids[i]);
                    assert(before.contains(ids[i]));
                    let k = choose|k: int|
                        0 <= k < front.len() && (#[trigger] front[k]).id == ids[i] && refs_name(
                            front[k].kind.ref_names(),
                            name,
                        );
                    assert(layers[k].id.0 < layers[n].id.0);
                }
            }
        }
    }
}

/// A parameter is declared exactly where its name is new and its default is of
/// its own sort, and then stands under its name. No other declaration changes.
pub proof fn law_parameters_are_declared_once(
    g: Graph,
    h: Graph,
    decl: ParamDecl,
    r: Result<(), GraphError>,
    other: Seq<char>,
)
    requires
        param_declared(g, h, decl, r),
    ensures
        r is Ok <==> !g.params@.dom().contains(decl.name@) && (decl.default is Scalar
            == decl.kind is Scalar),
        r is Ok ==> h.params@.get(decl.name@) == Some(decl),
        other != decl.name@ || r is Err ==> h.params@.get(other) == g.params@.get(other),
        g.params@.dom().contains(decl.name@) ==> (r matches Err(GraphError::DuplicateParam(n)) && n@
            == decl.name@),
        r matches Err(GraphError::ParamDefaultMismatch { name, declared }) ==> name@ == decl.name@
            && declared@ == (if decl.kind is Scalar {
            "scalar"@
        } else {
            "color"@
        }),
{
}

/// A declaration is replaced exactly where the parameter exists, its new name
/// is free or its own, and its default is of its sort; and where it changes its
/// name or sort, only while nothing reads it.
pub proof fn law_declarations_change_under_no_reader(
    g: Graph,
    h: Graph,
    name: Seq<char>,
    decl: ParamDecl,
    r: Result<(), GraphError>,
    other: Seq<char>,
)
    requires
        decl_replaced(g, h, name, decl, r),
    ensures
        r is Ok <==> {
            &&& g.params@.dom().contains(name)
            &&& decl.name@ == name || !g.params@.dom().contains(decl.name@)
            &&& decl.default is Scalar == decl.kind is Scalar
            &&& decl.name@ == name && decl.kind is Scalar == g.params@[name].kind is Scalar
                || !param_is_read(g, name)
        },
        r is Ok ==> h.params@.get(decl.name@) == Some(decl) && (decl.name@ != name
            ==> h.params@.get(name) is None),
        other != decl.name@ && other != name || r is Err ==> h.params@.get(other) == g.params@.get(
            other,
        ),
        r matches Err(e) ==> if !g.params@.dom().contains(name) {
            e is UnknownParam && e->UnknownParam_0@ == name
        } else if decl.name@ != name && g.params@.dom().contains(decl.name@) {
            e is DuplicateParam && e->DuplicateParam_0@ == decl.name@
        } else if decl.default is Scalar != decl.kind is Scalar {
            e is ParamDefaultMismatch
        } else {
            e is ParamTypeMismatch
        },
{
}

/// A resolved context holds under every declared name what the graph says the
/// parameter is worth, and keeps its seed and step.
pub proof fn law_resolving_gives_every_parameter_its_worth(
    g: Graph,
    ctx: EvalCtx,
    name: &str,
    worth: Option<ParamValue>,
    r: EvalCtx,
)
    requires
        call_ensures(Graph::param_value, (&g, name, &ctx), worth),
        call_ensures(Graph::resolve_params, (&g, &ctx), r),
    ensures
        worth is Some <==> g.params@.dom().contains(name@),
        worth matches Some(v) ==> r.params@.get(name@) == Some(v),
        worth is None ==> r.params@.get(name@) == ctx.params@.get(name@),
        r.seed == ctx.seed && r.normal_epsilon == ctx.normal_epsilon,
{
}

/// A parameter is read where a socket of a layer or of the output names it, and
/// every such layer is listed as a reader.
pub proof fn law_readers_are_listed(
    g: Graph,
    name: &str,
    read: bool,
    readers: Vec<LayerId>,
    i: int,
)
    requires
        call_ensures(Graph::reads_param, (&g, name), read),
        call_ensures(Graph::param_readers, (&g, name), readers),
    ensures
        0 <= i < g.layers@.len() && refs_name(g.layers@[i].kind.ref_names(), name@) ==> read
            && readers@.contains(g.layers@[i].id),
        refs_name(g.output.ref_names(), name@) ==> read,
        refs_name(g.output.ref_names(), name@) && g.output.color is Some ==> readers@.len() > 0
            && readers@.last() == g.output.color->Some_0,
        !read ==> readers@.len() == 0,
{
    let own = reader_ids(g.layers@, name@);
    law_readers_are_those_that_name_it(g.layers@, name@);
    if 0 <= i < g.layers@.len() && refs_name(g.layers@[i].kind.ref_names(), name@) {
        assert(own.contains(g.layers@[i].id));
        let k = own.index_of(g.layers@[i].id);
        assert(readers@[k] == own[k]);
    }
    if !read && own.len() > 0 {
        assert(own.contains(own[0]));
    }
}

} // verus!
