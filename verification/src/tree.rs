//! The pane-tree builder and its inverse.  The flat section stream encodes
//! nesting with scope markers: a start marker opens a scope under the most
//! recent node, an end marker closes it.  `build_tree` replays the stream
//! over an explicit stack; `flatten_tree` re-emits a tree in canonical
//! order: each node, then its auxiliary sections, then — only when it has
//! children — one start marker, the children, and the matching end marker.
//!
//! The acceptance condition is exact: building succeeds precisely when the
//! marker machine accepts the stream, and an unbalanced stream is always
//! rejected with `UnbalancedScope` — never silently truncated.

use vstd::prelude::*;

use crate::error::BflytError;
use crate::model::BflytSection;

verus! {

/// A node of the reconstructed pane tree: its section, the auxiliary
/// sections attached to it, and its children in source order.
pub struct PaneNode {
    pub section: BflytSection,
    pub aux: Vec<BflytSection>,
    pub children: Vec<PaneNode>,
}

/// The reconstructed forest: document-level auxiliary sections and the
/// root nodes in source order.
pub struct BflytTree {
    pub doc_aux: Vec<BflytSection>,
    pub roots: Vec<PaneNode>,
}

/// Opens a scope under the most recent node.
pub open spec fn is_start_marker(s: BflytSection) -> bool {
    s is PaneStart || s is GroupStart
}

/// Closes the innermost open scope.
pub open spec fn is_end_marker(s: BflytSection) -> bool {
    s is PaneEnd || s is GroupEnd
}

/// A section that becomes a tree node.
pub open spec fn is_node_section(s: BflytSection) -> bool {
    ||| s is Pane
    ||| s is Picture
    ||| s is TextBox
    ||| s is Part
    ||| s is Window
    ||| s is Bounding
    ||| s is Group
    ||| s is Unknown
}

/// An auxiliary section: it attaches to the most recent node, or stays at
/// document scope when no node precedes it.
pub open spec fn is_aux_section(s: BflytSection) -> bool {
    ||| s is TextureList
    ||| s is Material
    ||| s is FontList
    ||| s is UserDataList
    ||| s is Layout
}

/// How a section changes the open-scope count.
pub open spec fn scope_delta(s: BflytSection) -> int {
    if is_start_marker(s) {
        1
    } else if is_end_marker(s) {
        -1
    } else {
        0
    }
}

/// The scope stack is balanced from state `depth` on: no prefix closes more
/// scopes than are open, and every scope is closed at the end.
pub open spec fn balanced_from(secs: Seq<BflytSection>, depth: int) -> bool
    decreases secs.len(),
{
    if secs.len() == 0 {
        depth == 0
    } else {
        depth + scope_delta(secs[0]) >= 0 && balanced_from(
            secs.subrange(1, secs.len() as int),
            depth + scope_delta(secs[0]),
        )
    }
}

/// Scope balance: starts and ends match in count and in position.
pub open spec fn balanced(secs: Seq<BflytSection>) -> bool {
    balanced_from(secs, 0)
}

/// One step of the builder's marker machine: `depth` open scopes, and
/// whether an unplaced most-recent node is at hand to open a scope under.
/// `None` means the machine is stuck.
pub open spec fn machine_run(secs: Seq<BflytSection>, depth: int, have_last: bool) -> Option<
    (int, bool),
>
    decreases secs.len(),
{
    if secs.len() == 0 {
        Some((depth, have_last))
    } else {
        let s = secs[0];
        let rest = secs.subrange(1, secs.len() as int);
        if is_node_section(s) {
            machine_run(rest, depth, true)
        } else if is_aux_section(s) {
            machine_run(rest, depth, have_last)
        } else if is_start_marker(s) {
            if have_last {
                machine_run(rest, depth + 1, false)
            } else {
                None
            }
        } else {
            if depth > 0 {
                machine_run(rest, depth - 1, false)
            } else {
                None
            }
        }
    }
}

/// The builder accepts a stream when its marker machine runs to completion
/// with every scope closed.
pub open spec fn build_accepts(secs: Seq<BflytSection>) -> bool {
    match machine_run(secs, 0, false) {
        Some((depth, have_last)) => depth == 0,
        None => false,
    }
}

/// An accepted stream is balanced.
pub proof fn lemma_accepted_balanced(secs: Seq<BflytSection>, depth: int, have_last: bool)
    requires
        match machine_run(secs, depth, have_last) {
            Some((d, h)) => d == 0,
            None => false,
        },
        depth >= 0,
    ensures
        balanced_from(secs, depth),
    decreases secs.len(),
{
    if secs.len() > 0 {
        let s = secs[0];
        let rest = secs.subrange(1, secs.len() as int);
        if is_node_section(s) {
            lemma_accepted_balanced(rest, depth, true);
        } else if is_aux_section(s) {
            lemma_accepted_balanced(rest, depth, have_last);
        } else if is_start_marker(s) {
            lemma_accepted_balanced(rest, depth + 1, false);
        } else {
            lemma_accepted_balanced(rest, depth - 1, false);
        }
    }
}

/// Scope balance, stated of the builder: an unbalanced stream is never
/// accepted, and the builder's exact acceptance condition implies balance.
pub proof fn lemma_scope_balance(secs: Seq<BflytSection>)
    ensures
        build_accepts(secs) ==> balanced(secs),
        !balanced(secs) ==> !build_accepts(secs),
{
    if build_accepts(secs) {
        lemma_accepted_balanced(secs, 0, false);
    }
}

/// Ghost mirror of a pane node: what the builder's result looks like at the
/// specification level.
#[verifier::ext_equal]
pub ghost struct NodeV {
    pub section: BflytSection,
    pub aux: Seq<BflytSection>,
    pub children: Seq<NodeV>,
}

/// Ghost mirror of the builder's whole state.
#[verifier::ext_equal]
pub ghost struct BuildState {
    pub doc_aux: Seq<BflytSection>,
    pub roots: Seq<NodeV>,
    pub stack: Seq<NodeV>,
    pub last: Option<NodeV>,
}

pub open spec fn build_init() -> BuildState {
    BuildState {
        doc_aux: Seq::empty(),
        roots: Seq::empty(),
        stack: Seq::empty(),
        last: None,
    }
}

/// Attaches a finished node to the innermost open scope, or to the roots.
pub open spec fn place_v(n: NodeV, st: BuildState) -> BuildState {
    if st.stack.len() > 0 {
        let top = st.stack[st.stack.len() - 1];
        BuildState {
            stack: st.stack.update(
                st.stack.len() - 1,
                NodeV { children: top.children.push(n), ..top },
            ),
            ..st
        }
    } else {
        BuildState { roots: st.roots.push(n), ..st }
    }
}

/// One step of the builder on one section; `None` means the builder fails.
pub open spec fn build_step(st: BuildState, s: BflytSection) -> Option<BuildState> {
    if is_node_section(s) {
        let st1 = match st.last {
            Some(n) => place_v(n, st),
            None => st,
        };
        Some(
            BuildState {
                last: Some(NodeV { section: s, aux: Seq::empty(), children: Seq::empty() }),
                ..st1
            },
        )
    } else if is_aux_section(s) {
        match st.last {
            Some(n) => Some(BuildState { last: Some(NodeV { aux: n.aux.push(s), ..n }), ..st }),
            None => if st.stack.len() > 0 {
                let top = st.stack[st.stack.len() - 1];
                Some(
                    BuildState {
                        stack: st.stack.update(
                            st.stack.len() - 1,
                            NodeV { aux: top.aux.push(s), ..top },
                        ),
                        ..st
                    },
                )
            } else {
                Some(BuildState { doc_aux: st.doc_aux.push(s), ..st })
            },
        }
    } else if is_start_marker(s) {
        match st.last {
            Some(n) => Some(BuildState { stack: st.stack.push(n), last: None, ..st }),
            None => None,
        }
    } else {
        if st.stack.len() > 0 {
            let top = st.stack[st.stack.len() - 1];
            let parent = match st.last {
                Some(n) => NodeV { children: top.children.push(n), ..top },
                None => top,
            };
            let st1 = BuildState { stack: st.stack.drop_last(), ..st };
            Some(BuildState { last: None, ..place_v(parent, st1) })
        } else {
            None
        }
    }
}

/// The builder replayed over a whole stream.
pub open spec fn build_run(secs: Seq<BflytSection>, st: BuildState) -> Option<BuildState>
    decreases secs.len(),
{
    if secs.len() == 0 {
        Some(st)
    } else {
        match build_step(st, secs[0]) {
            Some(st2) => build_run(secs.subrange(1, secs.len() as int), st2),
            None => None,
        }
    }
}

/// The forest a stream builds: the document-scope sections and the roots,
/// with a still-unplaced final node appended; `None` when the builder fails
/// or a scope stays open.
pub open spec fn spec_build(secs: Seq<BflytSection>) -> Option<(Seq<BflytSection>, Seq<NodeV>)> {
    match build_run(secs, build_init()) {
        Some(st) => if st.stack.len() == 0 {
            Some(
                (
                    st.doc_aux,
                    match st.last {
                        Some(n) => st.roots.push(n),
                        None => st.roots,
                    },
                ),
            )
        } else {
            None
        },
        None => None,
    }
}

/// The ghost mirror of a built node.
pub open spec fn node_view(n: PaneNode) -> NodeV
    decreases n, 1int,
{
    NodeV { section: n.section, aux: n.aux@, children: nodes_view(n.children@) }
}

/// The ghost mirror of a node list.
pub open spec fn nodes_view(ns: Seq<PaneNode>) -> Seq<NodeV>
    decreases ns, 2int,
{
    if ns.len() == 0 {
        Seq::empty()
    } else {
        seq![node_view(ns[0])] + nodes_view(ns.subrange(1, ns.len() as int))
    }
}

pub proof fn lemma_nodes_view_len(ns: Seq<PaneNode>)
    ensures
        nodes_view(ns).len() == ns.len(),
    decreases ns.len(),
{
    if ns.len() > 0 {
        lemma_nodes_view_len(ns.subrange(1, ns.len() as int));
    }
}

pub proof fn lemma_nodes_view_index(ns: Seq<PaneNode>, i: int)
    requires
        0 <= i < ns.len(),
    ensures
        nodes_view(ns).len() == ns.len(),
        nodes_view(ns)[i] == node_view(ns[i]),
    decreases i,
{
    lemma_nodes_view_len(ns);
    if i > 0 {
        lemma_nodes_view_index(ns.subrange(1, ns.len() as int), i - 1);
    }
}

pub proof fn lemma_nodes_view_snoc(ns: Seq<PaneNode>, n: PaneNode)
    ensures
        nodes_view(ns.push(n)) == nodes_view(ns).push(node_view(n)),
    decreases ns.len(),
{
    let w = ns.push(n);
    if ns.len() == 0 {
        assert(ns =~= Seq::<PaneNode>::empty());
        assert(w.subrange(1, w.len() as int) =~= Seq::<PaneNode>::empty());
        assert(w[0] == n);
        assert(nodes_view(w) =~= nodes_view(ns).push(node_view(n)));
    } else {
        assert(w[0] == ns[0]);
        assert(w.subrange(1, w.len() as int) =~= ns.subrange(1, ns.len() as int).push(n));
        lemma_nodes_view_snoc(ns.subrange(1, ns.len() as int), n);
        assert(nodes_view(w) =~= nodes_view(ns).push(node_view(n)));
    }
}

pub proof fn lemma_nodes_view_update(ns: Seq<PaneNode>, i: int, n: PaneNode)
    requires
        0 <= i < ns.len(),
    ensures
        nodes_view(ns.update(i, n)) == nodes_view(ns).update(i, node_view(n)),
    decreases i,
{
    lemma_nodes_view_len(ns);
    lemma_nodes_view_len(ns.update(i, n));
    let w = ns.update(i, n);
    if i == 0 {
        assert(w[0] == n);
        assert(w.subrange(1, w.len() as int) =~= ns.subrange(1, ns.len() as int));
        assert(nodes_view(w) =~= nodes_view(ns).update(0, node_view(n))) by {
            assert forall|k: int| 0 <= k < ns.len() implies nodes_view(w)[k] == nodes_view(
                ns,
            ).update(0, node_view(n))[k] by {
                lemma_nodes_view_index(w, k);
                if k > 0 {
                    lemma_nodes_view_index(ns, k);
                    assert(w[k] == ns[k]);
                }
            }
        }
    } else {
        assert(w[0] == ns[0]);
        assert(w.subrange(1, w.len() as int) =~= ns.subrange(1, ns.len() as int).update(i - 1, n));
        lemma_nodes_view_update(ns.subrange(1, ns.len() as int), i - 1, n);
        assert(nodes_view(w) =~= nodes_view(ns).update(i, node_view(n)));
    }
}

pub proof fn lemma_nodes_view_drop_last(ns: Seq<PaneNode>)
    requires
        ns.len() > 0,
    ensures
        nodes_view(ns.drop_last()) == nodes_view(ns).drop_last(),
        nodes_view(ns).last() == node_view(ns.last()),
    decreases ns.len(),
{
    lemma_nodes_view_len(ns);
    lemma_nodes_view_len(ns.drop_last());
    lemma_nodes_view_index(ns, ns.len() - 1);
    assert(nodes_view(ns.drop_last()) =~= nodes_view(ns).drop_last()) by {
        assert forall|k: int| 0 <= k < ns.len() - 1 implies nodes_view(ns.drop_last())[k]
            == nodes_view(ns)[k] by {
            lemma_nodes_view_index(ns.drop_last(), k);
            lemma_nodes_view_index(ns, k);
            assert(ns.drop_last()[k] == ns[k]);
        }
    }
}

/// The ghost mirror of the builder's live state.
pub open spec fn state_view(
    doc_aux: Seq<BflytSection>,
    roots: Seq<PaneNode>,
    stack: Seq<PaneNode>,
    last: Option<PaneNode>,
) -> BuildState {
    BuildState {
        doc_aux: doc_aux,
        roots: nodes_view(roots),
        stack: nodes_view(stack),
        last: match last {
            Some(n) => Some(node_view(n)),
            None => None,
        },
    }
}

/// Rebuilds the pane tree from the flat section stream, consuming it.
/// Succeeds exactly when the marker machine accepts the stream; any
/// unbalanced or misplaced marker fails with `UnbalancedScope`.
pub fn build_tree(sections: Vec<BflytSection>) -> (r: Result<BflytTree, BflytError>)
    ensures
        r is Ok <==> build_accepts(sections@),
        r is Ok ==> spec_build(sections@) == Some(
            (r->Ok_0.doc_aux@, nodes_view(r->Ok_0.roots@)),
        ),
        r is Err ==> spec_build(sections@) is None,
        r is Err ==> r->Err_0 == BflytError::UnbalancedScope,
{
    let ghost all = sections@;
    let mut rest = sections;
    let mut stack: Vec<PaneNode> = Vec::new();
    let mut roots: Vec<PaneNode> = Vec::new();
    let mut doc_aux: Vec<BflytSection> = Vec::new();
    let mut last: Option<PaneNode> = None;
    proof {
        assert(nodes_view(Seq::<PaneNode>::empty()) =~= Seq::<NodeV>::empty());
        assert(state_view(doc_aux@, roots@, stack@, last) =~= build_init());
    }
    while rest.len() > 0
        invariant
            all == sections@,
            machine_run(all, 0, false) == machine_run(
                rest@,
                stack@.len() as int,
                last is Some,
            ),
            build_run(all, build_init()) == build_run(
                rest@,
                state_view(doc_aux@, roots@, stack@, last),
            ),
        decreases rest.len(),
    {
        let ghost r0 = rest@;
        let ghost d0 = stack@.len() as int;
        let ghost h0 = last is Some;
        let ghost st0 = state_view(doc_aux@, roots@, stack@, last);
        let s = rest.remove(0);
        proof {
            assert(s == r0[0]);
            assert(rest@ =~= r0.subrange(1, r0.len() as int));
        }
        match classify(&s) {
            SectionClass::Node => {
                let ghost had_last = last;
                match last {
                    Some(n) => place_node(n, &mut stack, &mut roots),
                    None => (),
                }
                let fresh = PaneNode { section: s, aux: Vec::new(), children: Vec::new() };
                proof {
                    assert(node_view(fresh) =~= NodeV {
                        section: s,
                        aux: Seq::empty(),
                        children: Seq::empty(),
                    }) by {
                        assert(nodes_view(Seq::<PaneNode>::empty()) =~= Seq::<NodeV>::empty());
                    }
                }
                last = Some(fresh);
                proof {
                    assert(machine_run(r0, d0, h0) == machine_run(rest@, d0, true));
                    match had_last {
                        Some(n) => {
                            assert(state_view(doc_aux@, roots@, stack@, last) =~= BuildState {
                                last: Some(node_view(last->0)),
                                ..place_v(node_view(n), st0)
                            });
                        },
                        None => {
                            assert(state_view(doc_aux@, roots@, stack@, last) =~= BuildState {
                                last: Some(node_view(last->0)),
                                ..st0
                            });
                        },
                    }
                    assert(build_step(st0, s) == Some(state_view(doc_aux@, roots@, stack@, last)));
                }
            },
            SectionClass::Aux => {
                last = match last {
                    Some(mut n) => {
                        let ghost n0 = n;
                        n.aux.push(s);
                        proof {
                            assert(node_view(n) =~= NodeV {
                                aux: node_view(n0).aux.push(s),
                                ..node_view(n0)
                            });
                        }
                        Some(n)
                    },
                    None => {
                        if stack.len() > 0 {
                            let ghost sk0 = stack@;
                            let top_i = stack.len() - 1;
                            let mut top = stack.pop().unwrap();
                            let ghost top0 = top;
                            top.aux.push(s);
                            stack.push(top);
                            proof {
                                assert(stack@ =~= sk0.update(top_i as int, top));
                                assert(node_view(top) =~= NodeV {
                                    aux: node_view(top0).aux.push(s),
                                    ..node_view(top0)
                                });
                                lemma_nodes_view_update(sk0, top_i as int, top);
                                lemma_nodes_view_index(sk0, top_i as int);
                            }
                        } else {
                            doc_aux.push(s);
                        }
                        None
                    },
                };
                proof {
                    assert(machine_run(r0, d0, h0) == machine_run(rest@, d0, h0));
                    assert(state_view(doc_aux@, roots@, stack@, last) =~= build_step(st0, s)->0);
                    assert(build_step(st0, s) == Some(state_view(doc_aux@, roots@, stack@, last)));
                }
            },
            SectionClass::Start => {
                match last {
                    Some(n) => {
                        let ghost sk0 = stack@;
                        stack.push(n);
                        last = None;
                        proof {
                            assert(machine_run(r0, d0, h0) == machine_run(rest@, d0 + 1, false));
                            assert(stack@ =~= sk0.push(n));
                            lemma_nodes_view_snoc(sk0, n);
                            assert(state_view(doc_aux@, roots@, stack@, last) =~= build_step(
                                st0,
                                s,
                            )->0);
                            assert(build_step(st0, s) == Some(
                                state_view(doc_aux@, roots@, stack@, last),
                            ));
                        }
                    },
                    None => {
                        proof {
                            assert(machine_run(r0, d0, h0) is None);
                            assert(build_step(st0, s) is None);
                            assert(build_run(all, build_init()) is None);
                        }
                        return Err(BflytError::UnbalancedScope);
                    },
                }
            },
            SectionClass::End => {
                if stack.len() == 0 {
                    proof {
                        assert(machine_run(r0, d0, h0) is None);
                        lemma_nodes_view_len(stack@);
                        assert(build_step(st0, s) is None);
                        assert(build_run(all, build_init()) is None);
                    }
                    return Err(BflytError::UnbalancedScope);
                }
                let ghost sk0 = stack@;
                let mut parent = stack.pop().unwrap();
                let ghost parent0 = parent;
                proof {
                    lemma_nodes_view_drop_last(sk0);
                    lemma_nodes_view_len(sk0);
                }
                match last {
                    Some(n) => {
                        parent.children.push(n);
                        proof {
                            assert(node_view(parent) =~= NodeV {
                                children: node_view(parent0).children.push(node_view(last->0)),
                                ..node_view(parent0)
                            }) by {
                                lemma_nodes_view_snoc(parent0.children@, last->0);
                                assert(parent.children@ =~= parent0.children@.push(last->0));
                            }
                        }
                    },
                    None => (),
                }
                place_node(parent, &mut stack, &mut roots);
                last = None;
                proof {
                    assert(machine_run(r0, d0, h0) == machine_run(rest@, d0 - 1, false));
                    assert(state_view(doc_aux@, roots@, stack@, last) =~= build_step(st0, s)->0);
                    assert(build_step(st0, s) == Some(state_view(doc_aux@, roots@, stack@, last)));
                }
            },
        }
    }
    proof {
        assert(machine_run(rest@, stack@.len() as int, last is Some) == Some(
            (stack@.len() as int, last is Some),
        ));
        assert(build_run(rest@, state_view(doc_aux@, roots@, stack@, last)) == Some(
            state_view(doc_aux@, roots@, stack@, last),
        ));
        lemma_nodes_view_len(stack@);
    }
    if stack.len() > 0 {
        return Err(BflytError::UnbalancedScope);
    }
    match last {
        Some(n) => {
            let ghost rt0 = roots@;
            roots.push(n);
            proof {
                assert(roots@ =~= rt0.push(n));
                lemma_nodes_view_snoc(rt0, n);
            }
        },
        None => (),
    }
    Ok(BflytTree { doc_aux, roots })
}

enum SectionClass {
    Node,
    Aux,
    Start,
    End,
}

fn classify(s: &BflytSection) -> (r: SectionClass)
    ensures
        r is Node <==> is_node_section(*s),
        r is Aux <==> is_aux_section(*s),
        r is Start <==> is_start_marker(*s),
        r is End <==> is_end_marker(*s),
{
    match s {
        BflytSection::Pane { .. } => SectionClass::Node,
        BflytSection::Picture { .. } => SectionClass::Node,
        BflytSection::TextBox { .. } => SectionClass::Node,
        BflytSection::Part { .. } => SectionClass::Node,
        BflytSection::Window { .. } => SectionClass::Node,
        BflytSection::Bounding { .. } => SectionClass::Node,
        BflytSection::Group { .. } => SectionClass::Node,
        BflytSection::Unknown { .. } => SectionClass::Node,
        BflytSection::TextureList { .. } => SectionClass::Aux,
        BflytSection::Material { .. } => SectionClass::Aux,
        BflytSection::FontList { .. } => SectionClass::Aux,
        BflytSection::UserDataList { .. } => SectionClass::Aux,
        BflytSection::Layout { .. } => SectionClass::Aux,
        BflytSection::PaneStart => SectionClass::Start,
        BflytSection::GroupStart => SectionClass::Start,
        BflytSection::PaneEnd => SectionClass::End,
        BflytSection::GroupEnd => SectionClass::End,
    }
}

/// Attaches a finished node to the innermost open scope, or to the roots
/// when none is open; the ghost mirror moves by `place_v`.
fn place_node(n: PaneNode, stack: &mut Vec<PaneNode>, roots: &mut Vec<PaneNode>)
    ensures
        final(stack)@.len() == old(stack)@.len(),
        forall|d: Seq<BflytSection>, l: Option<PaneNode>|
            #[trigger] state_view(d, final(roots)@, final(stack)@, l) == place_v(
                node_view(n),
                state_view(d, old(roots)@, old(stack)@, l),
            ),
{
    let ghost n_v = node_view(n);
    if stack.len() > 0 {
        let ghost st0 = stack@;
        let top_i = stack.len() - 1;
        let mut top = stack.pop().unwrap();
        let ghost top0 = top;
        top.children.push(n);
        stack.push(top);
        proof {
            assert(stack@ =~= st0.update(top_i as int, top));
            assert(node_view(top) =~= NodeV {
                children: nodes_view(top0.children@).push(n_v),
                ..node_view(top0)
            }) by {
                assert(top.children@ =~= top0.children@.push(n));
                lemma_nodes_view_snoc(top0.children@, n);
            }
            lemma_nodes_view_update(st0, top_i as int, top);
            lemma_nodes_view_index(st0, top_i as int);
            assert forall|d: Seq<BflytSection>, l: Option<PaneNode>|
                #[trigger] state_view(d, roots@, stack@, l) == place_v(
                    n_v,
                    state_view(d, roots@, st0, l),
                ) by {
                lemma_nodes_view_len(st0);
                assert(state_view(d, roots@, stack@, l) =~= place_v(
                    n_v,
                    state_view(d, roots@, st0, l),
                ));
            }
        }
    } else {
        let ghost r0 = roots@;
        roots.push(n);
        proof {
            assert(roots@ =~= r0.push(n));
            lemma_nodes_view_snoc(r0, n);
            assert forall|d: Seq<BflytSection>, l: Option<PaneNode>|
                #[trigger] state_view(d, roots@, stack@, l) == place_v(
                    n_v,
                    state_view(d, r0, stack@, l),
                ) by {
                lemma_nodes_view_len(stack@);
                assert(state_view(d, roots@, stack@, l) =~= place_v(
                    n_v,
                    state_view(d, r0, stack@, l),
                ));
            }
        }
    }
}


/// The start marker a node's scope is written with: group sections nest
/// with group markers, every other node with pane markers.
pub open spec fn start_marker_for(s: BflytSection) -> BflytSection {
    if s is Group {
        BflytSection::GroupStart
    } else {
        BflytSection::PaneStart
    }
}

/// The matching end marker.
pub open spec fn end_marker_for(s: BflytSection) -> BflytSection {
    if s is Group {
        BflytSection::GroupEnd
    } else {
        BflytSection::PaneEnd
    }
}

/// The canonical flat form of one node: the section, its auxiliary
/// sections, and — only when it has children — a wrapped child list.
pub open spec fn flat_node(n: PaneNode) -> Seq<BflytSection>
    decreases n, 1int,
{
    seq![n.section] + n.aux@ + if n.children@.len() > 0 {
        seq![start_marker_for(n.section)] + flat_nodes(n.children@) + seq![
            end_marker_for(n.section),
        ]
    } else {
        Seq::<BflytSection>::empty()
    }
}

/// The canonical flat form of a node list.
pub open spec fn flat_nodes(ns: Seq<PaneNode>) -> Seq<BflytSection>
    decreases ns, 2int,
{
    if ns.len() == 0 {
        Seq::empty()
    } else {
        flat_node(ns[0]) + flat_nodes(ns.subrange(1, ns.len() as int))
    }
}

/// The canonical flat form of the whole forest: document-level auxiliary
/// sections first, then each root.
pub open spec fn flat_tree(t: BflytTree) -> Seq<BflytSection> {
    t.doc_aux@ + flat_nodes(t.roots@)
}

/// Well-formedness of a node: its section is node-bearing and its attached
/// sections are auxiliary, recursively.
pub open spec fn node_wf(n: PaneNode) -> bool
    decreases n, 1int,
{
    &&& is_node_section(n.section)
    &&& forall|i: int| 0 <= i < n.aux@.len() ==> is_aux_section(#[trigger] n.aux@[i])
    &&& nodes_wf(n.children@)
}

pub open spec fn nodes_wf(ns: Seq<PaneNode>) -> bool
    decreases ns, 2int,
{
    if ns.len() == 0 {
        true
    } else {
        node_wf(ns[0]) && nodes_wf(ns.subrange(1, ns.len() as int))
    }
}

pub open spec fn tree_wf(t: BflytTree) -> bool {
    &&& forall|i: int| 0 <= i < t.doc_aux@.len() ==> is_aux_section(#[trigger] t.doc_aux@[i])
    &&& nodes_wf(t.roots@)
}

/// The marker machine runs a concatenation in two stages.
proof fn lemma_machine_append(a: Seq<BflytSection>, b: Seq<BflytSection>, depth: int, h: bool)
    ensures
        machine_run(a + b, depth, h) == match machine_run(a, depth, h) {
            Some((d2, h2)) => machine_run(b, d2, h2),
            None => None,
        },
    decreases a.len(),
{
    if a.len() == 0 {
        assert(a + b =~= b);
    } else {
        let w = a + b;
        let s0 = a[0];
        let at = a.subrange(1, a.len() as int);
        assert(w[0] == s0);
        assert(w.subrange(1, w.len() as int) =~= at + b);
        if is_node_section(s0) {
            lemma_machine_append(at, b, depth, true);
        } else if is_aux_section(s0) {
            lemma_machine_append(at, b, depth, h);
        } else if is_start_marker(s0) {
            if h {
                lemma_machine_append(at, b, depth + 1, false);
            }
        } else {
            if depth > 0 {
                lemma_machine_append(at, b, depth - 1, false);
            }
        }
    }
}

/// Auxiliary sections do not move the machine.
proof fn lemma_machine_aux(a: Seq<BflytSection>, depth: int, h: bool)
    requires
        forall|i: int| 0 <= i < a.len() ==> is_aux_section(#[trigger] a[i]),
    ensures
        machine_run(a, depth, h) == Some((depth, h)),
    decreases a.len(),
{
    if a.len() > 0 {
        assert(forall|i: int|
            0 <= i < a.len() - 1 ==> is_aux_section(
                #[trigger] a.subrange(1, a.len() as int)[i],
            ));
        lemma_machine_aux(a.subrange(1, a.len() as int), depth, h);
    }
}

/// The flat form of a well-formed node runs the machine back to its entry
/// depth, never getting stuck.
proof fn lemma_flat_node_run(n: PaneNode, depth: int, h: bool)
    requires
        node_wf(n),
        depth >= 0,
    ensures
        machine_run(flat_node(n), depth, h) == Some(
            (depth, n.children@.len() == 0),
        ),
    decreases n, 3int,
{
    let head = seq![n.section];
    let tailmk: Seq<BflytSection> = if n.children@.len() > 0 {
        seq![start_marker_for(n.section)] + flat_nodes(n.children@) + seq![
            end_marker_for(n.section),
        ]
    } else {
        Seq::<BflytSection>::empty()
    };
    assert(flat_node(n) == head + n.aux@ + tailmk);
    assert((head + n.aux@ + tailmk) =~= head + (n.aux@ + tailmk));
    lemma_machine_append(head, n.aux@ + tailmk, depth, h);
    assert(head.subrange(1, 1) =~= Seq::<BflytSection>::empty());
    assert(machine_run(Seq::<BflytSection>::empty(), depth, true) == Some((depth, true)));
    assert(machine_run(head, depth, h) == Some((depth, true)));
    lemma_machine_append(n.aux@, tailmk, depth, true);
    lemma_machine_aux(n.aux@, depth, true);
    if n.children@.len() > 0 {
        let sm = seq![start_marker_for(n.section)];
        let em = seq![end_marker_for(n.section)];
        assert(tailmk =~= sm + (flat_nodes(n.children@) + em));
        lemma_machine_append(sm, flat_nodes(n.children@) + em, depth, true);
        assert(sm.subrange(1, 1) =~= Seq::<BflytSection>::empty());
        assert(machine_run(Seq::<BflytSection>::empty(), depth + 1, false) == Some(
            (depth + 1, false),
        ));
        assert(machine_run(sm, depth, true) == Some((depth + 1, false)));
        lemma_machine_append(flat_nodes(n.children@), em, depth + 1, false);
        lemma_flat_nodes_run(n.children@, depth + 1, false);
        assert(em.subrange(1, 1) =~= Seq::<BflytSection>::empty());
        assert(machine_run(Seq::<BflytSection>::empty(), depth, false) == Some((depth, false)));
    }
}

/// The flat form of a well-formed node list runs the machine back to its
/// entry depth.
proof fn lemma_flat_nodes_run(ns: Seq<PaneNode>, depth: int, h: bool)
    requires
        nodes_wf(ns),
        depth >= 0,
    ensures
        machine_run(flat_nodes(ns), depth, h) == Some(
            (
                depth,
                if ns.len() > 0 {
                    ns[ns.len() - 1].children@.len() == 0
                } else {
                    h
                },
            ),
        ),
    decreases ns, 4int,
{
    if ns.len() > 0 {
        lemma_machine_append(
            flat_node(ns[0]),
            flat_nodes(ns.subrange(1, ns.len() as int)),
            depth,
            h,
        );
        lemma_flat_node_run(ns[0], depth, h);
        lemma_flat_nodes_run(ns.subrange(1, ns.len() as int), depth, ns[0].children@.len() == 0);
        if ns.len() > 1 {
            assert(ns.subrange(1, ns.len() as int)[ns.len() - 2] == ns[ns.len() - 1]);
        }
    }
}

/// The flat form of every well-formed tree is accepted by the builder: the
/// wrapper markers it emits always balance.
pub proof fn lemma_flatten_accepted(t: BflytTree)
    requires
        tree_wf(t),
    ensures
        build_accepts(flat_tree(t)),
{
    lemma_machine_append(t.doc_aux@, flat_nodes(t.roots@), 0, false);
    lemma_machine_aux(t.doc_aux@, 0, false);
    lemma_flat_nodes_run(t.roots@, 0, false);
}

/// Builds the start marker for a node's scope.
fn start_marker_of(s: &BflytSection) -> (r: BflytSection)
    ensures
        r == start_marker_for(*s),
{
    match s {
        BflytSection::Group { .. } => BflytSection::GroupStart,
        _ => BflytSection::PaneStart,
    }
}

/// Builds the end marker for a node's scope.
fn end_marker_of(s: &BflytSection) -> (r: BflytSection)
    ensures
        r == end_marker_for(*s),
{
    match s {
        BflytSection::Group { .. } => BflytSection::GroupEnd,
        _ => BflytSection::PaneEnd,
    }
}

/// Appends every element of `v`, consuming it.
fn append_sections(out: &mut Vec<BflytSection>, v: Vec<BflytSection>)
    ensures
        final(out)@ == old(out)@ + v@,
{
    let ghost v0 = v@;
    let mut rest = v;
    while rest.len() > 0
        invariant
            v0 == v@,
            rest@.len() <= v0.len(),
            out@ == old(out)@ + v0.subrange(0, v0.len() - rest@.len()),
            rest@ == v0.subrange(v0.len() - rest@.len(), v0.len() as int),
        decreases rest.len(),
    {
        let ghost r0 = rest@;
        let a = rest.remove(0);
        proof {
            assert(a == r0[0]);
            assert(rest@ =~= r0.subrange(1, r0.len() as int));
            assert(a == v0[v0.len() - r0.len()]);
            assert(v0.subrange(0, v0.len() - rest@.len()) =~= v0.subrange(
                0,
                v0.len() - r0.len(),
            ) + seq![a]);
            assert(rest@ =~= v0.subrange(v0.len() - rest@.len(), v0.len() as int));
        }
        out.push(a);
    }
    proof {
        assert(v0.subrange(0, v0.len() as int) =~= v0);
    }
}

/// Flattens one node into the output stream.
fn flatten_node(n: PaneNode, out: &mut Vec<BflytSection>)
    ensures
        final(out)@ == old(out)@ + flat_node(n),
    decreases n, 5int,
{
    let PaneNode { section, mut aux, children } = n;
    let has_children = children.len() > 0;
    let sm = start_marker_of(&section);
    let em = end_marker_of(&section);
    out.push(section);
    append_sections(out, aux);
    proof {
        assert(out@ =~= old(out)@ + seq![n.section] + n.aux@);
    }
    if has_children {
        out.push(sm);
        flatten_nodes(children, out);
        out.push(em);
        proof {
            assert(out@ =~= old(out)@ + flat_node(n));
        }
    } else {
        proof {
            assert(out@ =~= old(out)@ + flat_node(n));
        }
    }
}

/// Flattens a node list into the output stream.
fn flatten_nodes(ns: Vec<PaneNode>, out: &mut Vec<BflytSection>)
    ensures
        final(out)@ == old(out)@ + flat_nodes(ns@),
    decreases ns, 6int,
{
    let ghost ns0 = ns@;
    let mut rest = ns;
    let ghost base = out@;
    while rest.len() > 0
        invariant
            ns0 == ns@,
            base == old(out)@,
            out@ + flat_nodes(rest@) == base + flat_nodes(ns0),
            forall|k: int|
                0 <= k < rest@.len() ==> decreases_to!(ns => #[trigger] rest@[k]),
        decreases rest.len(),
    {
        let ghost r0 = rest@;
        let n = rest.remove(0);
        proof {
            assert(n == r0[0]);
            assert(rest@ =~= r0.subrange(1, r0.len() as int));
            assert(decreases_to!(ns => n));
        }
        flatten_node(n, out);
    }
    proof {
        assert(flat_nodes(rest@) =~= Seq::<BflytSection>::empty());
        assert(out@ =~= base + flat_nodes(ns0));
    }
}

/// Flattens the whole forest back into a flat section stream, consuming
/// the tree: document-level auxiliary sections first, then each root in
/// canonical order.
pub fn flatten_tree(t: BflytTree) -> (r: Vec<BflytSection>)
    ensures
        r@ == flat_tree(t),
{
    let BflytTree { doc_aux, roots } = t;
    let mut out = doc_aux;
    flatten_nodes(roots, &mut out);
    proof {
        assert(out@ =~= flat_tree(t));
    }
    out
}
} // verus!
