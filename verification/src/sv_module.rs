//! The module assembler: drives the per-declaration walks of an ANSI module
//! declaration and collects its parameters, ports, instantiations and
//! header comments.

use vstd::prelude::*;
use vstd::string::StringExecFns;
use crate::structures::{SvModuleDeclaration, SvParamType, SvParameter, SvPort, SvSemanticError};
use crate::sv_instance::{conn_matches, connections_of, ident_under, module_instance};
use crate::sv_port::{
    param_matches, port_declaration_ansi, port_parameter_declaration_ansi, port_rec_matches,
    spec_param_err,
};
use crate::structures::SvInstance;
use crate::tree::{comment_text, find_first, first_match, text_of, SvNode, SvNodeKind};

verus! {

/// Whether an ancestor chain binds a comment to the module header: every
/// node between the comment and the header is whitespace or a symbol.
pub open spec fn spec_if_module_comment(ks: Seq<SvNodeKind>) -> bool
    decreases ks,
{
    if ks.len() == 0 {
        true
    } else if ks.last() == SvNodeKind::ModuleAnsiHeader {
        true
    } else if ks.last() == SvNodeKind::WhiteSpace || ks.last() == SvNodeKind::Symbol {
        spec_if_module_comment(ks.drop_last())
    } else {
        false
    }
}

/// Decides whether a comment with the given ancestor chain belongs to the
/// module header.
pub fn if_module_comment(parent_kinds: &Vec<SvNodeKind>) -> (r: bool)
    ensures
        r == spec_if_module_comment(parent_kinds@),
    decreases parent_kinds@.len(),
{
    let mut i: usize = parent_kinds.len();
    proof {
        assert(parent_kinds@.take(parent_kinds@.len() as int) =~= parent_kinds@);
    }
    while i > 0
        invariant
            i <= parent_kinds@.len(),
            spec_if_module_comment(parent_kinds@) == spec_if_module_comment(
                parent_kinds@.take(i as int),
            ),
        decreases i,
    {
        proof {
            assert(parent_kinds@.take(i as int).drop_last() =~= parent_kinds@.take(i as int - 1));
            assert(parent_kinds@.take(i as int).last() == parent_kinds@[i as int - 1]);
        }
        let k = parent_kinds[i - 1];
        if k == SvNodeKind::ModuleAnsiHeader {
            return true;
        }
        if !(k == SvNodeKind::WhiteSpace || k == SvNodeKind::Symbol) {
            return false;
        }
        i -= 1;
    }
    proof {
        assert(parent_kinds@.take(0) =~= Seq::<SvNodeKind>::empty());
    }
    true
}

/// The comments bound to the module header: comment nodes reached from a
/// header through nothing but whitespace and symbols.
pub open spec fn module_comments(n: SvNode, direct: bool) -> Seq<Seq<char>>
    decreases n,
{
    if n.kind == SvNodeKind::Comment && direct {
        seq![comment_text(n)]
    } else {
        let next = n.kind == SvNodeKind::ModuleAnsiHeader || (direct && (n.kind
            == SvNodeKind::WhiteSpace || n.kind == SvNodeKind::Symbol));
        module_comments_forest(n.children@, next)
    }
}

/// The header comments of a forest.
pub open spec fn module_comments_forest(cs: Seq<SvNode>, direct: bool) -> Seq<Seq<char>>
    decreases cs,
{
    if cs.len() == 0 {
        Seq::empty()
    } else {
        module_comments(cs[0], direct) + module_comments_forest(cs.drop_first(), direct)
    }
}

/// Collects the header comments.
fn collect_module_comments(n: &SvNode, direct: bool, out: &mut Vec<String>)
    ensures
        final(out)@.len() == old(out)@.len() + module_comments(*n, direct).len(),
        forall|j: int| 0 <= j < old(out)@.len() ==> final(out)@[j] == old(out)@[j],
        forall|j: int|
            0 <= j < module_comments(*n, direct).len() ==> (#[trigger] final(out)@[old(out)@.len()
                + j])@ == module_comments(*n, direct)[j],
    decreases *n,
{
    if n.kind == SvNodeKind::Comment && direct {
        let mut t = String::new();
        crate::tree::collect_comment_text(n, &mut t);
        proof {
            assert(Seq::<char>::empty() + comment_text(*n) =~= comment_text(*n));
        }
        out.push(t);
        return ;
    }
    let next = n.kind == SvNodeKind::ModuleAnsiHeader || (direct && (n.kind
        == SvNodeKind::WhiteSpace || n.kind == SvNodeKind::Symbol));
    let mut i: usize = 0;
    proof {
        assert(n.children@.take(0) =~= Seq::<SvNode>::empty());
    }
    while i < n.children.len()
        invariant
            i <= n.children@.len(),
            !(n.kind == SvNodeKind::Comment && direct),
            next == (n.kind == SvNodeKind::ModuleAnsiHeader || (direct && (n.kind
                == SvNodeKind::WhiteSpace || n.kind == SvNodeKind::Symbol))),
            out@.len() == old(out)@.len() + module_comments_forest(
                n.children@.take(i as int),
                next,
            ).len(),
            forall|j: int| 0 <= j < old(out)@.len() ==> out@[j] == old(out)@[j],
            forall|j: int|
                0 <= j < module_comments_forest(n.children@.take(i as int), next).len() ==> (
                #[trigger] out@[old(out)@.len() + j])@ == module_comments_forest(
                    n.children@.take(i as int),
                    next,
                )[j],
        decreases n.children@.len() - i,
    {
        let ghost olen = old(out)@.len() as int;
        let ghost plen = module_comments_forest(n.children@.take(i as int), next).len() as int;
        let ghost mid = out@;
        collect_module_comments(&n.children[i], next, out);
        proof {
            lemma_module_comments_take_step(n.children@, i as int, next);
            let ext = module_comments_forest(n.children@.take(i as int + 1), next);
            assert forall|j: int| 0 <= j < ext.len() implies (#[trigger] out@[olen + j])@
                == ext[j] by {
                if j < plen {
                    assert(out@[olen + j] == mid[olen + j]);
                } else {
                    assert(out@[mid.len() as int + (j - plen)]@ == module_comments(
                        n.children@[i as int],
                        next,
                    )[j - plen]);
                    assert(olen + j == mid.len() as int + (j - plen));
                }
            }
        }
        i += 1;
    }
    proof {
        assert(n.children@.take(n.children@.len() as int) =~= n.children@);
    }
}

/// One more subtree's header comments in a prefix concatenation.
proof fn lemma_module_comments_take_step(cs: Seq<SvNode>, i: int, direct: bool)
    requires
        0 <= i < cs.len(),
    ensures
        module_comments_forest(cs.take(i + 1), direct) =~= module_comments_forest(
            cs.take(i),
            direct,
        ) + module_comments(cs[i], direct),
    decreases i,
{
    if i == 0 {
        assert(cs.take(0) =~= Seq::<SvNode>::empty());
        assert(cs.take(1).drop_first() =~= Seq::<SvNode>::empty());
        assert(cs.take(1)[0] == cs[0]);
    } else {
        lemma_module_comments_take_step(cs.drop_first(), i - 1, direct);
        assert(cs.take(i + 1).drop_first() =~= cs.drop_first().take(i));
        assert(cs.take(i).drop_first() =~= cs.drop_first().take(i - 1));
        assert(cs.take(i + 1)[0] == cs[0]);
        assert(cs.take(i)[0] == cs[0]);
        assert(cs.drop_first()[i - 1] == cs[i]);
    }
}

/// The scope node kinds that carry common declaration data for parameters.
pub open spec fn is_param_scope(k: SvNodeKind) -> bool {
    k == SvNodeKind::ParameterDeclarationParam || k == SvNodeKind::LocalParameterDeclarationParam
        || k == SvNodeKind::ParameterPortDeclarationParamList
}

/// The common declaration prefix a scope contributes.
pub open spec fn common_of(scope: Option<SvNode>) -> Option<SvNode> {
    match scope {
        Some(sc) => first_match(sc, seq![SvNodeKind::DataType, SvNodeKind::DataTypeOrImplicit]),
        None => None,
    }
}

/// The parameter kind a scope dictates; packages force local parameters.
pub open spec fn kind_of(scope: Option<SvNode>, pkg: bool) -> SvParamType {
    if pkg {
        SvParamType::LocalParam
    } else {
        match scope {
            Some(sc) => if sc.kind == SvNodeKind::LocalParameterDeclarationParam {
                SvParamType::LocalParam
            } else {
                SvParamType::Parameter
            },
            None => SvParamType::Parameter,
        }
    }
}

/// The parameter assignments under a node, each with its scope's common
/// data and kind.
pub open spec fn scoped_params(n: SvNode, scope: Option<SvNode>, pkg: bool) -> Seq<
    (SvNode, Option<SvNode>, SvParamType),
>
    decreases n,
{
    if n.kind == SvNodeKind::ParamAssignment {
        seq![(n, common_of(scope), kind_of(scope, pkg))]
    } else if is_param_scope(n.kind) {
        scoped_params_forest(n.children@, Some(n), pkg)
    } else {
        scoped_params_forest(n.children@, scope, pkg)
    }
}

/// The scoped parameter assignments of a forest.
pub open spec fn scoped_params_forest(cs: Seq<SvNode>, scope: Option<SvNode>, pkg: bool) -> Seq<
    (SvNode, Option<SvNode>, SvParamType),
>
    decreases cs,
{
    if cs.len() == 0 {
        Seq::empty()
    } else {
        scoped_params(cs[0], scope, pkg) + scoped_params_forest(cs.drop_first(), scope, pkg)
    }
}

/// The parameter assignments of a module: those under its parameter port
/// lists.
pub open spec fn module_params(n: SvNode) -> Seq<(SvNode, Option<SvNode>, SvParamType)>
    decreases n,
{
    if n.kind == SvNodeKind::ParameterPortList {
        scoped_params_forest(n.children@, None, false)
    } else {
        module_params_forest(n.children@)
    }
}

/// The module parameter assignments of a forest.
pub open spec fn module_params_forest(cs: Seq<SvNode>) -> Seq<
    (SvNode, Option<SvNode>, SvParamType),
>
    decreases cs,
{
    if cs.len() == 0 {
        Seq::empty()
    } else {
        module_params(cs[0]) + module_params_forest(cs.drop_first())
    }
}

/// The ANSI port declaration nodes of a module, in source order.
pub open spec fn port_nodes(n: SvNode) -> Seq<SvNode>
    decreases n,
{
    if n.kind == SvNodeKind::AnsiPortDeclaration {
        seq![n]
    } else {
        port_nodes_forest(n.children@)
    }
}

/// The port declaration nodes of a forest.
pub open spec fn port_nodes_forest(cs: Seq<SvNode>) -> Seq<SvNode>
    decreases cs,
{
    if cs.len() == 0 {
        Seq::empty()
    } else {
        port_nodes(cs[0]) + port_nodes_forest(cs.drop_first())
    }
}

/// The module instantiations of a subtree, each with the labels of its
/// enclosing generate blocks.
pub open spec fn insts_in(n: SvNode, hier: Seq<Seq<char>>) -> Seq<(SvNode, Seq<Seq<char>>)>
    decreases n,
{
    if n.kind == SvNodeKind::ModuleInstantiation {
        seq![(n, hier)]
    } else if n.kind == SvNodeKind::GenerateBlock {
        insts_forest(n.children@, hier.push(ident_under(n, SvNodeKind::GenerateBlockIdentifier)))
    } else {
        insts_forest(n.children@, hier)
    }
}

/// The instantiations of a forest.
pub open spec fn insts_forest(cs: Seq<SvNode>, hier: Seq<Seq<char>>) -> Seq<
    (SvNode, Seq<Seq<char>>),
>
    decreases cs,
{
    if cs.len() == 0 {
        Seq::empty()
    } else {
        insts_in(cs[0], hier) + insts_forest(cs.drop_first(), hier)
    }
}

/// The whole account of a resolved instance record.
pub open spec fn inst_matches(r: SvInstance, p: SvNode, hier: Seq<Seq<char>>) -> bool {
    &&& r.module_identifier@ == ident_under(p, SvNodeKind::ModuleIdentifier)
    &&& r.hierarchical_instance@ == ident_under(p, SvNodeKind::InstanceIdentifier)
    &&& r.hierarchy@.len() == hier.len()
    &&& (forall|j: int| 0 <= j < hier.len() ==> (#[trigger] r.hierarchy@[j])@ == hier[j])
    &&& r.connections@.len() == connections_of(p).len()
    &&& (forall|j: int|
        0 <= j < connections_of(p).len() ==> conn_matches(
            (#[trigger] r.connections@[j])@,
            connections_of(p)[j],
        ))
}


/// The view of a string list.
pub open spec fn strs_view(v: Seq<String>) -> Seq<Seq<char>> {
    v.map(|i: int, s: String| s@)
}

/// A port list resolved correctly against its declaration nodes, each
/// seeing its predecessor.
pub open spec fn ports_ok(ports: Seq<SvPort>, nodes: Seq<SvNode>) -> bool {
    ports.len() == nodes.len() && forall|j: int|
        0 <= j < nodes.len() ==> port_rec_matches(
            #[trigger] ports[j],
            nodes[j],
            if j == 0 {
                None
            } else {
                Some(ports[j - 1])
            },
        )
}

/// A parameter list resolved correctly against its assignment nodes.
pub open spec fn params_ok(
    params: Seq<SvParameter>,
    nodes: Seq<(SvNode, Option<SvNode>, SvParamType)>,
) -> bool {
    params.len() == nodes.len() && forall|j: int|
        0 <= j < nodes.len() ==> param_matches(
            #[trigger] params[j],
            nodes[j].0,
            nodes[j].1,
            nodes[j].2,
        )
}

/// An instance list resolved correctly against its instantiation nodes.
pub open spec fn insts_ok(insts: Seq<SvInstance>, nodes: Seq<(SvNode, Seq<Seq<char>>)>) -> bool {
    insts.len() == nodes.len() && forall|j: int|
        0 <= j < nodes.len() ==> inst_matches(#[trigger] insts[j], nodes[j].0, nodes[j].1)
}

/// What a parameter collection guarantees: on success the output grew by
/// exactly the resolved records; on failure some declaration breaks a rule.
pub open spec fn params_post(
    ps: Seq<(SvNode, Option<SvNode>, SvParamType)>,
    old_out: Seq<SvParameter>,
    new_out: Seq<SvParameter>,
    r: Result<(), SvSemanticError>,
) -> bool {
    match r {
        Ok(_) => {
            &&& new_out.len() == old_out.len() + ps.len()
            &&& (forall|j: int| 0 <= j < old_out.len() ==> new_out[j] == old_out[j])
            &&& (forall|j: int|
                0 <= j < ps.len() ==> param_matches(
                    #[trigger] new_out[old_out.len() + j],
                    ps[j].0,
                    ps[j].1,
                    ps[j].2,
                ))
        },
        Err(e) => exists|j: int|
            0 <= j < ps.len() && spec_param_err((#[trigger] ps[j]).0, ps[j].1, ps[j].2) == Some(
                e,
            ),
    }
}

/// Appends the resolved parameters of the scoped assignments under a node,
/// stopping at the first declaration that breaks a rule.
pub fn collect_params_pub(
    n: &SvNode,
    scope: Option<&SvNode>,
    pkg: bool,
    out: &mut Vec<SvParameter>,
) -> (r: Result<(), SvSemanticError>)
    ensures
        params_post(
            scoped_params(
                *n,
                match scope {
                    Some(sc) => Some(*sc),
                    None => None,
                },
                pkg,
            ),
            old(out)@,
            final(out)@,
            r,
        ),
    decreases *n,
{
    if n.kind == SvNodeKind::ParamAssignment {
        let ghost scopes = match scope {
            Some(sc) => Some(*sc),
            None => None,
        };
        let common: Option<&SvNode> = match scope {
            Some(sc) => {
                let mut ks: Vec<SvNodeKind> = Vec::new();
                ks.push(SvNodeKind::DataType);
                ks.push(SvNodeKind::DataTypeOrImplicit);
                proof {
                    assert(ks@ =~= seq![SvNodeKind::DataType, SvNodeKind::DataTypeOrImplicit]);
                }
                find_first(sc, &ks)
            },
            None => None,
        };
        let pt: SvParamType = if pkg {
            SvParamType::LocalParam
        } else {
            match scope {
                Some(sc) => if sc.kind == SvNodeKind::LocalParameterDeclarationParam {
                    SvParamType::LocalParam
                } else {
                    SvParamType::Parameter
                },
                None => SvParamType::Parameter,
            }
        };
        let ghost ps = scoped_params(*n, scopes, pkg);
        proof {
            assert(ps.len() == 1);
            assert(ps[0].0 == *n);
            assert(ps[0].1 == common_of(scopes));
            assert(ps[0].2 == kind_of(scopes, pkg));
            assert((match common {
                Some(c) => Some(*c),
                None => None::<SvNode>,
            }) == common_of(scopes));
            assert(pt == kind_of(scopes, pkg));
        }
        match port_parameter_declaration_ansi(n, common, &pt) {
            Ok(q) => {
                let ghost mid = out@;
                let ghost qv = q;
                out.push(q);
                proof {
                    assert(out@[mid.len() as int] == qv);
                    assert forall|j: int| 0 <= j < ps.len() implies param_matches(
                        #[trigger] out@[old(out)@.len() + j],
                        ps[j].0,
                        ps[j].1,
                        ps[j].2,
                    ) by {
                        assert(j == 0);
                        assert(out@[old(out)@.len() as int + 0] == qv);
                    }
                }
                Ok(())
            },
            Err(e) => {
                proof {
                    assert(spec_param_err(ps[0].0, ps[0].1, ps[0].2) == Some(e));
                }
                Err(e)
            },
        }
    } else {
        let new_scope: Option<&SvNode> = if n.kind == SvNodeKind::ParameterDeclarationParam
            || n.kind == SvNodeKind::LocalParameterDeclarationParam || n.kind
            == SvNodeKind::ParameterPortDeclarationParamList {
            Some(n)
        } else {
            scope
        };
        let ghost new_scopes = match new_scope {
            Some(sc) => Some(*sc),
            None => None,
        };
        let mut i: usize = 0;
        proof {
            assert(n.children@.take(0) =~= Seq::<SvNode>::empty());
        }
        while i < n.children.len()
            invariant
                i <= n.children@.len(),
                n.kind != SvNodeKind::ParamAssignment,
                (is_param_scope(n.kind) ==> new_scopes == Some(*n)),
                (!is_param_scope(n.kind) ==> new_scopes == (match scope {
                    Some(sc) => Some(*sc),
                    None => None,
                })),
                (match new_scope {
                    Some(sc) => new_scopes == Some(*sc),
                    None => new_scopes is None,
                }),
                out@.len() == old(out)@.len() + scoped_params_forest(
                    n.children@.take(i as int),
                    new_scopes,
                    pkg,
                ).len(),
                forall|j: int| 0 <= j < old(out)@.len() ==> out@[j] == old(out)@[j],
                forall|j: int|
                    0 <= j < scoped_params_forest(n.children@.take(i as int), new_scopes,
                    pkg).len() ==> param_matches(
                        #[trigger] out@[old(out)@.len() + j],
                        scoped_params_forest(n.children@.take(i as int), new_scopes, pkg)[j].0,
                        scoped_params_forest(n.children@.take(i as int), new_scopes, pkg)[j].1,
                        scoped_params_forest(n.children@.take(i as int), new_scopes, pkg)[j].2,
                    ),
            decreases n.children@.len() - i,
        {
            let ghost olen = old(out)@.len() as int;
            let ghost pre = scoped_params_forest(n.children@.take(i as int), new_scopes, pkg);
            let ghost mid = out@;
            let step = collect_params_pub(&n.children[i], new_scope, pkg, out);
            proof {
                lemma_scoped_take_step(n.children@, i as int, new_scopes, pkg);
                assert((match new_scope {
                    Some(sc) => Some(*sc),
                    None => None::<SvNode>,
                }) == new_scopes);
            }
            match step {
                Ok(_) => {
                    proof {
                        let ext = scoped_params_forest(
                            n.children@.take(i as int + 1),
                            new_scopes,
                            pkg,
                        );
                        assert forall|j: int| 0 <= j < ext.len() implies param_matches(
                            #[trigger] out@[olen + j],
                            ext[j].0,
                            ext[j].1,
                            ext[j].2,
                        ) by {
                            if j < pre.len() {
                                assert(out@[olen + j] == mid[olen + j]);
                            } else {
                                assert(param_matches(
                                    out@[mid.len() as int + (j - pre.len())],
                                    scoped_params(n.children@[i as int], new_scopes, pkg)[j
                                        - pre.len()].0,
                                    scoped_params(n.children@[i as int], new_scopes, pkg)[j
                                        - pre.len()].1,
                                    scoped_params(n.children@[i as int], new_scopes, pkg)[j
                                        - pre.len()].2,
                                ));
                                assert(olen + j == mid.len() as int + (j - pre.len()));
                            }
                        }
                    }
                },
                Err(e) => {
                    proof {
                        let sub = scoped_params(n.children@[i as int], new_scopes, pkg);
                        let jj = choose|j: int|
                            0 <= j < sub.len() && spec_param_err(
                                (#[trigger] sub[j]).0,
                                sub[j].1,
                                sub[j].2,
                            ) == Some(e);
                        let full = scoped_params(*n, (match scope {
                            Some(sc) => Some(*sc),
                            None => None,
                        }), pkg);
                        lemma_scoped_prefix(n.children@, i as int, new_scopes, pkg);
                        assert(scoped_params_forest(n.children@, new_scopes, pkg)[pre.len()
                            + jj] == sub[jj]);
                        assert(full == scoped_params_forest(n.children@, new_scopes, pkg));
                    }
                    return Err(e);
                },
            }
            i += 1;
        }
        proof {
            assert(n.children@.take(n.children@.len() as int) =~= n.children@);
        }
        Ok(())
    }
}

/// One more subtree's scoped parameters in a prefix concatenation.
proof fn lemma_scoped_take_step(cs: Seq<SvNode>, i: int, scope: Option<SvNode>, pkg: bool)
    requires
        0 <= i < cs.len(),
    ensures
        scoped_params_forest(cs.take(i + 1), scope, pkg) =~= scoped_params_forest(
            cs.take(i),
            scope,
            pkg,
        ) + scoped_params(cs[i], scope, pkg),
    decreases i,
{
    if i == 0 {
        assert(cs.take(0) =~= Seq::<SvNode>::empty());
        assert(cs.take(1).drop_first() =~= Seq::<SvNode>::empty());
        assert(cs.take(1)[0] == cs[0]);
    } else {
        lemma_scoped_take_step(cs.drop_first(), i - 1, scope, pkg);
        assert(cs.take(i + 1).drop_first() =~= cs.drop_first().take(i));
        assert(cs.take(i).drop_first() =~= cs.drop_first().take(i - 1));
        assert(cs.take(i + 1)[0] == cs[0]);
        assert(cs.take(i)[0] == cs[0]);
        assert(cs.drop_first()[i - 1] == cs[i]);
    }
}

/// A forest's scoped parameters extend any prefix's.
proof fn lemma_scoped_prefix(cs: Seq<SvNode>, i: int, scope: Option<SvNode>, pkg: bool)
    requires
        0 <= i < cs.len(),
    ensures
        scoped_params_forest(cs, scope, pkg) =~= scoped_params_forest(cs.take(i), scope, pkg)
            + scoped_params(cs[i], scope, pkg) + scoped_params_forest(
            cs.skip(i + 1),
            scope,
            pkg,
        ),
    decreases i,
{
    if i == 0 {
        assert(cs.take(0) =~= Seq::<SvNode>::empty());
        assert(cs.drop_first() =~= cs.skip(1));
    } else {
        lemma_scoped_prefix(cs.drop_first(), i - 1, scope, pkg);
        assert(cs.take(i).drop_first() =~= cs.drop_first().take(i - 1));
        assert(cs.take(i)[0] == cs[0]);
        assert(cs.drop_first()[i - 1] == cs[i]);
        assert(cs.drop_first().skip(i) =~= cs.skip(i + 1));
    }
}


/// Appends the resolved ports of the declarations under a node, each
/// chained to its predecessor in the growing list.
#[verifier::rlimit(100)]
fn collect_ports(n: &SvNode, out: &mut Vec<SvPort>, Ghost(prior): Ghost<Seq<SvNode>>)
    requires
        ports_ok(old(out)@, prior),
    ensures
        ports_ok(final(out)@, prior + port_nodes(*n)),
        final(out)@.len() == old(out)@.len() + port_nodes(*n).len(),
        forall|j: int| 0 <= j < old(out)@.len() ==> final(out)@[j] == old(out)@[j],
    decreases *n,
{
    if n.kind == SvNodeKind::AnsiPortDeclaration {
        let prev: Option<SvPort> = if out.len() == 0 {
            None
        } else {
            Some(clone_port(&out[out.len() - 1]))
        };
        let ghost prev_spec = if out@.len() == 0 {
            None
        } else {
            Some(out@[out@.len() - 1])
        };
        proof {
            if prev is Some {
                assert(port_eqv(prev->Some_0, out@[out@.len() - 1]));
            }
        }
        let q = port_declaration_ansi(n, &prev);
        out.push(q);
        proof {
            lemma_port_matches_eqv(*n, prev, prev_spec, out@[out@.len() - 1]);
            assert((prior + port_nodes(*n))[prior.len() as int] == *n);
            assert forall|j: int| 0 <= j < (prior + port_nodes(*n)).len() implies
                port_rec_matches(
                #[trigger] out@[j],
                (prior + port_nodes(*n))[j],
                if j == 0 {
                    None
                } else {
                    Some(out@[j - 1])
                },
            ) by {
                if j < prior.len() {
                    assert((prior + port_nodes(*n))[j] == prior[j]);
                }
            }
        }
        return ;
    }
    let mut i: usize = 0;
    proof {
        assert(n.children@.take(0) =~= Seq::<SvNode>::empty());
        assert(prior + port_nodes_forest(n.children@.take(0)) =~= prior);
    }
    while i < n.children.len()
        invariant
            i <= n.children@.len(),
            n.kind != SvNodeKind::AnsiPortDeclaration,
            ports_ok(out@, prior + port_nodes_forest(n.children@.take(i as int))),
            out@.len() == old(out)@.len() + port_nodes_forest(n.children@.take(i as int)).len(),
            forall|j: int| 0 <= j < old(out)@.len() ==> out@[j] == old(out)@[j],
            ports_ok(old(out)@, prior),
        decreases n.children@.len() - i,
    {
        let ghost prior_i = prior + port_nodes_forest(n.children@.take(i as int));
        collect_ports(&n.children[i], out, Ghost(prior_i));
        proof {
            lemma_port_nodes_take_step(n.children@, i as int);
            assert(prior + port_nodes_forest(n.children@.take(i as int + 1)) =~= prior_i
                + port_nodes(n.children@[i as int]));
        }
        i += 1;
    }
    proof {
        assert(n.children@.take(n.children@.len() as int) =~= n.children@);
    }
}

/// One more subtree's port nodes in a prefix concatenation.
proof fn lemma_port_nodes_take_step(cs: Seq<SvNode>, i: int)
    requires
        0 <= i < cs.len(),
    ensures
        port_nodes_forest(cs.take(i + 1)) =~= port_nodes_forest(cs.take(i)) + port_nodes(cs[i]),
    decreases i,
{
    if i == 0 {
        assert(cs.take(0) =~= Seq::<SvNode>::empty());
        assert(cs.take(1).drop_first() =~= Seq::<SvNode>::empty());
        assert(cs.take(1)[0] == cs[0]);
    } else {
        lemma_port_nodes_take_step(cs.drop_first(), i - 1);
        assert(cs.take(i + 1).drop_first() =~= cs.drop_first().take(i));
        assert(cs.take(i).drop_first() =~= cs.drop_first().take(i - 1));
        assert(cs.take(i + 1)[0] == cs[0]);
        assert(cs.take(i)[0] == cs[0]);
        assert(cs.drop_first()[i - 1] == cs[i]);
    }
}


/// Spec-level sameness of two port records in every field the resolver
/// reads from a predecessor.
pub open spec fn port_eqv(a: SvPort, b: SvPort) -> bool {
    &&& a.direction == b.direction
    &&& a.datakind == b.datakind
    &&& a.datatype == b.datatype
    &&& (a.classid is Some) == (b.classid is Some)
    &&& (a.classid is Some ==> a.classid->Some_0@ == b.classid->Some_0@)
    &&& a.nettype == b.nettype
    &&& a.signedness == b.signedness
    &&& a.packed_dimensions@.len() == b.packed_dimensions@.len()
    &&& (forall|j: int|
        0 <= j < b.packed_dimensions@.len() ==> (#[trigger] a.packed_dimensions@[j]).0@
            == b.packed_dimensions@[j].0@ && a.packed_dimensions@[j].1@
            == b.packed_dimensions@[j].1@)
}

/// A copy of a port record.
fn clone_port(x: &SvPort) -> (r: SvPort)
    ensures
        port_eqv(r, *x),
{
    SvPort {
        identifier: x.identifier.clone(),
        direction: x.direction,
        datakind: x.datakind,
        datatype: x.datatype,
        classid: match &x.classid {
            Some(s) => Some(s.clone()),
            None => None,
        },
        nettype: x.nettype,
        signedness: x.signedness,
        packed_dimensions: clone_port_dims(&x.packed_dimensions),
        unpacked_dimensions: Vec::new(),
        comment: None,
    }
}

/// A content-preserving copy of a packed dimension list.
fn clone_port_dims(
    x: &Vec<crate::structures::SvPackedDimension>,
) -> (r: Vec<crate::structures::SvPackedDimension>)
    ensures
        r@.len() == x@.len(),
        forall|j: int|
            0 <= j < x@.len() ==> (#[trigger] r@[j]).0@ == x@[j].0@ && r@[j].1@ == x@[j].1@,
{
    let mut out: Vec<crate::structures::SvPackedDimension> = Vec::new();
    let mut i: usize = 0;
    while i < x.len()
        invariant
            i <= x@.len(),
            out@.len() == i,
            forall|j: int|
                0 <= j < i ==> (#[trigger] out@[j]).0@ == x@[j].0@ && out@[j].1@ == x@[j].1@,
        decreases x@.len() - i,
    {
        out.push((x[i].0.clone(), x[i].1.clone()));
        i += 1;
    }
    out
}

/// A record built against a predecessor copy matches the predecessor
/// itself.
proof fn lemma_port_matches_eqv(
    p: SvNode,
    prev_copy: Option<SvPort>,
    prev: Option<SvPort>,
    r: SvPort,
)
    requires
        (prev_copy is Some) == (prev is Some),
        prev_copy is Some ==> port_eqv(prev_copy->Some_0, prev->Some_0),
        port_rec_matches(r, p, prev_copy),
    ensures
        port_rec_matches(r, p, prev),
{
}


/// A copy of a string list.
fn clone_strings(x: &Vec<String>) -> (r: Vec<String>)
    ensures
        r@.len() == x@.len(),
        forall|j: int| 0 <= j < x@.len() ==> (#[trigger] r@[j])@ == x@[j]@,
{
    let mut out: Vec<String> = Vec::new();
    let mut i: usize = 0;
    while i < x.len()
        invariant
            i <= x@.len(),
            out@.len() == i,
            forall|j: int| 0 <= j < i ==> (#[trigger] out@[j])@ == x@[j]@,
        decreases x@.len() - i,
    {
        out.push(x[i].clone());
        i += 1;
    }
    out
}

/// Appends the resolved instances under a node, threading the enclosing
/// generate-block labels.
fn collect_insts(n: &SvNode, hier: &Vec<String>, out: &mut Vec<SvInstance>)
    ensures
        final(out)@.len() == old(out)@.len() + insts_in(*n, strs_view(hier@)).len(),
        forall|j: int| 0 <= j < old(out)@.len() ==> final(out)@[j] == old(out)@[j],
        forall|j: int|
            0 <= j < insts_in(*n, strs_view(hier@)).len() ==> inst_matches(
                #[trigger] final(out)@[old(out)@.len() + j],
                insts_in(*n, strs_view(hier@))[j].0,
                insts_in(*n, strs_view(hier@))[j].1,
            ),
    decreases *n,
{
    if n.kind == SvNodeKind::ModuleInstantiation {
        let h = clone_strings(hier);
        proof {
            assert(strs_view(h@) =~= strs_view(hier@));
        }
        let inst = module_instance(n, h);
        out.push(inst);
        return ;
    }
    let sub_hier: Vec<String>;
    if n.kind == SvNodeKind::GenerateBlock {
        let mut h = clone_strings(hier);
        let label = crate::sv_instance::ident_under_pub(n, SvNodeKind::GenerateBlockIdentifier);
        h.push(label);
        proof {
            assert(strs_view(h@) =~= strs_view(hier@).push(
                ident_under(*n, SvNodeKind::GenerateBlockIdentifier),
            ));
        }
        sub_hier = h;
    } else {
        sub_hier = clone_strings(hier);
        proof {
            assert(strs_view(sub_hier@) =~= strs_view(hier@));
        }
    }
    let ghost sub_h = if n.kind == SvNodeKind::GenerateBlock {
        strs_view(hier@).push(ident_under(*n, SvNodeKind::GenerateBlockIdentifier))
    } else {
        strs_view(hier@)
    };
    let mut i: usize = 0;
    proof {
        assert(n.children@.take(0) =~= Seq::<SvNode>::empty());
    }
    while i < n.children.len()
        invariant
            i <= n.children@.len(),
            n.kind != SvNodeKind::ModuleInstantiation,
            strs_view(sub_hier@) == sub_h,
            sub_h == (if n.kind == SvNodeKind::GenerateBlock {
                strs_view(hier@).push(ident_under(*n, SvNodeKind::GenerateBlockIdentifier))
            } else {
                strs_view(hier@)
            }),
            out@.len() == old(out)@.len() + insts_forest(n.children@.take(i as int), sub_h).len(),
            forall|j: int| 0 <= j < old(out)@.len() ==> out@[j] == old(out)@[j],
            forall|j: int|
                0 <= j < insts_forest(n.children@.take(i as int), sub_h).len() ==> inst_matches(
                    #[trigger] out@[old(out)@.len() + j],
                    insts_forest(n.children@.take(i as int), sub_h)[j].0,
                    insts_forest(n.children@.take(i as int), sub_h)[j].1,
                ),
        decreases n.children@.len() - i,
    {
        let ghost olen = old(out)@.len() as int;
        let ghost pre = insts_forest(n.children@.take(i as int), sub_h);
        let ghost mid = out@;
        collect_insts(&n.children[i], &sub_hier, out);
        proof {
            lemma_insts_take_step(n.children@, i as int, sub_h);
            let ext = insts_forest(n.children@.take(i as int + 1), sub_h);
            assert forall|j: int| 0 <= j < ext.len() implies inst_matches(
                #[trigger] out@[olen + j],
                ext[j].0,
                ext[j].1,
            ) by {
                if j < pre.len() {
                    assert(out@[olen + j] == mid[olen + j]);
                } else {
                    assert(inst_matches(
                        out@[mid.len() as int + (j - pre.len())],
                        insts_in(n.children@[i as int], sub_h)[j - pre.len()].0,
                        insts_in(n.children@[i as int], sub_h)[j - pre.len()].1,
                    ));
                    assert(olen + j == mid.len() as int + (j - pre.len()));
                }
            }
        }
        i += 1;
    }
    proof {
        assert(n.children@.take(n.children@.len() as int) =~= n.children@);
    }
}

/// One more subtree's instances in a prefix concatenation.
proof fn lemma_insts_take_step(cs: Seq<SvNode>, i: int, hier: Seq<Seq<char>>)
    requires
        0 <= i < cs.len(),
    ensures
        insts_forest(cs.take(i + 1), hier) =~= insts_forest(cs.take(i), hier) + insts_in(
            cs[i],
            hier,
        ),
    decreases i,
{
    if i == 0 {
        assert(cs.take(0) =~= Seq::<SvNode>::empty());
        assert(cs.take(1).drop_first() =~= Seq::<SvNode>::empty());
        assert(cs.take(1)[0] == cs[0]);
    } else {
        lemma_insts_take_step(cs.drop_first(), i - 1, hier);
        assert(cs.take(i + 1).drop_first() =~= cs.drop_first().take(i));
        assert(cs.take(i).drop_first() =~= cs.drop_first().take(i - 1));
        assert(cs.take(i + 1)[0] == cs[0]);
        assert(cs.take(i)[0] == cs[0]);
        assert(cs.drop_first()[i - 1] == cs[i]);
    }
}

/// Appends the module parameter assignments found under parameter port
/// lists.
fn collect_module_params(n: &SvNode, out: &mut Vec<SvParameter>) -> (r: Result<
    (),
    SvSemanticError,
>)
    ensures
        params_post(module_params(*n), old(out)@, final(out)@, r),
    decreases *n,
{
    if n.kind == SvNodeKind::ParameterPortList {
        let mut i: usize = 0;
        proof {
            assert(n.children@.take(0) =~= Seq::<SvNode>::empty());
        }
        while i < n.children.len()
            invariant
                i <= n.children@.len(),
                n.kind == SvNodeKind::ParameterPortList,
                params_post(
                    scoped_params_forest(n.children@.take(i as int), None, false),
                    old(out)@,
                    out@,
                    Ok(()),
                ),
            decreases n.children@.len() - i,
        {
            let ghost olen = old(out)@.len() as int;
            let ghost pre = scoped_params_forest(n.children@.take(i as int), None, false);
            let ghost mid = out@;
            let step = collect_params_pub(&n.children[i], None, false, out);
            proof {
                lemma_scoped_take_step(n.children@, i as int, None, false);
            }
            match step {
                Ok(_) => {
                    proof {
                        let ext = scoped_params_forest(n.children@.take(i as int + 1), None,
                        false);
                        assert forall|j: int| 0 <= j < ext.len() implies param_matches(
                            #[trigger] out@[olen + j],
                            ext[j].0,
                            ext[j].1,
                            ext[j].2,
                        ) by {
                            if j < pre.len() {
                                assert(out@[olen + j] == mid[olen + j]);
                            } else {
                                assert(param_matches(
                                    out@[mid.len() as int + (j - pre.len())],
                                    scoped_params(n.children@[i as int], None, false)[j
                                        - pre.len()].0,
                                    scoped_params(n.children@[i as int], None, false)[j
                                        - pre.len()].1,
                                    scoped_params(n.children@[i as int], None, false)[j
                                        - pre.len()].2,
                                ));
                                assert(olen + j == mid.len() as int + (j - pre.len()));
                            }
                        }
                    }
                },
                Err(e) => {
                    proof {
                        let sub = scoped_params(n.children@[i as int], None, false);
                        let jj = choose|j: int|
                            0 <= j < sub.len() && spec_param_err(
                                (#[trigger] sub[j]).0,
                                sub[j].1,
                                sub[j].2,
                            ) == Some(e);
                        lemma_scoped_prefix(n.children@, i as int, None, false);
                        assert(module_params(*n) == scoped_params_forest(
                            n.children@,
                            None,
                            false,
                        ));
                        assert(scoped_params_forest(n.children@, None, false)[pre.len() + jj]
                            == sub[jj]);
                    }
                    return Err(e);
                },
            }
            i += 1;
        }
        proof {
            assert(n.children@.take(n.children@.len() as int) =~= n.children@);
        }
        return Ok(());
    }
    let mut i: usize = 0;
    proof {
        assert(n.children@.take(0) =~= Seq::<SvNode>::empty());
    }
    while i < n.children.len()
        invariant
            i <= n.children@.len(),
            n.kind != SvNodeKind::ParameterPortList,
            params_post(
                module_params_forest(n.children@.take(i as int)),
                old(out)@,
                out@,
                Ok(()),
            ),
        decreases n.children@.len() - i,
    {
        let ghost olen = old(out)@.len() as int;
        let ghost pre = module_params_forest(n.children@.take(i as int));
        let ghost mid = out@;
        let step = collect_module_params(&n.children[i], out);
        proof {
            lemma_module_params_take_step(n.children@, i as int);
        }
        match step {
            Ok(_) => {
                proof {
                    let ext = module_params_forest(n.children@.take(i as int + 1));
                    assert forall|j: int| 0 <= j < ext.len() implies param_matches(
                        #[trigger] out@[olen + j],
                        ext[j].0,
                        ext[j].1,
                        ext[j].2,
                    ) by {
                        if j < pre.len() {
                            assert(out@[olen + j] == mid[olen + j]);
                        } else {
                            assert(param_matches(
                                out@[mid.len() as int + (j - pre.len())],
                                module_params(n.children@[i as int])[j - pre.len()].0,
                                module_params(n.children@[i as int])[j - pre.len()].1,
                                module_params(n.children@[i as int])[j - pre.len()].2,
                            ));
                            assert(olen + j == mid.len() as int + (j - pre.len()));
                        }
                    }
                }
            },
            Err(e) => {
                proof {
                    let sub = module_params(n.children@[i as int]);
                    let jj = choose|j: int|
                        0 <= j < sub.len() && spec_param_err(
                            (#[trigger] sub[j]).0,
                            sub[j].1,
                            sub[j].2,
                        ) == Some(e);
                    lemma_module_params_prefix(n.children@, i as int);
                    assert(module_params_forest(n.children@)[pre.len() + jj] == sub[jj]);
                }
                return Err(e);
            },
        }
        i += 1;
    }
    proof {
        assert(n.children@.take(n.children@.len() as int) =~= n.children@);
    }
    Ok(())
}

/// One more subtree's module parameters in a prefix concatenation.
proof fn lemma_module_params_take_step(cs: Seq<SvNode>, i: int)
    requires
        0 <= i < cs.len(),
    ensures
        module_params_forest(cs.take(i + 1)) =~= module_params_forest(cs.take(i))
            + module_params(cs[i]),
    decreases i,
{
    if i == 0 {
        assert(cs.take(0) =~= Seq::<SvNode>::empty());
        assert(cs.take(1).drop_first() =~= Seq::<SvNode>::empty());
        assert(cs.take(1)[0] == cs[0]);
    } else {
        lemma_module_params_take_step(cs.drop_first(), i - 1);
        assert(cs.take(i + 1).drop_first() =~= cs.drop_first().take(i));
        assert(cs.take(i).drop_first() =~= cs.drop_first().take(i - 1));
        assert(cs.take(i + 1)[0] == cs[0]);
        assert(cs.take(i)[0] == cs[0]);
        assert(cs.drop_first()[i - 1] == cs[i]);
    }
}

/// A forest's module parameters extend any prefix's.
proof fn lemma_module_params_prefix(cs: Seq<SvNode>, i: int)
    requires
        0 <= i < cs.len(),
    ensures
        module_params_forest(cs) =~= module_params_forest(cs.take(i)) + module_params(cs[i])
            + module_params_forest(cs.skip(i + 1)),
    decreases i,
{
    if i == 0 {
        assert(cs.take(0) =~= Seq::<SvNode>::empty());
        assert(cs.drop_first() =~= cs.skip(1));
    } else {
        lemma_module_params_prefix(cs.drop_first(), i - 1);
        assert(cs.take(i).drop_first() =~= cs.drop_first().take(i - 1));
        assert(cs.take(i)[0] == cs[0]);
        assert(cs.drop_first()[i - 1] == cs[i]);
        assert(cs.drop_first().skip(i) =~= cs.skip(i + 1));
    }
}

/// The whole account of a resolved module record.
pub open spec fn module_rec_ok(md: SvModuleDeclaration, m: SvNode, filepath: Seq<char>) -> bool {
    &&& md.identifier@ == ident_under(m, SvNodeKind::ModuleIdentifier)
    &&& md.filepath@ == filepath
    &&& params_post(module_params(m), Seq::empty(), md.parameters@, Ok(()))
    &&& ports_ok(md.ports@, port_nodes(m))
    &&& insts_ok(md.instances@, insts_in(m, Seq::empty()))
    &&& md.comments@.len() == module_comments(m, false).len()
    &&& (forall|j: int|
        0 <= j < md.comments@.len() ==> (#[trigger] md.comments@[j])@ == module_comments(
            m,
            false,
        )[j])
}

/// Assembles a module record from its ANSI declaration subtree, or reports
/// the first parameter declaration that breaks a rule.
pub fn module_declaration_ansi(m: &SvNode, filepath: &str) -> (r: Result<
    SvModuleDeclaration,
    SvSemanticError,
>)
    ensures
        match r {
            Ok(md) => module_rec_ok(md, *m, filepath@),
            Err(e) => exists|j: int|
                0 <= j < module_params(*m).len() && spec_param_err(
                    (#[trigger] module_params(*m)[j]).0,
                    module_params(*m)[j].1,
                    module_params(*m)[j].2,
                ) == Some(e),
        },
{
    let mut parameters: Vec<SvParameter> = Vec::new();
    match collect_module_params(m, &mut parameters) {
        Ok(_) => {},
        Err(e) => {
            return Err(e);
        },
    }
    let mut ports: Vec<SvPort> = Vec::new();
    proof {
        assert(ports@ =~= Seq::<SvPort>::empty());
        assert(ports_ok(ports@, Seq::empty()));
    }
    collect_ports(m, &mut ports, Ghost(Seq::empty()));
    proof {
        assert(Seq::<SvNode>::empty() + port_nodes(*m) =~= port_nodes(*m));
    }
    let empty_hier: Vec<String> = Vec::new();
    let mut instances: Vec<SvInstance> = Vec::new();
    collect_insts(m, &empty_hier, &mut instances);
    proof {
        assert(strs_view(empty_hier@) =~= Seq::<Seq<char>>::empty());
        assert forall|j: int| 0 <= j < instances@.len() implies inst_matches(
            #[trigger] instances@[j],
            insts_in(*m, Seq::empty())[j].0,
            insts_in(*m, Seq::empty())[j].1,
        ) by {
            assert(inst_matches(
                instances@[0 + j],
                insts_in(*m, strs_view(empty_hier@))[j].0,
                insts_in(*m, strs_view(empty_hier@))[j].1,
            ));
        }
    }
    let mut comments: Vec<String> = Vec::new();
    collect_module_comments(m, false, &mut comments);
    proof {
        assert forall|j: int| 0 <= j < comments@.len() implies (#[trigger] comments@[j])@
            == module_comments(*m, false)[j] by {
            assert(comments@[0 + j]@ == module_comments(*m, false)[j]);
        }
        assert forall|j: int| 0 <= j < module_params(*m).len() implies param_matches(
            #[trigger] parameters@[Seq::<SvParameter>::empty().len() + j],
            module_params(*m)[j].0,
            module_params(*m)[j].1,
            module_params(*m)[j].2,
        ) by {
            assert(param_matches(
                parameters@[0 + j],
                module_params(*m)[j].0,
                module_params(*m)[j].1,
                module_params(*m)[j].2,
            ));
        }
    }
    Ok(
        SvModuleDeclaration {
            identifier: crate::sv_instance::ident_under_pub(m, SvNodeKind::ModuleIdentifier),
            parameters,
            ports,
            instances,
            filepath: String::from_str(filepath),
            comments,
        },
    )
}

/// The stub for the non-ANSI module declaration form: only the identifier
/// is captured.
pub fn module_declaration_nonansi(m: &SvNode, filepath: &str) -> (r: SvModuleDeclaration)
    ensures
        r.identifier@ == ident_under(*m, SvNodeKind::ModuleIdentifier),
        r.filepath@ == filepath@,
        r.parameters@.len() == 0,
        r.ports@.len() == 0,
        r.instances@.len() == 0,
        r.comments@.len() == 0,
{
    SvModuleDeclaration {
        identifier: crate::sv_instance::ident_under_pub(m, SvNodeKind::ModuleIdentifier),
        parameters: Vec::new(),
        ports: Vec::new(),
        instances: Vec::new(),
        filepath: String::from_str(filepath),
        comments: Vec::new(),
    }
}

} // verus!
