//! The top of the data flow: walks a whole syntax tree and assembles the
//! model of one source file.

use vstd::prelude::*;
use crate::structures::{SvData, SvSemanticError};
use crate::sv_module::{module_declaration_ansi, module_params, module_rec_ok};
use crate::sv_package::{package_declaration, package_rec_ok};
use crate::sv_port::spec_param_err;
use crate::tree::{SvNode, SvNodeKind};

verus! {

/// The ANSI module declaration nodes of a tree, in source order.
pub open spec fn module_nodes(n: SvNode) -> Seq<SvNode>
    decreases n,
{
    if n.kind == SvNodeKind::ModuleDeclarationAnsi {
        seq![n]
    } else {
        module_nodes_forest(n.children@)
    }
}

/// The module declaration nodes of a forest.
pub open spec fn module_nodes_forest(cs: Seq<SvNode>) -> Seq<SvNode>
    decreases cs,
{
    if cs.len() == 0 {
        Seq::empty()
    } else {
        module_nodes(cs[0]) + module_nodes_forest(cs.drop_first())
    }
}

/// The package declaration nodes of a tree, in source order.
pub open spec fn package_nodes(n: SvNode) -> Seq<SvNode>
    decreases n,
{
    if n.kind == SvNodeKind::PackageDeclaration {
        seq![n]
    } else {
        package_nodes_forest(n.children@)
    }
}

/// The package declaration nodes of a forest.
pub open spec fn package_nodes_forest(cs: Seq<SvNode>) -> Seq<SvNode>
    decreases cs,
{
    if cs.len() == 0 {
        Seq::empty()
    } else {
        package_nodes(cs[0]) + package_nodes_forest(cs.drop_first())
    }
}

/// What the assembled model guarantees relative to the declaration nodes of
/// the tree.
pub open spec fn data_ok(d: SvData, n: SvNode, filepath: Seq<char>) -> bool {
    &&& d.modules@.len() == module_nodes(n).len()
    &&& (forall|j: int|
        0 <= j < d.modules@.len() ==> module_rec_ok(
            #[trigger] d.modules@[j],
            module_nodes(n)[j],
            filepath,
        ))
    &&& d.packages@.len() == package_nodes(n).len()
    &&& (forall|j: int|
        0 <= j < d.packages@.len() ==> package_rec_ok(
            #[trigger] d.packages@[j],
            package_nodes(n)[j],
            filepath,
        ))
}

/// A parameter declaration of a module that breaks the given rule.
pub open spec fn module_err_at(m: SvNode, j: int, e: SvSemanticError) -> bool {
    0 <= j < module_params(m).len() && spec_param_err(
        module_params(m)[j].0,
        module_params(m)[j].1,
        module_params(m)[j].2,
    ) == Some(e)
}

/// A parameter declaration of a package that breaks the given rule.
pub open spec fn package_err_at(m: SvNode, j: int, e: SvSemanticError) -> bool {
    0 <= j < crate::sv_module::scoped_params(m, None, true).len() && spec_param_err(
        crate::sv_module::scoped_params(m, None, true)[j].0,
        crate::sv_module::scoped_params(m, None, true)[j].1,
        crate::sv_module::scoped_params(m, None, true)[j].2,
    ) == Some(e)
}

/// Some module declaration under the tree holds a declaration that breaks
/// the given rule.
pub open spec fn some_module_err(n: SvNode, e: SvSemanticError) -> bool {
    exists|mi: int, j: int|
        0 <= mi < module_nodes(n).len() && #[trigger] module_err_at(module_nodes(n)[mi], j, e)
}

/// Some package declaration under the tree holds a declaration that breaks
/// the given rule.
pub open spec fn some_package_err(n: SvNode, e: SvSemanticError) -> bool {
    exists|pi: int, j: int|
        0 <= pi < package_nodes(n).len() && #[trigger] package_err_at(package_nodes(n)[pi], j, e)
}

/// Collects the resolved modules of a tree.
fn collect_modules(
    n: &SvNode,
    filepath: &str,
    out: &mut Vec<crate::structures::SvModuleDeclaration>,
) -> (r: Result<(), SvSemanticError>)
    ensures
        r is Ok ==> {
            &&& final(out)@.len() == old(out)@.len() + module_nodes(*n).len()
            &&& (forall|j: int| 0 <= j < old(out)@.len() ==> final(out)@[j] == old(out)@[j])
            &&& (forall|j: int|
                0 <= j < module_nodes(*n).len() ==> module_rec_ok(
                    #[trigger] final(out)@[old(out)@.len() + j],
                    module_nodes(*n)[j],
                    filepath@,
                ))
        },
        r matches Err(e) ==> some_module_err(*n, e),
    decreases *n,
{
    if n.kind == SvNodeKind::ModuleDeclarationAnsi {
        match module_declaration_ansi(n, filepath) {
            Ok(md) => {
                out.push(md);
                Ok(())
            },
            Err(e) => {
                proof {
                    let jj = choose|j: int|
                        0 <= j < module_params(*n).len() && spec_param_err(
                            (#[trigger] module_params(*n)[j]).0,
                            module_params(*n)[j].1,
                            module_params(*n)[j].2,
                        ) == Some(e);
                    assert(module_nodes(*n)[0] == *n);
                    assert(module_err_at(module_nodes(*n)[0], jj, e));
                }
                Err(e)
            },
        }
    } else {
        let mut i: usize = 0;
        proof {
            assert(n.children@.take(0) =~= Seq::<SvNode>::empty());
        }
        while i < n.children.len()
            invariant
                i <= n.children@.len(),
                n.kind != SvNodeKind::ModuleDeclarationAnsi,
                out@.len() == old(out)@.len() + module_nodes_forest(
                    n.children@.take(i as int),
                ).len(),
                forall|j: int| 0 <= j < old(out)@.len() ==> out@[j] == old(out)@[j],
                forall|j: int|
                    0 <= j < module_nodes_forest(n.children@.take(i as int)).len() ==>
                        module_rec_ok(
                        #[trigger] out@[old(out)@.len() + j],
                        module_nodes_forest(n.children@.take(i as int))[j],
                        filepath@,
                    ),
            decreases n.children@.len() - i,
        {
            let ghost olen = old(out)@.len() as int;
            let ghost pre = module_nodes_forest(n.children@.take(i as int));
            let ghost mid = out@;
            match collect_modules(&n.children[i], filepath, out) {
                Ok(_) => {},
                Err(e) => {
                    proof {
                        let (mi, jj): (int, int) = choose|mi: int, j: int|
                            0 <= mi < module_nodes(n.children@[i as int]).len()
                                && #[trigger] module_err_at(
                                module_nodes(n.children@[i as int])[mi],
                                j,
                                e,
                            );
                        lemma_module_nodes_prefix(n.children@, i as int);
                        assert(module_nodes_forest(n.children@)[pre.len() + mi] == module_nodes(
                            n.children@[i as int],
                        )[mi]);
                        assert(module_err_at(module_nodes(*n)[pre.len() + mi], jj, e));
                    }
                    return Err(e);
                },
            }
            proof {
                lemma_module_nodes_take_step(n.children@, i as int);
                let ext = module_nodes_forest(n.children@.take(i as int + 1));
                assert forall|j: int| 0 <= j < ext.len() implies module_rec_ok(
                    #[trigger] out@[olen + j],
                    ext[j],
                    filepath@,
                ) by {
                    if j < pre.len() {
                        assert(out@[olen + j] == mid[olen + j]);
                    } else {
                        assert(module_rec_ok(
                            out@[mid.len() as int + (j - pre.len())],
                            module_nodes(n.children@[i as int])[j - pre.len()],
                            filepath@,
                        ));
                        assert(olen + j == mid.len() as int + (j - pre.len()));
                    }
                }
            }
            i += 1;
        }
        proof {
            assert(n.children@.take(n.children@.len() as int) =~= n.children@);
        }
        Ok(())
    }
}

/// One more subtree's module nodes in a prefix concatenation.
proof fn lemma_module_nodes_take_step(cs: Seq<SvNode>, i: int)
    requires
        0 <= i < cs.len(),
    ensures
        module_nodes_forest(cs.take(i + 1)) =~= module_nodes_forest(cs.take(i)) + module_nodes(
            cs[i],
        ),
    decreases i,
{
    if i == 0 {
        assert(cs.take(0) =~= Seq::<SvNode>::empty());
        assert(cs.take(1).drop_first() =~= Seq::<SvNode>::empty());
        assert(cs.take(1)[0] == cs[0]);
    } else {
        lemma_module_nodes_take_step(cs.drop_first(), i - 1);
        assert(cs.take(i + 1).drop_first() =~= cs.drop_first().take(i));
        assert(cs.take(i).drop_first() =~= cs.drop_first().take(i - 1));
        assert(cs.take(i + 1)[0] == cs[0]);
        assert(cs.take(i)[0] == cs[0]);
        assert(cs.drop_first()[i - 1] == cs[i]);
    }
}

/// Collects the resolved packages of a tree.
fn collect_packages(
    n: &SvNode,
    filepath: &str,
    out: &mut Vec<crate::structures::SvPackageDeclaration>,
) -> (r: Result<(), SvSemanticError>)
    ensures
        r is Ok ==> {
            &&& final(out)@.len() == old(out)@.len() + package_nodes(*n).len()
            &&& (forall|j: int| 0 <= j < old(out)@.len() ==> final(out)@[j] == old(out)@[j])
            &&& (forall|j: int|
                0 <= j < package_nodes(*n).len() ==> package_rec_ok(
                    #[trigger] final(out)@[old(out)@.len() + j],
                    package_nodes(*n)[j],
                    filepath@,
                ))
        },
        r matches Err(e) ==> some_package_err(*n, e),
    decreases *n,
{
    if n.kind == SvNodeKind::PackageDeclaration {
        match package_declaration(n, filepath) {
            Ok(pd) => {
                out.push(pd);
                Ok(())
            },
            Err(e) => {
                proof {
                    let jj = choose|j: int|
                        0 <= j < crate::sv_module::scoped_params(*n, None, true).len()
                            && spec_param_err(
                            (#[trigger] crate::sv_module::scoped_params(*n, None, true)[j]).0,
                            crate::sv_module::scoped_params(*n, None, true)[j].1,
                            crate::sv_module::scoped_params(*n, None, true)[j].2,
                        ) == Some(e);
                    assert(package_nodes(*n)[0] == *n);
                    assert(package_err_at(package_nodes(*n)[0], jj, e));
                }
                Err(e)
            },
        }
    } else {
        let mut i: usize = 0;
        proof {
            assert(n.children@.take(0) =~= Seq::<SvNode>::empty());
        }
        while i < n.children.len()
            invariant
                i <= n.children@.len(),
                n.kind != SvNodeKind::PackageDeclaration,
                out@.len() == old(out)@.len() + package_nodes_forest(
                    n.children@.take(i as int),
                ).len(),
                forall|j: int| 0 <= j < old(out)@.len() ==> out@[j] == old(out)@[j],
                forall|j: int|
                    0 <= j < package_nodes_forest(n.children@.take(i as int)).len() ==>
                        package_rec_ok(
                        #[trigger] out@[old(out)@.len() + j],
                        package_nodes_forest(n.children@.take(i as int))[j],
                        filepath@,
                    ),
            decreases n.children@.len() - i,
        {
            let ghost olen = old(out)@.len() as int;
            let ghost pre = package_nodes_forest(n.children@.take(i as int));
            let ghost mid = out@;
            match collect_packages(&n.children[i], filepath, out) {
                Ok(_) => {},
                Err(e) => {
                    proof {
                        let (pi, jj): (int, int) = choose|pi: int, j: int|
                            0 <= pi < package_nodes(n.children@[i as int]).len()
                                && #[trigger] package_err_at(
                                package_nodes(n.children@[i as int])[pi],
                                j,
                                e,
                            );
                        lemma_package_nodes_prefix(n.children@, i as int);
                        assert(package_nodes_forest(n.children@)[pre.len() + pi] == package_nodes(
                            n.children@[i as int],
                        )[pi]);
                        assert(package_err_at(package_nodes(*n)[pre.len() + pi], jj, e));
                    }
                    return Err(e);
                },
            }
            proof {
                lemma_package_nodes_take_step(n.children@, i as int);
                let ext = package_nodes_forest(n.children@.take(i as int + 1));
                assert forall|j: int| 0 <= j < ext.len() implies package_rec_ok(
                    #[trigger] out@[olen + j],
                    ext[j],
                    filepath@,
                ) by {
                    if j < pre.len() {
                        assert(out@[olen + j] == mid[olen + j]);
                    } else {
                        assert(package_rec_ok(
                            out@[mid.len() as int + (j - pre.len())],
                            package_nodes(n.children@[i as int])[j - pre.len()],
                            filepath@,
                        ));
                        assert(olen + j == mid.len() as int + (j - pre.len()));
                    }
                }
            }
            i += 1;
        }
        proof {
            assert(n.children@.take(n.children@.len() as int) =~= n.children@);
        }
        Ok(())
    }
}

/// One more subtree's package nodes in a prefix concatenation.
proof fn lemma_package_nodes_take_step(cs: Seq<SvNode>, i: int)
    requires
        0 <= i < cs.len(),
    ensures
        package_nodes_forest(cs.take(i + 1)) =~= package_nodes_forest(cs.take(i))
            + package_nodes(cs[i]),
    decreases i,
{
    if i == 0 {
        assert(cs.take(0) =~= Seq::<SvNode>::empty());
        assert(cs.take(1).drop_first() =~= Seq::<SvNode>::empty());
        assert(cs.take(1)[0] == cs[0]);
    } else {
        lemma_package_nodes_take_step(cs.drop_first(), i - 1);
        assert(cs.take(i + 1).drop_first() =~= cs.drop_first().take(i));
        assert(cs.take(i).drop_first() =~= cs.drop_first().take(i - 1));
        assert(cs.take(i + 1)[0] == cs[0]);
        assert(cs.take(i)[0] == cs[0]);
        assert(cs.drop_first()[i - 1] == cs[i]);
    }
}

/// A forest's module nodes extend any prefix's.
proof fn lemma_module_nodes_prefix(cs: Seq<SvNode>, i: int)
    requires
        0 <= i < cs.len(),
    ensures
        module_nodes_forest(cs) =~= module_nodes_forest(cs.take(i)) + module_nodes(cs[i])
            + module_nodes_forest(cs.skip(i + 1)),
    decreases i,
{
    if i == 0 {
        assert(cs.take(0) =~= Seq::<SvNode>::empty());
        assert(cs.drop_first() =~= cs.skip(1));
    } else {
        lemma_module_nodes_prefix(cs.drop_first(), i - 1);
        assert(cs.take(i).drop_first() =~= cs.drop_first().take(i - 1));
        assert(cs.take(i)[0] == cs[0]);
        assert(cs.drop_first()[i - 1] == cs[i]);
        assert(cs.drop_first().skip(i) =~= cs.skip(i + 1));
    }
}

/// A forest's package nodes extend any prefix's.
proof fn lemma_package_nodes_prefix(cs: Seq<SvNode>, i: int)
    requires
        0 <= i < cs.len(),
    ensures
        package_nodes_forest(cs) =~= package_nodes_forest(cs.take(i)) + package_nodes(cs[i])
            + package_nodes_forest(cs.skip(i + 1)),
    decreases i,
{
    if i == 0 {
        assert(cs.take(0) =~= Seq::<SvNode>::empty());
        assert(cs.drop_first() =~= cs.skip(1));
    } else {
        lemma_package_nodes_prefix(cs.drop_first(), i - 1);
        assert(cs.take(i).drop_first() =~= cs.drop_first().take(i - 1));
        assert(cs.take(i)[0] == cs[0]);
        assert(cs.drop_first()[i - 1] == cs[i]);
        assert(cs.drop_first().skip(i) =~= cs.skip(i + 1));
    }
}

/// Assembles the whole model of one source file from its syntax tree, or
/// reports the first parameter declaration that breaks a rule.
pub fn sv_to_structure(tree: &SvNode, filepath: &str) -> (r: Result<SvData, SvSemanticError>)
    ensures
        r is Ok ==> data_ok(r->Ok_0, *tree, filepath@),
        r matches Err(e) ==> some_module_err(*tree, e) || some_package_err(*tree, e),
{
    let mut modules: Vec<crate::structures::SvModuleDeclaration> = Vec::new();
    match collect_modules(tree, filepath, &mut modules) {
        Ok(_) => {},
        Err(e) => {
            return Err(e);
        },
    }
    let mut packages: Vec<crate::structures::SvPackageDeclaration> = Vec::new();
    match collect_packages(tree, filepath, &mut packages) {
        Ok(_) => {},
        Err(e) => {
            return Err(e);
        },
    }
    proof {
        assert forall|j: int| 0 <= j < modules@.len() implies module_rec_ok(
            #[trigger] modules@[j],
            module_nodes(*tree)[j],
            filepath@,
        ) by {
            assert(module_rec_ok(modules@[0 + j], module_nodes(*tree)[j], filepath@));
        }
        assert forall|j: int| 0 <= j < packages@.len() implies package_rec_ok(
            #[trigger] packages@[j],
            package_nodes(*tree)[j],
            filepath@,
        ) by {
            assert(package_rec_ok(packages@[0 + j], package_nodes(*tree)[j], filepath@));
        }
    }
    Ok(SvData { modules, packages })
}

} // verus!
