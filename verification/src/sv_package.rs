//! The package assembler: collects the parameter declarations of a package,
//! every one treated as a local parameter.

use vstd::prelude::*;
use vstd::string::StringExecFns;
use crate::structures::{SvPackageDeclaration, SvSemanticError};
use crate::sv_instance::ident_under;
use crate::sv_module::{params_post, scoped_params};
use crate::sv_port::spec_param_err;
use crate::tree::{SvNode, SvNodeKind};

verus! {

/// The whole account of a resolved package record.
pub open spec fn package_rec_ok(pd: SvPackageDeclaration, m: SvNode, filepath: Seq<char>)
    -> bool {
    &&& pd.identifier@ == ident_under(m, SvNodeKind::PackageIdentifier)
    &&& pd.filepath@ == filepath
    &&& params_post(scoped_params(m, None, true), Seq::empty(), pd.parameters@, Ok(()))
}

/// Assembles a package record from its declaration subtree, or reports the
/// first parameter declaration that breaks a rule.
pub fn package_declaration(m: &SvNode, filepath: &str) -> (r: Result<
    SvPackageDeclaration,
    SvSemanticError,
>)
    ensures
        match r {
            Ok(pd) => package_rec_ok(pd, *m, filepath@),
            Err(e) => exists|j: int|
                0 <= j < scoped_params(*m, None, true).len() && spec_param_err(
                    (#[trigger] scoped_params(*m, None, true)[j]).0,
                    scoped_params(*m, None, true)[j].1,
                    scoped_params(*m, None, true)[j].2,
                ) == Some(e),
        },
{
    let mut parameters: Vec<crate::structures::SvParameter> = Vec::new();
    match crate::sv_module::collect_params_pub(m, None, true, &mut parameters) {
        Ok(_) => {},
        Err(e) => {
            return Err(e);
        },
    }
    proof {
        assert forall|j: int| 0 <= j < scoped_params(*m, None, true).len() implies
            crate::sv_port::param_matches(
            #[trigger] parameters@[Seq::<crate::structures::SvParameter>::empty().len() + j],
            scoped_params(*m, None, true)[j].0,
            scoped_params(*m, None, true)[j].1,
            scoped_params(*m, None, true)[j].2,
        ) by {
            assert(crate::sv_port::param_matches(
                parameters@[0 + j],
                scoped_params(*m, None, true)[j].0,
                scoped_params(*m, None, true)[j].1,
                scoped_params(*m, None, true)[j].2,
            ));
        }
    }
    Ok(
        SvPackageDeclaration {
            identifier: crate::sv_instance::ident_under_pub(m, SvNodeKind::PackageIdentifier),
            parameters,
            filepath: String::from_str(filepath),
        },
    )
}

} // verus!
