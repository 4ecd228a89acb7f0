//! The parameter and port semantic resolvers: from a declaration subtree to
//! a fully populated record, with the defaulting rules a compliant
//! elaborator would apply.

use vstd::prelude::*;
use vstd::string::StringExecFns;
use crate::structures::{
    SvDataKind, SvDataType, SvNetType, SvPackedDimension, SvParamType, SvParameter, SvPort,
    SvPortDirection, SvSemanticError, SvSignedness, SvUnpackedDimension,
};
use crate::text_num::{dec_sval, is_sdec};
use crate::tree::{
    comments_of, find_first, first_match, get_comment, get_string, identifier, keyword, symbol,
    text_of, SvNode, SvNodeKind,
};

verus! {

/// A one-kind want list.
fn kv1(a: SvNodeKind) -> (r: Vec<SvNodeKind>)
    ensures
        r@ =~= seq![a],
{
    let mut v: Vec<SvNodeKind> = Vec::new();
    v.push(a);
    v
}

/// A two-kind want list.
fn kv2(a: SvNodeKind, b: SvNodeKind) -> (r: Vec<SvNodeKind>)
    ensures
        r@ =~= seq![a, b],
{
    let mut v: Vec<SvNodeKind> = Vec::new();
    v.push(a);
    v.push(b);
    v
}

/// A four-kind want list.
fn kv4(a: SvNodeKind, b: SvNodeKind, c: SvNodeKind, d: SvNodeKind) -> (r: Vec<SvNodeKind>)
    ensures
        r@ =~= seq![a, b, c, d],
{
    let mut v: Vec<SvNodeKind> = Vec::new();
    v.push(a);
    v.push(b);
    v.push(c);
    v.push(d);
    v
}

/// The kinds that name an explicit data type inside a declaration prefix.
pub open spec fn datatype_kinds() -> Seq<SvNodeKind> {
    seq![
        SvNodeKind::IntegerVectorTypeLogic,
        SvNodeKind::IntegerVectorTypeReg,
        SvNodeKind::IntegerVectorTypeBit,
        SvNodeKind::IntegerAtomTypeByte,
        SvNodeKind::IntegerAtomTypeShortint,
        SvNodeKind::IntegerAtomTypeInt,
        SvNodeKind::IntegerAtomTypeLongint,
        SvNodeKind::IntegerAtomTypeInteger,
        SvNodeKind::IntegerAtomTypeTime,
        SvNodeKind::NonIntegerTypeShortreal,
        SvNodeKind::NonIntegerTypeRealtime,
        SvNodeKind::NonIntegerTypeReal,
        SvNodeKind::ClassType,
        SvNodeKind::TypeReference,
    ]
}

fn datatype_kinds_vec() -> (r: Vec<SvNodeKind>)
    ensures
        r@ =~= datatype_kinds(),
{
    let mut v: Vec<SvNodeKind> = Vec::new();
    v.push(SvNodeKind::IntegerVectorTypeLogic);
    v.push(SvNodeKind::IntegerVectorTypeReg);
    v.push(SvNodeKind::IntegerVectorTypeBit);
    v.push(SvNodeKind::IntegerAtomTypeByte);
    v.push(SvNodeKind::IntegerAtomTypeShortint);
    v.push(SvNodeKind::IntegerAtomTypeInt);
    v.push(SvNodeKind::IntegerAtomTypeLongint);
    v.push(SvNodeKind::IntegerAtomTypeInteger);
    v.push(SvNodeKind::IntegerAtomTypeTime);
    v.push(SvNodeKind::NonIntegerTypeShortreal);
    v.push(SvNodeKind::NonIntegerTypeRealtime);
    v.push(SvNodeKind::NonIntegerTypeReal);
    v.push(SvNodeKind::ClassType);
    v.push(SvNodeKind::TypeReference);
    v
}

/// The semantic tag a type-naming node maps to.
pub open spec fn kind_to_datatype(k: SvNodeKind) -> SvDataType {
    match k {
        SvNodeKind::IntegerVectorTypeLogic => SvDataType::Logic,
        SvNodeKind::IntegerVectorTypeReg => SvDataType::Reg,
        SvNodeKind::IntegerVectorTypeBit => SvDataType::Bit,
        SvNodeKind::IntegerAtomTypeByte => SvDataType::Byte,
        SvNodeKind::IntegerAtomTypeShortint => SvDataType::Shortint,
        SvNodeKind::IntegerAtomTypeInt => SvDataType::Int,
        SvNodeKind::IntegerAtomTypeLongint => SvDataType::Longint,
        SvNodeKind::IntegerAtomTypeInteger => SvDataType::Integer,
        SvNodeKind::IntegerAtomTypeTime => SvDataType::Time,
        SvNodeKind::NonIntegerTypeShortreal => SvDataType::Shortreal,
        SvNodeKind::NonIntegerTypeRealtime => SvDataType::Realtime,
        SvNodeKind::NonIntegerTypeReal => SvDataType::Real,
        SvNodeKind::ClassType => SvDataType::Class,
        SvNodeKind::TypeReference => SvDataType::TypeRef,
        _ => SvDataType::Unsupported,
    }
}

fn map_datatype_kind(k: SvNodeKind) -> (r: SvDataType)
    ensures
        r == kind_to_datatype(k),
{
    match k {
        SvNodeKind::IntegerVectorTypeLogic => SvDataType::Logic,
        SvNodeKind::IntegerVectorTypeReg => SvDataType::Reg,
        SvNodeKind::IntegerVectorTypeBit => SvDataType::Bit,
        SvNodeKind::IntegerAtomTypeByte => SvDataType::Byte,
        SvNodeKind::IntegerAtomTypeShortint => SvDataType::Shortint,
        SvNodeKind::IntegerAtomTypeInt => SvDataType::Int,
        SvNodeKind::IntegerAtomTypeLongint => SvDataType::Longint,
        SvNodeKind::IntegerAtomTypeInteger => SvDataType::Integer,
        SvNodeKind::IntegerAtomTypeTime => SvDataType::Time,
        SvNodeKind::NonIntegerTypeShortreal => SvDataType::Shortreal,
        SvNodeKind::NonIntegerTypeRealtime => SvDataType::Realtime,
        SvNodeKind::NonIntegerTypeReal => SvDataType::Real,
        SvNodeKind::ClassType => SvDataType::Class,
        SvNodeKind::TypeReference => SvDataType::TypeRef,
        _ => SvDataType::Unsupported,
    }
}

/// Whether a default expression is attached to the assignment node.
pub open spec fn spec_found_assignment(p: SvNode) -> bool {
    first_match(p, seq![SvNodeKind::ConstantParamExpression]) is Some
}

/// Whether a default expression needs the expression resolvers: it holds a
/// function call, a binary operator, a concatenation or a conditional.
pub open spec fn spec_resolver_needed(p: SvNode) -> bool {
    first_match(
        p,
        seq![
            SvNodeKind::ConstantFunctionCall,
            SvNodeKind::BinaryOperator,
            SvNodeKind::ConstantConcatenation,
            SvNodeKind::ConditionalExpression,
        ],
    ) is Some
}

fn found_assignment(p: &SvNode) -> (r: bool)
    ensures
        r == spec_found_assignment(*p),
{
    let ks = kv1(SvNodeKind::ConstantParamExpression);
    find_first(p, &ks).is_some()
}

fn resolver_needed(p: &SvNode) -> (r: bool)
    ensures
        r == spec_resolver_needed(*p),
{
    let ks = kv4(
        SvNodeKind::ConstantFunctionCall,
        SvNodeKind::BinaryOperator,
        SvNodeKind::ConstantConcatenation,
        SvNodeKind::ConditionalExpression,
    );
    find_first(p, &ks).is_some()
}

/// The literal kinds an implicit default dispatches on.
pub open spec fn literal_kinds() -> Seq<SvNodeKind> {
    seq![
        SvNodeKind::Number,
        SvNodeKind::TimeLiteral,
        SvNodeKind::UnbasedUnsizedLiteral,
        SvNodeKind::StringLiteral,
    ]
}

/// The data type the expression resolver deduces from the top literal of a
/// default expression.
pub open spec fn spec_datatype_resolver(p: SvNode) -> SvDataType {
    match first_match(p, literal_kinds()) {
        Some(m) => {
            if m.kind == SvNodeKind::Number {
                if first_match(m, seq![SvNodeKind::IntegralNumber, SvNodeKind::RealNumber])
                    matches Some(sub) && sub.kind == SvNodeKind::IntegralNumber {
                    if first_match(p, seq![SvNodeKind::RealNumber]) is Some {
                        SvDataType::Real
                    } else {
                        SvDataType::Logic
                    }
                } else {
                    SvDataType::Real
                }
            } else if m.kind == SvNodeKind::TimeLiteral {
                match first_match(p, seq![SvNodeKind::RealNumber, SvNodeKind::IntegralNumber]) {
                    Some(sub) => if sub.kind == SvNodeKind::RealNumber {
                        SvDataType::Real
                    } else {
                        SvDataType::Logic
                    },
                    None => SvDataType::Time,
                }
            } else if m.kind == SvNodeKind::UnbasedUnsizedLiteral {
                match first_match(p, seq![SvNodeKind::RealNumber, SvNodeKind::IntegralNumber]) {
                    Some(sub) => if sub.kind == SvNodeKind::RealNumber {
                        SvDataType::Real
                    } else {
                        SvDataType::Logic
                    },
                    None => SvDataType::Bit,
                }
            } else {
                SvDataType::String
            }
        },
        None => SvDataType::Unsupported,
    }
}

/// Classifies the default expression's top literal.
pub fn parameter_datatype_resolver_ansi(p: &SvNode) -> (r: SvDataType)
    ensures
        r == spec_datatype_resolver(*p),
{
    let lits = kv4(
        SvNodeKind::Number,
        SvNodeKind::TimeLiteral,
        SvNodeKind::UnbasedUnsizedLiteral,
        SvNodeKind::StringLiteral,
    );
    match find_first(p, &lits) {
        Some(m) => {
            if m.kind == SvNodeKind::Number {
                let sub_ks = kv2(SvNodeKind::IntegralNumber, SvNodeKind::RealNumber);
                let is_integral = match find_first(m, &sub_ks) {
                    Some(sub) => sub.kind == SvNodeKind::IntegralNumber,
                    None => false,
                };
                if is_integral {
                    let rk = kv1(SvNodeKind::RealNumber);
                    if find_first(p, &rk).is_some() {
                        SvDataType::Real
                    } else {
                        SvDataType::Logic
                    }
                } else {
                    SvDataType::Real
                }
            } else if m.kind == SvNodeKind::TimeLiteral {
                let sub_ks = kv2(SvNodeKind::RealNumber, SvNodeKind::IntegralNumber);
                match find_first(p, &sub_ks) {
                    Some(sub) => if sub.kind == SvNodeKind::RealNumber {
                        SvDataType::Real
                    } else {
                        SvDataType::Logic
                    },
                    None => SvDataType::Time,
                }
            } else if m.kind == SvNodeKind::UnbasedUnsizedLiteral {
                let sub_ks = kv2(SvNodeKind::RealNumber, SvNodeKind::IntegralNumber);
                match find_first(p, &sub_ks) {
                    Some(sub) => if sub.kind == SvNodeKind::RealNumber {
                        SvDataType::Real
                    } else {
                        SvDataType::Logic
                    },
                    None => SvDataType::Bit,
                }
            } else {
                SvDataType::String
            }
        },
        None => SvDataType::Unsupported,
    }
}

/// The data type and overridability of a parameter declaration.
pub open spec fn spec_parameter_datatype(
    common: Option<SvNode>,
    p: SvNode,
    param_type: SvParamType,
) -> (Option<SvDataType>, bool) {
    let init: (Option<SvDataType>, bool) = if param_type == SvParamType::Parameter {
        (None, true)
    } else {
        (Some(SvDataType::Logic), false)
    };
    let named = match common {
        Some(c) => first_match(c, datatype_kinds()),
        None => None,
    };
    match named {
        Some(t) => (Some(kind_to_datatype(t.kind)), false),
        None => {
            let stringy = match common {
                Some(c) => match first_match(c, seq![SvNodeKind::DataType]) {
                    Some(dt) => match first_match(dt, seq![SvNodeKind::Keyword]) {
                        Some(kw) => text_of(kw) == "string"@,
                        None => false,
                    },
                    None => false,
                },
                None => false,
            };
            if stringy {
                (Some(SvDataType::String), false)
            } else if spec_found_assignment(p) {
                if spec_resolver_needed(p) {
                    if first_match(p, seq![SvNodeKind::BinaryOperator]) is Some {
                        (Some(spec_datatype_resolver(p)), true)
                    } else {
                        (Some(SvDataType::Unsupported), true)
                    }
                } else {
                    match first_match(p, literal_kinds()) {
                        Some(m) => {
                            if m.kind == SvNodeKind::UnbasedUnsizedLiteral {
                                (Some(SvDataType::Logic), true)
                            } else if m.kind == SvNodeKind::Number {
                                if first_match(
                                    m,
                                    seq![SvNodeKind::IntegralNumber, SvNodeKind::RealNumber],
                                ) matches Some(sub) && sub.kind == SvNodeKind::IntegralNumber {
                                    (Some(SvDataType::Logic), true)
                                } else {
                                    (Some(SvDataType::Real), true)
                                }
                            } else if m.kind == SvNodeKind::TimeLiteral {
                                (Some(SvDataType::Time), true)
                            } else {
                                (Some(SvDataType::String), true)
                            }
                        },
                        None => (Some(SvDataType::Unsupported), true),
                    }
                }
            } else {
                init
            }
        },
    }
}

/// Resolves the data type of a parameter declaration.
pub fn port_parameter_datatype_ansi(
    common: Option<&SvNode>,
    p: &SvNode,
    param_type: &SvParamType,
) -> (r: (Option<SvDataType>, bool))
    ensures
        r == spec_parameter_datatype(
            match common {
                Some(c) => Some(*c),
                None => None,
            },
            *p,
            *param_type,
        ),
{
    let init: (Option<SvDataType>, bool) = if *param_type == SvParamType::Parameter {
        (None, true)
    } else {
        (Some(SvDataType::Logic), false)
    };
    let dks = datatype_kinds_vec();
    let named = match common {
        Some(c) => find_first(c, &dks),
        None => None,
    };
    match named {
        Some(t) => (Some(map_datatype_kind(t.kind)), false),
        None => {
            let stringy: bool = match common {
                Some(c) => {
                    let dtk = kv1(SvNodeKind::DataType);
                    match find_first(c, &dtk) {
                        Some(dt) => {
                            let kwk = kv1(SvNodeKind::Keyword);
                            match find_first(dt, &kwk) {
                                Some(kw) => {
                                    let mut text = String::new();
                                    crate::tree::collect_text(kw, &mut text);
                                    let target = String::from_str("string");
                                    proof {
                                        assert(Seq::<char>::empty() + text_of(*kw) =~= text_of(
                                            *kw,
                                        ));
                                    }
                                    text == target
                                },
                                None => false,
                            }
                        },
                        None => false,
                    }
                },
                None => false,
            };
            if stringy {
                (Some(SvDataType::String), false)
            } else if found_assignment(p) {
                if resolver_needed(p) {
                    let bo = kv1(SvNodeKind::BinaryOperator);
                    if find_first(p, &bo).is_some() {
                        (Some(parameter_datatype_resolver_ansi(p)), true)
                    } else {
                        (Some(SvDataType::Unsupported), true)
                    }
                } else {
                    let lits = kv4(
                        SvNodeKind::Number,
                        SvNodeKind::TimeLiteral,
                        SvNodeKind::UnbasedUnsizedLiteral,
                        SvNodeKind::StringLiteral,
                    );
                    match find_first(p, &lits) {
                        Some(m) => {
                            if m.kind == SvNodeKind::UnbasedUnsizedLiteral {
                                (Some(SvDataType::Logic), true)
                            } else if m.kind == SvNodeKind::Number {
                                let sub_ks = kv2(
                                    SvNodeKind::IntegralNumber,
                                    SvNodeKind::RealNumber,
                                );
                                let is_integral = match find_first(m, &sub_ks) {
                                    Some(sub) => sub.kind == SvNodeKind::IntegralNumber,
                                    None => false,
                                };
                                if is_integral {
                                    (Some(SvDataType::Logic), true)
                                } else {
                                    (Some(SvDataType::Real), true)
                                }
                            } else if m.kind == SvNodeKind::TimeLiteral {
                                (Some(SvDataType::Time), true)
                            } else {
                                (Some(SvDataType::String), true)
                            }
                        },
                        None => (Some(SvDataType::Unsupported), true),
                    }
                }
            } else {
                init
            }
        },
    }
}


/// The binary operators that force an unsigned result.
pub open spec fn unsigned_op(t: Seq<char>) -> bool {
    ||| t == "&"@
    ||| t == "~&"@
    ||| t == "|"@
    ||| t == "~|"@
    ||| t == "^"@
    ||| t == "~^"@
    ||| t == "<"@
    ||| t == "<="@
    ||| t == ">"@
    ||| t == ">="@
    ||| t == "=="@
    ||| t == "=!"@
}

fn unsigned_op_exec(t: &String) -> (r: bool)
    ensures
        r == unsigned_op(t@),
{
    let c01 = *t == String::from_str("&") || *t == String::from_str("~&");
    let c23 = *t == String::from_str("|") || *t == String::from_str("~|");
    let c45 = *t == String::from_str("^") || *t == String::from_str("~^");
    let c67 = *t == String::from_str("<") || *t == String::from_str("<=");
    let c89 = *t == String::from_str(">") || *t == String::from_str(">=");
    let cab = *t == String::from_str("==") || *t == String::from_str("=!");
    c01 || c23 || c45 || c67 || c89 || cab
}

/// What one node of the default expression decides about signedness:
/// nothing, or a final verdict.
pub open spec fn sig_decide(n: SvNode) -> Option<Option<SvSignedness>> {
    if n.kind == SvNodeKind::Number {
        match first_match(n, seq![SvNodeKind::IntegralNumber, SvNodeKind::RealNumber]) {
            Some(sub) => {
                if sub.kind == SvNodeKind::RealNumber {
                    Some(None)
                } else {
                    match first_match(
                        n,
                        seq![
                            SvNodeKind::BinaryNumber,
                            SvNodeKind::HexNumber,
                            SvNodeKind::OctalNumber,
                        ],
                    ) {
                        Some(it) => match first_match(
                            it,
                            seq![
                                SvNodeKind::BinaryBase,
                                SvNodeKind::HexBase,
                                SvNodeKind::OctalBase,
                                SvNodeKind::DecimalNumberBaseUnsigned,
                            ],
                        ) {
                            Some(base) => {
                                let tok = text_of(base);
                                if base.kind == SvNodeKind::BinaryBase {
                                    if tok == "'sb"@ {
                                        None
                                    } else {
                                        Some(Some(SvSignedness::Unsigned))
                                    }
                                } else if base.kind == SvNodeKind::HexBase {
                                    if tok == "'sh"@ {
                                        None
                                    } else {
                                        Some(Some(SvSignedness::Unsigned))
                                    }
                                } else if base.kind == SvNodeKind::OctalBase {
                                    if tok == "'so"@ {
                                        None
                                    } else {
                                        Some(Some(SvSignedness::Unsigned))
                                    }
                                } else {
                                    if tok == "'sd"@ {
                                        None
                                    } else {
                                        Some(Some(SvSignedness::Unsigned))
                                    }
                                }
                            },
                            None => Some(Some(SvSignedness::Unsupported)),
                        },
                        None => None,
                    }
                }
            },
            None => None,
        }
    } else if n.kind == SvNodeKind::TimeLiteral || n.kind == SvNodeKind::UnbasedUnsizedLiteral {
        Some(Some(SvSignedness::Unsigned))
    } else if n.kind == SvNodeKind::BinaryOperator {
        match first_match(n, seq![SvNodeKind::Symbol]) {
            Some(sy) => if unsigned_op(text_of(sy)) {
                Some(Some(SvSignedness::Unsigned))
            } else {
                None
            },
            None => None,
        }
    } else {
        None
    }
}

/// The first verdict of a preorder scan of the default expression.
pub open spec fn sig_scan(n: SvNode) -> Option<Option<SvSignedness>>
    decreases n,
{
    match sig_decide(n) {
        Some(v) => Some(v),
        None => sig_scan_forest(n.children@),
    }
}

/// The first verdict among a forest.
pub open spec fn sig_scan_forest(cs: Seq<SvNode>) -> Option<Option<SvSignedness>>
    decreases cs,
{
    if cs.len() == 0 {
        None
    } else {
        match sig_scan(cs[0]) {
            Some(v) => Some(v),
            None => sig_scan_forest(cs.drop_first()),
        }
    }
}

/// The signedness the expression resolver deduces: `Signed` unless a scan of
/// the default expression lowers it.
pub open spec fn spec_signedness_resolver(p: SvNode, datatype: Option<SvDataType>) -> Option<
    SvSignedness,
> {
    if datatype == Some(SvDataType::String) {
        None
    } else {
        match sig_scan(p) {
            Some(v) => v,
            None => Some(SvSignedness::Signed),
        }
    }
}

/// What one node decides, executably.
fn sig_decide_exec(n: &SvNode) -> (r: Option<Option<SvSignedness>>)
    ensures
        r == sig_decide(*n),
{
    if n.kind == SvNodeKind::Number {
        let sub_ks = kv2(SvNodeKind::IntegralNumber, SvNodeKind::RealNumber);
        match find_first(n, &sub_ks) {
            Some(sub) => {
                if sub.kind == SvNodeKind::RealNumber {
                    Some(None)
                } else {
                    let int_ks = kv1(SvNodeKind::BinaryNumber);
                    let mut int_ks = int_ks;
                    int_ks.push(SvNodeKind::HexNumber);
                    int_ks.push(SvNodeKind::OctalNumber);
                    proof {
                        assert(int_ks@ =~= seq![
                            SvNodeKind::BinaryNumber,
                            SvNodeKind::HexNumber,
                            SvNodeKind::OctalNumber,
                        ]);
                    }
                    match find_first(n, &int_ks) {
                        Some(it) => {
                            let base_ks = kv4(
                                SvNodeKind::BinaryBase,
                                SvNodeKind::HexBase,
                                SvNodeKind::OctalBase,
                                SvNodeKind::DecimalNumberBaseUnsigned,
                            );
                            match find_first(it, &base_ks) {
                                Some(base) => {
                                    let mut tok = String::new();
                                    crate::tree::collect_text(base, &mut tok);
                                    proof {
                                        assert(Seq::<char>::empty() + text_of(*base) =~= text_of(
                                            *base,
                                        ));
                                    }
                                    if base.kind == SvNodeKind::BinaryBase {
                                        if tok == String::from_str("'sb") {
                                            None
                                        } else {
                                            Some(Some(SvSignedness::Unsigned))
                                        }
                                    } else if base.kind == SvNodeKind::HexBase {
                                        if tok == String::from_str("'sh") {
                                            None
                                        } else {
                                            Some(Some(SvSignedness::Unsigned))
                                        }
                                    } else if base.kind == SvNodeKind::OctalBase {
                                        if tok == String::from_str("'so") {
                                            None
                                        } else {
                                            Some(Some(SvSignedness::Unsigned))
                                        }
                                    } else {
                                        if tok == String::from_str("'sd") {
                                            None
                                        } else {
                                            Some(Some(SvSignedness::Unsigned))
                                        }
                                    }
                                },
                                None => Some(Some(SvSignedness::Unsupported)),
                            }
                        },
                        None => None,
                    }
                }
            },
            None => None,
        }
    } else if n.kind == SvNodeKind::TimeLiteral || n.kind == SvNodeKind::UnbasedUnsizedLiteral {
        Some(Some(SvSignedness::Unsigned))
    } else if n.kind == SvNodeKind::BinaryOperator {
        let sy_ks = kv1(SvNodeKind::Symbol);
        match find_first(n, &sy_ks) {
            Some(sy) => {
                let mut tok = String::new();
                crate::tree::collect_text(sy, &mut tok);
                proof {
                    assert(Seq::<char>::empty() + text_of(*sy) =~= text_of(*sy));
                }
                if unsigned_op_exec(&tok) {
                    Some(Some(SvSignedness::Unsigned))
                } else {
                    None
                }
            },
            None => None,
        }
    } else {
        None
    }
}

/// Runs the preorder scan.
fn sig_scan_exec(n: &SvNode) -> (r: Option<Option<SvSignedness>>)
    ensures
        r == sig_scan(*n),
    decreases *n,
{
    match sig_decide_exec(n) {
        Some(v) => Some(v),
        None => {
            let mut i: usize = 0;
            while i < n.children.len()
                invariant
                    i <= n.children@.len(),
                    sig_decide(*n) is None,
                    forall|j: int| 0 <= j < i ==> sig_scan(#[trigger] n.children@[j]) is None,
                decreases n.children@.len() - i,
            {
                let sub = sig_scan_exec(&n.children[i]);
                match sub {
                    Some(v) => {
                        proof {
                            lemma_sig_forest_skip(n.children@, i as int);
                            assert(n.children@.skip(i as int)[0] == n.children@[i as int]);
                        }
                        return Some(v);
                    },
                    None => {},
                }
                i += 1;
            }
            proof {
                lemma_sig_forest_skip(n.children@, n.children@.len() as int);
                assert(n.children@.skip(n.children@.len() as int) =~= Seq::<SvNode>::empty());
            }
            None
        },
    }
}

/// Scanning a forest whose first trees decide nothing starts at the rest.
proof fn lemma_sig_forest_skip(cs: Seq<SvNode>, i: int)
    requires
        0 <= i <= cs.len(),
        forall|j: int| 0 <= j < i ==> sig_scan(#[trigger] cs[j]) is None,
    ensures
        sig_scan_forest(cs) == sig_scan_forest(cs.skip(i)),
    decreases i,
{
    if i > 0 {
        assert(cs.drop_first() =~= cs.skip(1));
        assert(forall|j: int| 0 <= j < i - 1 ==> cs.drop_first()[j] == #[trigger] cs[j + 1]);
        lemma_sig_forest_skip(cs.drop_first(), i - 1);
        assert(cs.drop_first().skip(i - 1) =~= cs.skip(i));
    } else {
        assert(cs.skip(0) =~= cs);
    }
}

/// Deduces the signedness of a compound default expression.
pub fn parameter_signedness_resolver_ansi(p: &SvNode, datatype: &Option<SvDataType>) -> (r:
    Option<SvSignedness>)
    ensures
        r == spec_signedness_resolver(*p, *datatype),
{
    match datatype {
        Some(SvDataType::String) => {
            return None;
        },
        _ => {},
    }
    match sig_scan_exec(p) {
        Some(v) => v,
        None => Some(SvSignedness::Signed),
    }
}


/// The signedness and overridability of a parameter declaration.
pub open spec fn spec_parameter_signedness(
    common: Option<SvNode>,
    p: SvNode,
    datatype: Option<SvDataType>,
    found: bool,
    datatype_overridable: bool,
) -> (Option<SvSignedness>, bool) {
    let explicit = match common {
        Some(c) => first_match(c, seq![SvNodeKind::SigningSigned, SvNodeKind::SigningUnsigned]),
        None => None,
    };
    match explicit {
        Some(sg) => {
            if sg.kind == SvNodeKind::SigningSigned {
                (Some(SvSignedness::Signed), false)
            } else {
                (Some(SvSignedness::Unsigned), false)
            }
        },
        None => {
            if datatype == Some(SvDataType::Class) || datatype == Some(SvDataType::String)
                || datatype == Some(SvDataType::Real) {
                (None, datatype_overridable)
            } else if datatype == Some(SvDataType::Shortint) || datatype == Some(SvDataType::Int)
                || datatype == Some(SvDataType::Longint) || datatype == Some(SvDataType::Byte)
                || datatype == Some(SvDataType::Integer) {
                (Some(SvSignedness::Signed), true)
            } else if datatype == Some(SvDataType::Logic) {
                if !datatype_overridable || !found {
                    (Some(SvSignedness::Unsigned), true)
                } else if spec_resolver_needed(p) {
                    if first_match(p, seq![SvNodeKind::BinaryOperator]) is Some {
                        (spec_signedness_resolver(p, datatype), true)
                    } else {
                        (Some(SvSignedness::Unsupported), true)
                    }
                } else {
                    spec_literal_signedness(p)
                }
            } else if datatype == Some(SvDataType::Unsupported) {
                (Some(SvSignedness::Unsupported), true)
            } else if datatype is None {
                (None, true)
            } else {
                (Some(SvSignedness::Unsigned), true)
            }
        },
    }
}

/// The kinds a literal default's signedness dispatches on.
pub open spec fn literal_sig_kinds() -> Seq<SvNodeKind> {
    seq![
        SvNodeKind::DecimalNumber,
        SvNodeKind::BinaryNumber,
        SvNodeKind::HexNumber,
        SvNodeKind::OctalNumber,
        SvNodeKind::UnbasedUnsizedLiteral,
    ]
}

/// The signedness read off a plain literal default.
pub open spec fn spec_literal_signedness(p: SvNode) -> (Option<SvSignedness>, bool) {
    match first_match(p, literal_sig_kinds()) {
        Some(it) => {
            if it.kind == SvNodeKind::UnbasedUnsizedLiteral {
                (Some(SvSignedness::Unsigned), true)
            } else if it.kind == SvNodeKind::DecimalNumber && first_match(
                it,
                seq![SvNodeKind::DecimalNumberUnsigned],
            ) is Some {
                (Some(SvSignedness::Signed), true)
            } else {
                match first_match(
                    it,
                    seq![
                        SvNodeKind::BinaryBase,
                        SvNodeKind::HexBase,
                        SvNodeKind::OctalBase,
                        SvNodeKind::DecimalBase,
                    ],
                ) {
                    Some(base) => {
                        let tok = text_of(base);
                        if base.kind == SvNodeKind::BinaryBase {
                            if tok == "'sb"@ {
                                (Some(SvSignedness::Signed), true)
                            } else {
                                (Some(SvSignedness::Unsigned), true)
                            }
                        } else if base.kind == SvNodeKind::HexBase {
                            if tok == "'sh"@ {
                                (Some(SvSignedness::Signed), true)
                            } else {
                                (Some(SvSignedness::Unsigned), true)
                            }
                        } else if base.kind == SvNodeKind::OctalBase {
                            if tok == "'so"@ {
                                (Some(SvSignedness::Signed), true)
                            } else {
                                (Some(SvSignedness::Unsigned), true)
                            }
                        } else {
                            if tok == "'sd"@ {
                                (Some(SvSignedness::Signed), true)
                            } else {
                                (Some(SvSignedness::Unsigned), false)
                            }
                        }
                    },
                    None => (Some(SvSignedness::Unsupported), true),
                }
            }
        },
        None => (Some(SvSignedness::Unsupported), true),
    }
}

fn literal_signedness_exec(p: &SvNode) -> (r: (Option<SvSignedness>, bool))
    ensures
        r == spec_literal_signedness(*p),
{
    let mut lk = kv4(
        SvNodeKind::DecimalNumber,
        SvNodeKind::BinaryNumber,
        SvNodeKind::HexNumber,
        SvNodeKind::OctalNumber,
    );
    lk.push(SvNodeKind::UnbasedUnsizedLiteral);
    proof {
        assert(lk@ =~= literal_sig_kinds());
    }
    match find_first(p, &lk) {
        Some(it) => {
            if it.kind == SvNodeKind::UnbasedUnsizedLiteral {
                return (Some(SvSignedness::Unsigned), true);
            }
            if it.kind == SvNodeKind::DecimalNumber {
                let du = kv1(SvNodeKind::DecimalNumberUnsigned);
                if find_first(it, &du).is_some() {
                    return (Some(SvSignedness::Signed), true);
                }
            }
            let bk = kv4(
                SvNodeKind::BinaryBase,
                SvNodeKind::HexBase,
                SvNodeKind::OctalBase,
                SvNodeKind::DecimalBase,
            );
            match find_first(it, &bk) {
                Some(base) => {
                    let mut tok = String::new();
                    crate::tree::collect_text(base, &mut tok);
                    proof {
                        assert(Seq::<char>::empty() + text_of(*base) =~= text_of(*base));
                    }
                    if base.kind == SvNodeKind::BinaryBase {
                        if tok == String::from_str("'sb") {
                            (Some(SvSignedness::Signed), true)
                        } else {
                            (Some(SvSignedness::Unsigned), true)
                        }
                    } else if base.kind == SvNodeKind::HexBase {
                        if tok == String::from_str("'sh") {
                            (Some(SvSignedness::Signed), true)
                        } else {
                            (Some(SvSignedness::Unsigned), true)
                        }
                    } else if base.kind == SvNodeKind::OctalBase {
                        if tok == String::from_str("'so") {
                            (Some(SvSignedness::Signed), true)
                        } else {
                            (Some(SvSignedness::Unsigned), true)
                        }
                    } else {
                        if tok == String::from_str("'sd") {
                            (Some(SvSignedness::Signed), true)
                        } else {
                            (Some(SvSignedness::Unsigned), false)
                        }
                    }
                },
                None => (Some(SvSignedness::Unsupported), true),
            }
        },
        None => (Some(SvSignedness::Unsupported), true),
    }
}

/// Resolves the signedness of a parameter declaration.
pub fn port_parameter_signedness_ansi(
    common: Option<&SvNode>,
    p: &SvNode,
    datatype: &Option<SvDataType>,
    found: bool,
    datatype_overridable: bool,
) -> (r: (Option<SvSignedness>, bool))
    ensures
        r == spec_parameter_signedness(
            match common {
                Some(c) => Some(*c),
                None => None,
            },
            *p,
            *datatype,
            found,
            datatype_overridable,
        ),
{
    let sk = kv2(SvNodeKind::SigningSigned, SvNodeKind::SigningUnsigned);
    let explicit = match common {
        Some(c) => find_first(c, &sk),
        None => None,
    };
    match explicit {
        Some(sg) => {
            if sg.kind == SvNodeKind::SigningSigned {
                (Some(SvSignedness::Signed), false)
            } else {
                (Some(SvSignedness::Unsigned), false)
            }
        },
        None => {
            let dt = *datatype;
            if dt == Some(SvDataType::Class) || dt == Some(SvDataType::String) || dt == Some(
                SvDataType::Real,
            ) {
                (None, datatype_overridable)
            } else if dt == Some(SvDataType::Shortint) || dt == Some(SvDataType::Int) || dt
                == Some(SvDataType::Longint) || dt == Some(SvDataType::Byte) || dt == Some(
                SvDataType::Integer,
            ) {
                (Some(SvSignedness::Signed), true)
            } else if dt == Some(SvDataType::Logic) {
                if !datatype_overridable || !found {
                    (Some(SvSignedness::Unsigned), true)
                } else if resolver_needed(p) {
                    let bo = kv1(SvNodeKind::BinaryOperator);
                    if find_first(p, &bo).is_some() {
                        (parameter_signedness_resolver_ansi(p, datatype), true)
                    } else {
                        (Some(SvSignedness::Unsupported), true)
                    }
                } else {
                    literal_signedness_exec(p)
                }
            } else if dt == Some(SvDataType::Unsupported) {
                (Some(SvSignedness::Unsupported), true)
            } else if dt.is_none() {
                (None, true)
            } else {
                (Some(SvSignedness::Unsigned), true)
            }
        },
    }
}

/// The class identifier of a class-typed parameter.
pub open spec fn spec_parameter_classid(common: Option<SvNode>, datatype: Option<SvDataType>)
    -> Option<Seq<char>> {
    if datatype == Some(SvDataType::Class) {
        match common {
            Some(c) => match first_match(c, seq![SvNodeKind::ClassIdentifier]) {
                Some(cid) => match first_match(
                    cid,
                    seq![SvNodeKind::SimpleIdentifier, SvNodeKind::EscapedIdentifier],
                ) {
                    Some(id) => Some(text_of(id)),
                    None => None,
                },
                None => None,
            },
            None => None,
        }
    } else {
        None
    }
}

/// Resolves the class identifier of a class-typed parameter.
pub fn port_parameter_classid_ansi(common: Option<&SvNode>, datatype: &Option<SvDataType>) -> (r:
    Option<String>)
    ensures
        match spec_parameter_classid(
            match common {
                Some(c) => Some(*c),
                None => None,
            },
            *datatype,
        ) {
            Some(t) => r is Some && r->Some_0@ == t,
            None => r is None,
        },
{
    if *datatype == Some(SvDataType::Class) {
        match common {
            Some(c) => {
                let ck = kv1(SvNodeKind::ClassIdentifier);
                match find_first(c, &ck) {
                    Some(cid) => identifier(cid),
                    None => None,
                }
            },
            None => None,
        }
    } else {
        None
    }
}

/// The textual default expression, when one is attached.
pub open spec fn spec_parameter_value(p: SvNode) -> Option<Seq<char>> {
    match first_match(p, seq![SvNodeKind::ConstantParamExpression]) {
        Some(e) => if text_of(e).len() > 0 {
            Some(text_of(e))
        } else {
            None
        },
        None => None,
    }
}

/// Extracts the textual default expression.
pub fn port_parameter_value_ansi(p: &SvNode) -> (r: Option<String>)
    ensures
        match spec_parameter_value(*p) {
            Some(t) => r is Some && r->Some_0@ == t,
            None => r is None,
        },
{
    let ek = kv1(SvNodeKind::ConstantParamExpression);
    match find_first(p, &ek) {
        Some(e) => get_string(e),
        None => None,
    }
}

/// The parameter's identifier text.
pub open spec fn spec_parameter_identifier(p: SvNode) -> Seq<char> {
    match first_match(p, seq![SvNodeKind::ParameterIdentifier]) {
        Some(pid) => match first_match(
            pid,
            seq![SvNodeKind::SimpleIdentifier, SvNodeKind::EscapedIdentifier],
        ) {
            Some(id) => text_of(id),
            None => Seq::empty(),
        },
        None => Seq::empty(),
    }
}

/// Extracts the parameter's identifier.
pub fn port_parameter_identifier_ansi(p: &SvNode) -> (r: String)
    ensures
        r@ == spec_parameter_identifier(*p),
{
    let pk = kv1(SvNodeKind::ParameterIdentifier);
    match find_first(p, &pk) {
        Some(pid) => match identifier(pid) {
            Some(s) => s,
            None => String::new(),
        },
        None => String::new(),
    }
}

/// Checks the declaration against the rules a parameter must obey.
pub open spec fn spec_parameter_syntax(
    datatype: Option<SvDataType>,
    signedness: Option<SvSignedness>,
    has_packed: bool,
    param_type: SvParamType,
    found: bool,
) -> Option<SvSemanticError> {
    if has_packed && datatype == Some(SvDataType::Integer) {
        Some(SvSemanticError::PackedDimensionsOnInteger)
    } else if has_packed && datatype == Some(SvDataType::Real) {
        Some(SvSemanticError::PackedDimensionsOnReal)
    } else if has_packed && datatype == Some(SvDataType::String) {
        Some(SvSemanticError::PackedDimensionsOnString)
    } else if has_packed && datatype == Some(SvDataType::Time) {
        Some(SvSemanticError::PackedDimensionsOnTime)
    } else if (signedness == Some(SvSignedness::Signed) || signedness == Some(
        SvSignedness::Unsigned,
    )) && datatype == Some(SvDataType::Real) {
        Some(SvSemanticError::SignednessOnReal)
    } else if (signedness == Some(SvSignedness::Signed) || signedness == Some(
        SvSignedness::Unsigned,
    )) && datatype == Some(SvDataType::String) {
        Some(SvSemanticError::SignednessOnString)
    } else if param_type == SvParamType::LocalParam && !found {
        Some(SvSemanticError::LocalParamWithoutDefault)
    } else {
        None
    }
}

/// Validates a resolved parameter declaration.
pub fn port_parameter_syntax_ansi(
    datatype: &Option<SvDataType>,
    signedness: &Option<SvSignedness>,
    has_packed: bool,
    param_type: &SvParamType,
    found: bool,
) -> (r: Option<SvSemanticError>)
    ensures
        r == spec_parameter_syntax(*datatype, *signedness, has_packed, *param_type, found),
{
    if has_packed && *datatype == Some(SvDataType::Integer) {
        Some(SvSemanticError::PackedDimensionsOnInteger)
    } else if has_packed && *datatype == Some(SvDataType::Real) {
        Some(SvSemanticError::PackedDimensionsOnReal)
    } else if has_packed && *datatype == Some(SvDataType::String) {
        Some(SvSemanticError::PackedDimensionsOnString)
    } else if has_packed && *datatype == Some(SvDataType::Time) {
        Some(SvSemanticError::PackedDimensionsOnTime)
    } else if (*signedness == Some(SvSignedness::Signed) || *signedness == Some(
        SvSignedness::Unsigned,
    )) && *datatype == Some(SvDataType::Real) {
        Some(SvSemanticError::SignednessOnReal)
    } else if (*signedness == Some(SvSignedness::Signed) || *signedness == Some(
        SvSignedness::Unsigned,
    )) && *datatype == Some(SvDataType::String) {
        Some(SvSemanticError::SignednessOnString)
    } else if *param_type == SvParamType::LocalParam && !found {
        Some(SvSemanticError::LocalParamWithoutDefault)
    } else {
        None
    }
}


/// The constant-expression children of a node, in order.
pub open spec fn const_exprs(cs: Seq<SvNode>) -> Seq<SvNode>
    decreases cs,
{
    if cs.len() == 0 {
        Seq::empty()
    } else {
        (if cs[0].kind == SvNodeKind::ConstantExpression {
            seq![cs[0]]
        } else {
            Seq::empty()
        }) + const_exprs(cs.drop_first())
    }
}

/// The bound pair a constant range contributes.
pub open spec fn range_pair(cr: SvNode) -> Seq<(Seq<char>, Seq<char>)> {
    let es = const_exprs(cr.children@);
    if es.len() >= 2 {
        seq![(text_of(es[0]), text_of(es[1]))]
    } else {
        Seq::empty()
    }
}

/// All packed dimensions under a subtree, in source order.
pub open spec fn packed_dims_of(n: SvNode) -> Seq<(Seq<char>, Seq<char>)>
    decreases n,
{
    if n.kind == SvNodeKind::PackedDimensionRange {
        match first_match(n, seq![SvNodeKind::ConstantRange]) {
            Some(cr) => range_pair(cr),
            None => Seq::empty(),
        }
    } else {
        packed_dims_forest(n.children@)
    }
}

/// All packed dimensions under a forest.
pub open spec fn packed_dims_forest(cs: Seq<SvNode>) -> Seq<(Seq<char>, Seq<char>)>
    decreases cs,
{
    if cs.len() == 0 {
        Seq::empty()
    } else {
        packed_dims_of(cs[0]) + packed_dims_forest(cs.drop_first())
    }
}

/// All unpacked dimensions under a subtree, in source order.
pub open spec fn unpacked_dims_of(n: SvNode) -> Seq<(Seq<char>, Option<Seq<char>>)>
    decreases n,
{
    if n.kind == SvNodeKind::UnpackedDimensionRange {
        match first_match(n, seq![SvNodeKind::ConstantRange]) {
            Some(cr) => {
                let es = const_exprs(cr.children@);
                if es.len() >= 2 {
                    seq![(text_of(es[0]), Some(text_of(es[1])))]
                } else {
                    Seq::empty()
                }
            },
            None => Seq::empty(),
        }
    } else if n.kind == SvNodeKind::UnpackedDimensionExpression {
        match first_match(n, seq![SvNodeKind::ConstantExpression]) {
            Some(e) => seq![(text_of(e), None)],
            None => Seq::empty(),
        }
    } else {
        unpacked_dims_forest(n.children@)
    }
}

/// All unpacked dimensions under a forest.
pub open spec fn unpacked_dims_forest(cs: Seq<SvNode>) -> Seq<(Seq<char>, Option<Seq<char>>)>
    decreases cs,
{
    if cs.len() == 0 {
        Seq::empty()
    } else {
        unpacked_dims_of(cs[0]) + unpacked_dims_forest(cs.drop_first())
    }
}

/// One more child's constant expressions.
proof fn lemma_const_exprs_take_step(cs: Seq<SvNode>, i: int)
    requires
        0 <= i < cs.len(),
    ensures
        const_exprs(cs.take(i + 1)) =~= const_exprs(cs.take(i)) + (
        if cs[i].kind == SvNodeKind::ConstantExpression {
            seq![cs[i]]
        } else {
            Seq::<SvNode>::empty()
        }),
    decreases i,
{
    if i == 0 {
        assert(cs.take(0) =~= Seq::<SvNode>::empty());
        assert(cs.take(1).drop_first() =~= Seq::<SvNode>::empty());
        assert(cs.take(1)[0] == cs[0]);
    } else {
        lemma_const_exprs_take_step(cs.drop_first(), i - 1);
        assert(cs.take(i + 1).drop_first() =~= cs.drop_first().take(i));
        assert(cs.take(i).drop_first() =~= cs.drop_first().take(i - 1));
        assert(cs.take(i + 1)[0] == cs[0]);
        assert(cs.take(i)[0] == cs[0]);
        assert(cs.drop_first()[i - 1] == cs[i]);
    }
}

/// Reads the two bound texts of a constant range, when both are present.
fn range_pair_exec(cr: &SvNode) -> (r: Option<(String, String)>)
    ensures
        match r {
            Some(p) => range_pair(*cr).len() == 1 && p.0@ == range_pair(*cr)[0].0 && p.1@
                == range_pair(*cr)[0].1,
            None => range_pair(*cr).len() == 0,
        },
{
    let mut left: Option<String> = None;
    let mut right: Option<String> = None;
    let mut i: usize = 0;
    proof {
        assert(cr.children@.take(0) =~= Seq::<SvNode>::empty());
    }
    while i < cr.children.len()
        invariant
            i <= cr.children@.len(),
            ({
                let es = const_exprs(cr.children@.take(i as int));
                &&& (left is Some) == (es.len() >= 1)
                &&& (right is Some) == (es.len() >= 2)
                &&& (left is Some ==> left->Some_0@ == text_of(es[0]))
                &&& (right is Some ==> right->Some_0@ == text_of(es[1]))
            }),
        decreases cr.children@.len() - i,
    {
        let c = &cr.children[i];
        proof {
            lemma_const_exprs_take_step(cr.children@, i as int);
        }
        if c.kind == SvNodeKind::ConstantExpression {
            if left.is_none() {
                let mut t = String::new();
                crate::tree::collect_text(c, &mut t);
                proof {
                    assert(Seq::<char>::empty() + text_of(cr.children@[i as int]) =~= text_of(
                        cr.children@[i as int],
                    ));
                }
                left = Some(t);
            } else if right.is_none() {
                let mut t = String::new();
                crate::tree::collect_text(c, &mut t);
                proof {
                    assert(Seq::<char>::empty() + text_of(cr.children@[i as int]) =~= text_of(
                        cr.children@[i as int],
                    ));
                }
                right = Some(t);
            }
        }
        i += 1;
    }
    proof {
        assert(cr.children@.take(cr.children@.len() as int) =~= cr.children@);
    }
    match (left, right) {
        (Some(l), Some(rr)) => Some((l, rr)),
        _ => None,
    }
}

/// Collects the packed dimensions under a subtree.
pub fn port_packeddim_ansi(n: &SvNode) -> (r: Vec<SvPackedDimension>)
    ensures
        r@.len() == packed_dims_of(*n).len(),
        forall|j: int|
            0 <= j < r@.len() ==> (#[trigger] r@[j]).0@ == packed_dims_of(*n)[j].0 && r@[j].1@
                == packed_dims_of(*n)[j].1,
{
    let mut out: Vec<SvPackedDimension> = Vec::new();
    collect_packed(n, &mut out);
    proof {
        assert forall|j: int| 0 <= j < out@.len() implies (#[trigger] out@[j]).0@
            == packed_dims_of(*n)[j].0 && out@[j].1@ == packed_dims_of(*n)[j].1 by {
            assert(out@[0 + j].0@ == packed_dims_of(*n)[j].0);
            assert(out@[0 + j].1@ == packed_dims_of(*n)[j].1);
        }
    }
    out
}

/// Appends the packed dimensions of a subtree.
fn collect_packed(n: &SvNode, out: &mut Vec<SvPackedDimension>)
    ensures
        final(out)@.len() == old(out)@.len() + packed_dims_of(*n).len(),
        forall|j: int| 0 <= j < old(out)@.len() ==> final(out)@[j] == old(out)@[j],
        forall|j: int|
            0 <= j < packed_dims_of(*n).len() ==> (#[trigger] final(out)@[old(out)@.len() + j]).0@
                == packed_dims_of(*n)[j].0 && final(out)@[old(out)@.len() + j].1@ == packed_dims_of(
                *n,
            )[j].1,
    decreases *n,
{
    if n.kind == SvNodeKind::PackedDimensionRange {
        let ck = kv1(SvNodeKind::ConstantRange);
        match find_first(n, &ck) {
            Some(cr) => {
                match range_pair_exec(cr) {
                    Some(p) => {
                        out.push(p);
                    },
                    None => {},
                }
            },
            None => {},
        }
        return ;
    }
    let mut i: usize = 0;
    proof {
        assert(n.children@.take(0) =~= Seq::<SvNode>::empty());
    }
    while i < n.children.len()
        invariant
            i <= n.children@.len(),
            n.kind != SvNodeKind::PackedDimensionRange,
            out@.len() == old(out)@.len() + packed_dims_forest(n.children@.take(i as int)).len(),
            forall|j: int| 0 <= j < old(out)@.len() ==> out@[j] == old(out)@[j],
            forall|j: int|
                0 <= j < packed_dims_forest(n.children@.take(i as int)).len() ==> (
                #[trigger] out@[old(out)@.len() + j]).0@ == packed_dims_forest(
                    n.children@.take(i as int),
                )[j].0 && out@[old(out)@.len() + j].1@ == packed_dims_forest(
                    n.children@.take(i as int),
                )[j].1,
        decreases n.children@.len() - i,
    {
        let ghost olen = old(out)@.len() as int;
        let ghost plen = packed_dims_forest(n.children@.take(i as int)).len() as int;
        let ghost mid = out@;
        collect_packed(&n.children[i], out);
        proof {
            lemma_packed_take_step(n.children@, i as int);
            let ext = packed_dims_forest(n.children@.take(i as int + 1));
            assert forall|j: int| 0 <= j < ext.len() implies (#[trigger] out@[olen + j]).0@
                == ext[j].0 && out@[olen + j].1@ == ext[j].1 by {
                if j < plen {
                    assert(out@[olen + j] == mid[olen + j]);
                } else {
                    assert(out@[mid.len() as int + (j - plen)].0@ == packed_dims_of(
                        n.children@[i as int],
                    )[j - plen].0);
                    assert(out@[mid.len() as int + (j - plen)].1@ == packed_dims_of(
                        n.children@[i as int],
                    )[j - plen].1);
                    assert(olen + j == mid.len() as int + (j - plen));
                }
            }
        }
        i += 1;
    }
    proof {
        assert(n.children@.take(n.children@.len() as int) =~= n.children@);
    }
}

/// One more subtree's packed dimensions in a prefix concatenation.
proof fn lemma_packed_take_step(cs: Seq<SvNode>, i: int)
    requires
        0 <= i < cs.len(),
    ensures
        packed_dims_forest(cs.take(i + 1)) =~= packed_dims_forest(cs.take(i)) + packed_dims_of(
            cs[i],
        ),
    decreases i,
{
    if i == 0 {
        assert(cs.take(0) =~= Seq::<SvNode>::empty());
        assert(cs.take(1).drop_first() =~= Seq::<SvNode>::empty());
        assert(cs.take(1)[0] == cs[0]);
    } else {
        lemma_packed_take_step(cs.drop_first(), i - 1);
        assert(cs.take(i + 1).drop_first() =~= cs.drop_first().take(i));
        assert(cs.take(i).drop_first() =~= cs.drop_first().take(i - 1));
        assert(cs.take(i + 1)[0] == cs[0]);
        assert(cs.take(i)[0] == cs[0]);
        assert(cs.drop_first()[i - 1] == cs[i]);
    }
}

/// Collects the unpacked dimensions under a subtree.
pub fn port_unpackeddim_ansi(n: &SvNode) -> (r: Vec<SvUnpackedDimension>)
    ensures
        r@.len() == unpacked_dims_of(*n).len(),
        forall|j: int|
            0 <= j < r@.len() ==> (#[trigger] r@[j]).0@ == unpacked_dims_of(*n)[j].0 && (match (
            r@[j].1,
            unpacked_dims_of(*n)[j].1,
        ) {
            (Some(a), Some(b)) => a@ == b,
            (None, None) => true,
            _ => false,
        }),
{
    let mut out: Vec<SvUnpackedDimension> = Vec::new();
    collect_unpacked(n, &mut out);
    proof {
        assert forall|j: int| 0 <= j < out@.len() implies (#[trigger] out@[j]).0@
            == unpacked_dims_of(*n)[j].0 && (match (out@[j].1, unpacked_dims_of(*n)[j].1) {
            (Some(a), Some(b)) => a@ == b,
            (None, None) => true,
            _ => false,
        }) by {
            assert(out@[0 + j].0@ == unpacked_dims_of(*n)[j].0);
            assert(match (out@[0 + j].1, unpacked_dims_of(*n)[j].1) {
                (Some(a), Some(b)) => a@ == b,
                (None, None) => true,
                _ => false,
            });
        }
    }
    out
}

/// Appends the unpacked dimensions of a subtree.
fn collect_unpacked(n: &SvNode, out: &mut Vec<SvUnpackedDimension>)
    ensures
        final(out)@.len() == old(out)@.len() + unpacked_dims_of(*n).len(),
        forall|j: int| 0 <= j < old(out)@.len() ==> final(out)@[j] == old(out)@[j],
        forall|j: int|
            0 <= j < unpacked_dims_of(*n).len() ==> (#[trigger] final(out)@[old(out)@.len()
                + j]).0@ == unpacked_dims_of(*n)[j].0 && (match (
            final(out)@[old(out)@.len() + j].1,
            unpacked_dims_of(*n)[j].1,
        ) {
            (Some(a), Some(b)) => a@ == b,
            (None, None) => true,
            _ => false,
        }),
    decreases *n,
{
    if n.kind == SvNodeKind::UnpackedDimensionRange {
        let ck = kv1(SvNodeKind::ConstantRange);
        match find_first(n, &ck) {
            Some(cr) => {
                match range_pair_exec(cr) {
                    Some(p) => {
                        out.push((p.0, Some(p.1)));
                    },
                    None => {},
                }
            },
            None => {},
        }
        return ;
    }
    if n.kind == SvNodeKind::UnpackedDimensionExpression {
        let ek = kv1(SvNodeKind::ConstantExpression);
        match find_first(n, &ek) {
            Some(e) => {
                let mut t = String::new();
                crate::tree::collect_text(e, &mut t);
                proof {
                    assert(Seq::<char>::empty() + text_of(*e) =~= text_of(*e));
                }
                out.push((t, None));
            },
            None => {},
        }
        return ;
    }
    let mut i: usize = 0;
    proof {
        assert(n.children@.take(0) =~= Seq::<SvNode>::empty());
    }
    while i < n.children.len()
        invariant
            i <= n.children@.len(),
            n.kind != SvNodeKind::UnpackedDimensionRange,
            n.kind != SvNodeKind::UnpackedDimensionExpression,
            out@.len() == old(out)@.len() + unpacked_dims_forest(n.children@.take(i as int)).len(),
            forall|j: int| 0 <= j < old(out)@.len() ==> out@[j] == old(out)@[j],
            forall|j: int|
                0 <= j < unpacked_dims_forest(n.children@.take(i as int)).len() ==> (
                #[trigger] out@[old(out)@.len() + j]).0@ == unpacked_dims_forest(
                    n.children@.take(i as int),
                )[j].0 && (match (
                out@[old(out)@.len() + j].1,
                unpacked_dims_forest(n.children@.take(i as int))[j].1,
            ) {
                (Some(a), Some(b)) => a@ == b,
                (None, None) => true,
                _ => false,
            }),
        decreases n.children@.len() - i,
    {
        let ghost olen = old(out)@.len() as int;
        let ghost plen = unpacked_dims_forest(n.children@.take(i as int)).len() as int;
        let ghost mid = out@;
        collect_unpacked(&n.children[i], out);
        proof {
            lemma_unpacked_take_step(n.children@, i as int);
            let ext = unpacked_dims_forest(n.children@.take(i as int + 1));
            assert forall|j: int| 0 <= j < ext.len() implies (#[trigger] out@[olen + j]).0@
                == ext[j].0 && (match (out@[olen + j].1, ext[j].1) {
                (Some(a), Some(b)) => a@ == b,
                (None, None) => true,
                _ => false,
            }) by {
                if j < plen {
                    assert(out@[olen + j] == mid[olen + j]);
                } else {
                    assert(out@[mid.len() as int + (j - plen)].0@ == unpacked_dims_of(
                        n.children@[i as int],
                    )[j - plen].0);
                    assert(match (
                        out@[mid.len() as int + (j - plen)].1,
                        unpacked_dims_of(n.children@[i as int])[j - plen].1,
                    ) {
                        (Some(a), Some(b)) => a@ == b,
                        (None, None) => true,
                        _ => false,
                    });
                    assert(olen + j == mid.len() as int + (j - plen));
                }
            }
        }
        i += 1;
    }
    proof {
        assert(n.children@.take(n.children@.len() as int) =~= n.children@);
    }
}

/// One more subtree's unpacked dimensions in a prefix concatenation.
proof fn lemma_unpacked_take_step(cs: Seq<SvNode>, i: int)
    requires
        0 <= i < cs.len(),
    ensures
        unpacked_dims_forest(cs.take(i + 1)) =~= unpacked_dims_forest(cs.take(i))
            + unpacked_dims_of(cs[i]),
    decreases i,
{
    if i == 0 {
        assert(cs.take(0) =~= Seq::<SvNode>::empty());
        assert(cs.take(1).drop_first() =~= Seq::<SvNode>::empty());
        assert(cs.take(1)[0] == cs[0]);
    } else {
        lemma_unpacked_take_step(cs.drop_first(), i - 1);
        assert(cs.take(i + 1).drop_first() =~= cs.drop_first().take(i));
        assert(cs.take(i).drop_first() =~= cs.drop_first().take(i - 1));
        assert(cs.take(i + 1)[0] == cs[0]);
        assert(cs.take(i)[0] == cs[0]);
        assert(cs.drop_first()[i - 1] == cs[i]);
    }
}


/// An integer within the host's signed 64-bit range.
pub open spec fn in_i64(z: int) -> bool {
    -0x8000_0000_0000_0000 <= z <= 0x7fff_ffff_ffff_ffff
}

/// The bit contribution of one packed dimension, when both bounds are
/// decimal integer literals in range.
pub open spec fn dim_term(d: (Seq<char>, Seq<char>)) -> Option<nat> {
    if is_sdec(d.0) && in_i64(dec_sval(d.0)) && is_sdec(d.1) && in_i64(dec_sval(d.1)) {
        Some((if dec_sval(d.0) >= dec_sval(d.1) {
            dec_sval(d.0) - dec_sval(d.1) + 1
        } else {
            dec_sval(d.1) - dec_sval(d.0) + 1
        }) as nat)
    } else {
        None
    }
}

/// The product of the dimension contributions; nothing when any bound is not
/// a plain integer.
pub open spec fn dims_product(ds: Seq<(Seq<char>, Seq<char>)>) -> Option<nat>
    decreases ds,
{
    if ds.len() == 0 {
        Some(1)
    } else {
        match (dim_term(ds[0]), dims_product(ds.drop_first())) {
            (Some(a), Some(b)) => Some(a * b),
            _ => None,
        }
    }
}

/// A resolvable product is at least one.
proof fn lemma_dims_product_pos(ds: Seq<(Seq<char>, Seq<char>)>)
    requires
        dims_product(ds) is Some,
    ensures
        dims_product(ds)->Some_0 >= 1,
    decreases ds,
{
    if ds.len() > 0 {
        lemma_dims_product_pos(ds.drop_first());
        let a = dim_term(ds[0])->Some_0;
        let b = dims_product(ds.drop_first())->Some_0;
        vstd::arithmetic::mul::lemma_mul_inequality(1, a as int, b as int);
        vstd::arithmetic::mul::lemma_mul_is_commutative(a as int, b as int);
    }
}

/// The dimension view of a packed dimension list.
pub open spec fn dims_view(v: Seq<SvPackedDimension>) -> Seq<(Seq<char>, Seq<char>)> {
    v.map(|i: int, d: SvPackedDimension| (d.0@, d.1@))
}

/// Computes the product of the dimension contributions from index `i` on:
/// the sentinel trigger (an unreadable bound or an overflowing product)
/// comes back as nothing.
fn dims_product_from(ds: &Vec<SvPackedDimension>, i: usize) -> (r: Option<u64>)
    requires
        i <= ds@.len(),
    ensures
        ({
            let sp = dims_product(dims_view(ds@).skip(i as int));
            match sp {
                None => r is None,
                Some(v) => if v <= u64::MAX {
                    r == Some(v as u64)
                } else {
                    r is None
                },
            }
        }),
    decreases ds@.len() - i,
{
    if i == ds.len() {
        proof {
            assert(dims_view(ds@).skip(i as int) =~= Seq::<(Seq<char>, Seq<char>)>::empty());
        }
        return Some(1);
    }
    proof {
        assert(dims_view(ds@).skip(i as int)[0] == (ds@[i as int].0@, ds@[i as int].1@));
        assert(dims_view(ds@).skip(i as int).drop_first() =~= dims_view(ds@).skip(i as int + 1));
    }
    let l = crate::text_num::parse_dec_i64(ds[i].0.as_str());
    let rr = crate::text_num::parse_dec_i64(ds[i].1.as_str());
    match (l, rr) {
        (Some((ln, lm)), Some((rn, rm))) => {
            let li: i128 = if ln {
                -(lm as i128)
            } else {
                lm as i128
            };
            let ri: i128 = if rn {
                -(rm as i128)
            } else {
                rm as i128
            };
            let diff: i128 = if li >= ri {
                li - ri
            } else {
                ri - li
            };
            let term: u128 = (diff as u128) + 1;
            match dims_product_from(ds, i + 1) {
                Some(rest) => {
                    proof {
                        assert(term * (rest as u128) < 0x1_0000_0000_0000_0000_0000_0000_0000_0000)
                            by (nonlinear_arith)
                            requires
                                term <= 0x1_0000_0000_0000_0000u128,
                                rest <= 0xffff_ffff_ffff_ffffu64,
                        ;
                    }
                    let prod: u128 = term * (rest as u128);
                    proof {
                        let sp = dims_product(dims_view(ds@).skip(i as int));
                        if sp is Some {
                            lemma_dims_product_pos(dims_view(ds@).skip(i as int + 1));
                            vstd::arithmetic::mul::lemma_mul_inequality(
                                1,
                                dims_product(dims_view(ds@).skip(i as int + 1))->Some_0 as int,
                                term as int,
                            );
                            vstd::arithmetic::mul::lemma_mul_is_commutative(
                                term as int,
                                dims_product(dims_view(ds@).skip(i as int + 1))->Some_0 as int,
                            );
                        }
                    }
                    if prod > 0xffff_ffff_ffff_ffff {
                        None
                    } else {
                        Some(prod as u64)
                    }
                },
                None => {
                    proof {
                        let rest_sp = dims_product(dims_view(ds@).skip(i as int + 1));
                        if rest_sp is Some {
                            vstd::arithmetic::mul::lemma_mul_inequality(
                                1,
                                term as int,
                                rest_sp->Some_0 as int,
                            );
                            vstd::arithmetic::mul::lemma_mul_is_commutative(
                                rest_sp->Some_0 as int,
                                term as int,
                            );
                            vstd::arithmetic::mul::lemma_mul_is_commutative(
                                term as int,
                                rest_sp->Some_0 as int,
                            );
                        }
                    }
                    None
                },
            }
        },
        _ => None,
    }
}

/// The computed bit width of a parameter declaration, with the reserved
/// sentinel for anything unresolvable.
pub open spec fn spec_parameter_bits(
    dims: Seq<(Seq<char>, Seq<char>)>,
    p: SvNode,
    datatype: Option<SvDataType>,
    datatype_overridable: bool,
    found: bool,
    expression: Option<Seq<char>>,
) -> Option<u64> {
    if dims.len() > 0 {
        match dims_product(dims) {
            Some(v) => if v <= u64::MAX {
                Some(v as u64)
            } else {
                Some(404)
            },
            None => Some(404),
        }
    } else {
        match datatype {
            Some(SvDataType::Class) => None,
            Some(SvDataType::Bit) => Some(1),
            Some(SvDataType::Byte) => Some(8),
            Some(SvDataType::Integer) => Some(32),
            Some(SvDataType::Int) => Some(32),
            Some(SvDataType::Shortreal) => Some(32),
            Some(SvDataType::Shortint) => Some(16),
            Some(SvDataType::Longint) => Some(64),
            Some(SvDataType::Time) => Some(64),
            Some(SvDataType::Real) => Some(64),
            Some(SvDataType::Realtime) => Some(64),
            Some(SvDataType::String) => {
                if spec_resolver_needed(p) {
                    Some(404)
                } else if !found {
                    None
                } else {
                    match expression {
                        Some(e) => if 2 <= e.len() && (e.len() - 2) * 8 <= u64::MAX {
                            Some((((e.len() - 2) * 8) as u64))
                        } else {
                            Some(404)
                        },
                        None => Some(404),
                    }
                }
            },
            Some(SvDataType::Reg) | Some(SvDataType::Logic) => {
                if spec_resolver_needed(p) {
                    Some(404)
                } else if !datatype_overridable {
                    Some(1)
                } else if !found {
                    None
                } else {
                    match first_match(p, seq![SvNodeKind::Size, SvNodeKind::UnbasedUnsizedLiteral]) {
                        Some(m) => if m.kind == SvNodeKind::Size {
                            if crate::text_num::is_udec(text_of(m)) && crate::text_num::dec_uval(
                                text_of(m),
                            ) <= u64::MAX {
                                Some(crate::text_num::dec_uval(text_of(m)) as u64)
                            } else {
                                Some(404)
                            }
                        } else {
                            Some(1)
                        },
                        None => Some(32),
                    }
                }
            },
            Some(SvDataType::Unsupported) => Some(404),
            None => None,
            _ => Some(404),
        }
    }
}

/// Computes the bit width of a parameter declaration.
pub fn port_parameter_bits_ansi(
    packed_dimensions: &Vec<SvPackedDimension>,
    p: &SvNode,
    datatype: &Option<SvDataType>,
    datatype_overridable: bool,
    found: bool,
    expression: &Option<String>,
) -> (r: Option<u64>)
    ensures
        r == spec_parameter_bits(
            dims_view(packed_dimensions@),
            *p,
            *datatype,
            datatype_overridable,
            found,
            match expression {
                Some(e) => Some(e@),
                None => None,
            },
        ),
{
    if packed_dimensions.len() > 0 {
        proof {
            assert(dims_view(packed_dimensions@).skip(0) =~= dims_view(packed_dimensions@));
        }
        match dims_product_from(packed_dimensions, 0) {
            Some(v) => Some(v),
            None => Some(404),
        }
    } else {
        proof {
            assert(dims_view(packed_dimensions@).len() == 0);
        }
        match datatype {
            Some(SvDataType::Class) => None,
            Some(SvDataType::Bit) => Some(1),
            Some(SvDataType::Byte) => Some(8),
            Some(SvDataType::Integer) => Some(32),
            Some(SvDataType::Int) => Some(32),
            Some(SvDataType::Shortreal) => Some(32),
            Some(SvDataType::Shortint) => Some(16),
            Some(SvDataType::Longint) => Some(64),
            Some(SvDataType::Time) => Some(64),
            Some(SvDataType::Real) => Some(64),
            Some(SvDataType::Realtime) => Some(64),
            Some(SvDataType::String) => {
                if resolver_needed(p) {
                    Some(404)
                } else if !found {
                    None
                } else {
                    match expression {
                        Some(e) => {
                            let el = e.as_str().unicode_len();
                            if 2 <= el && (el - 2) as u64 <= u64::MAX / 8 {
                                Some(((el - 2) as u64) * 8)
                            } else {
                                Some(404)
                            }
                        },
                        None => Some(404),
                    }
                }
            },
            Some(SvDataType::Reg) | Some(SvDataType::Logic) => {
                if resolver_needed(p) {
                    Some(404)
                } else if !datatype_overridable {
                    Some(1)
                } else if !found {
                    None
                } else {
                    let sk = kv2(SvNodeKind::Size, SvNodeKind::UnbasedUnsizedLiteral);
                    match find_first(p, &sk) {
                        Some(m) => {
                            if m.kind == SvNodeKind::Size {
                                let mut t = String::new();
                                crate::tree::collect_text(m, &mut t);
                                proof {
                                    assert(Seq::<char>::empty() + text_of(*m) =~= text_of(*m));
                                }
                                match crate::text_num::parse_dec_u64(t.as_str()) {
                                    Some(v) => Some(v),
                                    None => Some(404),
                                }
                            } else {
                                Some(1)
                            }
                        },
                        None => Some(32),
                    }
                }
            },
            Some(SvDataType::Unsupported) => Some(404),
            None => None,
            _ => Some(404),
        }
    }
}


/// Builds a parameter record from its assignment node and the shared
/// declaration prefix, or reports the rule its declaration breaks.
pub fn port_parameter_declaration_ansi(
    p: &SvNode,
    common: Option<&SvNode>,
    param_type: &SvParamType,
) -> (r: Result<SvParameter, SvSemanticError>)
    ensures
        ({
            let commons = match common {
                Some(c) => Some(*c),
                None => None,
            };
            let found = spec_found_assignment(*p);
            let dt = spec_parameter_datatype(commons, *p, *param_type);
            let sg = spec_parameter_signedness(commons, *p, dt.0, found, dt.1);
            let dims = match commons {
                Some(c) => packed_dims_of(c),
                None => Seq::empty(),
            };
            let is_param = *param_type == SvParamType::Parameter;
            match spec_parameter_syntax(dt.0, sg.0, dims.len() > 0, *param_type, found) {
                Some(err) => r == Err::<SvParameter, SvSemanticError>(err),
                None => r is Ok && ({
                    let q = r->Ok_0;
                    &&& q.identifier@ == spec_parameter_identifier(*p)
                    &&& q.paramtype == *param_type
                    &&& q.datatype == dt.0
                    &&& q.datatype_overridable == (dt.1 && is_param)
                    &&& q.signedness == sg.0
                    &&& q.signedness_overridable == (sg.1 && is_param)
                    &&& (match spec_parameter_classid(commons, dt.0) {
                        Some(t) => q.classid is Some && q.classid->Some_0@ == t,
                        None => q.classid is None,
                    })
                    &&& (match spec_parameter_value(*p) {
                        Some(t) => q.expression is Some && q.expression->Some_0@ == t,
                        None => q.expression is None,
                    })
                    &&& q.num_bits == spec_parameter_bits(
                        dims,
                        *p,
                        dt.0,
                        dt.1,
                        found,
                        spec_parameter_value(*p),
                    )
                    &&& q.packed_dimensions@.len() == dims.len()
                    &&& (forall|j: int|
                        0 <= j < dims.len() ==> (#[trigger] q.packed_dimensions@[j]).0@
                            == dims[j].0 && q.packed_dimensions@[j].1@ == dims[j].1)
                    &&& q.unpacked_dimensions@.len() == unpacked_dims_of(*p).len()
                    &&& (forall|j: int|
                        0 <= j < unpacked_dims_of(*p).len() ==> (
                        #[trigger] q.unpacked_dimensions@[j]).0@ == unpacked_dims_of(*p)[j].0
                            && (match (
                            q.unpacked_dimensions@[j].1,
                            unpacked_dims_of(*p)[j].1,
                        ) {
                            (Some(a), Some(b)) => a@ == b,
                            (None, None) => true,
                            _ => false,
                        }))
                    &&& (match q.comment {
                        Some(v) => comments_of(*p).len() > 0 && v@.len() == comments_of(*p).len()
                            && (forall|j: int|
                            0 <= j < v@.len() ==> (#[trigger] v@[j])@ == comments_of(*p)[j]),
                        None => comments_of(*p).len() == 0,
                    })
                }),
            }
        }),
{
    let found = found_assignment(p);
    let (param_datatype, dt_over) = port_parameter_datatype_ansi(common, p, param_type);
    let (param_signedness, sg_over) = port_parameter_signedness_ansi(
        common,
        p,
        &param_datatype,
        found,
        dt_over,
    );
    let param_packeddim: Vec<SvPackedDimension> = match common {
        Some(c) => port_packeddim_ansi(c),
        None => Vec::new(),
    };
    let is_param = *param_type == SvParamType::Parameter;
    match port_parameter_syntax_ansi(
        &param_datatype,
        &param_signedness,
        param_packeddim.len() > 0,
        param_type,
        found,
    ) {
        Some(err) => Err(err),
        None => {
            let expression = port_parameter_value_ansi(p);
            let num_bits = port_parameter_bits_ansi(
                &param_packeddim,
                p,
                &param_datatype,
                dt_over,
                found,
                &expression,
            );
            proof {
                match common {
                    Some(c) => {
                        assert(dims_view(param_packeddim@) =~= packed_dims_of(*c)) by {
                            assert(forall|j: int|
                                0 <= j < param_packeddim@.len() ==> dims_view(param_packeddim@)[j]
                                    == ((#[trigger] param_packeddim@[j]).0@,
                                param_packeddim@[j].1@));
                        }
                    },
                    None => {
                        assert(dims_view(param_packeddim@) =~= Seq::<(Seq<char>, Seq<
                            char,
                        >)>::empty());
                    },
                }
            }
            Ok(
                SvParameter {
                    identifier: port_parameter_identifier_ansi(p),
                    expression,
                    paramtype: *param_type,
                    datatype: param_datatype,
                    datatype_overridable: dt_over && is_param,
                    classid: port_parameter_classid_ansi(common, &param_datatype),
                    signedness: param_signedness,
                    signedness_overridable: sg_over && is_param,
                    num_bits,
                    packed_dimensions: param_packeddim,
                    unpacked_dimensions: port_unpackeddim_ansi(p),
                    comment: get_comment(p),
                },
            )
        },
    }
}

/// The explicit port direction kinds.
pub open spec fn direction_kinds() -> Seq<SvNodeKind> {
    seq![
        SvNodeKind::PortDirectionInout,
        SvNodeKind::PortDirectionInput,
        SvNodeKind::PortDirectionOutput,
        SvNodeKind::PortDirectionRef,
    ]
}

/// The direction of a port declaration, with inheritance from the previous
/// port and the inout default.
pub open spec fn spec_port_direction(n: SvNode, prev: Option<SvPortDirection>)
    -> SvPortDirection {
    match first_match(n, direction_kinds()) {
        Some(d) => {
            if d.kind == SvNodeKind::PortDirectionInout {
                SvPortDirection::Inout
            } else if d.kind == SvNodeKind::PortDirectionInput {
                SvPortDirection::Input
            } else if d.kind == SvNodeKind::PortDirectionOutput {
                SvPortDirection::Output
            } else {
                SvPortDirection::Ref
            }
        },
        None => match prev {
            Some(d) => d,
            None => SvPortDirection::Inout,
        },
    }
}

/// Resolves the direction of a port declaration.
pub fn port_direction_ansi(n: &SvNode, prev: Option<SvPortDirection>) -> (r: SvPortDirection)
    ensures
        r == spec_port_direction(*n, prev),
{
    let dk = kv4(
        SvNodeKind::PortDirectionInout,
        SvNodeKind::PortDirectionInput,
        SvNodeKind::PortDirectionOutput,
        SvNodeKind::PortDirectionRef,
    );
    match find_first(n, &dk) {
        Some(d) => {
            if d.kind == SvNodeKind::PortDirectionInout {
                SvPortDirection::Inout
            } else if d.kind == SvNodeKind::PortDirectionInput {
                SvPortDirection::Input
            } else if d.kind == SvNodeKind::PortDirectionOutput {
                SvPortDirection::Output
            } else {
                SvPortDirection::Ref
            }
        },
        None => match prev {
            Some(d) => d,
            None => SvPortDirection::Inout,
        },
    }
}

/// The explicit net type kinds.
pub open spec fn nettype_kinds() -> Seq<SvNodeKind> {
    seq![
        SvNodeKind::NetTypeSupply0,
        SvNodeKind::NetTypeSupply1,
        SvNodeKind::NetTypeTriand,
        SvNodeKind::NetTypeTrior,
        SvNodeKind::NetTypeTrireg,
        SvNodeKind::NetTypeTri0,
        SvNodeKind::NetTypeTri1,
        SvNodeKind::NetTypeTri,
        SvNodeKind::NetTypeUwire,
        SvNodeKind::NetTypeWire,
        SvNodeKind::NetTypeWand,
        SvNodeKind::NetTypeWor,
    ]
}

fn nettype_kinds_vec() -> (r: Vec<SvNodeKind>)
    ensures
        r@ =~= nettype_kinds(),
{
    let mut v: Vec<SvNodeKind> = Vec::new();
    v.push(SvNodeKind::NetTypeSupply0);
    v.push(SvNodeKind::NetTypeSupply1);
    v.push(SvNodeKind::NetTypeTriand);
    v.push(SvNodeKind::NetTypeTrior);
    v.push(SvNodeKind::NetTypeTrireg);
    v.push(SvNodeKind::NetTypeTri0);
    v.push(SvNodeKind::NetTypeTri1);
    v.push(SvNodeKind::NetTypeTri);
    v.push(SvNodeKind::NetTypeUwire);
    v.push(SvNodeKind::NetTypeWire);
    v.push(SvNodeKind::NetTypeWand);
    v.push(SvNodeKind::NetTypeWor);
    v
}

/// The semantic tag a net-type node maps to.
pub open spec fn kind_to_nettype(k: SvNodeKind) -> SvNetType {
    match k {
        SvNodeKind::NetTypeSupply0 => SvNetType::Supply0,
        SvNodeKind::NetTypeSupply1 => SvNetType::Supply1,
        SvNodeKind::NetTypeTriand => SvNetType::Triand,
        SvNodeKind::NetTypeTrior => SvNetType::Trior,
        SvNodeKind::NetTypeTrireg => SvNetType::Trireg,
        SvNodeKind::NetTypeTri0 => SvNetType::Tri0,
        SvNodeKind::NetTypeTri1 => SvNetType::Tri1,
        SvNodeKind::NetTypeTri => SvNetType::Tri,
        SvNodeKind::NetTypeUwire => SvNetType::Uwire,
        SvNodeKind::NetTypeWire => SvNetType::Wire,
        SvNodeKind::NetTypeWand => SvNetType::Wand,
        SvNodeKind::NetTypeWor => SvNetType::Wor,
        _ => SvNetType::IMPLICIT,
    }
}

fn map_nettype_kind(k: SvNodeKind) -> (r: SvNetType)
    ensures
        r == kind_to_nettype(k),
{
    match k {
        SvNodeKind::NetTypeSupply0 => SvNetType::Supply0,
        SvNodeKind::NetTypeSupply1 => SvNetType::Supply1,
        SvNodeKind::NetTypeTriand => SvNetType::Triand,
        SvNodeKind::NetTypeTrior => SvNetType::Trior,
        SvNodeKind::NetTypeTrireg => SvNetType::Trireg,
        SvNodeKind::NetTypeTri0 => SvNetType::Tri0,
        SvNodeKind::NetTypeTri1 => SvNetType::Tri1,
        SvNodeKind::NetTypeTri => SvNetType::Tri,
        SvNodeKind::NetTypeUwire => SvNetType::Uwire,
        SvNodeKind::NetTypeWire => SvNetType::Wire,
        SvNodeKind::NetTypeWand => SvNetType::Wand,
        SvNodeKind::NetTypeWor => SvNetType::Wor,
        _ => SvNetType::IMPLICIT,
    }
}

/// The declaration marks that make a variable-form port a variable.
pub open spec fn variable_marks() -> Seq<SvNodeKind> {
    seq![
        SvNodeKind::PortDirectionInout,
        SvNodeKind::PortDirectionInput,
        SvNodeKind::PortDirectionOutput,
        SvNodeKind::PortDirectionRef,
        SvNodeKind::DataType,
        SvNodeKind::SigningSigned,
        SvNodeKind::SigningUnsigned,
        SvNodeKind::PackedDimension,
    ]
}

fn variable_marks_vec() -> (r: Vec<SvNodeKind>)
    ensures
        r@ =~= variable_marks(),
{
    let mut v: Vec<SvNodeKind> = Vec::new();
    v.push(SvNodeKind::PortDirectionInout);
    v.push(SvNodeKind::PortDirectionInput);
    v.push(SvNodeKind::PortDirectionOutput);
    v.push(SvNodeKind::PortDirectionRef);
    v.push(SvNodeKind::DataType);
    v.push(SvNodeKind::SigningSigned);
    v.push(SvNodeKind::SigningUnsigned);
    v.push(SvNodeKind::PackedDimension);
    v
}

/// The net type of a port declaration, with the defaults per direction.
pub open spec fn spec_port_nettype(n: SvNode, direction: SvPortDirection) -> Option<SvNetType> {
    match first_match(
        n,
        seq![SvNodeKind::AnsiPortDeclarationVariable, SvNodeKind::AnsiPortDeclarationNet],
    ) {
        Some(form) => {
            if form.kind == SvNodeKind::AnsiPortDeclarationVariable {
                if first_match(n, variable_marks()) is Some {
                    None
                } else {
                    Some(SvNetType::Wire)
                }
            } else {
                match first_match(form, nettype_kinds()) {
                    Some(nt) => Some(kind_to_nettype(nt.kind)),
                    None => {
                        if direction == SvPortDirection::Inout || direction
                            == SvPortDirection::Input {
                            Some(SvNetType::Wire)
                        } else if direction == SvPortDirection::Output {
                            if first_match(n, seq![SvNodeKind::DataType]) is Some {
                                None
                            } else {
                                Some(SvNetType::Wire)
                            }
                        } else {
                            None
                        }
                    },
                }
            }
        },
        None => None,
    }
}

/// Resolves the net type of a port declaration.
pub fn port_nettype_ansi(n: &SvNode, direction: &SvPortDirection) -> (r: Option<SvNetType>)
    ensures
        r == spec_port_nettype(*n, *direction),
{
    let fk = kv2(SvNodeKind::AnsiPortDeclarationVariable, SvNodeKind::AnsiPortDeclarationNet);
    match find_first(n, &fk) {
        Some(form) => {
            if form.kind == SvNodeKind::AnsiPortDeclarationVariable {
                let vm = variable_marks_vec();
                if find_first(n, &vm).is_some() {
                    None
                } else {
                    Some(SvNetType::Wire)
                }
            } else {
                let nk = nettype_kinds_vec();
                match find_first(form, &nk) {
                    Some(nt) => Some(map_nettype_kind(nt.kind)),
                    None => {
                        if *direction == SvPortDirection::Inout || *direction
                            == SvPortDirection::Input {
                            Some(SvNetType::Wire)
                        } else if *direction == SvPortDirection::Output {
                            let dtk = kv1(SvNodeKind::DataType);
                            if find_first(n, &dtk).is_some() {
                                None
                            } else {
                                Some(SvNetType::Wire)
                            }
                        } else {
                            None
                        }
                    },
                }
            }
        },
        None => None,
    }
}

/// The data kind a net type implies.
pub open spec fn spec_port_datakind(nettype: Option<SvNetType>) -> SvDataKind {
    match nettype {
        None => SvDataKind::Variable,
        Some(_) => SvDataKind::Net,
    }
}

/// Resolves the data kind of a port declaration.
pub fn port_datakind_ansi(nettype: &Option<SvNetType>) -> (r: SvDataKind)
    ensures
        r == spec_port_datakind(*nettype),
{
    match nettype {
        None => SvDataKind::Variable,
        Some(_) => SvDataKind::Net,
    }
}

/// The data type of a port declaration, defaulting to `Logic`.
pub open spec fn spec_port_datatype(n: SvNode) -> SvDataType {
    match first_match(n, datatype_kinds()) {
        Some(t) => kind_to_datatype(t.kind),
        None => {
            match first_match(n, seq![SvNodeKind::DataType]) {
                Some(dt) => match first_match(dt, seq![SvNodeKind::Keyword]) {
                    Some(kw) => if text_of(kw) == "string"@ {
                        SvDataType::String
                    } else {
                        SvDataType::Logic
                    },
                    None => SvDataType::Logic,
                },
                None => SvDataType::Logic,
            }
        },
    }
}

/// Resolves the data type of a port declaration.
pub fn port_datatype_ansi(n: &SvNode) -> (r: SvDataType)
    ensures
        r == spec_port_datatype(*n),
{
    let dks = datatype_kinds_vec();
    match find_first(n, &dks) {
        Some(t) => map_datatype_kind(t.kind),
        None => {
            let dtk = kv1(SvNodeKind::DataType);
            match find_first(n, &dtk) {
                Some(dt) => {
                    let kwk = kv1(SvNodeKind::Keyword);
                    match find_first(dt, &kwk) {
                        Some(kw) => {
                            let mut text = String::new();
                            crate::tree::collect_text(kw, &mut text);
                            proof {
                                assert(Seq::<char>::empty() + text_of(*kw) =~= text_of(*kw));
                            }
                            if text == String::from_str("string") {
                                SvDataType::String
                            } else {
                                SvDataType::Logic
                            }
                        },
                        None => SvDataType::Logic,
                    }
                },
                None => SvDataType::Logic,
            }
        },
    }
}

/// The signedness of a port, by explicit signing or the type's default.
pub open spec fn spec_port_signedness(n: SvNode, datatype: SvDataType) -> Option<SvSignedness> {
    if datatype == SvDataType::Class || datatype == SvDataType::String || datatype
        == SvDataType::Real || datatype == SvDataType::Time {
        None
    } else {
        match first_match(n, seq![SvNodeKind::SigningSigned, SvNodeKind::SigningUnsigned]) {
            Some(sg) => if sg.kind == SvNodeKind::SigningSigned {
                Some(SvSignedness::Signed)
            } else {
                Some(SvSignedness::Unsigned)
            },
            None => {
                if datatype == SvDataType::Shortint || datatype == SvDataType::Int || datatype
                    == SvDataType::Longint || datatype == SvDataType::Byte || datatype
                    == SvDataType::Integer {
                    Some(SvSignedness::Signed)
                } else {
                    Some(SvSignedness::Unsigned)
                }
            },
        }
    }
}

/// Resolves the signedness of a port declaration.
pub fn port_signedness_ansi(n: &SvNode, datatype: &SvDataType) -> (r: Option<SvSignedness>)
    ensures
        r == spec_port_signedness(*n, *datatype),
{
    let dt = *datatype;
    if dt == SvDataType::Class || dt == SvDataType::String || dt == SvDataType::Real || dt
        == SvDataType::Time {
        None
    } else {
        let sk = kv2(SvNodeKind::SigningSigned, SvNodeKind::SigningUnsigned);
        match find_first(n, &sk) {
            Some(sg) => if sg.kind == SvNodeKind::SigningSigned {
                Some(SvSignedness::Signed)
            } else {
                Some(SvSignedness::Unsigned)
            },
            None => {
                if dt == SvDataType::Shortint || dt == SvDataType::Int || dt
                    == SvDataType::Longint || dt == SvDataType::Byte || dt
                    == SvDataType::Integer {
                    Some(SvSignedness::Signed)
                } else {
                    Some(SvSignedness::Unsigned)
                }
            },
        }
    }
}

/// The class identifier of a class-typed port.
pub open spec fn spec_port_classid(n: SvNode, datatype: SvDataType) -> Option<Seq<char>> {
    if datatype == SvDataType::Class {
        match first_match(n, seq![SvNodeKind::ClassIdentifier]) {
            Some(cid) => match first_match(
                cid,
                seq![SvNodeKind::SimpleIdentifier, SvNodeKind::EscapedIdentifier],
            ) {
                Some(id) => Some(text_of(id)),
                None => None,
            },
            None => None,
        }
    } else {
        None
    }
}

/// Resolves the class identifier of a class-typed port.
pub fn port_classid_ansi(n: &SvNode, datatype: &SvDataType) -> (r: Option<String>)
    ensures
        match spec_port_classid(*n, *datatype) {
            Some(t) => r is Some && r->Some_0@ == t,
            None => r is None,
        },
{
    if *datatype == SvDataType::Class {
        let ck = kv1(SvNodeKind::ClassIdentifier);
        match find_first(n, &ck) {
            Some(cid) => identifier(cid),
            None => None,
        }
    } else {
        None
    }
}

/// The declaration marks whose absence makes a port inherit everything from
/// its predecessor.
pub open spec fn inherit_marks() -> Seq<SvNodeKind> {
    seq![
        SvNodeKind::DataType,
        SvNodeKind::SigningSigned,
        SvNodeKind::SigningUnsigned,
        SvNodeKind::NetTypeSupply0,
        SvNodeKind::NetTypeSupply1,
        SvNodeKind::NetTypeTriand,
        SvNodeKind::NetTypeTrior,
        SvNodeKind::NetTypeTrireg,
        SvNodeKind::NetTypeTri0,
        SvNodeKind::NetTypeTri1,
        SvNodeKind::NetTypeTri,
        SvNodeKind::NetTypeUwire,
        SvNodeKind::NetTypeWire,
        SvNodeKind::NetTypeWand,
        SvNodeKind::NetTypeWor,
        SvNodeKind::VarDataType,
        SvNodeKind::PortDirectionInout,
        SvNodeKind::PortDirectionInput,
        SvNodeKind::PortDirectionOutput,
        SvNodeKind::PortDirectionRef,
        SvNodeKind::PackedDimension,
    ]
}

fn inherit_marks_vec() -> (r: Vec<SvNodeKind>)
    ensures
        r@ =~= inherit_marks(),
{
    let mut v: Vec<SvNodeKind> = Vec::new();
    v.push(SvNodeKind::DataType);
    v.push(SvNodeKind::SigningSigned);
    v.push(SvNodeKind::SigningUnsigned);
    v.push(SvNodeKind::NetTypeSupply0);
    v.push(SvNodeKind::NetTypeSupply1);
    v.push(SvNodeKind::NetTypeTriand);
    v.push(SvNodeKind::NetTypeTrior);
    v.push(SvNodeKind::NetTypeTrireg);
    v.push(SvNodeKind::NetTypeTri0);
    v.push(SvNodeKind::NetTypeTri1);
    v.push(SvNodeKind::NetTypeTri);
    v.push(SvNodeKind::NetTypeUwire);
    v.push(SvNodeKind::NetTypeWire);
    v.push(SvNodeKind::NetTypeWand);
    v.push(SvNodeKind::NetTypeWor);
    v.push(SvNodeKind::VarDataType);
    v.push(SvNodeKind::PortDirectionInout);
    v.push(SvNodeKind::PortDirectionInput);
    v.push(SvNodeKind::PortDirectionOutput);
    v.push(SvNodeKind::PortDirectionRef);
    v.push(SvNodeKind::PackedDimension);
    v
}

/// Whether the port inherits from its predecessor: there is one, and the
/// declaration names none of the distinguishing marks.
pub open spec fn spec_port_inherit(n: SvNode, has_prev: bool) -> bool {
    has_prev && first_match(n, inherit_marks()) is None
}

/// Decides inheritance from the previous port.
pub fn port_check_inheritance_ansi(n: &SvNode, has_prev: bool) -> (r: bool)
    ensures
        r == spec_port_inherit(*n, has_prev),
{
    if !has_prev {
        return false;
    }
    let im = inherit_marks_vec();
    find_first(n, &im).is_none()
}

/// The port's identifier text.
pub open spec fn spec_port_identifier(n: SvNode) -> Seq<char> {
    match first_match(n, seq![SvNodeKind::PortIdentifier]) {
        Some(pid) => match first_match(
            pid,
            seq![SvNodeKind::SimpleIdentifier, SvNodeKind::EscapedIdentifier],
        ) {
            Some(id) => text_of(id),
            None => Seq::empty(),
        },
        None => Seq::empty(),
    }
}

/// Extracts the port's identifier.
pub fn port_identifier(n: &SvNode) -> (r: String)
    ensures
        r@ == spec_port_identifier(*n),
{
    let pk = kv1(SvNodeKind::PortIdentifier);
    match find_first(n, &pk) {
        Some(pid) => match identifier(pid) {
            Some(s) => s,
            None => String::new(),
        },
        None => String::new(),
    }
}

/// A copy of an optional string.
fn clone_opt_string(x: &Option<String>) -> (r: Option<String>)
    ensures
        (r is Some) == (x is Some),
        r is Some ==> r->Some_0@ == x->Some_0@,
{
    match x {
        Some(s) => Some(s.clone()),
        None => None,
    }
}

/// A copy of a packed dimension list.
fn clone_dims(x: &Vec<SvPackedDimension>) -> (r: Vec<SvPackedDimension>)
    ensures
        r@.len() == x@.len(),
        forall|j: int|
            0 <= j < x@.len() ==> (#[trigger] r@[j]).0@ == x@[j].0@ && r@[j].1@ == x@[j].1@,
{
    let mut out: Vec<SvPackedDimension> = Vec::new();
    let mut i: usize = 0;
    while i < x.len()
        invariant
            i <= x@.len(),
            out@.len() == i,
            forall|j: int|
                0 <= j < i ==> (#[trigger] out@[j]).0@ == x@[j].0@ && out@[j].1@ == x@[j].1@,
        decreases x@.len() - i,
    {
        out.push((x[i].0.clone(), x[i].1.clone()));
        i += 1;
    }
    out
}

/// Builds a port record from its declaration node, inheriting from the
/// previous port when the declaration carries no distinguishing marks.
pub fn port_declaration_ansi(p: &SvNode, prev_port: &Option<SvPort>) -> (r: SvPort)
    ensures
        port_rec_matches(r, *p, *prev_port),
{
    let inherit = port_check_inheritance_ansi(p, prev_port.is_some());
    if !inherit {
        let prev_dir: Option<SvPortDirection> = match prev_port {
            Some(q) => Some(q.direction),
            None => None,
        };
        let direction = port_direction_ansi(p, prev_dir);
        let nettype = port_nettype_ansi(p, &direction);
        let datakind = port_datakind_ansi(&nettype);
        let datatype = port_datatype_ansi(p);
        let classid = port_classid_ansi(p, &datatype);
        let signedness = port_signedness_ansi(p, &datatype);
        SvPort {
            identifier: port_identifier(p),
            direction,
            datakind,
            datatype,
            classid,
            nettype,
            signedness,
            packed_dimensions: port_packeddim_ansi(p),
            unpacked_dimensions: port_unpackeddim_ansi(p),
            comment: get_comment(p),
        }
    } else {
        let q = match prev_port {
            Some(q) => q,
            None => {
                proof {
                    assert(false);
                }
                unreached()
            },
        };
        SvPort {
            identifier: port_identifier(p),
            direction: q.direction,
            datakind: q.datakind,
            datatype: q.datatype,
            classid: clone_opt_string(&q.classid),
            nettype: q.nettype,
            signedness: q.signedness,
            packed_dimensions: clone_dims(&q.packed_dimensions),
            unpacked_dimensions: port_unpackeddim_ansi(p),
            comment: get_comment(p),
        }
    }
}


/// The whole account of a resolved parameter record.
pub open spec fn param_matches(
    q: SvParameter,
    p: SvNode,
    commons: Option<SvNode>,
    param_type: SvParamType,
) -> bool {
    let found = spec_found_assignment(p);
    let dt = spec_parameter_datatype(commons, p, param_type);
    let sg = spec_parameter_signedness(commons, p, dt.0, found, dt.1);
    let dims = match commons {
        Some(c) => packed_dims_of(c),
        None => Seq::empty(),
    };
    let is_param = param_type == SvParamType::Parameter;
    &&& q.identifier@ == spec_parameter_identifier(p)
    &&& q.paramtype == param_type
    &&& q.datatype == dt.0
    &&& q.datatype_overridable == (dt.1 && is_param)
    &&& q.signedness == sg.0
    &&& q.signedness_overridable == (sg.1 && is_param)
    &&& (match spec_parameter_classid(commons, dt.0) {
        Some(t) => q.classid is Some && q.classid->Some_0@ == t,
        None => q.classid is None,
    })
    &&& (match spec_parameter_value(p) {
        Some(t) => q.expression is Some && q.expression->Some_0@ == t,
        None => q.expression is None,
    })
    &&& q.num_bits == spec_parameter_bits(dims, p, dt.0, dt.1, found, spec_parameter_value(p))
    &&& q.packed_dimensions@.len() == dims.len()
    &&& (forall|j: int|
        0 <= j < dims.len() ==> (#[trigger] q.packed_dimensions@[j]).0@ == dims[j].0
            && q.packed_dimensions@[j].1@ == dims[j].1)
    &&& q.unpacked_dimensions@.len() == unpacked_dims_of(p).len()
    &&& (forall|j: int|
        0 <= j < unpacked_dims_of(p).len() ==> (#[trigger] q.unpacked_dimensions@[j]).0@
            == unpacked_dims_of(p)[j].0 && (match (
            q.unpacked_dimensions@[j].1,
            unpacked_dims_of(p)[j].1,
        ) {
            (Some(a), Some(b)) => a@ == b,
            (None, None) => true,
            _ => false,
        }))
    &&& (match q.comment {
        Some(v) => comments_of(p).len() > 0 && v@.len() == comments_of(p).len() && (forall|j: int|
            0 <= j < v@.len() ==> (#[trigger] v@[j])@ == comments_of(p)[j]),
        None => comments_of(p).len() == 0,
    })
}

/// The rule a parameter declaration breaks, if any.
pub open spec fn spec_param_err(
    p: SvNode,
    commons: Option<SvNode>,
    param_type: SvParamType,
) -> Option<SvSemanticError> {
    let found = spec_found_assignment(p);
    let dt = spec_parameter_datatype(commons, p, param_type);
    let sg = spec_parameter_signedness(commons, p, dt.0, found, dt.1);
    let dims = match commons {
        Some(c) => packed_dims_of(c),
        None => Seq::empty(),
    };
    spec_parameter_syntax(dt.0, sg.0, dims.len() > 0, param_type, found)
}

/// The whole account of a resolved port record.
pub open spec fn port_rec_matches(r: SvPort, p: SvNode, prev: Option<SvPort>) -> bool {
    let inh = spec_port_inherit(p, prev is Some);
    &&& r.identifier@ == spec_port_identifier(p)
    &&& r.unpacked_dimensions@.len() == unpacked_dims_of(p).len()
    &&& (forall|j: int|
        0 <= j < unpacked_dims_of(p).len() ==> (#[trigger] r.unpacked_dimensions@[j]).0@
            == unpacked_dims_of(p)[j].0 && (match (
            r.unpacked_dimensions@[j].1,
            unpacked_dims_of(p)[j].1,
        ) {
            (Some(a), Some(b)) => a@ == b,
            (None, None) => true,
            _ => false,
        }))
    &&& (match r.comment {
        Some(v) => comments_of(p).len() > 0 && v@.len() == comments_of(p).len() && (forall|j: int|
            0 <= j < v@.len() ==> (#[trigger] v@[j])@ == comments_of(p)[j]),
        None => comments_of(p).len() == 0,
    })
    &&& (!inh ==> ({
        let dir = spec_port_direction(
            p,
            match prev {
                Some(q) => Some(q.direction),
                None => None,
            },
        );
        let nt = spec_port_nettype(p, dir);
        let dt = spec_port_datatype(p);
        &&& r.direction == dir
        &&& r.nettype == nt
        &&& r.datakind == spec_port_datakind(nt)
        &&& r.datatype == dt
        &&& r.signedness == spec_port_signedness(p, dt)
        &&& (match spec_port_classid(p, dt) {
            Some(t) => r.classid is Some && r.classid->Some_0@ == t,
            None => r.classid is None,
        })
        &&& r.packed_dimensions@.len() == packed_dims_of(p).len()
        &&& (forall|j: int|
            0 <= j < packed_dims_of(p).len() ==> (#[trigger] r.packed_dimensions@[j]).0@
                == packed_dims_of(p)[j].0 && r.packed_dimensions@[j].1@ == packed_dims_of(p)[j].1)
    }))
    &&& (inh ==> ({
        let q = prev->Some_0;
        &&& r.direction == q.direction
        &&& r.nettype == q.nettype
        &&& r.datakind == q.datakind
        &&& r.datatype == q.datatype
        &&& r.signedness == q.signedness
        &&& (r.classid is Some) == (q.classid is Some)
        &&& (r.classid is Some ==> r.classid->Some_0@ == q.classid->Some_0@)
        &&& r.packed_dimensions@.len() == q.packed_dimensions@.len()
        &&& (forall|j: int|
            0 <= j < q.packed_dimensions@.len() ==> (#[trigger] r.packed_dimensions@[j]).0@
                == q.packed_dimensions@[j].0@ && r.packed_dimensions@[j].1@
                == q.packed_dimensions@[j].1@)
    }))
}

} // verus!
