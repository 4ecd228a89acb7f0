use svdata::structures::{
    SvDataKind, SvDataType, SvNetType, SvParamType, SvPortDirection, SvSignedness,
};
use svdata::sv_module::module_declaration_ansi;
use svdata::sv_port::{port_declaration_ansi, port_parameter_declaration_ansi};
use svdata::text_num::{parse_dec_i64, parse_dec_u64};
use svdata::tree::{get_comment, get_string, identifier, keyword, symbol, SvNode, SvNodeKind};

fn node(kind: SvNodeKind, children: Vec<SvNode>) -> SvNode {
    SvNode { kind, text: String::new(), children }
}

fn locate(text: &str) -> SvNode {
    SvNode { kind: SvNodeKind::Locate, text: text.to_string(), children: vec![] }
}

fn ident(kind: SvNodeKind, name: &str) -> SvNode {
    node(kind, vec![node(SvNodeKind::SimpleIdentifier, vec![locate(name)])])
}

fn packed_range(left: &str, right: &str) -> SvNode {
    node(
        SvNodeKind::PackedDimension,
        vec![node(
            SvNodeKind::PackedDimensionRange,
            vec![node(
                SvNodeKind::ConstantRange,
                vec![
                    node(SvNodeKind::ConstantExpression, vec![locate(left)]),
                    node(SvNodeKind::Symbol, vec![locate(":")]),
                    node(SvNodeKind::ConstantExpression, vec![locate(right)]),
                ],
            )],
        )],
    )
}

#[test]
fn parameter_bit_with_packed_range() {
    // parameter bit [7:0] P = 8'd5;
    let common = node(
        SvNodeKind::DataTypeOrImplicit,
        vec![
            node(SvNodeKind::IntegerVectorTypeBit, vec![locate("bit")]),
            packed_range("7", "0"),
        ],
    );
    let p = node(
        SvNodeKind::ParamAssignment,
        vec![
            ident(SvNodeKind::ParameterIdentifier, "P"),
            node(
                SvNodeKind::ConstantParamExpression,
                vec![node(
                    SvNodeKind::Number,
                    vec![node(
                        SvNodeKind::IntegralNumber,
                        vec![node(
                            SvNodeKind::DecimalNumber,
                            vec![
                                node(SvNodeKind::Size, vec![locate("8")]),
                                node(SvNodeKind::DecimalBase, vec![locate("'d")]),
                                locate("5"),
                            ],
                        )],
                    )],
                )],
            ),
        ],
    );
    let q = port_parameter_declaration_ansi(&p, Some(&common), &SvParamType::Parameter).unwrap();
    assert_eq!(q.identifier, "P");
    assert_eq!(q.paramtype, SvParamType::Parameter);
    assert_eq!(q.datatype, Some(SvDataType::Bit));
    assert!(!q.datatype_overridable);
    assert_eq!(q.signedness, Some(SvSignedness::Unsigned));
    assert_eq!(q.num_bits, Some(8));
    assert_eq!(q.packed_dimensions, vec![("7".to_string(), "0".to_string())]);
    assert_eq!(q.expression, Some("8'd5".to_string()));
}

#[test]
fn localparam_decimal_default() {
    // localparam P = 5;
    let common = node(SvNodeKind::DataTypeOrImplicit, vec![]);
    let p = node(
        SvNodeKind::ParamAssignment,
        vec![
            ident(SvNodeKind::ParameterIdentifier, "P"),
            node(
                SvNodeKind::ConstantParamExpression,
                vec![node(
                    SvNodeKind::Number,
                    vec![node(
                        SvNodeKind::IntegralNumber,
                        vec![node(
                            SvNodeKind::DecimalNumber,
                            vec![node(SvNodeKind::DecimalNumberUnsigned, vec![locate("5")])],
                        )],
                    )],
                )],
            ),
        ],
    );
    let q = port_parameter_declaration_ansi(&p, Some(&common), &SvParamType::LocalParam).unwrap();
    assert_eq!(q.datatype, Some(SvDataType::Logic));
    assert!(!q.datatype_overridable);
    assert_eq!(q.signedness, Some(SvSignedness::Signed));
    assert_eq!(q.num_bits, Some(32));
    assert_eq!(q.expression, Some("5".to_string()));
}

#[test]
fn localparam_without_default_is_refused() {
    // localparam P;
    let p = node(SvNodeKind::ParamAssignment, vec![ident(SvNodeKind::ParameterIdentifier, "P")]);
    let e = port_parameter_declaration_ansi(&p, None, &SvParamType::LocalParam).unwrap_err();
    assert_eq!(e.message(), "Localparams must have a default value!");
}

#[test]
fn parameter_real_default() {
    // parameter real P = 1.0;
    let common = node(
        SvNodeKind::DataTypeOrImplicit,
        vec![node(SvNodeKind::NonIntegerTypeReal, vec![locate("real")])],
    );
    let p = node(
        SvNodeKind::ParamAssignment,
        vec![
            ident(SvNodeKind::ParameterIdentifier, "P"),
            node(
                SvNodeKind::ConstantParamExpression,
                vec![node(
                    SvNodeKind::Number,
                    vec![node(SvNodeKind::RealNumber, vec![locate("1.0")])],
                )],
            ),
        ],
    );
    let q = port_parameter_declaration_ansi(&p, Some(&common), &SvParamType::Parameter).unwrap();
    assert_eq!(q.datatype, Some(SvDataType::Real));
    assert_eq!(q.signedness, None);
    assert_eq!(q.num_bits, Some(64));
}

#[test]
fn parameter_string_default() {
    // parameter string P = "abc";
    let common = node(
        SvNodeKind::DataTypeOrImplicit,
        vec![node(
            SvNodeKind::DataType,
            vec![node(SvNodeKind::Keyword, vec![locate("string")])],
        )],
    );
    let p = node(
        SvNodeKind::ParamAssignment,
        vec![
            ident(SvNodeKind::ParameterIdentifier, "P"),
            node(
                SvNodeKind::ConstantParamExpression,
                vec![node(SvNodeKind::StringLiteral, vec![locate("\"abc\"")])],
            ),
        ],
    );
    let q = port_parameter_declaration_ansi(&p, Some(&common), &SvParamType::Parameter).unwrap();
    assert_eq!(q.datatype, Some(SvDataType::String));
    assert_eq!(q.signedness, None);
    assert_eq!(q.num_bits, Some(24));
}

fn input_logic_port(name: &str) -> SvNode {
    node(
        SvNodeKind::AnsiPortDeclaration,
        vec![node(
            SvNodeKind::AnsiPortDeclarationVariable,
            vec![
                node(SvNodeKind::PortDirectionInput, vec![locate("input")]),
                node(SvNodeKind::IntegerVectorTypeLogic, vec![locate("logic")]),
                packed_range("3", "0"),
                ident(SvNodeKind::PortIdentifier, name),
            ],
        )],
    )
}

#[test]
fn input_logic_ports_with_inheritance() {
    // module m(input logic [3:0] a, b);
    let a = port_declaration_ansi(&input_logic_port("a"), &None);
    assert_eq!(a.identifier, "a");
    assert_eq!(a.direction, SvPortDirection::Input);
    assert_eq!(a.datakind, SvDataKind::Variable);
    assert_eq!(a.datatype, SvDataType::Logic);
    assert_eq!(a.nettype, None);
    assert_eq!(a.signedness, Some(SvSignedness::Unsigned));
    assert_eq!(a.packed_dimensions, vec![("3".to_string(), "0".to_string())]);
    let bare = node(
        SvNodeKind::AnsiPortDeclaration,
        vec![node(
            SvNodeKind::AnsiPortDeclarationVariable,
            vec![ident(SvNodeKind::PortIdentifier, "b")],
        )],
    );
    let b = port_declaration_ansi(&bare, &Some(a));
    assert_eq!(b.identifier, "b");
    assert_eq!(b.direction, SvPortDirection::Input);
    assert_eq!(b.datakind, SvDataKind::Variable);
    assert_eq!(b.datatype, SvDataType::Logic);
    assert_eq!(b.signedness, Some(SvSignedness::Unsigned));
    assert_eq!(b.packed_dimensions.len(), 1);
}

#[test]
fn wire_port_defaults_to_inout_net() {
    // module m(wire a);
    let p = node(
        SvNodeKind::AnsiPortDeclaration,
        vec![node(
            SvNodeKind::AnsiPortDeclarationNet,
            vec![
                node(SvNodeKind::NetTypeWire, vec![locate("wire")]),
                ident(SvNodeKind::PortIdentifier, "a"),
            ],
        )],
    );
    let a = port_declaration_ansi(&p, &None);
    assert_eq!(a.identifier, "a");
    assert_eq!(a.direction, SvPortDirection::Inout);
    assert_eq!(a.datakind, SvDataKind::Net);
    assert_eq!(a.nettype, Some(SvNetType::Wire));
    assert_eq!(a.datatype, SvDataType::Logic);
    assert_eq!(a.signedness, Some(SvSignedness::Unsigned));
}

#[test]
fn module_assembly() {
    let m = node(
        SvNodeKind::ModuleDeclarationAnsi,
        vec![node(
            SvNodeKind::ModuleAnsiHeader,
            vec![
                node(SvNodeKind::Comment, vec![locate("// adder")]),
                ident(SvNodeKind::ModuleIdentifier, "m"),
                input_logic_port("a"),
            ],
        )],
    );
    let md = module_declaration_ansi(&m, "top.sv").unwrap();
    assert_eq!(md.identifier, "m");
    assert_eq!(md.filepath, "top.sv");
    assert_eq!(md.ports.len(), 1);
    assert_eq!(md.ports[0].identifier, "a");
    assert_eq!(md.parameters.len(), 0);
    assert_eq!(md.instances.len(), 0);
    assert_eq!(md.comments, vec!["// adder".to_string()]);
}

#[test]
fn package_assembly() {
    let pkg = node(
        SvNodeKind::PackageDeclaration,
        vec![
            ident(SvNodeKind::PackageIdentifier, "pkg"),
            node(
                SvNodeKind::LocalParameterDeclarationParam,
                vec![
                    node(SvNodeKind::DataTypeOrImplicit, vec![]),
                    node(
                        SvNodeKind::ListOfParamAssignments,
                        vec![node(
                            SvNodeKind::ParamAssignment,
                            vec![
                                ident(SvNodeKind::ParameterIdentifier, "W"),
                                node(
                                    SvNodeKind::ConstantParamExpression,
                                    vec![node(
                                        SvNodeKind::Number,
                                        vec![node(
                                            SvNodeKind::IntegralNumber,
                                            vec![node(
                                                SvNodeKind::DecimalNumber,
                                                vec![node(
                                                    SvNodeKind::DecimalNumberUnsigned,
                                                    vec![locate("8")],
                                                )],
                                            )],
                                        )],
                                    )],
                                ),
                            ],
                        )],
                    ),
                ],
            ),
        ],
    );
    let pd = svdata::sv_package::package_declaration(&pkg, "p.sv").unwrap();
    assert_eq!(pd.identifier, "pkg");
    assert_eq!(pd.filepath, "p.sv");
    assert_eq!(pd.parameters.len(), 1);
    assert_eq!(pd.parameters[0].identifier, "W");
    assert_eq!(pd.parameters[0].paramtype, SvParamType::LocalParam);
    assert_eq!(pd.parameters[0].expression, Some("8".to_string()));
}

#[test]
fn instance_connections() {
    let inst = node(
        SvNodeKind::ModuleInstantiation,
        vec![
            ident(SvNodeKind::ModuleIdentifier, "child"),
            ident(SvNodeKind::InstanceIdentifier, "u0"),
            node(
                SvNodeKind::NamedPortConnection,
                vec![
                    ident(SvNodeKind::PortIdentifier, "clk"),
                    node(
                        SvNodeKind::HierarchicalIdentifier,
                        vec![node(
                            SvNodeKind::Identifier,
                            vec![node(SvNodeKind::SimpleIdentifier, vec![locate("sys_clk")])],
                        )],
                    ),
                ],
            ),
            node(
                SvNodeKind::NamedPortConnection,
                vec![
                    ident(SvNodeKind::PortIdentifier, "d"),
                    node(
                        SvNodeKind::HierarchicalIdentifier,
                        vec![node(
                            SvNodeKind::Identifier,
                            vec![node(SvNodeKind::SimpleIdentifier, vec![locate("bus")])],
                        )],
                    ),
                    node(
                        SvNodeKind::Select,
                        vec![node(
                            SvNodeKind::IntegralNumber,
                            vec![node(SvNodeKind::DecimalNumber, vec![locate("3")])],
                        )],
                    ),
                ],
            ),
        ],
    );
    let r = svdata::sv_instance::module_instance(&inst, vec!["gen_loop".to_string()]);
    assert_eq!(r.module_identifier, "child");
    assert_eq!(r.hierarchical_instance, "u0");
    assert_eq!(r.hierarchy, vec!["gen_loop".to_string()]);
    assert_eq!(
        r.connections,
        vec![
            vec!["clk".to_string(), "sys_clk".to_string()],
            vec!["d".to_string(), "bus[3]".to_string()],
        ]
    );
}

#[test]
fn whole_file_assembly() {
    let tree = node(
        SvNodeKind::Other,
        vec![node(
            SvNodeKind::ModuleDeclarationAnsi,
            vec![node(
                SvNodeKind::ModuleAnsiHeader,
                vec![ident(SvNodeKind::ModuleIdentifier, "top")],
            )],
        )],
    );
    let d = svdata::sv_data::sv_to_structure(&tree, "f.sv").unwrap();
    assert_eq!(d.modules.len(), 1);
    assert_eq!(d.modules[0].identifier, "top");
    assert_eq!(d.packages.len(), 0);
}

#[test]
fn walker_extractors() {
    let n = node(
        SvNodeKind::Other,
        vec![
            node(SvNodeKind::WhiteSpace, vec![locate(" ")]),
            locate("foo"),
            node(SvNodeKind::Keyword, vec![locate("logic")]),
            node(SvNodeKind::Symbol, vec![locate("+")]),
            node(SvNodeKind::Comment, vec![locate("// hi")]),
        ],
    );
    assert_eq!(get_string(&n), Some("foologic+// hi".to_string()));
    assert_eq!(keyword(&n), Some("logic".to_string()));
    assert_eq!(symbol(&n), Some("+".to_string()));
    assert_eq!(get_comment(&n), Some(vec!["// hi".to_string()]));
    assert_eq!(identifier(&n), None);
    let empty = node(SvNodeKind::Other, vec![]);
    assert_eq!(get_string(&empty), None);
    assert_eq!(get_comment(&empty), None);
}

#[test]
fn decimal_parsing() {
    assert_eq!(parse_dec_u64("0"), Some(0));
    assert_eq!(parse_dec_u64("18446744073709551615"), Some(u64::MAX));
    assert_eq!(parse_dec_u64("18446744073709551616"), None);
    assert_eq!(parse_dec_u64(""), None);
    assert_eq!(parse_dec_u64("12a"), None);
    assert_eq!(parse_dec_i64("-7"), Some((true, 7)));
    assert_eq!(parse_dec_i64("+7"), Some((false, 7)));
    assert_eq!(parse_dec_i64("42"), Some((false, 42)));
    assert_eq!(parse_dec_i64("-"), None);
    assert_eq!(parse_dec_i64("+"), None);
}

#[test]
fn signed_bound_in_packed_range() {
    // a [+7:0] range still contributes eight bits
    let common = node(
        SvNodeKind::DataTypeOrImplicit,
        vec![
            node(SvNodeKind::IntegerVectorTypeBit, vec![locate("bit")]),
            packed_range("+7", "0"),
        ],
    );
    let p = node(SvNodeKind::ParamAssignment, vec![
        ident(SvNodeKind::ParameterIdentifier, "P"),
        node(
            SvNodeKind::ConstantParamExpression,
            vec![node(
                SvNodeKind::Number,
                vec![node(
                    SvNodeKind::IntegralNumber,
                    vec![node(
                        SvNodeKind::DecimalNumber,
                        vec![node(SvNodeKind::DecimalNumberUnsigned, vec![locate("0")])],
                    )],
                )],
            )],
        ),
    ]);
    let q = port_parameter_declaration_ansi(&p, Some(&common), &SvParamType::Parameter).unwrap();
    assert_eq!(q.num_bits, Some(8));
}

#[test]
fn compound_select_index_keeps_the_last_expression() {
    // a select holding two expressions renders the one found last
    let inst = node(
        SvNodeKind::ModuleInstantiation,
        vec![
            ident(SvNodeKind::ModuleIdentifier, "child"),
            ident(SvNodeKind::InstanceIdentifier, "u1"),
            node(
                SvNodeKind::OrderedPortConnection,
                vec![
                    node(
                        SvNodeKind::HierarchicalIdentifier,
                        vec![node(
                            SvNodeKind::Identifier,
                            vec![node(SvNodeKind::SimpleIdentifier, vec![locate("bus")])],
                        )],
                    ),
                    node(
                        SvNodeKind::Select,
                        vec![
                            node(
                                SvNodeKind::HierarchicalIdentifier,
                                vec![node(
                                    SvNodeKind::Identifier,
                                    vec![node(
                                        SvNodeKind::SimpleIdentifier,
                                        vec![locate("b")],
                                    )],
                                )],
                            ),
                            node(
                                SvNodeKind::IntegralNumber,
                                vec![node(SvNodeKind::DecimalNumber, vec![locate("3")])],
                            ),
                        ],
                    ),
                ],
            ),
        ],
    );
    let r = svdata::sv_instance::module_instance(&inst, vec![]);
    assert_eq!(r.connections, vec![vec!["bus[3]".to_string()]]);
}

#[test]
fn unresolvable_bounds_use_the_sentinel() {
    // parameter bit [W-1:0] P = 0; has no literal bounds
    let common = node(
        SvNodeKind::DataTypeOrImplicit,
        vec![
            node(SvNodeKind::IntegerVectorTypeBit, vec![locate("bit")]),
            packed_range("W-1", "0"),
        ],
    );
    let p = node(
        SvNodeKind::ParamAssignment,
        vec![
            ident(SvNodeKind::ParameterIdentifier, "P"),
            node(
                SvNodeKind::ConstantParamExpression,
                vec![node(
                    SvNodeKind::Number,
                    vec![node(
                        SvNodeKind::IntegralNumber,
                        vec![node(
                            SvNodeKind::DecimalNumber,
                            vec![node(SvNodeKind::DecimalNumberUnsigned, vec![locate("0")])],
                        )],
                    )],
                )],
            ),
        ],
    );
    let q = port_parameter_declaration_ansi(&p, Some(&common), &SvParamType::Parameter).unwrap();
    assert_eq!(q.num_bits, Some(404));
}

#[test]
fn signedness_errors_are_refused() {
    // parameter real P = 1.0; with explicit signing breaks the rules
    let common = node(
        SvNodeKind::DataTypeOrImplicit,
        vec![
            node(SvNodeKind::NonIntegerTypeReal, vec![locate("real")]),
            node(SvNodeKind::SigningSigned, vec![locate("signed")]),
        ],
    );
    let p = node(
        SvNodeKind::ParamAssignment,
        vec![
            ident(SvNodeKind::ParameterIdentifier, "P"),
            node(
                SvNodeKind::ConstantParamExpression,
                vec![node(
                    SvNodeKind::Number,
                    vec![node(SvNodeKind::RealNumber, vec![locate("1.0")])],
                )],
            ),
        ],
    );
    let e = port_parameter_declaration_ansi(&p, Some(&common), &SvParamType::Parameter)
        .unwrap_err();
    assert_eq!(e.message(), "Reals cannot have signedness!");
}

#[test]
fn signed_base_literal() {
    // localparam logic P = 1'sb1;
    let common = node(
        SvNodeKind::DataTypeOrImplicit,
        vec![node(SvNodeKind::IntegerVectorTypeLogic, vec![locate("logic")])],
    );
    let p = node(
        SvNodeKind::ParamAssignment,
        vec![
            ident(SvNodeKind::ParameterIdentifier, "P"),
            node(
                SvNodeKind::ConstantParamExpression,
                vec![node(
                    SvNodeKind::Number,
                    vec![node(
                        SvNodeKind::IntegralNumber,
                        vec![node(
                            SvNodeKind::BinaryNumber,
                            vec![
                                node(SvNodeKind::Size, vec![locate("1")]),
                                node(SvNodeKind::BinaryBase, vec![locate("'sb")]),
                                locate("1"),
                            ],
                        )],
                    )],
                )],
            ),
        ],
    );
    let q = port_parameter_declaration_ansi(&p, Some(&common), &SvParamType::Parameter).unwrap();
    assert_eq!(q.datatype, Some(SvDataType::Logic));
    assert!(!q.datatype_overridable);
    // an explicitly typed logic without signing keeps the unsigned default
    assert_eq!(q.signedness, Some(SvSignedness::Unsigned));
    assert_eq!(q.num_bits, Some(1));
}
