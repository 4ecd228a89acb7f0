//! The library's own view of a parsed syntax subtree: a node carries the
//! syntactic category the resolvers dispatch on, the source text of a token
//! leaf, and its children in source order.  Token text lives on `Locate`
//! leaves, as the surrounding parser produces it.

use vstd::prelude::*;
use vstd::string::StringExecFns;

verus! {

/// The syntactic categories the semantic resolvers inspect.  Anything else
/// is carried as `Other` and only traversed.
#[derive(Debug, Clone, Copy, PartialEq, Eq, Structural)]
pub enum SvNodeKind {
    Locate,
    WhiteSpace,
    Comment,
    Keyword,
    Symbol,
    SimpleIdentifier,
    EscapedIdentifier,
    ModuleDeclarationAnsi,
    ModuleDeclarationNonansi,
    ModuleAnsiHeader,
    ModuleIdentifier,
    PackageDeclaration,
    PackageIdentifier,
    ParameterPortList,
    ParameterDeclarationParam,
    LocalParameterDeclarationParam,
    ParameterPortDeclarationParamList,
    ListOfParamAssignments,
    ParamAssignment,
    ParameterIdentifier,
    ConstantParamExpression,
    ConstantFunctionCall,
    BinaryOperator,
    ConstantConcatenation,
    ConditionalExpression,
    DataType,
    DataTypeOrImplicit,
    ClassIdentifier,
    TypeReference,
    ClassType,
    IntegerVectorTypeLogic,
    IntegerVectorTypeReg,
    IntegerVectorTypeBit,
    IntegerAtomTypeByte,
    IntegerAtomTypeShortint,
    IntegerAtomTypeInt,
    IntegerAtomTypeLongint,
    IntegerAtomTypeInteger,
    IntegerAtomTypeTime,
    NonIntegerTypeShortreal,
    NonIntegerTypeRealtime,
    NonIntegerTypeReal,
    SigningSigned,
    SigningUnsigned,
    Number,
    IntegralNumber,
    RealNumber,
    TimeLiteral,
    UnbasedUnsizedLiteral,
    StringLiteral,
    DecimalNumber,
    DecimalNumberUnsigned,
    DecimalNumberBaseUnsigned,
    BinaryNumber,
    HexNumber,
    OctalNumber,
    BinaryBase,
    HexBase,
    OctalBase,
    DecimalBase,
    Size,
    AnsiPortDeclaration,
    AnsiPortDeclarationNet,
    AnsiPortDeclarationVariable,
    PortIdentifier,
    PortDirectionInout,
    PortDirectionInput,
    PortDirectionOutput,
    PortDirectionRef,
    NetTypeSupply0,
    NetTypeSupply1,
    NetTypeTriand,
    NetTypeTrior,
    NetTypeTrireg,
    NetTypeTri0,
    NetTypeTri1,
    NetTypeTri,
    NetTypeUwire,
    NetTypeWire,
    NetTypeWand,
    NetTypeWor,
    VarDataType,
    PackedDimension,
    PackedDimensionRange,
    ConstantRange,
    ConstantExpression,
    UnpackedDimensionRange,
    UnpackedDimensionExpression,
    ModuleInstantiation,
    InstanceIdentifier,
    NamedPortConnection,
    OrderedPortConnection,
    HierarchicalIdentifier,
    Select,
    Identifier,
    GenerateBlock,
    GenerateBlockIdentifier,
    Other,
}

/// One node of the modelled syntax tree.
#[derive(Debug)]
pub struct SvNode {
    pub kind: SvNodeKind,
    pub text: String,
    pub children: Vec<SvNode>,
}

/// The first node of one of the wanted kinds, in preorder, the node itself
/// included.
pub open spec fn first_match(n: SvNode, kinds: Seq<SvNodeKind>) -> Option<SvNode>
    decreases n,
{
    if kinds.contains(n.kind) {
        Some(n)
    } else {
        first_match_among(n.children@, kinds)
    }
}

/// The first match in a forest, scanned left to right.
pub open spec fn first_match_among(cs: Seq<SvNode>, kinds: Seq<SvNodeKind>) -> Option<SvNode>
    decreases cs,
{
    if cs.len() == 0 {
        None
    } else {
        match first_match(cs[0], kinds) {
            Some(m) => Some(m),
            None => first_match_among(cs.drop_first(), kinds),
        }
    }
}

/// The token text of a subtree: the concatenation of its `Locate` leaves,
/// with everything under whitespace skipped.
pub open spec fn text_of(n: SvNode) -> Seq<char>
    decreases n,
{
    if n.kind == SvNodeKind::WhiteSpace {
        Seq::empty()
    } else if n.kind == SvNodeKind::Locate {
        n.text@
    } else {
        texts_of(n.children@)
    }
}

/// The concatenated token text of a forest.
pub open spec fn texts_of(cs: Seq<SvNode>) -> Seq<char>
    decreases cs,
{
    if cs.len() == 0 {
        Seq::empty()
    } else {
        text_of(cs[0]) + texts_of(cs.drop_first())
    }
}

/// The comment snippets of a subtree: the token text of every comment node,
/// in source order.
pub open spec fn comments_of(n: SvNode) -> Seq<Seq<char>>
    decreases n,
{
    if n.kind == SvNodeKind::Comment {
        seq![comment_text(n)]
    } else {
        comments_of_forest(n.children@)
    }
}

/// The comment snippets of a forest.
pub open spec fn comments_of_forest(cs: Seq<SvNode>) -> Seq<Seq<char>>
    decreases cs,
{
    if cs.len() == 0 {
        Seq::empty()
    } else {
        comments_of(cs[0]) + comments_of_forest(cs.drop_first())
    }
}

/// The raw text of a comment node, whitespace included.
pub open spec fn comment_text(n: SvNode) -> Seq<char>
    decreases n,
{
    if n.kind == SvNodeKind::Locate {
        n.text@
    } else {
        comment_texts(n.children@)
    }
}

/// The raw texts of a comment forest.
pub open spec fn comment_texts(cs: Seq<SvNode>) -> Seq<char>
    decreases cs,
{
    if cs.len() == 0 {
        Seq::empty()
    } else {
        comment_text(cs[0]) + comment_texts(cs.drop_first())
    }
}

/// Membership of a kind in a wanted set.
pub fn kind_in(kinds: &Vec<SvNodeKind>, k: SvNodeKind) -> (r: bool)
    ensures
        r == kinds@.contains(k),
{
    let mut i: usize = 0;
    while i < kinds.len()
        invariant
            i <= kinds@.len(),
            forall|j: int| 0 <= j < i ==> kinds@[j] != k,
        decreases kinds@.len() - i,
    {
        if kinds[i] == k {
            return true;
        }
        i += 1;
    }
    false
}

/// Finds the first node of one of the wanted kinds, in preorder, the start
/// node included.
pub fn find_first<'a>(n: &'a SvNode, kinds: &Vec<SvNodeKind>) -> (r: Option<&'a SvNode>)
    ensures
        match r {
            Some(m) => first_match(*n, kinds@) == Some(*m),
            None => first_match(*n, kinds@) is None,
        },
    decreases *n,
{
    if kind_in(kinds, n.kind) {
        return Some(n);
    }
    let mut i: usize = 0;
    while i < n.children.len()
        invariant
            i <= n.children@.len(),
            !kinds@.contains(n.kind),
            forall|j: int| 0 <= j < i ==> first_match(#[trigger] n.children@[j], kinds@) is None,
        decreases n.children@.len() - i,
    {
        let sub = find_first(&n.children[i], kinds);
        match sub {
            Some(m) => {
                proof {
                    lemma_among_skip(n.children@, kinds@, i as int);
                    assert(n.children@.skip(i as int)[0] == n.children@[i as int]);
                    assert(n.children@.skip(i as int).drop_first() =~= n.children@.skip(
                        i as int + 1,
                    ));
                }
                return Some(m);
            },
            None => {},
        }
        i += 1;
    }
    proof {
        lemma_among_skip(n.children@, kinds@, n.children@.len() as int);
        assert(n.children@.skip(n.children@.len() as int) =~= Seq::<SvNode>::empty());
    }
    None
}

/// Scanning a forest whose first elements match nothing starts at the rest.
proof fn lemma_among_skip(cs: Seq<SvNode>, kinds: Seq<SvNodeKind>, i: int)
    requires
        0 <= i <= cs.len(),
        forall|j: int| 0 <= j < i ==> first_match(#[trigger] cs[j], kinds) is None,
    ensures
        first_match_among(cs, kinds) == first_match_among(cs.skip(i), kinds),
    decreases i,
{
    if i > 0 {
        assert(cs.skip(0) =~= cs);
        assert(cs.drop_first() =~= cs.skip(1));
        assert(forall|j: int|
            0 <= j < i - 1 ==> cs.drop_first()[j] == #[trigger] cs[j + 1]);
        lemma_among_skip(cs.drop_first(), kinds, i - 1);
        assert(cs.drop_first().skip(i - 1) =~= cs.skip(i));
    } else {
        assert(cs.skip(0) =~= cs);
    }
}

/// Builds the concatenated token text of a subtree, skipping whitespace.
pub fn collect_text(n: &SvNode, out: &mut String)
    ensures
        final(out)@ == old(out)@ + text_of(*n),
    decreases *n,
{
    if n.kind == SvNodeKind::WhiteSpace {
        proof {
            assert(old(out)@ + Seq::<char>::empty() =~= old(out)@);
        }
        return ;
    }
    if n.kind == SvNodeKind::Locate {
        out.append(n.text.as_str());
        return ;
    }
    let mut i: usize = 0;
    while i < n.children.len()
        invariant
            i <= n.children@.len(),
            n.kind != SvNodeKind::WhiteSpace,
            n.kind != SvNodeKind::Locate,
            out@ == old(out)@ + texts_of(n.children@.take(i as int)),
        decreases n.children@.len() - i,
    {
        collect_text(&n.children[i], out);
        proof {
            lemma_texts_take_step(n.children@, i as int);
        }
        i += 1;
    }
    proof {
        assert(n.children@.take(n.children@.len() as int) =~= n.children@);
    }
}

/// One more subtree's text in a prefix concatenation.
proof fn lemma_texts_take_step(cs: Seq<SvNode>, i: int)
    requires
        0 <= i < cs.len(),
    ensures
        texts_of(cs.take(i + 1)) == texts_of(cs.take(i)) + text_of(cs[i]),
    decreases i,
{
    if i == 0 {
        assert(cs.take(0) =~= Seq::<SvNode>::empty());
        assert(cs.take(1).drop_first() =~= Seq::<SvNode>::empty());
        assert(cs.take(1)[0] == cs[0]);
        assert(texts_of(cs.take(1)) == text_of(cs[0]) + texts_of(Seq::<SvNode>::empty()));
        assert(text_of(cs[0]) + Seq::<char>::empty() =~= text_of(cs[0]));
        assert(Seq::<char>::empty() + text_of(cs[0]) =~= text_of(cs[0]));
    } else {
        lemma_texts_take_step(cs.drop_first(), i - 1);
        assert(cs.take(i + 1).drop_first() =~= cs.drop_first().take(i));
        assert(cs.take(i).drop_first() =~= cs.drop_first().take(i - 1));
        assert(cs.take(i + 1)[0] == cs[0]);
        assert(cs.take(i)[0] == cs[0]);
        assert(cs.drop_first()[i - 1] == cs[i]);
        assert(text_of(cs[0]) + (texts_of(cs.drop_first().take(i - 1)) + text_of(cs[i])) =~= (
        text_of(cs[0]) + texts_of(cs.drop_first().take(i - 1))) + text_of(cs[i]));
    }
}

/// The text span of a subtree, when it has one: `get_string` of the walker.
pub fn get_string(n: &SvNode) -> (r: Option<String>)
    ensures
        match r {
            Some(s) => s@ == text_of(*n) && text_of(*n).len() > 0,
            None => text_of(*n).len() == 0,
        },
{
    let mut out = String::new();
    collect_text(n, &mut out);
    proof {
        assert(Seq::<char>::empty() + text_of(*n) =~= text_of(*n));
    }
    if out.as_str().unicode_len() == 0 {
        None
    } else {
        Some(out)
    }
}

/// The identifier token under a node, when there is one.
pub fn identifier(parent: &SvNode) -> (r: Option<String>)
    ensures
        match first_match(
            *parent,
            seq![SvNodeKind::SimpleIdentifier, SvNodeKind::EscapedIdentifier],
        ) {
            Some(id) => r is Some && r->Some_0@ == text_of(id),
            None => r is None,
        },
{
    let mut kinds: Vec<SvNodeKind> = Vec::new();
    kinds.push(SvNodeKind::SimpleIdentifier);
    kinds.push(SvNodeKind::EscapedIdentifier);
    proof {
        assert(kinds@ =~= seq![SvNodeKind::SimpleIdentifier, SvNodeKind::EscapedIdentifier]);
    }
    match find_first(parent, &kinds) {
        Some(id) => {
            let mut out = String::new();
            collect_text(id, &mut out);
            proof {
                assert(Seq::<char>::empty() + text_of(*id) =~= text_of(*id));
            }
            Some(out)
        },
        None => None,
    }
}

/// The keyword token under a node, when there is one.
pub fn keyword(parent: &SvNode) -> (r: Option<String>)
    ensures
        match first_match(*parent, seq![SvNodeKind::Keyword]) {
            Some(k) => r is Some && r->Some_0@ == text_of(k),
            None => r is None,
        },
{
    let mut kinds: Vec<SvNodeKind> = Vec::new();
    kinds.push(SvNodeKind::Keyword);
    proof {
        assert(kinds@ =~= seq![SvNodeKind::Keyword]);
    }
    match find_first(parent, &kinds) {
        Some(k) => {
            let mut out = String::new();
            collect_text(k, &mut out);
            proof {
                assert(Seq::<char>::empty() + text_of(*k) =~= text_of(*k));
            }
            Some(out)
        },
        None => None,
    }
}

/// The symbol token under a node, when there is one.
pub fn symbol(parent: &SvNode) -> (r: Option<String>)
    ensures
        match first_match(*parent, seq![SvNodeKind::Symbol]) {
            Some(k) => r is Some && r->Some_0@ == text_of(k),
            None => r is None,
        },
{
    let mut kinds: Vec<SvNodeKind> = Vec::new();
    kinds.push(SvNodeKind::Symbol);
    proof {
        assert(kinds@ =~= seq![SvNodeKind::Symbol]);
    }
    match find_first(parent, &kinds) {
        Some(k) => {
            let mut out = String::new();
            collect_text(k, &mut out);
            proof {
                assert(Seq::<char>::empty() + text_of(*k) =~= text_of(*k));
            }
            Some(out)
        },
        None => None,
    }
}

/// Collects the comment snippets of a subtree.
pub fn collect_comments(n: &SvNode, out: &mut Vec<String>)
    ensures
        final(out)@.len() == old(out)@.len() + comments_of(*n).len(),
        forall|j: int|
            0 <= j < old(out)@.len() ==> final(out)@[j] == old(out)@[j],
        forall|j: int|
            0 <= j < comments_of(*n).len() ==> (#[trigger] final(out)@[old(out)@.len() + j])@
                == comments_of(*n)[j],
    decreases *n,
{
    if n.kind == SvNodeKind::Comment {
        let mut text = String::new();
        collect_comment_text(n, &mut text);
        proof {
            assert(Seq::<char>::empty() + comment_text(*n) =~= comment_text(*n));
        }
        out.push(text);
        return ;
    }
    let mut i: usize = 0;
    while i < n.children.len()
        invariant
            i <= n.children@.len(),
            n.kind != SvNodeKind::Comment,
            out@.len() == old(out)@.len() + comments_of_forest(n.children@.take(i as int)).len(),
            forall|j: int| 0 <= j < old(out)@.len() ==> out@[j] == old(out)@[j],
            forall|j: int|
                0 <= j < comments_of_forest(n.children@.take(i as int)).len() ==> (
                #[trigger] out@[old(out)@.len() + j])@ == comments_of_forest(
                    n.children@.take(i as int),
                )[j],
        decreases n.children@.len() - i,
    {
        let ghost olen = old(out)@.len() as int;
        let ghost plen = comments_of_forest(n.children@.take(i as int)).len() as int;
        let ghost mid = out@;
        collect_comments(&n.children[i], out);
        proof {
            lemma_comments_take_step(n.children@, i as int);
            let ext = comments_of_forest(n.children@.take(i as int + 1));
            assert forall|j: int| 0 <= j < ext.len() implies (#[trigger] out@[olen + j])@
                == ext[j] by {
                if j < plen {
                    assert(out@[olen + j] == mid[olen + j]);
                } else {
                    assert(out@[mid.len() as int + (j - plen)]@ == comments_of(
                        n.children@[i as int],
                    )[j - plen]);
                    assert(olen + j == mid.len() as int + (j - plen));
                }
            }
        }
        i += 1;
    }
    proof {
        assert(n.children@.take(n.children@.len() as int) =~= n.children@);
    }
}

/// One more subtree's comments in a prefix concatenation.
proof fn lemma_comments_take_step(cs: Seq<SvNode>, i: int)
    requires
        0 <= i < cs.len(),
    ensures
        comments_of_forest(cs.take(i + 1)) =~= comments_of_forest(cs.take(i)) + comments_of(
            cs[i],
        ),
    decreases i,
{
    if i == 0 {
        assert(cs.take(0) =~= Seq::<SvNode>::empty());
        assert(cs.take(1).drop_first() =~= Seq::<SvNode>::empty());
        assert(cs.take(1)[0] == cs[0]);
        assert(comments_of_forest(cs.take(1)) =~= comments_of(cs[0]) + comments_of_forest(
            Seq::<SvNode>::empty(),
        ));
        assert(comments_of(cs[0]) + Seq::<Seq<char>>::empty() =~= comments_of(cs[0]));
        assert(Seq::<Seq<char>>::empty() + comments_of(cs[0]) =~= comments_of(cs[0]));
    } else {
        lemma_comments_take_step(cs.drop_first(), i - 1);
        assert(cs.take(i + 1).drop_first() =~= cs.drop_first().take(i));
        assert(cs.take(i).drop_first() =~= cs.drop_first().take(i - 1));
        assert(cs.take(i + 1)[0] == cs[0]);
        assert(cs.take(i)[0] == cs[0]);
        assert(cs.drop_first()[i - 1] == cs[i]);
        assert(comments_of(cs[0]) + (comments_of_forest(cs.drop_first().take(i - 1))
            + comments_of(cs[i])) =~= (comments_of(cs[0]) + comments_of_forest(
            cs.drop_first().take(i - 1),
        )) + comments_of(cs[i]));
    }
}

/// Builds the raw text of a comment node, whitespace included.
pub fn collect_comment_text(n: &SvNode, out: &mut String)
    ensures
        final(out)@ == old(out)@ + comment_text(*n),
    decreases *n,
{
    if n.kind == SvNodeKind::Locate {
        out.append(n.text.as_str());
        return ;
    }
    let mut i: usize = 0;
    while i < n.children.len()
        invariant
            i <= n.children@.len(),
            n.kind != SvNodeKind::Locate,
            out@ == old(out)@ + comment_texts(n.children@.take(i as int)),
        decreases n.children@.len() - i,
    {
        collect_comment_text(&n.children[i], out);
        proof {
            lemma_comment_texts_take_step(n.children@, i as int);
        }
        i += 1;
    }
    proof {
        assert(n.children@.take(n.children@.len() as int) =~= n.children@);
    }
}

/// One more subtree's raw text in a prefix concatenation.
proof fn lemma_comment_texts_take_step(cs: Seq<SvNode>, i: int)
    requires
        0 <= i < cs.len(),
    ensures
        comment_texts(cs.take(i + 1)) == comment_texts(cs.take(i)) + comment_text(cs[i]),
    decreases i,
{
    if i == 0 {
        assert(cs.take(0) =~= Seq::<SvNode>::empty());
        assert(cs.take(1).drop_first() =~= Seq::<SvNode>::empty());
        assert(cs.take(1)[0] == cs[0]);
        assert(comment_texts(cs.take(1)) == comment_text(cs[0]) + comment_texts(
            Seq::<SvNode>::empty(),
        ));
        assert(comment_text(cs[0]) + Seq::<char>::empty() =~= comment_text(cs[0]));
        assert(Seq::<char>::empty() + comment_text(cs[0]) =~= comment_text(cs[0]));
    } else {
        lemma_comment_texts_take_step(cs.drop_first(), i - 1);
        assert(cs.take(i + 1).drop_first() =~= cs.drop_first().take(i));
        assert(cs.take(i).drop_first() =~= cs.drop_first().take(i - 1));
        assert(cs.take(i + 1)[0] == cs[0]);
        assert(cs.take(i)[0] == cs[0]);
        assert(cs.drop_first()[i - 1] == cs[i]);
        assert(comment_text(cs[0]) + (comment_texts(cs.drop_first().take(i - 1)) + comment_text(
            cs[i],
        )) =~= (comment_text(cs[0]) + comment_texts(cs.drop_first().take(i - 1))) + comment_text(
            cs[i],
        ));
    }
}

/// The comments attached to a subtree: `get_comment` of the walker.
pub fn get_comment(n: &SvNode) -> (r: Option<Vec<String>>)
    ensures
        match r {
            Some(v) => v@.len() == comments_of(*n).len() && comments_of(*n).len() > 0 && (forall|
                j: int,
            |
                0 <= j < v@.len() ==> (#[trigger] v@[j])@ == comments_of(*n)[j]),
            None => comments_of(*n).len() == 0,
        },
{
    let mut out: Vec<String> = Vec::new();
    collect_comments(n, &mut out);
    proof {
        assert forall|j: int| 0 <= j < out@.len() implies (#[trigger] out@[j])@ == comments_of(
            *n,
        )[j] by {
            assert(out@[0 + j]@ == comments_of(*n)[j]);
        }
    }
    if out.len() == 0 {
        None
    } else {
        Some(out)
    }
}

} // verus!
