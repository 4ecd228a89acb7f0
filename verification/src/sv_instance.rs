//! The instance connection resolver: module instantiations and their port
//! connection lists.

use vstd::prelude::*;
use vstd::string::StringExecFns;
use crate::structures::SvInstance;
use crate::tree::{find_first, first_match, text_of, SvNode, SvNodeKind};

verus! {

/// A one-kind want list.
fn kv1(a: SvNodeKind) -> (r: Vec<SvNodeKind>)
    ensures
        r@ =~= seq![a],
{
    let mut v: Vec<SvNodeKind> = Vec::new();
    v.push(a);
    v
}

/// A two-kind want list.
fn kv2(a: SvNodeKind, b: SvNodeKind) -> (r: Vec<SvNodeKind>)
    ensures
        r@ =~= seq![a, b],
{
    let mut v: Vec<SvNodeKind> = Vec::new();
    v.push(a);
    v.push(b);
    v
}

/// The identifier text found under a wanted node kind.
pub open spec fn ident_under(n: SvNode, k: SvNodeKind) -> Seq<char> {
    match first_match(n, seq![k]) {
        Some(x) => match first_match(
            x,
            seq![SvNodeKind::SimpleIdentifier, SvNodeKind::EscapedIdentifier],
        ) {
            Some(id) => text_of(id),
            None => Seq::empty(),
        },
        None => Seq::empty(),
    }
}

pub fn ident_under_pub(n: &SvNode, k: SvNodeKind) -> (r: String)
    ensures
        r@ == ident_under(*n, k),
{
    let ks = kv1(k);
    match find_first(n, &ks) {
        Some(x) => match crate::tree::identifier(x) {
            Some(s) => s,
            None => String::new(),
        },
        None => String::new(),
    }
}

/// What one node inside a select does to the running index text: a
/// hierarchical identifier or an integral number replaces it, anything else
/// passes it through its children.  A later match wins, as the scan order
/// of the walker dictates.
pub open spec fn sel_scan_node(n: SvNode, cur: Seq<char>) -> Seq<char>
    decreases n,
{
    if n.kind == SvNodeKind::HierarchicalIdentifier {
        ident_under(n, SvNodeKind::Identifier)
    } else if n.kind == SvNodeKind::IntegralNumber {
        match first_match(n, seq![SvNodeKind::DecimalNumber]) {
            Some(d) => text_of(d),
            None => cur,
        }
    } else {
        sel_scan(n.children@, cur)
    }
}

/// The running index text after a select forest, scanned left to right.
pub open spec fn sel_scan(cs: Seq<SvNode>, cur: Seq<char>) -> Seq<char>
    decreases cs,
{
    if cs.len() == 0 {
        cur
    } else {
        sel_scan(cs.drop_first(), sel_scan_node(cs[0], cur))
    }
}

/// What one node of the connection does to the running index text: a select
/// is scanned for index expressions, anything else passes through.
pub open spec fn conn_scan_node(n: SvNode, cur: Seq<char>) -> Seq<char>
    decreases n,
{
    if n.kind == SvNodeKind::Select {
        sel_scan(n.children@, cur)
    } else {
        conn_scan(n.children@, cur)
    }
}

/// The running index text after a connection forest.
pub open spec fn conn_scan(cs: Seq<SvNode>, cur: Seq<char>) -> Seq<char>
    decreases cs,
{
    if cs.len() == 0 {
        cur
    } else {
        conn_scan(cs.drop_first(), conn_scan_node(cs[0], cur))
    }
}

/// The index suffix of a connection's actual: the last index expression
/// found across its selects, empty when there is none.
pub open spec fn conn_index(conn: SvNode) -> Seq<char> {
    conn_scan(conn.children@, Seq::empty())
}

/// One more tree in a select-forest fold.
proof fn lemma_sel_fold_step(cs: Seq<SvNode>, i: int, c0: Seq<char>)
    requires
        0 <= i < cs.len(),
    ensures
        sel_scan(cs.take(i + 1), c0) == sel_scan_node(cs[i], sel_scan(cs.take(i), c0)),
    decreases i,
{
    if i == 0 {
        assert(cs.take(0) =~= Seq::<SvNode>::empty());
        assert(cs.take(1).drop_first() =~= Seq::<SvNode>::empty());
        assert(cs.take(1)[0] == cs[0]);
        let c1 = sel_scan_node(cs[0], c0);
        assert(sel_scan(Seq::<SvNode>::empty(), c1) == c1);
        assert(sel_scan(cs.take(0), c0) == c0);
    } else {
        let c1 = sel_scan_node(cs[0], c0);
        lemma_sel_fold_step(cs.drop_first(), i - 1, c1);
        assert(cs.take(i + 1).drop_first() =~= cs.drop_first().take(i));
        assert(cs.take(i).drop_first() =~= cs.drop_first().take(i - 1));
        assert(cs.take(i + 1)[0] == cs[0]);
        assert(cs.take(i)[0] == cs[0]);
        assert(cs.drop_first()[i - 1] == cs[i]);
        assert(sel_scan(cs.take(i + 1), c0) == sel_scan(cs.drop_first().take(i), c1));
        assert(sel_scan(cs.take(i), c0) == sel_scan(cs.drop_first().take(i - 1), c1));
    }
}

/// One more tree in a connection-forest fold.
proof fn lemma_conn_fold_step(cs: Seq<SvNode>, i: int, c0: Seq<char>)
    requires
        0 <= i < cs.len(),
    ensures
        conn_scan(cs.take(i + 1), c0) == conn_scan_node(cs[i], conn_scan(cs.take(i), c0)),
    decreases i,
{
    if i == 0 {
        assert(cs.take(0) =~= Seq::<SvNode>::empty());
        assert(cs.take(1).drop_first() =~= Seq::<SvNode>::empty());
        assert(cs.take(1)[0] == cs[0]);
        let c1 = conn_scan_node(cs[0], c0);
        assert(conn_scan(Seq::<SvNode>::empty(), c1) == c1);
        assert(conn_scan(cs.take(0), c0) == c0);
    } else {
        let c1 = conn_scan_node(cs[0], c0);
        lemma_conn_fold_step(cs.drop_first(), i - 1, c1);
        assert(cs.take(i + 1).drop_first() =~= cs.drop_first().take(i));
        assert(cs.take(i).drop_first() =~= cs.drop_first().take(i - 1));
        assert(cs.take(i + 1)[0] == cs[0]);
        assert(cs.take(i)[0] == cs[0]);
        assert(cs.drop_first()[i - 1] == cs[i]);
        assert(conn_scan(cs.take(i + 1), c0) == conn_scan(cs.drop_first().take(i), c1));
        assert(conn_scan(cs.take(i), c0) == conn_scan(cs.drop_first().take(i - 1), c1));
    }
}

/// Runs the select scan over one tree.
fn sel_scan_exec(n: &SvNode, cur: String) -> (r: String)
    ensures
        r@ == sel_scan_node(*n, cur@),
    decreases *n,
{
    if n.kind == SvNodeKind::HierarchicalIdentifier {
        return ident_under_pub(n, SvNodeKind::Identifier);
    }
    if n.kind == SvNodeKind::IntegralNumber {
        let dk = kv1(SvNodeKind::DecimalNumber);
        return match find_first(n, &dk) {
            Some(d) => {
                let mut t = String::new();
                crate::tree::collect_text(d, &mut t);
                proof {
                    assert(Seq::<char>::empty() + text_of(*d) =~= text_of(*d));
                }
                t
            },
            None => cur,
        };
    }
    let mut acc = cur;
    let ghost c0 = acc@;
    let mut i: usize = 0;
    proof {
        assert(n.children@.take(0) =~= Seq::<SvNode>::empty());
    }
    while i < n.children.len()
        invariant
            i <= n.children@.len(),
            n.kind != SvNodeKind::HierarchicalIdentifier,
            n.kind != SvNodeKind::IntegralNumber,
            acc@ == sel_scan(n.children@.take(i as int), c0),
        decreases n.children@.len() - i,
    {
        acc = sel_scan_exec(&n.children[i], acc);
        proof {
            lemma_sel_fold_step(n.children@, i as int, c0);
        }
        i += 1;
    }
    proof {
        assert(n.children@.take(n.children@.len() as int) =~= n.children@);
    }
    acc
}

/// Runs the connection scan over one tree.
fn conn_scan_exec(n: &SvNode, cur: String) -> (r: String)
    ensures
        r@ == conn_scan_node(*n, cur@),
    decreases *n,
{
    if n.kind == SvNodeKind::Select {
        let mut acc = cur;
        let ghost c0 = acc@;
        let mut i: usize = 0;
        proof {
            assert(n.children@.take(0) =~= Seq::<SvNode>::empty());
        }
        while i < n.children.len()
            invariant
                i <= n.children@.len(),
                n.kind == SvNodeKind::Select,
                acc@ == sel_scan(n.children@.take(i as int), c0),
            decreases n.children@.len() - i,
        {
            acc = sel_scan_exec(&n.children[i], acc);
            proof {
                lemma_sel_fold_step(n.children@, i as int, c0);
            }
            i += 1;
        }
        proof {
            assert(n.children@.take(n.children@.len() as int) =~= n.children@);
        }
        return acc;
    }
    let mut acc = cur;
    let ghost c0 = acc@;
    let mut i: usize = 0;
    proof {
        assert(n.children@.take(0) =~= Seq::<SvNode>::empty());
    }
    while i < n.children.len()
        invariant
            i <= n.children@.len(),
            n.kind != SvNodeKind::Select,
            acc@ == conn_scan(n.children@.take(i as int), c0),
        decreases n.children@.len() - i,
    {
        acc = conn_scan_exec(&n.children[i], acc);
        proof {
            lemma_conn_fold_step(n.children@, i as int, c0);
        }
        i += 1;
    }
    proof {
        assert(n.children@.take(n.children@.len() as int) =~= n.children@);
    }
    acc
}

fn conn_index_exec(conn: &SvNode) -> (r: String)
    ensures
        r@ == conn_index(*conn),
{
    let mut acc = String::new();
    let ghost c0 = acc@;
    let mut i: usize = 0;
    proof {
        assert(conn.children@.take(0) =~= Seq::<SvNode>::empty());
    }
    while i < conn.children.len()
        invariant
            i <= conn.children@.len(),
            acc@ == conn_scan(conn.children@.take(i as int), c0),
            c0 == Seq::<char>::empty(),
        decreases conn.children@.len() - i,
    {
        acc = conn_scan_exec(&conn.children[i], acc);
        proof {
            lemma_conn_fold_step(conn.children@, i as int, c0);
        }
        i += 1;
    }
    proof {
        assert(conn.children@.take(conn.children@.len() as int) =~= conn.children@);
    }
    acc
}

/// The rendered actual of a connection: the hierarchical name, with the
/// index in brackets when one is attached.
pub open spec fn conn_actual(conn: SvNode) -> Seq<char> {
    let name = match first_match(conn, seq![SvNodeKind::HierarchicalIdentifier]) {
        Some(h) => ident_under(h, SvNodeKind::Identifier),
        None => Seq::empty(),
    };
    let idx = conn_index(conn);
    if idx.len() == 0 {
        name
    } else {
        name + "["@ + idx + "]"@
    }
}

/// What one connection node contributes: the pair of a named connection, or
/// the singleton of an ordered one.
pub open spec fn conn_entry(conn: SvNode) -> Seq<Seq<char>> {
    if conn.kind == SvNodeKind::NamedPortConnection {
        let left = ident_under(conn, SvNodeKind::PortIdentifier);
        if first_match(conn, seq![SvNodeKind::HierarchicalIdentifier]) is Some {
            seq![left, conn_actual(conn)]
        } else {
            seq![left, Seq::empty()]
        }
    } else {
        if first_match(conn, seq![SvNodeKind::HierarchicalIdentifier]) is Some {
            seq![conn_actual(conn)]
        } else {
            Seq::empty()
        }
    }
}

/// All connection entries under an instantiation, in source order.
pub open spec fn connections_of(n: SvNode) -> Seq<Seq<Seq<char>>>
    decreases n,
{
    if n.kind == SvNodeKind::NamedPortConnection || n.kind == SvNodeKind::OrderedPortConnection {
        if conn_entry(n).len() > 0 {
            seq![conn_entry(n)]
        } else {
            Seq::empty()
        }
    } else {
        connections_forest(n.children@)
    }
}

/// All connection entries under a forest.
pub open spec fn connections_forest(cs: Seq<SvNode>) -> Seq<Seq<Seq<char>>>
    decreases cs,
{
    if cs.len() == 0 {
        Seq::empty()
    } else {
        connections_of(cs[0]) + connections_forest(cs.drop_first())
    }
}

/// Two string lists agreeing element by element.
pub open spec fn conn_matches(v: Seq<String>, t: Seq<Seq<char>>) -> bool {
    v.len() == t.len() && forall|j: int| 0 <= j < v.len() ==> (#[trigger] v[j])@ == t[j]
}

/// Builds one connection entry.
fn conn_entry_exec(conn: &SvNode) -> (r: Vec<String>)
    requires
        conn.kind == SvNodeKind::NamedPortConnection || conn.kind
            == SvNodeKind::OrderedPortConnection,
    ensures
        conn_matches(r@, conn_entry(*conn)),
{
    let hk = kv1(SvNodeKind::HierarchicalIdentifier);
    let mut out: Vec<String> = Vec::new();
    if conn.kind == SvNodeKind::NamedPortConnection {
        let left = ident_under_pub(conn, SvNodeKind::PortIdentifier);
        out.push(left);
        match find_first(conn, &hk) {
            Some(h) => {
                let name = ident_under_pub(h, SvNodeKind::Identifier);
                let idx = conn_index_exec(conn);
                if idx.as_str().unicode_len() == 0 {
                    out.push(name);
                } else {
                    let mut s = name;
                    s.append("[");
                    s.append(idx.as_str());
                    s.append("]");
                    out.push(s);
                }
            },
            None => {
                out.push(String::new());
            },
        }
    } else {
        match find_first(conn, &hk) {
            Some(h) => {
                let name = ident_under_pub(h, SvNodeKind::Identifier);
                let idx = conn_index_exec(conn);
                if idx.as_str().unicode_len() == 0 {
                    out.push(name);
                } else {
                    let mut s = name;
                    s.append("[");
                    s.append(idx.as_str());
                    s.append("]");
                    out.push(s);
                }
            },
            None => {},
        }
    }
    out
}

/// Collects the connection entries under an instantiation.
fn collect_connections(n: &SvNode, out: &mut Vec<Vec<String>>)
    ensures
        final(out)@.len() == old(out)@.len() + connections_of(*n).len(),
        forall|j: int| 0 <= j < old(out)@.len() ==> final(out)@[j] == old(out)@[j],
        forall|j: int|
            0 <= j < connections_of(*n).len() ==> conn_matches(
                (#[trigger] final(out)@[old(out)@.len() + j])@,
                connections_of(*n)[j],
            ),
    decreases *n,
{
    if n.kind == SvNodeKind::NamedPortConnection || n.kind == SvNodeKind::OrderedPortConnection {
        let e = conn_entry_exec(n);
        if e.len() > 0 {
            out.push(e);
        }
        return ;
    }
    let mut i: usize = 0;
    proof {
        assert(n.children@.take(0) =~= Seq::<SvNode>::empty());
    }
    while i < n.children.len()
        invariant
            i <= n.children@.len(),
            n.kind != SvNodeKind::NamedPortConnection,
            n.kind != SvNodeKind::OrderedPortConnection,
            out@.len() == old(out)@.len() + connections_forest(n.children@.take(i as int)).len(),
            forall|j: int| 0 <= j < old(out)@.len() ==> out@[j] == old(out)@[j],
            forall|j: int|
                0 <= j < connections_forest(n.children@.take(i as int)).len() ==> conn_matches(
                    (#[trigger] out@[old(out)@.len() + j])@,
                    connections_forest(n.children@.take(i as int))[j],
                ),
        decreases n.children@.len() - i,
    {
        let ghost olen = old(out)@.len() as int;
        let ghost plen = connections_forest(n.children@.take(i as int)).len() as int;
        let ghost mid = out@;
        collect_connections(&n.children[i], out);
        proof {
            lemma_connections_take_step(n.children@, i as int);
            let ext = connections_forest(n.children@.take(i as int + 1));
            assert forall|j: int| 0 <= j < ext.len() implies conn_matches(
                (#[trigger] out@[olen + j])@,
                ext[j],
            ) by {
                if j < plen {
                    assert(out@[olen + j] == mid[olen + j]);
                } else {
                    assert(conn_matches(
                        (out@[mid.len() as int + (j - plen)])@,
                        connections_of(n.children@[i as int])[j - plen],
                    ));
                    assert(olen + j == mid.len() as int + (j - plen));
                }
            }
        }
        i += 1;
    }
    proof {
        assert(n.children@.take(n.children@.len() as int) =~= n.children@);
    }
}

/// One more subtree's connections in a prefix concatenation.
proof fn lemma_connections_take_step(cs: Seq<SvNode>, i: int)
    requires
        0 <= i < cs.len(),
    ensures
        connections_forest(cs.take(i + 1)) =~= connections_forest(cs.take(i)) + connections_of(
            cs[i],
        ),
    decreases i,
{
    if i == 0 {
        assert(cs.take(0) =~= Seq::<SvNode>::empty());
        assert(cs.take(1).drop_first() =~= Seq::<SvNode>::empty());
        assert(cs.take(1)[0] == cs[0]);
    } else {
        lemma_connections_take_step(cs.drop_first(), i - 1);
        assert(cs.take(i + 1).drop_first() =~= cs.drop_first().take(i));
        assert(cs.take(i).drop_first() =~= cs.drop_first().take(i - 1));
        assert(cs.take(i + 1)[0] == cs[0]);
        assert(cs.take(i)[0] == cs[0]);
        assert(cs.drop_first()[i - 1] == cs[i]);
    }
}

/// Resolves a module instantiation: the child module, the instance name,
/// the enclosing generate-block labels and the connection list.
pub fn module_instance(p: &SvNode, hierarchy: Vec<String>) -> (r: SvInstance)
    ensures
        r.module_identifier@ == ident_under(*p, SvNodeKind::ModuleIdentifier),
        r.hierarchical_instance@ == ident_under(*p, SvNodeKind::InstanceIdentifier),
        r.hierarchy == hierarchy,
        r.connections@.len() == connections_of(*p).len(),
        forall|j: int|
            0 <= j < connections_of(*p).len() ==> conn_matches(
                (#[trigger] r.connections@[j])@,
                connections_of(*p)[j],
            ),
{
    let mut connections: Vec<Vec<String>> = Vec::new();
    collect_connections(p, &mut connections);
    proof {
        assert forall|j: int| 0 <= j < connections@.len() implies conn_matches(
            (#[trigger] connections@[j])@,
            connections_of(*p)[j],
        ) by {
            assert(conn_matches((connections@[0 + j])@, connections_of(*p)[j]));
        }
    }
    SvInstance {
        module_identifier: ident_under_pub(p, SvNodeKind::ModuleIdentifier),
        hierarchical_instance: ident_under_pub(p, SvNodeKind::InstanceIdentifier),
        hierarchy,
        connections,
    }
}

} // verus!
