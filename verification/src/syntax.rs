//! Concrete syntax trees: what a parser says of a piece of source, as plain
//! values.

use vstd::prelude::*;

use crate::text;

verus! {

/// A node of a syntax tree, with the whole of its subtree.
#[derive(Debug)]
pub struct SyntaxNode {
    /// The grammar's name for what the node is.
    pub kind: String,
    /// The role the node plays for its parent, where the grammar gives it one.
    pub field: Option<String>,
    /// Whether the grammar names the node, as opposed to a literal token.
    pub named: bool,
    /// The source that the node covers.
    pub text: String,
    /// The row, from 0, on which the node starts.
    pub start_row: u32,
    /// The row, from 0, on which the node ends.
    pub end_row: u32,
    /// The node's children, in source order.
    pub children: Vec<SyntaxNode>,
}

/// The node plays the role `name` for its parent.
pub open spec fn in_role(node: SyntaxNode, name: Seq<char>) -> bool {
    node.field matches Some(field) && field@ == name
}

/// The position of the first node in the role `name`, or the number of nodes
/// without one.
pub open spec fn role_index(nodes: Seq<SyntaxNode>, name: Seq<char>) -> nat
    decreases nodes.len(),
{
    if nodes.len() == 0 || in_role(nodes[0], name) {
        0
    } else {
        1 + role_index(nodes.drop_first(), name)
    }
}

/// The position of the first node of a kind, or the number of nodes without
/// one.
pub open spec fn kind_index(nodes: Seq<SyntaxNode>, kind: Seq<char>) -> nat
    decreases nodes.len(),
{
    if nodes.len() == 0 || nodes[0].kind@ == kind {
        0
    } else {
        1 + kind_index(nodes.drop_first(), kind)
    }
}

/// The position of node number `n`, from 0, of a kind, or the number of nodes
/// where there are not so many.
pub open spec fn nth_kind_index(nodes: Seq<SyntaxNode>, kind: Seq<char>, n: nat) -> nat
    decreases nodes.len(),
{
    if nodes.len() == 0 {
        0
    } else if nodes[0].kind@ == kind {
        if n == 0 {
            0
        } else {
            1 + nth_kind_index(nodes.drop_first(), kind, (n - 1) as nat)
        }
    } else {
        1 + nth_kind_index(nodes.drop_first(), kind, n)
    }
}

/// The position of the first named node of a kind, or the number of nodes
/// without one.
pub open spec fn named_kind_index(nodes: Seq<SyntaxNode>, kind: Seq<char>) -> nat
    decreases nodes.len(),
{
    if nodes.len() == 0 || (nodes[0].named && nodes[0].kind@ == kind) {
        0
    } else {
        1 + named_kind_index(nodes.drop_first(), kind)
    }
}

/// The position of named node number `n`, from 0, or the number of nodes where
/// there are not so many.
pub open spec fn named_index(nodes: Seq<SyntaxNode>, n: nat) -> nat
    decreases nodes.len(),
{
    if nodes.len() == 0 {
        0
    } else if nodes[0].named {
        if n == 0 {
            0
        } else {
            1 + named_index(nodes.drop_first(), (n - 1) as nat)
        }
    } else {
        1 + named_index(nodes.drop_first(), n)
    }
}

/// How many of the nodes are named.
pub open spec fn named_count_of(nodes: Seq<SyntaxNode>) -> nat
    decreases nodes.len(),
{
    if nodes.len() == 0 {
        0
    } else {
        named_count_of(nodes.drop_first()) + if nodes[0].named {
            1nat
        } else {
            0nat
        }
    }
}

/// How many of the nodes are named and of a kind.
pub open spec fn named_kind_count(nodes: Seq<SyntaxNode>, kind: Seq<char>) -> nat
    decreases nodes.len(),
{
    if nodes.len() == 0 {
        0
    } else {
        named_kind_count(nodes.drop_first(), kind) + if nodes[0].named && nodes[0].kind@ == kind {
            1nat
        } else {
            0nat
        }
    }
}

/// The texts, trimmed, of the identifiers in the node's subtree, in source
/// order.
pub open spec fn identifiers_in(node: SyntaxNode) -> Seq<Seq<char>>
    decreases node,
{
    let own = if node.kind@ == "identifier"@ {
        seq![node.trimmed_text()]
    } else {
        Seq::empty()
    };
    own + identifiers_among(node.children@)
}

/// The texts, trimmed, of the identifiers in the subtrees of the nodes.
pub open spec fn identifiers_among(nodes: Seq<SyntaxNode>) -> Seq<Seq<char>>
    decreases nodes,
{
    if nodes.len() == 0 {
        Seq::empty()
    } else {
        identifiers_among(nodes.drop_last()) + identifiers_in(nodes.last())
    }
}

/// The last of the nodes that is named and of a kind.
pub open spec fn last_named_of_kind(nodes: Seq<SyntaxNode>, kind: Seq<char>) -> Option<SyntaxNode>
    decreases nodes.len(),
{
    if nodes.len() == 0 {
        None
    } else if nodes.last().named && nodes.last().kind@ == kind {
        Some(nodes.last())
    } else {
        last_named_of_kind(nodes.drop_last(), kind)
    }
}

/// The line, from 1, of a row.
pub open spec fn line_of(row: u32) -> u32 {
    if row == u32::MAX {
        row
    } else {
        (row + 1) as u32
    }
}

impl SyntaxNode {
    /// The source that the node covers, without white space around it.
    pub open spec fn trimmed_text(&self) -> Seq<char> {
        text::trimmed(self.text@)
    }

    /// The position of the first child in the role `name`, or the number of
    /// children without one.
    pub open spec fn at_role(&self, name: Seq<char>) -> nat {
        role_index(self.children@, name)
    }

    /// A child plays the role `name`.
    pub open spec fn has_role(&self, name: Seq<char>) -> bool {
        self.at_role(name) < self.children@.len()
    }

    /// The first child in the role `name`.
    pub open spec fn role(&self, name: Seq<char>) -> SyntaxNode {
        self.children@[self.at_role(name) as int]
    }

    /// There is a named child number `n`, from 0.
    pub open spec fn has_named(&self, n: nat) -> bool {
        named_index(self.children@, n) < self.children@.len()
    }

    /// Named child number `n`, from 0.
    pub open spec fn named_child(&self, n: nat) -> SyntaxNode {
        self.children@[named_index(self.children@, n) as int]
    }

    /// The line, from 1, on which the node starts.
    pub open spec fn first_line(&self) -> u32 {
        line_of(self.start_row)
    }

    /// The line, from 1, on which the node ends.
    pub open spec fn last_line(&self) -> u32 {
        line_of(self.end_row)
    }

    /// Whether the node is of a kind.
    pub fn is_kind(&self, kind: &str) -> (r: bool)
        ensures
            r == (self.kind@ == kind@),
    {
        text::same(self.kind.as_str(), kind)
    }

    /// The source that the node covers, without white space around it.
    pub fn trimmed(&self) -> (s: &str)
        ensures
            s@ == self.trimmed_text(),
    {
        text::trim(self.text.as_str())
    }

    /// The line, from 1, on which the node starts.
    pub fn start_line(&self) -> (line: u32)
        ensures
            line == self.first_line(),
    {
        if self.start_row == u32::MAX {
            self.start_row
        } else {
            self.start_row + 1
        }
    }

    /// The line, from 1, on which the node ends.
    pub fn end_line(&self) -> (line: u32)
        ensures
            line == self.last_line(),
    {
        if self.end_row == u32::MAX {
            self.end_row
        } else {
            self.end_row + 1
        }
    }

    /// The first child in the role `name`.
    pub fn child_by_role(&self, name: &str) -> (child: Option<&SyntaxNode>)
        ensures
            match child {
                Some(c) => self.has_role(name@) && *c == self.role(name@) && decreases_to!(*self => *c),
                None => !self.has_role(name@),
            },
    {
        let mut i: usize = 0;
        proof {
            assert(self.children@.skip(0) =~= self.children@);
        }
        while i < self.children.len()
            invariant
                0 <= i <= self.children@.len(),
                self.at_role(name@) == i + role_index(self.children@.skip(i as int), name@),
            decreases self.children.len() - i,
        {
            proof {
                assert(self.children@.skip(i as int)[0] == self.children@[i as int]);
                assert(self.children@.skip(i as int).drop_first() =~= self.children@.skip(i + 1));
            }
            if let Some(field) = &self.children[i].field {
                if text::same(field.as_str(), name) {
                    return Some(&self.children[i]);
                }
            }
            i += 1;
        }
        None
    }

    /// The first child of a kind.
    pub fn child_of_kind(&self, kind: &str) -> (child: Option<&SyntaxNode>)
        ensures
            match child {
                Some(c) => kind_index(self.children@, kind@) < self.children@.len() && *c
                    == self.children@[kind_index(self.children@, kind@) as int] && decreases_to!(*self => *c),
                None => kind_index(self.children@, kind@) >= self.children@.len(),
            },
    {
        let mut i: usize = 0;
        proof {
            assert(self.children@.skip(0) =~= self.children@);
        }
        while i < self.children.len()
            invariant
                0 <= i <= self.children@.len(),
                kind_index(self.children@, kind@) == i + kind_index(
                    self.children@.skip(i as int),
                    kind@,
                ),
            decreases self.children.len() - i,
        {
            proof {
                assert(self.children@.skip(i as int)[0] == self.children@[i as int]);
                assert(self.children@.skip(i as int).drop_first() =~= self.children@.skip(i + 1));
            }
            if self.children[i].is_kind(kind) {
                return Some(&self.children[i]);
            }
            i += 1;
        }
        None
    }

    /// Child number `n`, from 0, of a kind.
    pub fn child_of_kind_at(&self, kind: &str, n: usize) -> (child: Option<&SyntaxNode>)
        ensures
            match child {
                Some(c) => nth_kind_index(self.children@, kind@, n as nat) < self.children@.len()
                    && *c == self.children@[nth_kind_index(self.children@, kind@, n as nat) as int]
                    && decreases_to!(*self => *c),
                None => nth_kind_index(self.children@, kind@, n as nat) >= self.children@.len(),
            },
    {
        let mut i: usize = 0;
        let mut left: usize = n;
        proof {
            assert(self.children@.skip(0) =~= self.children@);
        }
        while i < self.children.len()
            invariant
                0 <= i <= self.children@.len(),
                nth_kind_index(self.children@, kind@, n as nat) == i + nth_kind_index(
                    self.children@.skip(i as int),
                    kind@,
                    left as nat,
                ),
            decreases self.children.len() - i,
        {
            proof {
                assert(self.children@.skip(i as int)[0] == self.children@[i as int]);
                assert(self.children@.skip(i as int).drop_first() =~= self.children@.skip(i + 1));
            }
            if self.children[i].is_kind(kind) {
                if left == 0 {
                    return Some(&self.children[i]);
                }
                left -= 1;
            }
            i += 1;
        }
        None
    }

    /// The first named child of a kind.
    pub fn named_child_of_kind(&self, kind: &str) -> (child: Option<&SyntaxNode>)
        ensures
            match child {
                Some(c) => named_kind_index(self.children@, kind@) < self.children@.len() && *c
                    == self.children@[named_kind_index(self.children@, kind@) as int]
                    && decreases_to!(*self => *c),
                None => named_kind_index(self.children@, kind@) >= self.children@.len(),
            },
    {
        let mut i: usize = 0;
        proof {
            assert(self.children@.skip(0) =~= self.children@);
        }
        while i < self.children.len()
            invariant
                0 <= i <= self.children@.len(),
                named_kind_index(self.children@, kind@) == i + named_kind_index(
                    self.children@.skip(i as int),
                    kind@,
                ),
            decreases self.children.len() - i,
        {
            proof {
                assert(self.children@.skip(i as int)[0] == self.children@[i as int]);
                assert(self.children@.skip(i as int).drop_first() =~= self.children@.skip(i + 1));
            }
            if self.children[i].named && self.children[i].is_kind(kind) {
                return Some(&self.children[i]);
            }
            i += 1;
        }
        None
    }

    /// Named child number `n`, from 0.
    pub fn named_child_at(&self, n: usize) -> (child: Option<&SyntaxNode>)
        ensures
            match child {
                Some(c) => self.has_named(n as nat) && *c == self.named_child(n as nat)
                    && decreases_to!(*self => *c),
                None => !self.has_named(n as nat),
            },
    {
        let mut i: usize = 0;
        let mut left: usize = n;
        proof {
            assert(self.children@.skip(0) =~= self.children@);
        }
        while i < self.children.len()
            invariant
                0 <= i <= self.children@.len(),
                named_index(self.children@, n as nat) == i + named_index(
                    self.children@.skip(i as int),
                    left as nat,
                ),
            decreases self.children.len() - i,
        {
            proof {
                assert(self.children@.skip(i as int)[0] == self.children@[i as int]);
                assert(self.children@.skip(i as int).drop_first() =~= self.children@.skip(i + 1));
            }
            if self.children[i].named {
                if left == 0 {
                    return Some(&self.children[i]);
                }
                left -= 1;
            }
            i += 1;
        }
        None
    }

    /// How many of the children are named.
    pub fn named_count(&self) -> (count: usize)
        ensures
            count == named_count_of(self.children@),
    {
        let mut i: usize = 0;
        let mut count: usize = 0;
        proof {
            assert(self.children@.skip(0) =~= self.children@);
        }
        while i < self.children.len()
            invariant
                0 <= i <= self.children@.len(),
                count <= i,
                named_count_of(self.children@) == count + named_count_of(
                    self.children@.skip(i as int),
                ),
            decreases self.children.len() - i,
        {
            proof {
                assert(self.children@.skip(i as int)[0] == self.children@[i as int]);
                assert(self.children@.skip(i as int).drop_first() =~= self.children@.skip(i + 1));
            }
            if self.children[i].named {
                count += 1;
            }
            i += 1;
        }
        count
    }

    /// How many of the children are named and of a kind.
    pub fn count_named_of_kind(&self, kind: &str) -> (count: usize)
        ensures
            count == named_kind_count(self.children@, kind@),
    {
        let mut i: usize = 0;
        let mut count: usize = 0;
        proof {
            assert(self.children@.skip(0) =~= self.children@);
        }
        while i < self.children.len()
            invariant
                0 <= i <= self.children@.len(),
                count <= i,
                named_kind_count(self.children@, kind@) == count + named_kind_count(
                    self.children@.skip(i as int),
                    kind@,
                ),
            decreases self.children.len() - i,
        {
            proof {
                assert(self.children@.skip(i as int)[0] == self.children@[i as int]);
                assert(self.children@.skip(i as int).drop_first() =~= self.children@.skip(i + 1));
            }
            if self.children[i].named && self.children[i].is_kind(kind) {
                count += 1;
            }
            i += 1;
        }
        count
    }

    /// The last named child of a kind.
    pub fn last_named_child_of_kind(&self, kind: &str) -> (child: Option<&SyntaxNode>)
        ensures
            match child {
                Some(c) => last_named_of_kind(self.children@, kind@) == Some(*c),
                None => last_named_of_kind(self.children@, kind@) is None,
            },
    {
        let mut n: usize = self.children.len();
        proof {
            assert(self.children@.take(self.children@.len() as int) =~= self.children@);
        }
        while n > 0
            invariant
                0 <= n <= self.children@.len(),
                last_named_of_kind(self.children@, kind@) == last_named_of_kind(
                    self.children@.take(n as int),
                    kind@,
                ),
            decreases n,
        {
            proof {
                assert(self.children@.take(n as int).drop_last() =~= self.children@.take(n - 1));
                assert(self.children@.take(n as int).last() == self.children@[n - 1]);
            }
            n -= 1;
            if self.children[n].named && self.children[n].is_kind(kind) {
                return Some(&self.children[n]);
            }
        }
        None
    }

    /// Appends the texts, trimmed, of the identifiers in the node's subtree, in
    /// source order.
    pub fn collect_identifiers(&self, out: &mut Vec<String>)
        ensures
            text::views(final(out)@) == text::views(old(out)@) + identifiers_in(*self),
        decreases self,
    {
        let ghost before = text::views(out@);
        if self.is_kind("identifier") {
            proof {
                assert(before.push(self.trimmed_text()) =~= before + seq![self.trimmed_text()]);
            }
            let own: String = self.trimmed().to_owned();
            proof {
                text::lemma_views_push(out@, own);
            }
            out.push(own);
        }
        let ghost own = text::views(out@);
        let mut i: usize = 0;
        proof {
            assert(own + identifiers_among(self.children@.take(0)) =~= own);
        }
        while i < self.children.len()
            invariant
                0 <= i <= self.children@.len(),
                text::views(out@) == own + identifiers_among(self.children@.take(i as int)),
            decreases self.children.len() - i,
        {
            proof {
                assert(self.children@.take(i + 1).drop_last() =~= self.children@.take(i as int));
                assert(self.children@.take(i + 1).last() == self.children@[i as int]);
            }
            self.children[i].collect_identifiers(out);
            proof {
                assert(text::views(out@) =~= own + identifiers_among(
                    self.children@.take(i + 1),
                ));
            }
            i += 1;
        }
        proof {
            assert(self.children@.take(self.children@.len() as int) =~= self.children@);
            assert(text::views(out@) =~= before + identifiers_in(*self));
        }
    }
}

/// A child is in a role exactly if it is the first whose field has that name.
pub proof fn a_role_is_the_first_field_of_its_name(node: SyntaxNode, name: Seq<char>, i: int)
    ensures
        node.has_role(name) <==> exists|j: int|
            0 <= j < node.children@.len() && ((#[trigger] node.children@[j]).field matches Some(f)
                && f@ == name),
        0 <= i < node.children@.len() && (node.children@[i].field matches Some(f) && f@ == name) && (
        forall|j: int|
            0 <= j < i ==> !((#[trigger] node.children@[j]).field matches Some(f) && f@ == name))
            ==> node.has_role(name) && node.at_role(name) == i && node.role(name)
            == node.children@[i],
{
    lemma_role_index(node.children@, name);
    let k = node.at_role(name) as int;
    if node.has_role(name) {
        assert(in_role(node.children@[k], name));
    }
    if 0 <= i < node.children@.len() && (node.children@[i].field matches Some(f) && f@ == name) && (
    forall|j: int|
        0 <= j < i ==> !((#[trigger] node.children@[j]).field matches Some(f) && f@ == name)) {
        assert(in_role(node.children@[i], name));
        if k < i {
            assert(!in_role(node.children@[k], name));
        }
    }
}

proof fn lemma_role_index(nodes: Seq<SyntaxNode>, name: Seq<char>)
    ensures
        role_index(nodes, name) <= nodes.len(),
        role_index(nodes, name) < nodes.len() ==> in_role(
            nodes[role_index(nodes, name) as int],
            name,
        ),
        forall|j: int| 0 <= j < role_index(nodes, name) ==> !in_role(#[trigger] nodes[j], name),
    decreases nodes.len(),
{
    if nodes.len() > 0 && !in_role(nodes[0], name) {
        let rest = nodes.drop_first();
        lemma_role_index(rest, name);
        assert forall|j: int| 0 <= j < role_index(nodes, name) implies !in_role(
            #[trigger] nodes[j],
            name,
        ) by {
            if j > 0 {
                assert(rest[j - 1] == nodes[j]);
            }
        }
        if role_index(rest, name) < rest.len() {
            assert(rest[role_index(rest, name) as int] == nodes[role_index(nodes, name) as int]);
        }
    }
}

/// What is looked up by kind is the first of that kind, and what is looked up
/// among the named nodes of a kind is the first such.
pub proof fn the_first_of_a_kind_is_found(nodes: Seq<SyntaxNode>, kind: Seq<char>)
    ensures
        kind_index(nodes, kind) <= nodes.len(),
        kind_index(nodes, kind) < nodes.len() ==> nodes[kind_index(nodes, kind) as int].kind@
            == kind,
        forall|j: int| 0 <= j < kind_index(nodes, kind) ==> (#[trigger] nodes[j]).kind@ != kind,
        named_kind_index(nodes, kind) <= nodes.len(),
        named_kind_index(nodes, kind) < nodes.len() ==> nodes[named_kind_index(
            nodes,
            kind,
        ) as int].named && nodes[named_kind_index(nodes, kind) as int].kind@ == kind,
        forall|j: int|
            0 <= j < named_kind_index(nodes, kind) ==> !((#[trigger] nodes[j]).named
                && nodes[j].kind@ == kind),
    decreases nodes.len(),
{
    if nodes.len() > 0 {
        let rest = nodes.drop_first();
        the_first_of_a_kind_is_found(rest, kind);
        assert forall|j: int| 0 <= j < kind_index(nodes, kind) implies (
        #[trigger] nodes[j]).kind@ != kind by {
            if j > 0 {
                assert(rest[j - 1] == nodes[j]);
            }
        }
        assert forall|j: int| 0 <= j < named_kind_index(nodes, kind) implies !((
        #[trigger] nodes[j]).named && nodes[j].kind@ == kind) by {
            if j > 0 {
                assert(rest[j - 1] == nodes[j]);
            }
        }
        if kind_index(rest, kind) < rest.len() {
            assert(rest[kind_index(rest, kind) as int] == nodes[kind_index(rest, kind) as int + 1]);
        }
        if named_kind_index(rest, kind) < rest.len() {
            assert(rest[named_kind_index(rest, kind) as int] == nodes[named_kind_index(rest, kind) as int
                + 1]);
        }
    }
}

/// How many nodes satisfy a condition.
pub open spec fn tally(nodes: Seq<SyntaxNode>, wanted: spec_fn(SyntaxNode) -> bool) -> nat {
    nodes.filter(wanted).len()
}

proof fn lemma_tally(nodes: Seq<SyntaxNode>, wanted: spec_fn(SyntaxNode) -> bool)
    requires
        nodes.len() > 0,
    ensures
        tally(nodes, wanted) == tally(nodes.drop_first(), wanted) + if wanted(nodes[0]) {
            1nat
        } else {
            0
        },
{
    let one = seq![nodes[0]];
    assert(nodes =~= one + nodes.drop_first());
    Seq::filter_distributes_over_add(one, nodes.drop_first(), wanted);
    reveal(Seq::filter);
    assert(one.drop_last() =~= Seq::<SyntaxNode>::empty());
    assert(one.drop_last().filter(wanted) =~= Seq::<SyntaxNode>::empty());
}

/// Nodes are numbered among their like: node number `n` has exactly `n` of its
/// like in front of it, and counts count their like.
pub proof fn nodes_are_numbered_among_their_like(nodes: Seq<SyntaxNode>, kind: Seq<char>, n: nat)
    ensures
        named_count_of(nodes) == tally(nodes, |x: SyntaxNode| x.named),
        named_kind_count(nodes, kind) == tally(nodes, |x: SyntaxNode| x.named && x.kind@ == kind),
        named_index(nodes, n) <= nodes.len(),
        named_index(nodes, n) < nodes.len() <==> n < tally(nodes, |x: SyntaxNode| x.named),
        named_index(nodes, n) < nodes.len() ==> nodes[named_index(nodes, n) as int].named && tally(
            nodes.take(named_index(nodes, n) as int),
            |x: SyntaxNode| x.named,
        ) == n,
        nth_kind_index(nodes, kind, n) <= nodes.len(),
        nth_kind_index(nodes, kind, n) < nodes.len() <==> n < tally(
            nodes,
            |x: SyntaxNode| x.kind@ == kind,
        ),
        nth_kind_index(nodes, kind, n) < nodes.len() ==> nodes[nth_kind_index(
            nodes,
            kind,
            n,
        ) as int].kind@ == kind && tally(
            nodes.take(nth_kind_index(nodes, kind, n) as int),
            |x: SyntaxNode| x.kind@ == kind,
        ) == n,
    decreases nodes.len(),
{
    let is_named = |x: SyntaxNode| x.named;
    let is_kind = |x: SyntaxNode| x.kind@ == kind;
    let both = |x: SyntaxNode| x.named && x.kind@ == kind;
    reveal(Seq::filter);
    if nodes.len() > 0 {
        let rest = nodes.drop_first();
        let less = if n > 0 {
            (n - 1) as nat
        } else {
            0
        };
        nodes_are_numbered_among_their_like(rest, kind, n);
        nodes_are_numbered_among_their_like(rest, kind, less);
        lemma_tally(nodes, is_named);
        lemma_tally(nodes, is_kind);
        lemma_tally(nodes, both);
        let a = named_index(nodes, n) as int;
        if a < nodes.len() {
            if a > 0 {
                let front = nodes.take(a);
                lemma_tally(front, is_named);
                assert(front.drop_first() =~= rest.take(a - 1));
                assert(rest[a - 1] == nodes[a]);
            } else {
                assert(nodes.take(0) =~= Seq::<SyntaxNode>::empty());
            }
        }
        let b = nth_kind_index(nodes, kind, n) as int;
        if b < nodes.len() {
            if b > 0 {
                let front = nodes.take(b);
                lemma_tally(front, is_kind);
                assert(front.drop_first() =~= rest.take(b - 1));
                assert(rest[b - 1] == nodes[b]);
            } else {
                assert(nodes.take(0) =~= Seq::<SyntaxNode>::empty());
            }
        }
    }
}

/// What is looked up last of a kind has no other such behind it.
pub proof fn the_last_of_a_kind_is_found(nodes: Seq<SyntaxNode>, kind: Seq<char>, i: int)
    requires
        0 <= i < nodes.len(),
        nodes[i].named && nodes[i].kind@ == kind,
        forall|j: int| i < j < nodes.len() ==> !((#[trigger] nodes[j]).named && nodes[j].kind@ == kind),
    ensures
        last_named_of_kind(nodes, kind) == Some(nodes[i]),
    decreases nodes.len(),
{
    if i < nodes.len() - 1 {
        let rest = nodes.drop_last();
        assert(!(nodes[nodes.len() - 1].named && nodes[nodes.len() - 1].kind@ == kind));
        assert forall|j: int| i < j < rest.len() implies !((#[trigger] rest[j]).named
            && rest[j].kind@ == kind) by {
            assert(rest[j] == nodes[j]);
        }
        the_last_of_a_kind_is_found(rest, kind, i);
    }
}

/// The node that a path of child numbers leads to from `node`.
pub open spec fn at_path(node: SyntaxNode, path: Seq<int>) -> Option<SyntaxNode>
    decreases path.len(),
{
    if path.len() == 0 {
        Some(node)
    } else if 0 <= path[0] < node.children@.len() {
        at_path(node.children@[path[0]], path.drop_first())
    } else {
        None
    }
}

/// Every identifier in a subtree, however deep it stands, is collected.
pub proof fn every_identifier_is_collected(node: SyntaxNode, path: Seq<int>)
    requires
        at_path(node, path) matches Some(found) && found.kind@ == "identifier"@,
    ensures
        at_path(node, path) matches Some(found) && identifiers_in(node).contains(
            text::trimmed(found.text@),
        ),
    decreases path.len(),
{
    let own = if node.kind@ == "identifier"@ {
        seq![node.trimmed_text()]
    } else {
        Seq::empty()
    };
    let among = identifiers_among(node.children@);
    if path.len() == 0 {
        assert(own[0] == node.trimmed_text());
        text::lemma_joined_contains(own, among, node.trimmed_text());
    } else {
        let child = node.children@[path[0]];
        every_identifier_is_collected(child, path.drop_first());
        let name = text::trimmed(at_path(node, path)->0.text@);
        lemma_among(node.children@, path[0], name);
        text::lemma_joined_contains(own, among, name);
    }
}

proof fn lemma_among(nodes: Seq<SyntaxNode>, i: int, name: Seq<char>)
    requires
        0 <= i < nodes.len(),
        identifiers_in(nodes[i]).contains(name),
    ensures
        identifiers_among(nodes).contains(name),
    decreases nodes.len(),
{
    let rest = nodes.drop_last();
    text::lemma_joined_contains(identifiers_among(rest), identifiers_in(nodes.last()), name);
    if i < rest.len() {
        assert(rest[i] == nodes[i]);
        lemma_among(rest, i, name);
    }
}

/// Only identifiers are collected.
pub proof fn only_identifiers_are_collected(node: SyntaxNode, name: Seq<char>) -> (path: Seq<int>)
    requires
        identifiers_in(node).contains(name),
    ensures
        at_path(node, path) matches Some(found) && found.kind@ == "identifier"@ && name
            == text::trimmed(found.text@),
    decreases node,
{
    let own = if node.kind@ == "identifier"@ {
        seq![node.trimmed_text()]
    } else {
        Seq::empty()
    };
    text::lemma_joined_contains(own, identifiers_among(node.children@), name);
    if own.contains(name) {
        Seq::empty()
    } else {
        let i = lemma_of_one(node.children@, name);
        let rest = only_identifiers_are_collected(node.children@[i], name);
        let path = seq![i] + rest;
        assert(path.drop_first() =~= rest);
        path
    }
}

proof fn lemma_of_one(nodes: Seq<SyntaxNode>, name: Seq<char>) -> (i: int)
    requires
        identifiers_among(nodes).contains(name),
    ensures
        0 <= i < nodes.len(),
        identifiers_in(nodes[i]).contains(name),
    decreases nodes.len(),
{
    let rest = nodes.drop_last();
    text::lemma_joined_contains(identifiers_among(rest), identifiers_in(nodes.last()), name);
    if identifiers_in(nodes.last()).contains(name) {
        nodes.len() - 1
    } else {
        lemma_of_one(rest, name)
    }
}

/// Lines are counted from 1.
pub proof fn lines_are_counted_from_one(node: SyntaxNode)
    ensures
        node.start_row < u32::MAX ==> node.first_line() == node.start_row + 1,
        node.end_row < u32::MAX ==> node.last_line() == node.end_row + 1,
{
}

} // verus!
