//! `sub := full[a:b]` shares its backing array with `full`, so that
//! `sub = append(sub, ...)` may write into it: a hazard where `full` is used
//! afterwards. An assignment to `sub` that is no re-slice ends its tie to
//! `full`. A tie is carried along the graph; where ways meet that do not agree on
//! what `sub` was cut from, none of them is trusted.

use vstd::prelude::*;

use crate::dataflow::cfg;
use crate::dataflow::cfg::{CallTarget, Cfg, Edge, NodeId, RhsShape, Stmt};
use crate::text;

verus! {

/// An append to a slice that shares its array with one that is used later.
#[derive(Debug, Clone, PartialEq, Eq)]
pub struct AppendSharedBackingArrayHit {
    pub sub: String,
    pub full: String,
    pub node: NodeId,
    pub source_line: u32,
}

/// What an `AppendSharedBackingArrayHit` says.
pub struct AppendSharedBackingArrayHitView {
    pub sub: Seq<char>,
    pub full: Seq<char>,
    pub node: NodeId,
    pub source_line: u32,
}

impl View for AppendSharedBackingArrayHit {
    type V = AppendSharedBackingArrayHitView;

    open spec fn view(&self) -> AppendSharedBackingArrayHitView {
        AppendSharedBackingArrayHitView {
            sub: self.sub@,
            full: self.full@,
            node: self.node,
            source_line: self.source_line,
        }
    }
}

/// The variable that a statement appends to itself, `v = append(v, ...)`.
pub open spec fn self_append(stmt: Stmt) -> Option<Seq<char>> {
    match stmt {
        Stmt::Call { target: CallTarget::Named(name), args, assigned_to: Some(v) } => if name@
            == "append"@ && text::views(args@).contains(v@) {
            Some(v@)
        } else {
            None
        },
        _ => None,
    }
}

/// What the last of the statements that assigns `var` makes of it, if one does:
/// what `var` was cut from, or nothing where the assignment is no re-slice. An
/// append to `var` itself leaves `var` tied to what it was tied to.
pub open spec fn settled(stmts: Seq<Stmt>, var: Seq<char>) -> Option<Option<Seq<char>>>
    decreases stmts.len(),
{
    if stmts.len() == 0 {
        None
    } else {
        match settled_by(stmts.last(), var) {
            Some(tie) => Some(tie),
            None => settled(stmts.drop_last(), var),
        }
    }
}

/// What a statement makes of `var`, if it assigns it.
pub open spec fn settled_by(stmt: Stmt, var: Seq<char>) -> Option<Option<Seq<char>>> {
    match stmt {
        Stmt::Assign { lhs, rhs } => if lhs@ != var {
            None
        } else {
            match rhs {
                RhsShape::Reslice { of } => Some(Some(of@)),
                _ => Some(None),
            }
        },
        Stmt::Call { target, args, assigned_to: Some(v) } => if v@ == var && self_append(stmt)
            is None {
            Some(None)
        } else {
            None
        },
        _ => None,
    }
}

/// A way into `node` along which `var` stays as it is: the nodes behind the first
/// do not assign it.
pub open spec fn leads_in(cfg: Cfg<Stmt>, walk: Seq<NodeId>, node: NodeId, var: Seq<char>) -> bool {
    &&& cfg.is_walk(walk)
    &&& cfg.has_edge(walk.last(), node)
    &&& forall|i: int|
        0 < i < walk.len() ==> settled(cfg.nodes@[(#[trigger] walk[i]) as int].stmts@, var) is None
}

/// What `var` is on the way into `node` is settled at the start of the way: the
/// first node assigns it, or is the entry of the function.
pub open spec fn way_in(cfg: Cfg<Stmt>, walk: Seq<NodeId>, node: NodeId, var: Seq<char>) -> bool {
    leads_in(cfg, walk, node, var) && decides(cfg, walk[0], var)
}

/// The node assigns `var`, or is the entry of the function.
pub open spec fn decides(cfg: Cfg<Stmt>, node: NodeId, var: Seq<char>) -> bool {
    node == cfg.entry || settled(cfg.nodes@[node as int].stmts@, var) is Some
}

/// What `var` was cut from when the node is done, by what the node says.
pub open spec fn tie_of(cfg: Cfg<Stmt>, node: NodeId, var: Seq<char>) -> Option<Seq<char>> {
    match settled(cfg.nodes@[node as int].stmts@, var) {
        Some(tie) => tie,
        None => None,
    }
}

/// There is a way into `node`, and along every one `var` was cut from `full`.
pub open spec fn agreed(cfg: Cfg<Stmt>, node: NodeId, var: Seq<char>, full: Seq<char>) -> bool {
    &&& exists|walk: Seq<NodeId>| #[trigger] way_in(cfg, walk, node, var)
    &&& forall|walk: Seq<NodeId>| #[trigger]
        way_in(cfg, walk, node, var) ==> tie_of(cfg, walk[0], var) == Some(full)
}

/// What `var` was cut from on entry to `node`. A function starts with nothing
/// cut.
pub open spec fn tied_on_entry(cfg: Cfg<Stmt>, node: NodeId, var: Seq<char>) -> Option<Seq<char>> {
    if node != cfg.entry && exists|full: Seq<char>| agreed(cfg, node, var, full) {
        Some(choose|full: Seq<char>| agreed(cfg, node, var, full))
    } else {
        None
    }
}

/// What `var` was cut from just before statement `k` of `node`.
pub open spec fn tied_at(cfg: Cfg<Stmt>, node: NodeId, k: int, var: Seq<char>) -> Option<Seq<char>> {
    match settled(cfg.nodes@[node as int].stmts@.take(k), var) {
        Some(tie) => tie,
        None => tied_on_entry(cfg, node, var),
    }
}

/// The byte, read as a Latin-1 character, is a letter, a digit or `_`.
pub open spec fn word_byte(b: u8) -> bool {
    ||| 0x30 <= b <= 0x39
    ||| 0x41 <= b <= 0x5a
    ||| b == 0x5f
    ||| 0x61 <= b <= 0x7a
    ||| b == 0xaa || b == 0xb5 || b == 0xba
    ||| b == 0xb2 || b == 0xb3 || b == 0xb9 || 0xbc <= b <= 0xbe
    ||| 0xc0 <= b <= 0xd6
    ||| 0xd8 <= b <= 0xf6
    ||| 0xf8 <= b
}

/// `word` stands in `bytes` at position `i`.
pub open spec fn bytes_at(bytes: Seq<u8>, word: Seq<u8>, i: int) -> bool {
    0 <= i && i + word.len() <= bytes.len() && bytes.subrange(i, i + word.len()) == word
}

/// What stands at position `i` and is `len` long has no word byte next to it.
pub open spec fn stands_alone(bytes: Seq<u8>, len: nat, i: int) -> bool {
    &&& i == 0 || !word_byte(bytes[i - 1])
    &&& i + len >= bytes.len() || !word_byte(bytes[i + len])
}

/// The first position, from `start` on, at which `word` stands in `bytes`.
pub open spec fn next_at(bytes: Seq<u8>, word: Seq<u8>, start: int) -> Option<int>
    decreases bytes.len() + 1 - start,
{
    if start < 0 || start + word.len() > bytes.len() {
        None
    } else if bytes_at(bytes, word, start) {
        Some(start)
    } else {
        next_at(bytes, word, start + 1)
    }
}

/// Of the places where `word` stands in `bytes` from `start` on, taken left to
/// right and not overlapping, one stands alone.
pub open spec fn alone_from(bytes: Seq<u8>, word: Seq<u8>, start: int) -> bool
    decreases bytes.len() - start,
{
    match next_at(bytes, word, start) {
        None => false,
        Some(i) => if stands_alone(bytes, word.len(), i) {
            true
        } else if start < i + word.len() <= bytes.len() {
            alone_from(bytes, word, i + word.len())
        } else {
            false
        },
    }
}

/// `word` stands in `text` as a whole word.
pub open spec fn whole_word(text: Seq<char>, word: Seq<char>) -> bool {
    alone_from(vstd::utf8::encode_utf8(text), vstd::utf8::encode_utf8(word), 0)
}

/// The statement uses `var`.
pub open spec fn mentions_var(stmt: Stmt, var: Seq<char>) -> bool {
    match stmt {
        Stmt::Assign { lhs, rhs: RhsShape::Var(v) } => v@ == var,
        Stmt::Assign { lhs, rhs: RhsShape::Reslice { of } } => of@ == var,
        Stmt::Return { value: Some(v) } => v@ == var,
        Stmt::Call { target, args, assigned_to } => text::views(args@).contains(var),
        Stmt::Other(text) => whole_word(text@, var),
        _ => false,
    }
}

/// One of the statements from `from` on uses `var`.
pub open spec fn mentioned_from(stmts: Seq<Stmt>, from: int, var: Seq<char>) -> bool {
    exists|k: int| from <= k < stmts.len() && #[trigger] mentions_var(stmts[k], var)
}

/// Some walk of at least one edge leads from `from` to `to`.
pub open spec fn reaches(cfg: Cfg<Stmt>, from: NodeId, to: NodeId) -> bool {
    exists|walk: Seq<NodeId>| #[trigger]
        cfg.is_walk(walk) && cfg.has_edge(from, walk[0]) && walk.last() == to
}

/// `var` is used in `node` from statement `from` on, or in a node that can be
/// reached from it, which is `node` itself where a loop leads back to it.
pub open spec fn used_from(cfg: Cfg<Stmt>, node: NodeId, from: int, var: Seq<char>) -> bool {
    ||| mentioned_from(cfg.nodes@[node as int].stmts@, from, var)
    ||| exists|other: NodeId| #[trigger]
        reaches(cfg, node, other) && mentioned_from(cfg.nodes@[other as int].stmts@, 0, var)
}

/// The hit on statement `k` of `node`.
pub open spec fn hit_at(cfg: Cfg<Stmt>, node: NodeId, k: int) -> Option<
    AppendSharedBackingArrayHitView,
> {
    let stmts = cfg.nodes@[node as int].stmts@;
    match self_append(stmts[k]) {
        Some(sub) => match tied_at(cfg, node, k, sub) {
            Some(full) => if used_from(cfg, node, k + 1, full) {
                Some(
                    AppendSharedBackingArrayHitView {
                        sub,
                        full,
                        node,
                        source_line: cfg.nodes@[node as int].source_line,
                    },
                )
            } else {
                None
            },
            None => None,
        },
        None => None,
    }
}

/// The hits on the first `count` statements of `node`.
pub open spec fn hits_in_node(cfg: Cfg<Stmt>, node: NodeId, count: nat) -> Seq<
    AppendSharedBackingArrayHitView,
>
    decreases count,
{
    if count == 0 {
        Seq::empty()
    } else {
        let earlier = hits_in_node(cfg, node, (count - 1) as nat);
        match hit_at(cfg, node, count - 1) {
            Some(hit) => earlier.push(hit),
            None => earlier,
        }
    }
}

/// The hits in the first `count` nodes of a graph.
pub open spec fn hits_in(cfg: Cfg<Stmt>, count: nat) -> Seq<AppendSharedBackingArrayHitView>
    decreases count,
{
    if count == 0 {
        Seq::empty()
    } else {
        hits_in(cfg, (count - 1) as nat) + hits_in_node(
            cfg,
            (count - 1) as NodeId,
            cfg.nodes@[count - 1].stmts@.len(),
        )
    }
}

fn is_word_byte(b: u8) -> (r: bool)
    ensures
        r == word_byte(b),
{
    (0x30 <= b && b <= 0x39) || (0x41 <= b && b <= 0x5a) || b == 0x5f || (0x61 <= b && b <= 0x7a)
        || b == 0xaa || b == 0xb5 || b == 0xba || b == 0xb2 || b == 0xb3 || b == 0xb9 || (0xbc <= b
        && b <= 0xbe) || (0xc0 <= b && b <= 0xd6) || (0xd8 <= b && b <= 0xf6) || 0xf8 <= b
}

fn is_bytes_at(bytes: &[u8], word: &[u8], i: usize) -> (r: bool)
    requires
        i + word@.len() <= bytes@.len(),
    ensures
        r == bytes_at(bytes@, word@, i as int),
{
    let mut k: usize = 0;
    while k < word.len()
        invariant
            0 <= k <= word@.len(),
            i + word.len() <= bytes.len(),
            forall|j: int| 0 <= j < k ==> bytes@[i + j] == #[trigger] word@[j],
        decreases word.len() - k,
    {
        if bytes[i + k] != word[k] {
            proof {
                assert(bytes@.subrange(i as int, i + word@.len())[k as int] != word@[k as int]);
            }
            return false;
        }
        k += 1;
    }
    proof {
        assert(bytes@.subrange(i as int, i + word@.len()) =~= word@);
    }
    true
}

fn find_next(bytes: &[u8], word: &[u8], start: usize) -> (found: Option<usize>)
    requires
        start <= bytes@.len(),
    ensures
        match found {
            Some(i) => next_at(bytes@, word@, start as int) == Some(i as int) && start <= i && i
                + word@.len() <= bytes@.len(),
            None => next_at(bytes@, word@, start as int) is None,
        },
{
    let mut i: usize = start;
    while word.len() <= bytes.len() - i
        invariant
            start <= i <= bytes@.len(),
            next_at(bytes@, word@, start as int) == next_at(bytes@, word@, i as int),
        decreases bytes.len() - i,
    {
        if is_bytes_at(bytes, word, i) {
            return Some(i);
        }
        if i == bytes.len() {
            proof {
                assert(bytes@.subrange(i as int, i + word@.len()) =~= word@);
            }
            return None;
        }
        i += 1;
    }
    None
}

/// Whether `word` stands in `haystack` as a whole word: with no letter, digit
/// or `_` next to it.
pub fn contains_whole_word(haystack: &str, word: &str) -> (r: bool)
    ensures
        r == whole_word(haystack@, word@),
{
    let bytes: &[u8] = haystack.as_bytes();
    let part: &[u8] = word.as_bytes();
    let mut start: usize = 0;
    loop
        invariant
            bytes@ == vstd::utf8::encode_utf8(haystack@),
            part@ == vstd::utf8::encode_utf8(word@),
            start <= bytes@.len(),
            whole_word(haystack@, word@) == alone_from(bytes@, part@, start as int),
        decreases bytes.len() - start,
    {
        match find_next(bytes, part, start) {
            None => {
                return false;
            },
            Some(i) => {
                let behind: usize = i + part.len();
                let before_ok: bool = i == 0 || !is_word_byte(bytes[i - 1]);
                let behind_ok: bool = behind >= bytes.len() || !is_word_byte(bytes[behind]);
                if before_ok && behind_ok {
                    return true;
                }
                if behind <= start {
                    return false;
                }
                start = behind;
            },
        }
    }
}

fn is_self_append(stmt: &Stmt) -> (found: Option<&String>)
    ensures
        match found {
            Some(v) => self_append(*stmt) == Some(v@),
            None => self_append(*stmt) is None,
        },
{
    if let Stmt::Call { target: CallTarget::Named(name), args, assigned_to: Some(v) } = stmt {
        if text::same(name.as_str(), "append") && text::contains_text(args, v.as_str()) {
            return Some(v);
        }
    }
    None
}

fn mentions(stmt: &Stmt, var: &str) -> (r: bool)
    ensures
        r == mentions_var(*stmt, var@),
{
    match stmt {
        Stmt::Assign { lhs: _, rhs: RhsShape::Var(v) } => text::same(v.as_str(), var),
        Stmt::Assign { lhs: _, rhs: RhsShape::Reslice { of } } => text::same(of.as_str(), var),
        Stmt::Return { value: Some(v) } => text::same(v.as_str(), var),
        Stmt::Call { target: _, args, assigned_to: _ } => text::contains_text(args, var),
        Stmt::Other(text) => contains_whole_word(text.as_str(), var),
        _ => false,
    }
}

fn any_mentions(stmts: &Vec<Stmt>, from: usize, var: &str) -> (r: bool)
    ensures
        r == mentioned_from(stmts@, from as int, var@),
{
    let mut k: usize = from;
    while k < stmts.len()
        invariant
            from <= k,
            forall|j: int| from <= j < k && j < stmts@.len() ==> !#[trigger] mentions_var(stmts@[j], var@),
        decreases stmts.len() - k,
    {
        if mentions(&stmts[k], var) {
            return true;
        }
        k += 1;
    }
    false
}

fn settles(stmt: &Stmt, var: &str) -> (tie: Option<Option<String>>)
    ensures
        settled_view(tie) == settled_by(*stmt, var@),
{
    match stmt {
        Stmt::Assign { lhs, rhs } => {
            if !text::same(lhs.as_str(), var) {
                None
            } else {
                match rhs {
                    RhsShape::Reslice { of } => Some(Some(of.clone())),
                    _ => Some(None),
                }
            }
        },
        Stmt::Call { target: _, args: _, assigned_to: Some(v) } => {
            if text::same(v.as_str(), var) && is_self_append(stmt).is_none() {
                Some(None)
            } else {
                None
            }
        },
        _ => None,
    }
}

/// What is known of a variable.
pub open spec fn settled_view(tie: Option<Option<String>>) -> Option<Option<Seq<char>>> {
    match tie {
        Some(t) => Some(text::optional(t)),
        None => None,
    }
}

fn settled_among(stmts: &Vec<Stmt>, count: usize, var: &str) -> (tie: Option<Option<String>>)
    requires
        count <= stmts@.len(),
    ensures
        settled_view(tie) == settled(stmts@.take(count as int), var@),
{
    let mut k: usize = count;
    while k > 0
        invariant
            k <= count <= stmts@.len(),
            settled(stmts@.take(count as int), var@) == settled(stmts@.take(k as int), var@),
        decreases k,
    {
        proof {
            assert(stmts@.take(k as int).drop_last() =~= stmts@.take(k - 1));
            assert(stmts@.take(k as int).last() == stmts@[k - 1]);
        }
        k -= 1;
        let tie: Option<Option<String>> = settles(&stmts[k], var);
        if tie.is_some() {
            return tie;
        }
    }
    None
}

/// How many of the flags are off.
spec fn off_count(flags: Seq<bool>) -> nat
    decreases flags.len(),
{
    if flags.len() == 0 {
        0
    } else {
        off_count(flags.drop_last()) + if flags.last() {
            0nat
        } else {
            1nat
        }
    }
}

proof fn lemma_off_count_set(flags: Seq<bool>, i: int)
    requires
        0 <= i < flags.len(),
        !flags[i],
    ensures
        off_count(flags.update(i, true)) + 1 == off_count(flags),
    decreases flags.len(),
{
    if i == flags.len() - 1 {
        assert(flags.update(i, true).drop_last() =~= flags.drop_last());
    } else {
        assert(flags.update(i, true).drop_last() =~= flags.drop_last().update(i, true));
        lemma_off_count_set(flags.drop_last(), i);
    }
}

/// Marks the nodes that marked nodes lead to, over `pairs` and not through nodes
/// that stop. `holds` is what is known of the marked nodes.
fn spread(
    pairs: &Vec<(NodeId, NodeId)>,
    stops: &Vec<bool>,
    seen: &mut Vec<bool>,
    Ghost(holds): Ghost<spec_fn(NodeId) -> bool>,
)
    requires
        stops@.len() == old(seen)@.len(),
        old(seen)@.len() <= NodeId::MAX,
        forall|i: int|
            0 <= i < pairs@.len() ==> (#[trigger] pairs@[i]).0 < old(seen)@.len() && pairs@[i].1
                < old(seen)@.len(),
        forall|m: NodeId| m < old(seen)@.len() && #[trigger] old(seen)@[m as int] ==> holds(m),
        forall|i: int|
            0 <= i < pairs@.len() && holds((#[trigger] pairs@[i]).0)
                && !stops@[pairs@[i].0 as int] ==> holds(pairs@[i].1),
    ensures
        final(seen)@.len() == old(seen)@.len(),
        forall|m: int| 0 <= m < old(seen)@.len() && old(seen)@[m] ==> #[trigger] final(seen)@[m],
        forall|m: NodeId| m < final(seen)@.len() && #[trigger] final(seen)@[m as int] ==> holds(m),
        forall|i: int|
            0 <= i < pairs@.len() && final(seen)@[(#[trigger] pairs@[i]).0 as int]
                && !stops@[pairs@[i].0 as int] ==> final(seen)@[pairs@[i].1 as int],
{
    let ghost first = seen@;
    let mut changed: bool = true;
    while changed
        invariant
            seen@.len() == first.len(),
            stops@.len() == first.len(),
            first.len() <= NodeId::MAX,
            forall|i: int|
                0 <= i < pairs@.len() ==> (#[trigger] pairs@[i]).0 < first.len() && pairs@[i].1
                    < first.len(),
            forall|m: int| 0 <= m < first.len() && first[m] ==> #[trigger] seen@[m],
            forall|m: NodeId| m < first.len() && #[trigger] seen@[m as int] ==> holds(m),
            forall|i: int|
                0 <= i < pairs@.len() && holds((#[trigger] pairs@[i]).0)
                    && !stops@[pairs@[i].0 as int] ==> holds(pairs@[i].1),
            !changed ==> forall|i: int|
                0 <= i < pairs@.len() && seen@[(#[trigger] pairs@[i]).0 as int]
                    && !stops@[pairs@[i].0 as int] ==> seen@[pairs@[i].1 as int],
        decreases off_count(seen@), changed as nat,
    {
        let ghost before = seen@;
        changed = false;
        let mut j: usize = 0;
        while j < pairs.len()
            invariant
                0 <= j <= pairs@.len(),
                seen@.len() == first.len(),
                stops@.len() == first.len(),
                first.len() <= NodeId::MAX,
                forall|i: int|
                    0 <= i < pairs@.len() ==> (#[trigger] pairs@[i]).0 < first.len() && pairs@[i].1
                        < first.len(),
                forall|m: int| 0 <= m < first.len() && first[m] ==> #[trigger] seen@[m],
                forall|m: NodeId| m < first.len() && #[trigger] seen@[m as int] ==> holds(m),
                forall|i: int|
                    0 <= i < pairs@.len() && holds((#[trigger] pairs@[i]).0)
                        && !stops@[pairs@[i].0 as int] ==> holds(pairs@[i].1),
                off_count(seen@) <= off_count(before),
                changed ==> off_count(seen@) < off_count(before),
                !changed ==> seen@ == before,
                !changed ==> forall|i: int|
                    0 <= i < j && seen@[(#[trigger] pairs@[i]).0 as int]
                        && !stops@[pairs@[i].0 as int] ==> seen@[pairs@[i].1 as int],
            decreases pairs.len() - j,
        {
            let (a, b) = pairs[j];
            proof {
                assert(pairs@[j as int].0 == a && pairs@[j as int].1 == b);
            }
            if seen[a] && !stops[a] && !seen[b] {
                proof {
                    lemma_off_count_set(seen@, b as int);
                    assert(holds(a));
                }
                let ghost had = seen@;
                seen.set(b, true);
                changed = true;
                proof {
                    assert forall|m: NodeId| m < first.len() && #[trigger] seen@[m as int] implies holds(
                        m,
                    ) by {
                        if m != b {
                            assert(had[m as int]);
                        }
                    }
                }
            }
            j += 1;
        }
    }
}

/// The edges of the graph, turned round or not.
spec fn pair_of(edge: Edge, back: bool) -> (NodeId, NodeId) {
    if back {
        (edge.1, edge.0)
    } else {
        (edge.0, edge.1)
    }
}

fn edge_pairs(cfg: &Cfg<Stmt>, back: bool) -> (pairs: Vec<(NodeId, NodeId)>)
    ensures
        pairs@.len() == cfg.edges@.len(),
        forall|i: int| 0 <= i < pairs@.len() ==> #[trigger] pairs@[i] == pair_of(cfg.edges@[i], back),
{
    let mut pairs: Vec<(NodeId, NodeId)> = Vec::new();
    let mut i: usize = 0;
    while i < cfg.edges.len()
        invariant
            0 <= i <= cfg.edges@.len(),
            pairs@.len() == i,
            forall|j: int| 0 <= j < i ==> #[trigger] pairs@[j] == pair_of(cfg.edges@[j], back),
        decreases cfg.edges.len() - i,
    {
        let edge: Edge = cfg.edges[i];
        if back {
            pairs.push((edge.1, edge.0));
        } else {
            pairs.push((edge.0, edge.1));
        }
        i += 1;
    }
    pairs
}

fn all_off(n: usize) -> (flags: Vec<bool>)
    ensures
        flags@.len() == n,
        forall|i: int| 0 <= i < n ==> !#[trigger] flags@[i],
{
    let mut flags: Vec<bool> = Vec::new();
    while flags.len() < n
        invariant
            flags@.len() <= n,
            forall|i: int| 0 <= i < flags@.len() ==> !#[trigger] flags@[i],
        decreases n - flags.len(),
    {
        flags.push(false);
    }
    flags
}

fn flags_of(n: usize, on: &Vec<NodeId>) -> (flags: Vec<bool>)
    requires
        forall|k: int| 0 <= k < on@.len() ==> (#[trigger] on@[k]) < n,
    ensures
        flags@.len() == n,
        forall|m: NodeId| m < n ==> (#[trigger] flags@[m as int] <==> on@.contains(m)),
{
    let mut flags: Vec<bool> = all_off(n);
    let mut i: usize = 0;
    while i < on.len()
        invariant
            0 <= i <= on@.len(),
            flags@.len() == n,
            forall|k: int| 0 <= k < on@.len() ==> (#[trigger] on@[k]) < n,
            forall|m: NodeId|
                m < n ==> (#[trigger] flags@[m as int] <==> on@.take(i as int).contains(m)),
        decreases on.len() - i,
    {
        let ghost had = flags@;
        flags.set(on[i], true);
        proof {
            assert(on@.take(i + 1) =~= on@.take(i as int).push(on@[i as int]));
            assert forall|m: NodeId| m < n implies (#[trigger] flags@[m as int] <==> on@.take(
                i + 1,
            ).contains(m)) by {
                text::lemma_push_contains(on@.take(i as int), on@[i as int], m);
                assert(had[m as int] <==> on@.take(i as int).contains(m));
            }
        }
        i += 1;
    }
    proof {
        assert(on@.take(on@.len() as int) =~= on@);
    }
    flags
}

proof fn lemma_walk_grows(cfg: Cfg<Stmt>, walk: Seq<NodeId>, to: NodeId)
    requires
        cfg.well_formed(),
        cfg.is_walk(walk),
        cfg.has_edge(walk.last(), to),
    ensures
        cfg.is_walk(walk.push(to)),
        to < cfg.nodes@.len(),
{
    let longer = walk.push(to);
    assert forall|k: int| 0 <= k < longer.len() implies #[trigger] longer[k] < cfg.nodes@.len() by {
        if k < walk.len() {
            assert(longer[k] == walk[k]);
        }
    }
    assert forall|k: int| 0 <= k < longer.len() - 1 implies cfg.has_edge(
        #[trigger] longer[k],
        longer[k + 1],
    ) by {
        if k < walk.len() - 1 {
            assert(longer[k] == walk[k] && longer[k + 1] == walk[k + 1]);
        } else {
            assert(longer[k] == walk.last() && longer[k + 1] == to);
        }
    }
}

proof fn lemma_walk_shortens(cfg: Cfg<Stmt>, walk: Seq<NodeId>)
    requires
        cfg.is_walk(walk),
        walk.len() > 1,
    ensures
        cfg.is_walk(walk.drop_last()),
        cfg.has_edge(walk.drop_last().last(), walk.last()),
        cfg.is_walk(walk.drop_first()),
        cfg.has_edge(walk[0], walk.drop_first()[0]),
{
    let head = walk.drop_last();
    let tail = walk.drop_first();
    assert forall|k: int| 0 <= k < head.len() implies #[trigger] head[k] < cfg.nodes@.len() by {
        assert(head[k] == walk[k]);
    }
    assert forall|k: int| 0 <= k < head.len() - 1 implies cfg.has_edge(
        #[trigger] head[k],
        head[k + 1],
    ) by {
        assert(head[k] == walk[k] && head[k + 1] == walk[k + 1]);
    }
    assert forall|k: int| 0 <= k < tail.len() implies #[trigger] tail[k] < cfg.nodes@.len() by {
        assert(tail[k] == walk[k + 1]);
    }
    assert forall|k: int| 0 <= k < tail.len() - 1 implies cfg.has_edge(
        #[trigger] tail[k],
        tail[k + 1],
    ) by {
        assert(tail[k] == walk[k + 1] && tail[k + 1] == walk[k + 2]);
    }
    assert(walk[walk.len() - 2] == head.last() && walk[walk.len() - 1] == walk.last());
    assert(cfg.has_edge(walk[walk.len() - 2], walk[walk.len() - 2 + 1]));
    assert(cfg.has_edge(walk[0], walk[0int + 1]));
}

/// A set of nodes that holds the successors of `from` and of its members holds
/// everything that can be reached.
proof fn lemma_closed_holds_reached(
    cfg: Cfg<Stmt>,
    seen: Seq<bool>,
    from: NodeId,
    walk: Seq<NodeId>,
)
    requires
        seen.len() == cfg.nodes@.len(),
        cfg.is_walk(walk),
        cfg.has_edge(from, walk[0]),
        forall|m: NodeId| m < seen.len() && #[trigger] cfg.has_edge(from, m) ==> seen[m as int],
        forall|i: int|
            0 <= i < cfg.edges@.len() && seen[(#[trigger] cfg.edges@[i]).0 as int]
                ==> seen[cfg.edges@[i].1 as int],
    ensures
        seen[walk.last() as int],
    decreases walk.len(),
{
    if walk.len() > 1 {
        lemma_walk_shortens(cfg, walk);
        let shorter = walk.drop_last();
        assert(shorter[0] == walk[0]);
        lemma_closed_holds_reached(cfg, seen, from, shorter);
        let i = choose|i: int|
            0 <= i < cfg.edges@.len() && (#[trigger] cfg.edges@[i]).0 == shorter.last()
                && cfg.edges@[i].1 == walk.last();
        assert(seen[cfg.edges@[i].1 as int]);
    } else {
        assert(walk.last() == walk[0]);
    }
}

/// Whether `var` is used in `node` from statement `from` on, or in a node that
/// can be reached from it.
fn used_after(cfg: &Cfg<Stmt>, node: NodeId, from: usize, var: &str) -> (r: bool)
    requires
        cfg.well_formed(),
        node < cfg.nodes@.len(),
    ensures
        r == used_from(*cfg, node, from as int, var@),
{
    if any_mentions(&cfg.nodes[node].stmts, from, var) {
        return true;
    }
    let n: usize = cfg.nodes.len();
    let succs: Vec<NodeId> = cfg.successors(node);
    proof {
        assert forall|k: int| 0 <= k < succs@.len() implies (#[trigger] succs@[k]) < n by {
            assert(succs@.contains(succs@[k]));
            cfg::lemma_succs_contains(cfg.edges@, node, succs@[k]);
        }
    }
    let mut seen: Vec<bool> = flags_of(n, &succs);
    let pairs: Vec<(NodeId, NodeId)> = edge_pairs(cfg, false);
    let stops: Vec<bool> = all_off(n);
    let ghost holds = |m: NodeId| reaches(*cfg, node, m);
    proof {
        assert forall|m: NodeId| m < n && #[trigger] seen@[m as int] implies holds(m) by {
            cfg::lemma_succs_contains(cfg.edges@, node, m);
            let walk = seq![m];
            assert(cfg.is_walk(walk) && cfg.has_edge(node, walk[0]) && walk.last() == m);
        }
        assert forall|i: int|
            0 <= i < pairs@.len() && holds((#[trigger] pairs@[i]).0)
                && !stops@[pairs@[i].0 as int] implies holds(pairs@[i].1) by {
            let edge = cfg.edges@[i];
            let walk = choose|walk: Seq<NodeId>| #[trigger]
                cfg.is_walk(walk) && cfg.has_edge(node, walk[0]) && walk.last() == edge.0;
            assert(cfg.has_edge(edge.0, edge.1));
            lemma_walk_grows(*cfg, walk, edge.1);
            assert(walk.push(edge.1)[0] == walk[0] && walk.push(edge.1).last() == edge.1);
        }
    }
    let ghost first = seen@;
    spread(&pairs, &stops, &mut seen, Ghost(holds));
    proof {
        assert forall|m: NodeId| m < n && #[trigger] cfg.has_edge(node, m) implies seen@[m as int] by {
            cfg::lemma_succs_contains(cfg.edges@, node, m);
            assert(first[m as int]);
        }
        assert forall|i: int|
            0 <= i < cfg.edges@.len() && seen@[(#[trigger] cfg.edges@[i]).0 as int]
                implies seen@[cfg.edges@[i].1 as int] by {
            assert(pairs@[i] == pair_of(cfg.edges@[i], false));
        }
    }
    let mut m: usize = 0;
    while m < n
        invariant
            0 <= m <= n,
            n == cfg.nodes@.len(),
            seen@.len() == n,
            forall|o: NodeId| o < n && #[trigger] seen@[o as int] ==> reaches(*cfg, node, o),
            forall|o: NodeId|
                o < m && #[trigger] seen@[o as int] ==> !mentioned_from(
                    cfg.nodes@[o as int].stmts@,
                    0,
                    var@,
                ),
        decreases n - m,
    {
        if seen[m] && any_mentions(&cfg.nodes[m].stmts, 0, var) {
            proof {
                assert(seen@[m as int]);
                assert(reaches(*cfg, node, m));
            }
            return true;
        }
        m += 1;
    }
    proof {
        assert forall|other: NodeId| #[trigger] reaches(*cfg, node, other) implies !mentioned_from(
            cfg.nodes@[other as int].stmts@,
            0,
            var@,
        ) by {
            let walk = choose|walk: Seq<NodeId>| #[trigger]
                cfg.is_walk(walk) && cfg.has_edge(node, walk[0]) && walk.last() == other;
            lemma_closed_holds_reached(*cfg, seen@, node, walk);
            assert(walk[walk.len() - 1] == other);
            assert(seen@[other as int]);
        }
    }
    false
}

/// The node is the start of a way into `node` along which `var` stays as it is.
spec fn starts_way(cfg: Cfg<Stmt>, m: NodeId, node: NodeId, var: Seq<char>) -> bool {
    exists|walk: Seq<NodeId>| #[trigger] leads_in(cfg, walk, node, var) && walk[0] == m
}

proof fn lemma_way_grows(cfg: Cfg<Stmt>, walk: Seq<NodeId>, from: NodeId, node: NodeId, var: Seq<char>)
    requires
        cfg.well_formed(),
        leads_in(cfg, walk, node, var),
        cfg.has_edge(from, walk[0]),
        settled(cfg.nodes@[walk[0] as int].stmts@, var) is None,
    ensures
        leads_in(cfg, seq![from] + walk, node, var),
{
    let longer = seq![from] + walk;
    assert forall|k: int| 0 <= k < longer.len() implies #[trigger] longer[k] < cfg.nodes@.len() by {
        if k > 0 {
            assert(longer[k] == walk[k - 1]);
        }
    }
    assert forall|k: int| 0 <= k < longer.len() - 1 implies cfg.has_edge(
        #[trigger] longer[k],
        longer[k + 1],
    ) by {
        assert(longer[k + 1] == walk[k]);
        if k > 0 {
            assert(longer[k] == walk[k - 1]);
            assert(cfg.has_edge(walk[k - 1], walk[k - 1 + 1]));
        }
    }
    assert forall|i: int| 0 < i < longer.len() implies settled(
        cfg.nodes@[(#[trigger] longer[i]) as int].stmts@,
        var,
    ) is None by {
        assert(longer[i] == walk[i - 1]);
    }
    assert(longer.last() == walk.last());
}

/// A set of nodes that holds the predecessors of `node`, and those of its members
/// that do not assign `var`, holds the start of every way in.
proof fn lemma_closed_holds_starts(
    cfg: Cfg<Stmt>,
    seen: Seq<bool>,
    walk: Seq<NodeId>,
    node: NodeId,
    var: Seq<char>,
)
    requires
        seen.len() == cfg.nodes@.len(),
        leads_in(cfg, walk, node, var),
        forall|m: NodeId| m < seen.len() && #[trigger] cfg.has_edge(m, node) ==> seen[m as int],
        forall|i: int|
            0 <= i < cfg.edges@.len() && seen[(#[trigger] cfg.edges@[i]).1 as int] && settled(
                cfg.nodes@[cfg.edges@[i].1 as int].stmts@,
                var,
            ) is None ==> seen[cfg.edges@[i].0 as int],
    ensures
        seen[walk[0] as int],
    decreases walk.len(),
{
    if walk.len() > 1 {
        lemma_walk_shortens(cfg, walk);
        let tail = walk.drop_first();
        assert forall|i: int| 0 < i < tail.len() implies settled(
            cfg.nodes@[(#[trigger] tail[i]) as int].stmts@,
            var,
        ) is None by {
            assert(tail[i] == walk[i + 1]);
        }
        assert(tail.last() == walk.last());
        lemma_closed_holds_starts(cfg, seen, tail, node, var);
        assert(tail[0] == walk[1]);
        let i = choose|i: int|
            0 <= i < cfg.edges@.len() && (#[trigger] cfg.edges@[i]).0 == walk[0]
                && cfg.edges@[i].1 == tail[0];
        assert(seen[cfg.edges@[i].0 as int]);
    } else {
        assert(walk.last() == walk[0]);
        assert(walk[0] < cfg.nodes@.len());
        assert(cfg.has_edge(walk[0], node));
    }
}

/// Which nodes start a way into `node` along which `var` stays as it is.
fn way_starts(cfg: &Cfg<Stmt>, node: NodeId, var: &str) -> (seen: Vec<bool>)
    requires
        cfg.well_formed(),
        node < cfg.nodes@.len(),
    ensures
        seen@.len() == cfg.nodes@.len(),
        forall|m: NodeId|
            m < seen@.len() ==> (#[trigger] seen@[m as int] <==> starts_way(*cfg, m, node, var@)),
{
    let n: usize = cfg.nodes.len();
    let preds: Vec<NodeId> = cfg.predecessors(node);
    proof {
        assert forall|k: int| 0 <= k < preds@.len() implies (#[trigger] preds@[k]) < n by {
            assert(preds@.contains(preds@[k]));
            cfg::lemma_preds_contains(cfg.edges@, preds@[k], node);
        }
    }
    let mut seen: Vec<bool> = flags_of(n, &preds);
    let pairs: Vec<(NodeId, NodeId)> = edge_pairs(cfg, true);
    let mut stops: Vec<bool> = Vec::new();
    while stops.len() < n
        invariant
            n == cfg.nodes@.len(),
            stops@.len() <= n,
            forall|i: int|
                0 <= i < stops@.len() ==> (#[trigger] stops@[i] <==> settled(
                    cfg.nodes@[i].stmts@,
                    var@,
                ) is Some),
        decreases n - stops.len(),
    {
        let stmts: &Vec<Stmt> = &cfg.nodes[stops.len()].stmts;
        let tie: Option<Option<String>> = settled_among(stmts, stmts.len(), var);
        proof {
            assert(stmts@.take(stmts@.len() as int) =~= stmts@);
        }
        stops.push(tie.is_some());
    }
    let ghost holds = |m: NodeId| starts_way(*cfg, m, node, var@);
    proof {
        assert forall|m: NodeId| m < n && #[trigger] seen@[m as int] implies holds(m) by {
            cfg::lemma_preds_contains(cfg.edges@, m, node);
            let walk = seq![m];
            assert(cfg.is_walk(walk) && cfg.has_edge(walk.last(), node));
            assert(leads_in(*cfg, walk, node, var@) && walk[0] == m);
        }
        assert forall|i: int|
            0 <= i < pairs@.len() && holds((#[trigger] pairs@[i]).0)
                && !stops@[pairs@[i].0 as int] implies holds(pairs@[i].1) by {
            let edge = cfg.edges@[i];
            let walk = choose|walk: Seq<NodeId>| #[trigger]
                leads_in(*cfg, walk, node, var@) && walk[0] == edge.1;
            assert(cfg.has_edge(edge.0, edge.1));
            lemma_way_grows(*cfg, walk, edge.0, node, var@);
            assert((seq![edge.0] + walk)[0] == edge.0);
        }
    }
    let ghost first = seen@;
    spread(&pairs, &stops, &mut seen, Ghost(holds));
    proof {
        assert forall|m: NodeId| m < n && #[trigger] cfg.has_edge(m, node) implies seen@[m as int] by {
            cfg::lemma_preds_contains(cfg.edges@, m, node);
            assert(first[m as int]);
        }
        assert forall|i: int|
            0 <= i < cfg.edges@.len() && seen@[(#[trigger] cfg.edges@[i]).1 as int] && settled(
                cfg.nodes@[cfg.edges@[i].1 as int].stmts@,
                var@,
            ) is None implies seen@[cfg.edges@[i].0 as int] by {
            assert(pairs@[i] == pair_of(cfg.edges@[i], true));
        }
        assert forall|m: NodeId| m < n implies (#[trigger] seen@[m as int] <==> starts_way(
            *cfg,
            m,
            node,
            var@,
        )) by {
            if starts_way(*cfg, m, node, var@) {
                let walk = choose|walk: Seq<NodeId>| #[trigger]
                    leads_in(*cfg, walk, node, var@) && walk[0] == m;
                lemma_closed_holds_starts(*cfg, seen@, walk, node, var@);
            }
            if seen@[m as int] {
                assert(holds(m));
            }
        }
    }
    seen
}

fn find_tie_on_entry(cfg: &Cfg<Stmt>, node: NodeId, var: &str) -> (full: Option<String>)
    requires
        cfg.well_formed(),
        node < cfg.nodes@.len(),
    ensures
        text::optional(full) == tied_on_entry(*cfg, node, var@),
{
    if node == cfg.entry {
        return None;
    }
    let starts: Vec<bool> = way_starts(cfg, node, var);
    let n: usize = cfg.nodes.len();
    let mut found: Option<String> = None;
    let ghost mut witness: NodeId = 0;
    let mut m: usize = 0;
    while m < n
        invariant
            0 <= m <= n,
            n == cfg.nodes@.len(),
            starts@.len() == n,
            node < n,
            forall|o: NodeId|
                o < n ==> (#[trigger] starts@[o as int] <==> starts_way(*cfg, o, node, var@)),
            found is Some ==> {
                &&& witness < m
                &&& starts@[witness as int]
                &&& decides(*cfg, witness, var@)
            },
            forall|o: NodeId|
                o < m && #[trigger] starts@[o as int] && decides(*cfg, o, var@) ==> {
                    &&& found is Some
                    &&& tie_of(*cfg, o, var@) == text::optional(found)
                },
        decreases n - m,
    {
        if starts[m] {
            let stmts: &Vec<Stmt> = &cfg.nodes[m].stmts;
            let settled_here: Option<Option<String>> = settled_among(stmts, stmts.len(), var);
            proof {
                assert(stmts@.take(stmts@.len() as int) =~= stmts@);
                assert(starts_way(*cfg, m, node, var@)) by {
                    assert(starts@[m as int]);
                }
            }
            if settled_here.is_some() || m == cfg.entry {
                let tie: Option<String> = match settled_here {
                    Some(tie) => tie,
                    None => None,
                };
                let agrees: bool = match (&tie, &found) {
                    (Some(full), Some(other)) => text::same(full.as_str(), other.as_str()),
                    (Some(_), None) => true,
                    (None, _) => false,
                };
                if !agrees {
                    proof {
                        let walk = choose|walk: Seq<NodeId>| #[trigger]
                            leads_in(*cfg, walk, node, var@) && walk[0] == m;
                        assert(way_in(*cfg, walk, node, var@));
                        assert(tie_of(*cfg, walk[0], var@) == text::optional(tie));
                        if found is Some {
                            assert(tie_of(*cfg, witness, var@) == text::optional(found));
                            assert(starts_way(*cfg, witness, node, var@)) by {
                                assert(starts@[witness as int]);
                            }
                            let other = choose|other: Seq<NodeId>| #[trigger]
                                leads_in(*cfg, other, node, var@) && other[0] == witness;
                            assert(way_in(*cfg, other, node, var@));
                        }
                        assert forall|full: Seq<char>| !agreed(*cfg, node, var@, full) by {}
                    }
                    return None;
                }
                if found.is_none() {
                    found = tie;
                    proof {
                        witness = m;
                    }
                }
            }
        }
        m += 1;
    }
    proof {
        assert forall|walk: Seq<NodeId>| #[trigger] way_in(*cfg, walk, node, var@) implies found
            is Some && tie_of(*cfg, walk[0], var@) == text::optional(found) by {
            assert(walk[0] < n);
            assert(starts_way(*cfg, walk[0], node, var@));
            assert(starts@[walk[0] as int]);
        }
        if found is Some {
            assert(starts_way(*cfg, witness, node, var@)) by {
                assert(starts@[witness as int]);
            }
            let walk = choose|walk: Seq<NodeId>| #[trigger]
                leads_in(*cfg, walk, node, var@) && walk[0] == witness;
            assert(way_in(*cfg, walk, node, var@));
            let full = text::optional(found)->0;
            assert(agreed(*cfg, node, var@, full));
            let picked = choose|full: Seq<char>| agreed(*cfg, node, var@, full);
            assert(agreed(*cfg, node, var@, picked));
            assert(tie_of(*cfg, walk[0], var@) == Some(picked));
        } else {
            assert forall|full: Seq<char>| !agreed(*cfg, node, var@, full) by {}
        }
    }
    found
}

fn find_tie(cfg: &Cfg<Stmt>, node: NodeId, k: usize, var: &str) -> (full: Option<String>)
    requires
        cfg.well_formed(),
        node < cfg.nodes@.len(),
        k <= cfg.nodes@[node as int].stmts@.len(),
    ensures
        text::optional(full) == tied_at(*cfg, node, k as int, var@),
{
    match settled_among(&cfg.nodes[node].stmts, k, var) {
        Some(tie) => tie,
        None => find_tie_on_entry(cfg, node, var),
    }
}

/// The appends to a slice that shares its array with one that is used later,
/// in node order and within a node in statement order.
pub fn check(cfg: &Cfg<Stmt>) -> (hits: Vec<AppendSharedBackingArrayHit>)
    requires
        cfg.well_formed(),
    ensures
        text::views(hits@) == hits_in(*cfg, cfg.nodes@.len()),
{
    let mut hits: Vec<AppendSharedBackingArrayHit> = Vec::new();
    let mut n: usize = 0;
    proof {
        assert(text::views(hits@) =~= Seq::<AppendSharedBackingArrayHitView>::empty());
    }
    while n < cfg.nodes.len()
        invariant
            cfg.well_formed(),
            0 <= n <= cfg.nodes@.len(),
            text::views(hits@) == hits_in(*cfg, n as nat),
        decreases cfg.nodes.len() - n,
    {
        let ghost before = text::views(hits@);
        let mut k: usize = 0;
        proof {
            assert(before + Seq::<AppendSharedBackingArrayHitView>::empty() =~= before);
        }
        while k < cfg.nodes[n].stmts.len()
            invariant
                cfg.well_formed(),
                n < cfg.nodes@.len(),
                0 <= k <= cfg.nodes@[n as int].stmts@.len(),
                text::views(hits@) == before + hits_in_node(*cfg, n, k as nat),
            decreases cfg.nodes@[n as int].stmts@.len() - k,
        {
            let ghost so_far = hits@;
            let stmts: &Vec<Stmt> = &cfg.nodes[n].stmts;
            if let Some(sub) = is_self_append(&stmts[k]) {
                if let Some(full) = find_tie(cfg, n, k, sub.as_str()) {
                    if used_after(cfg, n, k + 1, full.as_str()) {
                        let hit = AppendSharedBackingArrayHit {
                            sub: sub.clone(),
                            full: full.clone(),
                            node: n,
                            source_line: cfg.nodes[n].source_line,
                        };
                        proof {
                            text::lemma_views_push(so_far, hit);
                        }
                        hits.push(hit);
                    }
                }
            }
            proof {
                assert(text::views(hits@) =~= before + hits_in_node(*cfg, n, (k + 1) as nat));
            }
            k += 1;
        }
        n += 1;
    }
    hits
}

/// Behind an assignment that is no re-slice, an append to the variable is no
/// hit.
pub proof fn reassigned_slice_is_not_flagged(cfg: Cfg<Stmt>, node: NodeId, k: int, sub: Seq<char>)
    requires
        node < cfg.nodes@.len(),
        0 < k < cfg.nodes@[node as int].stmts@.len(),
        self_append(cfg.nodes@[node as int].stmts@[k]) == Some(sub),
        cfg.nodes@[node as int].stmts@[k - 1] matches Stmt::Assign { lhs, rhs } && lhs@ == sub
            && !(rhs is Reslice),
    ensures
        hit_at(cfg, node, k) is None,
{
    let stmts = cfg.nodes@[node as int].stmts@;
    assert(stmts.take(k).last() == stmts[k - 1]);
}

/// A tie survives where ways meet that agree on it: where every predecessor leaves
/// the variable cut from one slice, it is cut from that slice on entry.
pub proof fn equal_ties_survive_a_join(
    cfg: Cfg<Stmt>,
    node: NodeId,
    var: Seq<char>,
    full: Seq<char>,
    pred: NodeId,
)
    requires
        cfg.well_formed(),
        node != cfg.entry,
        cfg.has_edge(pred, node),
        forall|p: NodeId| #[trigger]
            cfg.has_edge(p, node) ==> settled(cfg.nodes@[p as int].stmts@, var) == Some(Some(full)),
    ensures
        tied_on_entry(cfg, node, var) == Some(full),
{
    let one = seq![pred];
    assert(cfg.is_walk(one) && cfg.has_edge(one.last(), node));
    assert(way_in(cfg, one, node, var));
    assert forall|walk: Seq<NodeId>| #[trigger] way_in(cfg, walk, node, var) implies tie_of(
        cfg,
        walk[0],
        var,
    ) == Some(full) by {
        if walk.len() > 1 {
            assert(settled(cfg.nodes@[walk[walk.len() - 1] as int].stmts@, var) is None);
        }
    }
    assert(agreed(cfg, node, var, full));
    let picked = choose|f: Seq<char>| agreed(cfg, node, var, f);
    assert(agreed(cfg, node, var, picked));
}

/// Ways that do not agree leave no tie.
pub proof fn unequal_ties_do_not(
    cfg: Cfg<Stmt>,
    node: NodeId,
    var: Seq<char>,
    a: Seq<NodeId>,
    b: Seq<NodeId>,
)
    requires
        way_in(cfg, a, node, var),
        way_in(cfg, b, node, var),
        tie_of(cfg, a[0], var) != tie_of(cfg, b[0], var),
    ensures
        tied_on_entry(cfg, node, var) is None,
{
}

/// A statement appends to a slice in place: it calls `append` with the slice among
/// the arguments and keeps the result in the slice itself.
pub open spec fn appends_in_place(stmt: Stmt, sub: Seq<char>) -> bool {
    stmt matches Stmt::Call { target: CallTarget::Named(name), args, assigned_to: Some(v) }
        && name@ == "append"@ && v@ == sub && exists|i: int|
        0 <= i < args@.len() && (#[trigger] args@[i])@ == sub
}

/// What is reported: exactly the appends in place to a slice that is tied, where it
/// stands, to another that is used later; with the line of its node.
pub proof fn appends_to_shared_arrays_are_reported(
    cfg: Cfg<Stmt>,
    hit: AppendSharedBackingArrayHitView,
)
    requires
        cfg.nodes@.len() <= NodeId::MAX,
    ensures
        hits_in(cfg, cfg.nodes@.len()).contains(hit) <==> exists|k: int|
            hit.node < cfg.nodes@.len() && 0 <= k < cfg.nodes@[hit.node as int].stmts@.len()
                && #[trigger] appends_in_place(cfg.nodes@[hit.node as int].stmts@[k], hit.sub)
                && tied_at(cfg, hit.node, k, hit.sub) == Some(hit.full) && used_from(
                cfg,
                hit.node,
                k + 1,
                hit.full,
            ) && hit.source_line == cfg.nodes@[hit.node as int].source_line,
{
    lemma_hits_in(cfg, cfg.nodes@.len(), hit);
    let stmts = cfg.nodes@[hit.node as int].stmts@;
    if hits_in(cfg, cfg.nodes@.len()).contains(hit) {
        let k = choose|k: int|
            0 <= k < stmts.len() && #[trigger] hit_at(cfg, hit.node, k) == Some(hit);
        lemma_appends_in_place(stmts[k], hit.sub);
    }
    if exists|k: int|
        hit.node < cfg.nodes@.len() && 0 <= k < stmts.len() && #[trigger] appends_in_place(
            stmts[k],
            hit.sub,
        ) && tied_at(cfg, hit.node, k, hit.sub) == Some(hit.full) && used_from(
            cfg,
            hit.node,
            k + 1,
            hit.full,
        ) && hit.source_line == cfg.nodes@[hit.node as int].source_line {
        let k = choose|k: int|
            hit.node < cfg.nodes@.len() && 0 <= k < stmts.len() && #[trigger] appends_in_place(
                stmts[k],
                hit.sub,
            ) && tied_at(cfg, hit.node, k, hit.sub) == Some(hit.full) && used_from(
                cfg,
                hit.node,
                k + 1,
                hit.full,
            ) && hit.source_line == cfg.nodes@[hit.node as int].source_line;
        lemma_appends_in_place(stmts[k], hit.sub);
        assert(hit_at(cfg, hit.node, k) == Some(hit));
    }
}

proof fn lemma_appends_in_place(stmt: Stmt, sub: Seq<char>)
    ensures
        appends_in_place(stmt, sub) <==> self_append(stmt) == Some(sub),
{
    if let Stmt::Call { target: CallTarget::Named(name), args, assigned_to: Some(v) } = stmt {
        let views = text::views(args@);
        if views.contains(v@) {
            let i = choose|i: int| 0 <= i < views.len() && views[i] == v@;
            assert(args@[i]@ == v@);
        }
        if appends_in_place(stmt, sub) {
            let i = choose|i: int| 0 <= i < args@.len() && (#[trigger] args@[i])@ == sub;
            assert(views[i] == sub);
        }
    }
}

proof fn lemma_hits_in_node(
    cfg: Cfg<Stmt>,
    node: NodeId,
    count: nat,
    hit: AppendSharedBackingArrayHitView,
)
    ensures
        hits_in_node(cfg, node, count).contains(hit) <==> exists|k: int|
            0 <= k < count && #[trigger] hit_at(cfg, node, k) == Some(hit),
    decreases count,
{
    if count > 0 {
        lemma_hits_in_node(cfg, node, (count - 1) as nat, hit);
        if let Some(last) = hit_at(cfg, node, count - 1) {
            text::lemma_push_contains(hits_in_node(cfg, node, (count - 1) as nat), last, hit);
        }
    }
}

proof fn lemma_hits_in(cfg: Cfg<Stmt>, count: nat, hit: AppendSharedBackingArrayHitView)
    requires
        count <= cfg.nodes@.len() <= NodeId::MAX,
    ensures
        hits_in(cfg, count).contains(hit) <==> hit.node < count && exists|k: int|
            0 <= k < cfg.nodes@[hit.node as int].stmts@.len() && #[trigger] hit_at(
                cfg,
                hit.node,
                k,
            ) == Some(hit),
    decreases count,
{
    if count > 0 {
        lemma_hits_in(cfg, (count - 1) as nat, hit);
        let node = (count - 1) as NodeId;
        let len = cfg.nodes@[count - 1].stmts@.len();
        lemma_hits_in_node(cfg, node, len, hit);
        text::lemma_joined_contains(
            hits_in(cfg, (count - 1) as nat),
            hits_in_node(cfg, node, len),
            hit,
        );
    }
}

/// What the last statements say of a slice: a slice of another ties it to that one;
/// any other value, and any call but an append in place, cuts it loose; and nothing
/// else changes what it was.
pub proof fn slices_are_tied_by_their_last_value(stmts: Seq<Stmt>, stmt: Stmt, var: Seq<char>)
    ensures
        stmt matches Stmt::Assign { lhs, rhs: RhsShape::Reslice { of } } ==> (lhs@ == var
            ==> settled(stmts.push(stmt), var) == Some(Some(of@))),
        stmt matches Stmt::Assign { lhs, rhs } ==> (lhs@ == var && !(rhs is Reslice) ==> settled(
            stmts.push(stmt),
            var,
        ) == Some(None::<Seq<char>>)),
        stmt matches Stmt::Assign { lhs, rhs } ==> (lhs@ != var ==> settled(stmts.push(stmt), var)
            == settled(stmts, var)),
        stmt matches Stmt::Call { assigned_to: Some(v), .. } ==> {
            &&& v@ == var && !appends_in_place(stmt, var) ==> settled(stmts.push(stmt), var)
                == Some(None::<Seq<char>>)
            &&& v@ != var || appends_in_place(stmt, var) ==> settled(stmts.push(stmt), var)
                == settled(stmts, var)
        },
        !(stmt is Assign) && !(stmt is Call) ==> settled(stmts.push(stmt), var) == settled(
            stmts,
            var,
        ),
        stmt matches Stmt::Call { assigned_to: None, .. } ==> settled(stmts.push(stmt), var)
            == settled(stmts, var),
        settled(Seq::empty(), var) is None,
{
    assert(stmts.push(stmt).drop_last() =~= stmts);
    if let Stmt::Call { assigned_to: Some(v), .. } = stmt {
        lemma_appends_in_place(stmt, v@);
        if let Some(s) = self_append(stmt) {
            lemma_appends_in_place(stmt, s);
        }
    }
}

/// What uses a variable: an assignment of it or of a slice of it, a return of it, a
/// call with it, and a statement that is not modelled and holds its name as a word.
pub proof fn variables_are_used_by_these(stmt: Stmt, var: Seq<char>)
    ensures
        stmt matches Stmt::Assign { rhs: RhsShape::Var(v), .. } ==> (mentions_var(stmt, var)
            <==> v@ == var),
        stmt matches Stmt::Assign { rhs: RhsShape::Reslice { of }, .. } ==> (mentions_var(stmt, var)
            <==> of@ == var),
        stmt matches Stmt::Return { value: Some(v) } ==> (mentions_var(stmt, var) <==> v@ == var),
        stmt matches Stmt::Return { value: None } ==> !mentions_var(stmt, var),
        stmt matches Stmt::Call { args, .. } ==> (mentions_var(stmt, var) <==> exists|i: int|
            0 <= i < args@.len() && (#[trigger] args@[i])@ == var),
        stmt matches Stmt::Other(source) ==> (mentions_var(stmt, var) <==> whole_word(source@, var)),
{
    if let Stmt::Call { args, .. } = stmt {
        let views = text::views(args@);
        if views.contains(var) {
            let i = choose|i: int| 0 <= i < views.len() && views[i] == var;
            assert(args@[i]@ == var);
        }
        if exists|i: int| 0 <= i < args@.len() && (#[trigger] args@[i])@ == var {
            let i = choose|i: int| 0 <= i < args@.len() && (#[trigger] args@[i])@ == var;
            assert(views[i] == var);
        }
    }
}

/// A use later in the same node counts, and so does one in a node that an edge leads
/// to; one in front of the append does not, unless a way leads back to it.
pub proof fn later_uses_count(cfg: Cfg<Stmt>, node: NodeId, from: int, var: Seq<char>, k: int)
    requires
        0 <= from,
    ensures
        from <= k < cfg.nodes@[node as int].stmts@.len() && mentions_var(
            cfg.nodes@[node as int].stmts@[k],
            var,
        ) ==> used_from(cfg, node, from, var),
        forall|other: NodeId|
            #[trigger] cfg.has_edge(node, other) && 0 <= k < cfg.nodes@[other as int].stmts@.len()
                && other < cfg.nodes@.len() && mentions_var(
                cfg.nodes@[other as int].stmts@[k],
                var,
            ) ==> used_from(cfg, node, from, var),
        (forall|other: NodeId| !#[trigger] cfg.has_edge(node, other)) && (forall|i: int|
            from <= i < cfg.nodes@[node as int].stmts@.len() ==> !#[trigger] mentions_var(
                cfg.nodes@[node as int].stmts@[i],
                var,
            )) ==> !used_from(cfg, node, from, var),
{
    assert forall|other: NodeId|
        #[trigger] cfg.has_edge(node, other) && 0 <= k < cfg.nodes@[other as int].stmts@.len()
            && other < cfg.nodes@.len() && mentions_var(
            cfg.nodes@[other as int].stmts@[k],
            var,
        ) implies used_from(cfg, node, from, var) by {
        let walk = seq![other];
        assert(cfg.is_walk(walk) && cfg.has_edge(node, walk[0]) && walk.last() == other);
        assert(reaches(cfg, node, other));
        assert(mentioned_from(cfg.nodes@[other as int].stmts@, 0, var));
    }
}

/// A word is found where it stands alone: the search takes the occurrences from left
/// to right, without overlap, and each counts that has no byte of a word in front of
/// it or behind it.
pub proof fn words_are_found_where_they_stand_alone(
    bytes: Seq<u8>,
    word: Seq<u8>,
    start: int,
    i: int,
)
    requires
        word.len() > 0,
        0 <= start <= i,
        i + word.len() <= bytes.len(),
        bytes.subrange(i, i + word.len()) == word,
        forall|j: int|
            start <= j < i ==> #[trigger] bytes.subrange(j, j + word.len()) != word,
    ensures
        ({
            let alone = (i == 0 || !word_byte(bytes[i - 1])) && (i + word.len() == bytes.len()
                || !word_byte(bytes[i + word.len()]));
            &&& alone ==> alone_from(bytes, word, start)
            &&& !alone ==> alone_from(bytes, word, start) == alone_from(
                bytes,
                word,
                i + word.len(),
            )
        }),
{
    lemma_next_at(bytes, word, start, i);
}

proof fn lemma_next_at(bytes: Seq<u8>, word: Seq<u8>, start: int, i: int)
    requires
        0 <= start <= i,
        i + word.len() <= bytes.len(),
        bytes.subrange(i, i + word.len()) == word,
        forall|j: int|
            start <= j < i ==> #[trigger] bytes.subrange(j, j + word.len()) != word,
    ensures
        next_at(bytes, word, start) == Some(i),
    decreases i - start,
{
    if start < i {
        assert(bytes.subrange(start, start + word.len()) != word);
        lemma_next_at(bytes, word, start + 1, i);
    }
}

/// A word that does not occur is not found.
pub proof fn absent_words_are_not_found(bytes: Seq<u8>, word: Seq<u8>, start: int)
    requires
        0 <= start,
        forall|j: int|
            start <= j && j + word.len() <= bytes.len() ==> #[trigger] bytes.subrange(
                j,
                j + word.len(),
            ) != word,
    ensures
        !alone_from(bytes, word, start),
{
    lemma_next_none(bytes, word, start);
}

proof fn lemma_next_none(bytes: Seq<u8>, word: Seq<u8>, start: int)
    requires
        0 <= start,
        forall|j: int|
            start <= j && j + word.len() <= bytes.len() ==> #[trigger] bytes.subrange(
                j,
                j + word.len(),
            ) != word,
    ensures
        next_at(bytes, word, start) is None,
    decreases bytes.len() + 1 - start,
{
    if start + word.len() <= bytes.len() {
        assert(bytes.subrange(start, start + word.len()) != word);
        lemma_next_none(bytes, word, start + 1);
    }
}

/// The bytes of a word below 128 are those of letters, digits and the underscore.
pub proof fn bytes_of_words(b: u8)
    requires
        b < 128,
    ensures
        word_byte(b) <==> 48 <= b <= 57 || 65 <= b <= 90 || 97 <= b <= 122 || b == 95,
{
}

} // verus!
