//! Owned shared text for fully reduced normal forms. No semantic IDs or thunks.
use vstd::prelude::*;
use crate::hash::IdMap;
use vstd::string::StringExecFns;
use vstd::string::StringSliceAdditionalSpecFns;
use vstd::utf8::encode_utf8;
use crate::text::{decimal, push_decimal};
use crate::{Error, Result};

verus! {

/// A node of a shared text: a piece of text, or the concatenation of earlier nodes.
#[derive(Clone, Debug, PartialEq, Eq, Hash)]
pub enum Node {
    Text(String),
    Concat(Vec<usize>),
}

/// An acyclic text grammar whose nodes are numbered in topological order.
#[derive(Debug)]
pub struct NormalDag {
    nodes: Vec<Node>,
    lengths: Vec<usize>,
    root: usize,
}

/// The UTF-8 bytes of `node`, whose children are read among `nodes` below `bound`.
pub open spec fn expand_node(nodes: Seq<Node>, node: Node, bound: nat) -> Seq<u8>
    decreases bound, 1nat, 0nat,
{
    match node {
        Node::Text(s) => encode_utf8(s@),
        Node::Concat(xs) => expand_all(nodes, xs@, bound, xs@.len()),
    }
}

/// The UTF-8 bytes of node `id`.
pub open spec fn expand(nodes: Seq<Node>, id: nat) -> Seq<u8>
    decreases id + 1, 0nat, 0nat,
{
    if id < nodes.len() {
        expand_node(nodes, nodes[id as int], id)
    } else {
        Seq::empty()
    }
}

/// The concatenated bytes of the first `n` nodes of `xs` (those below `bound`).
pub open spec fn expand_all(nodes: Seq<Node>, xs: Seq<usize>, bound: nat, n: nat) -> Seq<u8>
    decreases bound, 0nat, n,
{
    if n == 0 || n > xs.len() {
        Seq::empty()
    } else {
        expand_all(nodes, xs, bound, (n - 1) as nat) + if (xs[n - 1] as nat) < bound {
            expand(nodes, xs[n - 1] as nat)
        } else {
            Seq::empty()
        }
    }
}

/// Every concatenation refers to earlier nodes only.
pub open spec fn topological(nodes: Seq<Node>) -> bool {
    forall|i: int| 0 <= i < nodes.len() ==> match #[trigger] nodes[i] {
        Node::Concat(xs) => forall|j: int| 0 <= j < xs@.len() ==> (#[trigger] xs@[j]) < i,
        _ => true,
    }
}

/// A well-formed graph: topological, with the expanded byte length of every node recorded.
pub open spec fn dag_wf(nodes: Seq<Node>, lengths: Seq<usize>) -> bool {
    &&& topological(nodes)
    &&& lengths.len() == nodes.len()
    &&& forall|i: int| 0 <= i < nodes.len() ==> #[trigger] lengths[i] == expand(nodes, i as nat).len()
}

pub proof fn lemma_encode_append(a: Seq<char>, b: Seq<char>)
    ensures
        encode_utf8(a + b) == encode_utf8(a) + encode_utf8(b),
    decreases a.len(),
{
    if a.len() == 0 {
        assert(a + b =~= b);
        assert(encode_utf8(a) =~= Seq::<u8>::empty());
        assert(encode_utf8(a) + encode_utf8(b) =~= encode_utf8(b));
    } else {
        assert((a + b)[0] == a[0]);
        assert((a + b).drop_first() =~= a.drop_first() + b);
        lemma_encode_append(a.drop_first(), b);
        assert(encode_utf8(a + b) =~= encode_utf8(a) + encode_utf8(b));
    }
}

/// Expansion of a prefix of `xs` is unchanged by a larger list or bound when
/// the first `n` entries are the same and below both bounds.
proof fn lemma_expand_all_same(nodes: Seq<Node>, xs: Seq<usize>, ys: Seq<usize>, b1: nat, b2: nat, n: nat)
    requires
        n <= xs.len(),
        n <= ys.len(),
        forall|j: int| 0 <= j < n ==> xs[j] == ys[j] && (xs[j] as nat) < b1 && (xs[j] as nat) < b2,
    ensures
        expand_all(nodes, xs, b1, n) == expand_all(nodes, ys, b2, n),
    decreases n,
{
    if n > 0 {
        lemma_expand_all_same(nodes, xs, ys, b1, b2, (n - 1) as nat);
    }
}

/// Appending nodes does not change the expansion of existing ones.
proof fn lemma_expand_extend(nodes: Seq<Node>, more: Seq<Node>, id: nat)
    requires
        topological(nodes),
        extends(nodes, more),
        id < nodes.len(),
    ensures
        expand(nodes, id) == expand(more, id),
    decreases id,
{
    match nodes[id as int] {
        Node::Text(_) => {},
        Node::Concat(xs) => {
            lemma_expand_all_extend(nodes, more, xs@, id, xs@.len());
        },
    }
}

proof fn lemma_expand_all_extend(nodes: Seq<Node>, more: Seq<Node>, xs: Seq<usize>, bound: nat, n: nat)
    requires
        topological(nodes),
        extends(nodes, more),
        bound <= nodes.len(),
        n <= xs.len(),
        forall|j: int| 0 <= j < n ==> (xs[j] as nat) < bound,
    ensures
        expand_all(nodes, xs, bound, n) == expand_all(more, xs, bound, n),
    decreases bound, n,
{
    if n > 0 {
        lemma_expand_all_extend(nodes, more, xs, bound, (n - 1) as nat);
        lemma_expand_extend(nodes, more, xs[n - 1] as nat);
    }
}

pub open spec fn extends<T>(a: Seq<T>, b: Seq<T>) -> bool {
    a.len() <= b.len() && forall|i: int| 0 <= i < a.len() ==> a[i] == b[i]
}

/// The expansion of `xs` splits at any index.
proof fn lemma_expand_all_split(nodes: Seq<Node>, xs: Seq<usize>, bound: nat, k: nat)
    requires
        k <= xs.len(),
    ensures
        expand_all(nodes, xs, bound, xs.len()) == expand_all(nodes, xs.take(k as int), bound, k) + expand_all(
            nodes,
            xs.skip(k as int),
            bound,
            (xs.len() - k) as nat,
        ),
    decreases xs.len(),
{
    if xs.len() == k {
        assert(xs.skip(k as int) =~= Seq::<usize>::empty());
        lemma_expand_all_same(nodes, xs, xs.take(k as int), bound, bound, 0);
        lemma_take_all(nodes, xs, bound);
    } else {
        let ys = xs.drop_last();
        lemma_expand_all_split(nodes, ys, bound, k);
        lemma_expand_all_prefix(nodes, xs, ys, bound, ys.len());
        assert(ys.take(k as int) =~= xs.take(k as int));
        lemma_expand_all_prefix(nodes, xs.take(k as int), ys.take(k as int), bound, k);
        let zs = xs.skip(k as int);
        assert(ys.skip(k as int) =~= zs.drop_last());
        lemma_expand_all_prefix(nodes, zs, zs.drop_last(), bound, (zs.len() - 1) as nat);
        assert(zs[zs.len() - 1] == xs[xs.len() - 1]);
        assert(expand_all(nodes, xs, bound, xs.len()) == expand_all(nodes, xs, bound, (xs.len() - 1) as nat) + (if (xs[
            xs.len() - 1
        ] as nat) < bound {
            expand(nodes, xs[xs.len() - 1] as nat)
        } else {
            Seq::empty()
        }));
    }
}

proof fn lemma_take_all(nodes: Seq<Node>, xs: Seq<usize>, bound: nat)
    ensures
        expand_all(nodes, xs, bound, xs.len()) == expand_all(nodes, xs.take(xs.len() as int), bound, xs.len()),
{
    assert(xs.take(xs.len() as int) =~= xs);
}

/// Expansion of the first `n` entries depends only on those entries.
proof fn lemma_expand_all_prefix(nodes: Seq<Node>, xs: Seq<usize>, ys: Seq<usize>, bound: nat, n: nat)
    requires
        n <= xs.len(),
        n <= ys.len(),
        forall|j: int| 0 <= j < n ==> xs[j] == ys[j],
    ensures
        expand_all(nodes, xs, bound, n) == expand_all(nodes, ys, bound, n),
    decreases n,
{
    if n > 0 {
        lemma_expand_all_prefix(nodes, xs, ys, bound, (n - 1) as nat);
    }
}

/// A saved fragment of a buffer: a byte range of its text, or a shared node.
#[derive(Clone, Copy, Debug)]
pub enum Saved {
    Text(usize, usize),
    Shared(usize),
}

/// The output of quotation: either plain text, or a shared text graph.
pub struct Buffer {
    text: Option<String>,
    dag: NormalDag,
    intern: IdMap<Node, usize>,
    parts: Vec<usize>,
    expanded: usize,
    stored: usize,
    max_bytes: usize,
}

impl NormalDag {
    pub closed spec fn wf(&self) -> bool {
        &&& dag_wf(self.nodes@, self.lengths@)
        &&& self.root < self.nodes@.len()
    }

    /// The text that the graph denotes, as UTF-8 bytes.
    pub closed spec fn denotes(&self) -> Seq<u8> {
        expand(self.nodes@, self.root as nat)
    }

    pub closed spec fn node_count(&self) -> nat {
        self.nodes@.len()
    }

    /// The nodes, in topological order.
    pub closed spec fn graph(&self) -> Seq<Node> {
        self.nodes@
    }

    pub closed spec fn root_id(&self) -> nat {
        self.root as nat
    }

    /// The byte length of the text.
    pub fn expanded_bytes(&self) -> (r: usize)
        requires
            self.wf(),
        ensures
            r == self.denotes().len(),
    {
        self.lengths[self.root]
    }

    pub fn nodes(&self) -> (r: usize)
        ensures
            r == self.node_count(),
    {
        self.nodes.len()
    }

    /// The text of node `id` appended to `out`.
    fn write_node(&self, id: usize, out: &mut String)
        requires
            self.wf(),
            id < self.nodes@.len(),
        ensures
            encode_utf8(final(out)@) == encode_utf8(old(out)@) + expand(self.nodes@, id as nat),
        decreases id,
    {
        match &self.nodes[id] {
            Node::Text(s) => {
                let ghost before = out@;
                out.append(s.as_str());
                proof {
                    lemma_encode_append(before, s@);
                }
            },
            Node::Concat(xs) => {
                let ghost before = out@;
                let mut k: usize = 0;
                while k < xs.len()
                    invariant
                        self.wf(),
                        id < self.nodes@.len(),
                        self.nodes@[id as int] == Node::Concat(*xs),
                        k <= xs@.len(),
                        encode_utf8(out@) == encode_utf8(before) + expand_all(self.nodes@, xs@, id as nat, k as nat),
                    decreases xs@.len() - k,
                {
                    proof {
                        let node = self.nodes@[id as int];
                        assert(match node {
                            Node::Concat(ys) => forall|j: int| 0 <= j < ys@.len() ==> (#[trigger] ys@[j]) < id,
                            _ => true,
                        });
                        assert(xs@[k as int] < id);
                    }
                    self.write_node(xs[k], out);
                    k += 1;
                }
            },
        }
    }

    /// The text, unless it is longer than `max_bytes`.
    pub fn materialize(&self, max_bytes: usize) -> (r: Result<String>)
        requires
            self.wf(),
        ensures
            r is Err <==> self.denotes().len() > max_bytes,
            r matches Ok(s) ==> encode_utf8(s@) == self.denotes(),
            r matches Err(e) ==> e.offset is None && e.message@ == "quotation output byte budget exhausted"@,
    {
        if self.expanded_bytes() > max_bytes {
            return Err(Error::plain("quotation output byte budget exhausted"));
        }
        let mut out = String::new();
        proof {
            assert(encode_utf8(out@) =~= Seq::<u8>::empty());
        }
        self.write_node(self.root, &mut out);
        Ok(out)
    }

    /// An acyclic, topologically numbered text grammar. `text` uses Rust string
    /// escapes; `concat` lists earlier node IDs. The last line names the root.
    pub fn encode(&self) -> (r: String)
        requires
            self.wf(),
        ensures
            r@ == "kamo-normal-dag-v1\n"@ + encoded_lines(self.graph(), self.node_count()) + "root "@ + decimal(
                self.root_id(),
            ) + " expanded-bytes "@ + decimal(self.denotes().len()) + "\n"@,
    {
        let r = self.encode_headed("kamo-normal-dag-v1");
        proof {
            reveal_strlit("kamo-normal-dag-v1");
            reveal_strlit("kamo-normal-dag-v1\n");
            reveal_strlit("\n");
            assert("kamo-normal-dag-v1"@ + "\n"@ =~= "kamo-normal-dag-v1\n"@);
        }
        r
    }

    /// The encoding of the graph under the first line `header`.
    fn encode_headed(&self, header: &str) -> (r: String)
        requires
            self.wf(),
        ensures
            r@ == header@ + "\n"@ + encoded_lines(self.graph(), self.node_count()) + "root "@ + decimal(self.root_id())
                + " expanded-bytes "@ + decimal(self.denotes().len()) + "\n"@,
    {
        let mut out = header.to_owned();
        out.append("\n");
        let ghost head = out@;
        let mut id: usize = 0;
        while id < self.nodes.len()
            invariant
                id <= self.nodes@.len(),
                out@ == head + encoded_lines(self.nodes@, id as nat),
            decreases self.nodes@.len() - id,
        {
            let ghost before = out@;
            push_decimal(&mut out, id as u128);
            match &self.nodes[id] {
                Node::Text(s) => {
                    out.append(" text ");
                    let escaped = debug_text(s.as_str());
                    out.append(escaped.as_str());
                    out.append("\n");
                },
                Node::Concat(xs) => {
                    out.append(" concat");
                    let ghost mid = out@;
                    let mut k: usize = 0;
                    while k < xs.len()
                        invariant
                            k <= xs@.len(),
                            out@ == mid + children_text(xs@, k as nat),
                        decreases xs@.len() - k,
                    {
                        out.append(" ");
                        push_decimal(&mut out, xs[k] as u128);
                        k += 1;
                    }
                    out.append("\n");
                },
            }
            proof {
                assert(out@ =~= before + encoded_line(self.nodes@, id as nat));
            }
            id += 1;
        }
        out.append("root ");
        push_decimal(&mut out, self.root as u128);
        out.append(" expanded-bytes ");
        let bytes = self.expanded_bytes();
        push_decimal(&mut out, bytes as u128);
        out.append("\n");
        out
    }
}

/// The Rust debug rendering (quoted, with escapes) of a string.
pub uninterp spec fn debug_escaped(s: Seq<char>) -> Seq<char>;

/// The quoted, escaped form of `s`.
///
/// Trusted wrapper around the `Debug` formatting of `str` (`format!("{:?}", s)`):
/// its result is a function of `s` alone, named `debug_escaped`.
#[verifier::external_body]
fn debug_text(s: &str) -> (r: String)
    ensures
        r@ == debug_escaped(s@),
{
    format!("{s:?}")
}

/// The text ` x` for each of the first `n` children.
pub open spec fn children_text(xs: Seq<usize>, n: nat) -> Seq<char>
    decreases n,
{
    if n == 0 || n > xs.len() {
        Seq::empty()
    } else {
        children_text(xs, (n - 1) as nat) + " "@ + decimal(xs[n - 1] as nat)
    }
}

/// The line that describes node `id`.
pub open spec fn encoded_line(nodes: Seq<Node>, id: nat) -> Seq<char> {
    decimal(id) + match nodes[id as int] {
        Node::Text(s) => " text "@ + debug_escaped(s@) + "\n"@,
        Node::Concat(xs) => " concat"@ + children_text(xs@, xs@.len()) + "\n"@,
    }
}

/// The lines that describe the first `n` nodes.
pub open spec fn encoded_lines(nodes: Seq<Node>, n: nat) -> Seq<char>
    decreases n,
{
    if n == 0 {
        Seq::empty()
    } else {
        encoded_lines(nodes, (n - 1) as nat) + encoded_line(nodes, (n - 1) as nat)
    }
}

/// What a node says, independent of its representation.
pub open spec fn node_view(n: Node) -> (bool, Seq<char>, Seq<usize>) {
    match n {
        Node::Text(s) => (true, s@, Seq::empty()),
        Node::Concat(xs) => (false, Seq::empty(), xs@),
    }
}

/// The storage charged for a new node: a fixed overhead and a share of its
/// payload, saturated at `usize::MAX`.
pub open spec fn node_cost(n: Node) -> int {
    let extra: int = match n {
        Node::Text(s) => {
            let len = encode_utf8(s@).len();
            if len > usize::MAX / 4 {
                usize::MAX as int
            } else {
                (4 * len) as int
            }
        },
        Node::Concat(xs) => if xs@.len() > usize::MAX / 32 {
            usize::MAX as int
        } else {
            (32 * xs@.len()) as int
        },
    };
    if extra + 128 > usize::MAX {
        usize::MAX as int
    } else {
        extra + 128
    }
}

/// Whether two nodes say the same.
fn same_node(a: &Node, b: &Node) -> (r: bool)
    ensures
        r == (node_view(*a) == node_view(*b)),
{
    match (a, b) {
        (Node::Text(x), Node::Text(y)) => *x == *y,
        (Node::Concat(xs), Node::Concat(ys)) => {
            if xs.len() != ys.len() {
                return false;
            }
            let mut k: usize = 0;
            while k < xs.len()
                invariant
                    xs@.len() == ys@.len(),
                    k <= xs@.len(),
                    forall|j: int| 0 <= j < k ==> xs@[j] == ys@[j],
                    node_view(*a).2 == xs@,
                    node_view(*b).2 == ys@,
                    !node_view(*a).0 && !node_view(*b).0,
                    node_view(*a).1 == node_view(*b).1,
                decreases xs@.len() - k,
            {
                if xs[k] != ys[k] {
                    assert(xs@[k as int] != ys@[k as int]);
                    assert(xs@ != ys@);
                    return false;
                }
                k += 1;
            }
            assert(xs@ =~= ys@);
            true
        },
        _ => false,
    }
}

/// Whether `node` may be added to a graph of `n` nodes: its children come first.
pub open spec fn node_below(node: Node, n: nat) -> bool {
    match node {
        Node::Concat(xs) => forall|j: int| 0 <= j < xs@.len() ==> (#[trigger] xs@[j]) < n,
        _ => true,
    }
}

proof fn lemma_single(nodes: Seq<Node>, xs: Seq<usize>, bound: nat)
    requires
        xs.len() == 1,
        (xs[0] as nat) < bound,
    ensures
        expand_all(nodes, xs, bound, 1) == expand(nodes, xs[0] as nat),
{
    assert(expand_all(nodes, xs, bound, 0) =~= Seq::<u8>::empty());
    assert(Seq::<u8>::empty() + expand(nodes, xs[0] as nat) =~= expand(nodes, xs[0] as nat));
}

/// Adding a node whose children come first keeps a graph well formed and
/// leaves the expansion of every earlier node and list unchanged.
proof fn lemma_push_node(nodes: Seq<Node>, lengths: Seq<usize>, node: Node, length: usize, parts: Seq<usize>)
    requires
        dag_wf(nodes, lengths),
        node_below(node, nodes.len()),
        length == expand_node(nodes, node, nodes.len()).len(),
        forall|j: int| 0 <= j < parts.len() ==> (#[trigger] parts[j]) < nodes.len(),
    ensures
        dag_wf(nodes.push(node), lengths.push(length)),
        expand(nodes.push(node), nodes.len()) == expand_node(nodes, node, nodes.len()),
        expand_all(nodes.push(node), parts, nodes.len() + 1, parts.len()) == expand_all(nodes, parts, nodes.len(), parts.len()),
{
    let more = nodes.push(node);
    let n = nodes.len();
    assert(extends(nodes, more));
    assert(more[n as int] == node);
    match node {
        Node::Concat(xs) => {
            lemma_expand_all_extend(nodes, more, xs@, n, xs@.len());
        },
        _ => {},
    }
    assert forall|i: int| 0 <= i < more.len() implies match #[trigger] more[i] {
        Node::Concat(xs) => forall|j: int| 0 <= j < xs@.len() ==> (#[trigger] xs@[j]) < i,
        _ => true,
    } by {
        if i < n {
            assert(more[i] == nodes[i]);
        }
    }
    assert forall|i: int| 0 <= i < more.len() implies #[trigger] lengths.push(length)[i] == expand(more, i as nat).len() by {
        if i < n {
            lemma_expand_extend(nodes, more, i as nat);
        }
    }
    lemma_expand_all_extend(nodes, more, parts, n, parts.len());
    lemma_expand_all_same(more, parts, parts, n, n + 1, parts.len());
}

impl Buffer {
    pub closed spec fn wf(&self) -> bool {
        &&& self.graph_wf()
        &&& self.expanded == self.content().len()
        &&& self.text is Some ==> self.content().len() <= self.max_bytes
    }

    /// The graph is well formed and the emitted parts are nodes of it.
    pub closed spec fn graph_wf(&self) -> bool {
        &&& dag_wf(self.dag.nodes@, self.dag.lengths@)
        &&& forall|j: int| 0 <= j < self.parts@.len() ==> (#[trigger] self.parts@[j]) < self.dag.nodes@.len()
    }

    /// Whether the buffer shares repeated fragments instead of copying them.
    pub closed spec fn is_shared(&self) -> bool {
        self.text is None
    }

    pub closed spec fn budget(&self) -> nat {
        self.max_bytes as nat
    }

    /// The text emitted so far, as UTF-8 bytes.
    pub closed spec fn content(&self) -> Seq<u8> {
        match self.text {
            Some(t) => encode_utf8(t@),
            None => expand_all(self.dag.nodes@, self.parts@, self.dag.nodes@.len(), self.parts@.len()),
        }
    }

    /// Whether `s` is a fragment that this buffer can replay.
    pub closed spec fn holds(&self, s: Saved) -> bool {
        match s {
            Saved::Text(a, b) => self.text is Some && a <= b <= self.content().len(),
            Saved::Shared(id) => self.text is None && id < self.dag.nodes@.len(),
        }
    }

    /// The bytes of a saved fragment.
    pub closed spec fn saved(&self, s: Saved) -> Seq<u8> {
        match s {
            Saved::Text(a, b) => self.content().subrange(a as int, b as int),
            Saved::Shared(id) => expand(self.dag.nodes@, id as nat),
        }
    }

    /// `next` continues this buffer: same mode and budget, the text extended, the graph extended.
    pub closed spec fn continued_by(&self, next: &Buffer) -> bool {
        &&& next.text is None == (self.text is None)
        &&& next.max_bytes == self.max_bytes
        &&& self.content().len() <= next.content().len()
        &&& next.content().subrange(0, self.content().len() as int) == self.content()
        &&& extends(self.dag.nodes@, next.dag.nodes@)
    }

    pub fn new(shared: bool, max_bytes: usize) -> (r: Buffer)
        ensures
            r.wf(),
            r.is_shared() == shared,
            r.budget() == max_bytes,
            r.content() == Seq::<u8>::empty(),
    {
        let r = Buffer {
            text: if shared {
                None
            } else {
                Some(String::new())
            },
            dag: NormalDag { nodes: Vec::new(), lengths: Vec::new(), root: 0 },
            intern: IdMap::default(),
            parts: Vec::new(),
            expanded: 0,
            stored: 0,
            max_bytes,
        };
        proof {
            if !shared {
                assert(encode_utf8(r.text.unwrap()@) =~= Seq::<u8>::empty());
            }
        }
        r
    }

    pub fn shared(&self) -> (r: bool)
        ensures
            r == self.is_shared(),
    {
        self.text.is_none()
    }

    /// The byte length of the text emitted so far.
    pub fn len(&self) -> (r: usize)
        requires
            self.wf(),
        ensures
            r == self.content().len(),
    {
        self.expanded
    }

    /// The number of nodes of the shared graph.
    pub closed spec fn node_count(&self) -> nat {
        self.dag.nodes@.len()
    }

    pub fn nodes(&self) -> (r: usize)
        ensures
            r == self.node_count(),
    {
        self.dag.nodes.len()
    }

    /// The text emitted so far, when the buffer is not shared.
    pub fn text(&self) -> (r: Option<&str>)
        ensures
            r is Some == !self.is_shared(),
            r matches Some(t) ==> t.spec_bytes() == self.content(),
    {
        match &self.text {
            Some(t) => Some(t.as_str()),
            None => None,
        }
    }

    /// Appends `s`; fails when the output or storage budget would be exceeded.
    pub fn append(&mut self, s: &str) -> (r: Result<()>)
        requires
            old(self).wf(),
        ensures
            final(self).wf(),
            r is Ok ==> old(self).continued_by(&*final(self)),
            r is Ok ==> final(self).content() == old(self).content() + s.spec_bytes(),
            !old(self).is_shared() ==> (r is Err <==> s.spec_bytes().len() > old(self).budget()
                - old(self).content().len()),
            !old(self).is_shared() ==> (r matches Err(e) ==> e.offset is None && e.message@ == (if old(self).content().len()
                + s.spec_bytes().len() > usize::MAX {
                "expanded normal form exceeds usize::MAX bytes"@
            } else {
                "quotation output byte budget exhausted"@
            })),
            old(self).is_shared() ==> (r matches Err(e) ==> e.offset is None && (e.message@
                == "expanded normal form exceeds usize::MAX bytes"@ || e.message@
                == "shared normal-form storage budget exhausted"@)),
            r is Err ==> final(self).content() == old(self).content(),
    {
        let ghost before = self.content();
        let n = s.as_bytes().len();
        if n > usize::MAX - self.expanded {
            proof {
                assert(self.max_bytes <= usize::MAX);
            }
            return Err(Error::plain("expanded normal form exceeds usize::MAX bytes"));
        }
        if self.text.is_some() {
            let mut out = self.text.take().unwrap();
            let used = out.as_str().as_bytes().len();
            if n > self.max_bytes.saturating_sub(used) {
                self.text = Some(out);
                return Err(Error::plain("quotation output byte budget exhausted"));
            }
            let ghost prior = out@;
            out.append(s);
            proof {
                lemma_encode_append(prior, s@);
            }
            self.text = Some(out);
        } else {
            let ghost nodes0 = self.dag.nodes@;
            let ghost parts0 = self.parts@;
            let owned = s.to_owned();
            proof {
                assert(owned@ == s@);
                assert(encode_utf8(owned@).len() == n);
                assert(expand_node(nodes0, Node::Text(owned), nodes0.len()).len() == n);
            }
            let id = self.node(Node::Text(owned), n)?;
            self.parts.push(id);
            proof {
                let nodes = self.dag.nodes@;
                let parts = self.parts@;
                lemma_expand_all_extend(nodes0, nodes, parts0, nodes0.len(), parts0.len());
                lemma_expand_all_same(nodes, parts0, parts0, nodes0.len(), nodes.len(), parts0.len());
                lemma_expand_all_prefix(nodes, parts, parts0, nodes.len(), parts0.len());
                assert(expand_all(nodes, parts, nodes.len(), parts.len()) == expand_all(
                    nodes,
                    parts,
                    nodes.len(),
                    parts0.len(),
                ) + expand(nodes, id as nat));
            }
        }
        self.expanded = self.expanded + n;
        proof {
            assert(self.content() == before + s.spec_bytes());
            assert(self.expanded == self.content().len());
            assert(self.content().subrange(0, before.len() as int) =~= before);
        }
        Ok(())
    }

    /// Saves the text emitted since byte `start` as one fragment.
    pub fn seal(&mut self, start: usize) -> (r: Result<Saved>)
        requires
            old(self).wf(),
            start <= old(self).content().len(),
        ensures
            final(self).graph_wf(),
            r is Ok ==> final(self).wf(),
            r is Ok ==> old(self).continued_by(&*final(self)),
            r is Ok ==> final(self).content() == old(self).content(),
            r matches Ok(saved) ==> final(self).holds(saved) && final(self).saved(saved) == old(
                self,
            ).content().subrange(start as int, old(self).content().len() as int),
            !old(self).is_shared() ==> r is Ok,
    {
        if self.text.is_some() {
            proof {
                assert(self.content().subrange(0, self.content().len() as int) =~= self.content());
            }
            return Ok(Saved::Text(start, self.expanded));
        }
        let ghost nodes0 = self.dag.nodes@;
        let ghost parts0 = self.parts@;
        let ghost content0 = self.content();
        let length = self.expanded - start;
        let mut remaining = length;
        let mut count: usize = 0;
        let plen = self.parts.len();
        while remaining != 0
            invariant
                self.wf(),
                self.text is None,
                self.parts@ == parts0,
                self.dag.nodes@ == nodes0,
                plen == parts0.len(),
                count <= plen,
                remaining <= length,
                expand_all(nodes0, parts0.skip(plen - count), nodes0.len(), count as nat).len() == length - remaining,
            decreases plen - count,
        {
            if count >= plen {
                return Err(crate::eval::internal("internal error: quotation fragment boundary"));
            }
            let id = self.parts[plen - 1 - count];
            let l = self.dag.lengths[id];
            if l > remaining {
                return Err(crate::eval::internal("internal error: quotation fragment boundary"));
            }
            proof {
                let tail = parts0.skip(plen - count - 1);
                assert(tail.skip(1) =~= parts0.skip(plen - count));
                assert(tail.take(1) =~= seq![id]);
                assert(tail[0] == id);
                lemma_expand_all_split(nodes0, tail, nodes0.len(), 1);
                lemma_single(nodes0, tail.take(1), nodes0.len());
                assert(self.dag.lengths@[id as int] == expand(nodes0, id as nat).len());
            }
            remaining = remaining - l;
            count = count + 1;
        }
        let children = self.parts.split_off(plen - count);
        proof {
            assert(children@ == parts0.skip(plen - count));
            assert(self.parts@ == parts0.take(plen - count));
            lemma_expand_all_split(nodes0, parts0, nodes0.len(), (plen - count) as nat);
            assert(content0.len() == start + length);
        }
        let id = if children.len() == 1 {
            proof {
                lemma_single(nodes0, children@, nodes0.len());
            }
            children[0]
        } else {
            proof {
                assert(node_below(Node::Concat(children), nodes0.len()));
                assert(expand_node(nodes0, Node::Concat(children), nodes0.len()) == expand_all(
                    nodes0,
                    children@,
                    nodes0.len(),
                    children@.len(),
                ));
            }
            self.node(Node::Concat(children), length)?
        };
        let ghost nodes1 = self.dag.nodes@;
        let ghost prefix = self.parts@;
        self.parts.push(id);
        proof {
            let parts = self.parts@;
            lemma_expand_all_extend(nodes0, nodes1, prefix, nodes0.len(), prefix.len());
            lemma_expand_all_same(nodes1, prefix, prefix, nodes0.len(), nodes1.len(), prefix.len());
            lemma_expand_all_prefix(nodes1, parts, prefix, nodes1.len(), prefix.len());
            assert(parts[prefix.len() as int] == id);
            assert(self.content() =~= content0);
            assert(content0.subrange(0, content0.len() as int) =~= content0);
        }
        Ok(Saved::Shared(id))
    }

    /// The byte length of a saved fragment.
    pub fn saved_len(&self, s: Saved) -> (r: usize)
        requires
            self.wf(),
            self.holds(s),
        ensures
            r == self.saved(s).len(),
    {
        match s {
            Saved::Text(a, b) => b - a,
            Saved::Shared(id) => self.dag.lengths[id],
        }
    }

    /// Emits a saved fragment again.
    pub fn replay(&mut self, s: Saved) -> (r: Result<()>)
        requires
            old(self).wf(),
            old(self).holds(s),
        ensures
            final(self).wf(),
            r is Ok ==> old(self).continued_by(&*final(self)),
            r is Ok ==> final(self).content() == old(self).content() + old(self).saved(s),
            s is Shared ==> (r is Ok <==> old(self).content().len() + old(self).saved(s).len() <= usize::MAX),
            s matches Saved::Text(a, b) ==> (r is Ok <==> old(self).content().len() + old(self).saved(s).len() <= old(
                self,
            ).budget() && vstd::utf8::is_char_boundary(old(self).content(), a as int)
                && vstd::utf8::is_char_boundary(old(self).content(), b as int)),
            s is Text ==> (r matches Err(e) ==> e.offset is None && e.message@ == (if old(self).content().len() + old(
                self,
            ).saved(s).len() > usize::MAX {
                "expanded normal form exceeds usize::MAX bytes"@
            } else if old(self).content().len() + old(self).saved(s).len() > old(self).budget() {
                "quotation output byte budget exhausted"@
            } else {
                "internal error: saved range is not on character boundaries"@
            })),
            r is Err ==> final(self).content() == old(self).content(),
    {
        let ghost before = self.content();
        let length = self.saved_len(s);
        if length > usize::MAX - self.expanded {
            return Err(Error::plain("expanded normal form exceeds usize::MAX bytes"));
        }
        match s {
            Saved::Text(start, end) => {
                let mut out = self.text.take().unwrap();
                let used = out.as_str().as_bytes().len();
                if length > self.max_bytes.saturating_sub(used) {
                    self.text = Some(out);
                    return Err(Error::plain("quotation output byte budget exhausted"));
                }
                let piece = match crate::syntax::slice_str(out.as_str(), start, end) {
                    Some(p) => p.to_owned(),
                    None => {
                        self.text = Some(out);
                        return Err(crate::eval::internal("internal error: saved range is not on character boundaries"));
                    },
                };
                let ghost prior = out@;
                out.append(piece.as_str());
                proof {
                    lemma_encode_append(prior, piece@);
                }
                self.text = Some(out);
            },
            Saved::Shared(id) => {
                let ghost nodes = self.dag.nodes@;
                let ghost parts0 = self.parts@;
                self.parts.push(id);
                proof {
                    let parts = self.parts@;
                    lemma_expand_all_prefix(nodes, parts, parts0, nodes.len(), parts0.len());
                }
            },
        }
        self.expanded = self.expanded + length;
        proof {
            assert(self.content().subrange(0, before.len() as int) =~= before);
        }
        Ok(())
    }

    /// The text, for a buffer that is not shared.
    pub fn into_text(self) -> (r: String)
        requires
            !self.is_shared(),
        ensures
            encode_utf8(r@) == self.content(),
    {
        self.text.unwrap()
    }

    /// What a failed quotation leaves for inspection: the text itself, or the
    /// encoded graph of a shared buffer under a first line that marks it as an
    /// incomplete prefix.
    pub fn into_diagnostic(self) -> (r: Result<String>)
        requires
            self.wf(),
        ensures
            !self.is_shared() ==> (r matches Ok(t) && encode_utf8(t@) == self.content()),
            self.is_shared() ==> (r matches Ok(t) ==> exists|d: NormalDag|
                #![trigger d.denotes()]
                d.wf() && d.denotes() == self.content() && t@ == "kamo-normal-dag-prefix-v1-INCOMPLETE"@ + "\n"@
                    + encoded_lines(d.graph(), d.node_count()) + "root "@ + decimal(d.root_id()) + " expanded-bytes "@
                    + decimal(d.denotes().len()) + "\n"@),
    {
        if !self.shared() {
            return Ok(self.into_text());
        }
        let dag = self.into_dag()?;
        let t = dag.encode_headed("kamo-normal-dag-prefix-v1-INCOMPLETE");
        assert(dag.wf() && dag.denotes() == self.content());
        Ok(t)
    }

    /// The shared graph of the whole text.
    pub fn into_dag(self) -> (r: Result<NormalDag>)
        requires
            self.wf(),
            self.is_shared(),
        ensures
            r matches Ok(d) ==> d.wf() && d.denotes() == self.content(),
    {
        let mut b = self;
        let ghost content = b.content();
        let saved = b.seal(0)?;
        match saved {
            Saved::Shared(root) => {
                proof {
                    assert(content.subrange(0, content.len() as int) =~= content);
                }
                let mut dag = b.dag;
                dag.root = root;
                Ok(dag)
            },
            Saved::Text(_, _) => Err(crate::eval::internal("internal error: shared buffer sealed as text")),
        }
    }

    /// The node for `node`, added unless an equal node exists; fails when the
    /// shared storage budget would be exceeded.
    fn node(&mut self, node: Node, length: usize) -> (r: Result<usize>)
        requires
            old(self).graph_wf(),
            old(self).text is None,
            node_below(node, old(self).dag.nodes@.len()),
            length == expand_node(old(self).dag.nodes@, node, old(self).dag.nodes@.len()).len(),
        ensures
            final(self).graph_wf(),
            final(self).expanded == old(self).expanded,
            final(self).parts@ == old(self).parts@,
            final(self).text is None,
            final(self).max_bytes == old(self).max_bytes,
            extends(old(self).dag.nodes@, final(self).dag.nodes@),
            final(self).content() == old(self).content(),
            r matches Ok(id) ==> id < final(self).dag.nodes@.len() && expand(final(self).dag.nodes@, id as nat)
                == expand_node(old(self).dag.nodes@, node, old(self).dag.nodes@.len()),
            node_cost(node) + old(self).stored <= old(self).max_bytes ==> r is Ok,
            r matches Err(e) ==> e.offset is None && e.message@ == "shared normal-form storage budget exhausted"@,
    {
        let ghost nodes0 = self.dag.nodes@;
        let mut found: Option<usize> = None;
        if let Some(id) = self.intern.get(&node) {
            found = Some(*id);
        }
        if let Some(id) = found {
            if id < self.dag.nodes.len() && same_node(&self.dag.nodes[id], &node) {
                proof {
                    let existing = nodes0[id as int];
                    assert(node_below(existing, id as nat)) by {
                        assert(topological(nodes0));
                        assert(match existing {
                            Node::Concat(ys) => forall|j: int| 0 <= j < ys@.len() ==> (#[trigger] ys@[j]) < id,
                            _ => true,
                        });
                    }
                    match node {
                        Node::Concat(xs) => {
                            if let Node::Concat(ys) = existing {
                                lemma_expand_all_same(nodes0, ys@, xs@, id as nat, nodes0.len(), xs@.len());
                            }
                        },
                        _ => {},
                    }
                }
                return Ok(id);
            }
        }
        let extra: usize = match &node {
            Node::Text(s) => {
                let n = s.as_str().len();
                if n > usize::MAX / 4 {
                    usize::MAX
                } else {
                    4 * n
                }
            },
            Node::Concat(xs) => {
                if xs.len() > usize::MAX / 32 {
                    usize::MAX
                } else {
                    32 * xs.len()
                }
            },
        };
        let cost = extra.saturating_add(128);
        if cost > self.max_bytes.saturating_sub(self.stored) {
            return Err(Error::plain("shared normal-form storage budget exhausted"));
        }
        self.stored = self.stored + cost;
        let id = self.dag.nodes.len();
        let ghost lengths0 = self.dag.lengths@;
        self.intern.insert(node.clone(), id);
        self.dag.nodes.push(node);
        self.dag.lengths.push(length);
        proof {
            lemma_push_node(nodes0, lengths0, node, length, self.parts@);
        }
        Ok(id)
    }
}

/// A saved fragment stays valid and keeps its text while the buffer continues:
/// replaying it later emits exactly the text that was sealed.
pub proof fn lemma_saved_stable(a: &Buffer, b: &Buffer, s: Saved)
    requires
        a.wf(),
        b.wf(),
        a.continued_by(b),
        a.holds(s),
    ensures
        b.holds(s),
        b.saved(s) == a.saved(s),
{
    match s {
        Saved::Text(x, y) => {
            assert(b.content().subrange(x as int, y as int) =~= b.content().subrange(0, a.content().len() as int).subrange(
                x as int,
                y as int,
            ));
        },
        Saved::Shared(id) => {
            lemma_expand_extend(a.dag.nodes@, b.dag.nodes@, id as nat);
        },
    }
}

/// Continuing a buffer is transitive.
pub proof fn lemma_continued_trans(a: &Buffer, b: &Buffer, c: &Buffer)
    requires
        a.continued_by(b),
        b.continued_by(c),
    ensures
        a.continued_by(c),
{
    assert(c.content().subrange(0, a.content().len() as int) =~= c.content().subrange(0, b.content().len() as int).subrange(
        0,
        a.content().len() as int,
    ));
}

} // verus!
